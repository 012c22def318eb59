//! Surfaces the parser's recovered quoting errors as diagnostics.

use vstd::prelude::*;
use vstd::string::StringSliceAdditionalSpecFns;
use vstd::utf8::encode_utf8;

use crate::features::{diags_view, parsed_from, Diag, DiagView, DiagnosticRule, Severity};
use crate::parse::{ParseError, ParseErrorKind, Table};
use crate::text::to_owned_string;
use crate::wellformed::{law_parse_whole, lemma_parse_fits, span_addressable};
use vstd::utf8::encode_utf8_valid_utf8;

verus! {

/// The diagnostic reporting parse error `e`.
pub open spec fn error_diag(e: ParseError) -> DiagView {
    match e.kind {
        ParseErrorKind::UnclosedQuote => DiagView {
            span: e.span,
            severity: Severity::Error,
            code: "unclosed-quote"@,
            message: encode_utf8(
                "quoted cell is never closed, the rest of the file became this cell"@,
            ),
            data: None,
        },
        ParseErrorKind::StrayQuote => DiagView {
            span: e.span,
            severity: Severity::Warning,
            code: "stray-quote"@,
            message: encode_utf8(
                "unexpected quote inside an unquoted cell, quote the whole cell or double the quote"@,
            ),
            data: None,
        },
        ParseErrorKind::TextAfterClosingQuote => DiagView {
            span: e.span,
            severity: Severity::Error,
            code: "text-after-quote"@,
            message: encode_utf8("unexpected text after the closing quote"@),
            data: None,
        },
    }
}

/// The diagnostics of a table's parse errors, one each, in order.
pub open spec fn parse_error_diags(errors: Seq<ParseError>) -> Seq<DiagView> {
    errors.map_values(|e: ParseError| error_diag(e))
}

/// Maps the table's recovered errors one-to-one to diagnostics.
pub struct ParseErrors;

/// The diagnostic for one parse error.
fn diag_for(error: &ParseError) -> (r: Diag)
    ensures
        r@ == error_diag(*error),
{
    match error.kind {
        ParseErrorKind::UnclosedQuote => Diag {
            span: error.span,
            severity: Severity::Error,
            code: "unclosed-quote",
            message: to_owned_string(
                "quoted cell is never closed, the rest of the file became this cell",
            ),
            data: None,
        },
        // Extremely common in real data (`5" bolt`): warn only.
        ParseErrorKind::StrayQuote => Diag {
            span: error.span,
            severity: Severity::Warning,
            code: "stray-quote",
            message: to_owned_string(
                "unexpected quote inside an unquoted cell, quote the whole cell or double the quote",
            ),
            data: None,
        },
        ParseErrorKind::TextAfterClosingQuote => Diag {
            span: error.span,
            severity: Severity::Error,
            code: "text-after-quote",
            message: to_owned_string("unexpected text after the closing quote"),
            data: None,
        },
    }
}

impl DiagnosticRule for ParseErrors {
    fn name(&self) -> (r: &'static str)
        ensures
            r@ == "parse-errors"@,
    {
        "parse-errors"
    }

    fn check(&self, text: &str, table: &Table) -> (r: Vec<Diag>)
        ensures
            diags_view(r@) == parse_error_diags(table@.errors),
            forall|k: int| 0 <= k < r@.len() ==> span_addressable(text.spec_bytes(), #[trigger] r@[k].span),
    {
        let _n = text.as_bytes().len();
        proof {
            encode_utf8_valid_utf8(text@);
            lemma_parse_fits(text.spec_bytes(), table@.dialect);
            law_parse_whole(text.spec_bytes(), table@.dialect);
        }
        let mut out: Vec<Diag> = Vec::new();
        let mut k: usize = 0;
        while k < table.errors.len()
            invariant
                k <= table.errors@.len(),
                diags_view(out@) == parse_error_diags(table.errors@.subrange(0, k as int)),
            decreases table.errors@.len() - k,
        {
            let d = diag_for(&table.errors[k]);
            let ghost before = out@;
            out.push(d);
            proof {
                assert(diags_view(out@) =~= diags_view(before).push(d@));
                assert(parse_error_diags(table.errors@.subrange(0, k + 1)) =~= parse_error_diags(
                    table.errors@.subrange(0, k as int),
                ).push(error_diag(table.errors@[k as int])));
            }
            k = k + 1;
        }
        assert(table.errors@.subrange(0, k as int) =~= table.errors@);
        assert forall|x: int| 0 <= x < out@.len() implies span_addressable(text.spec_bytes(), #[trigger] out@[x].span) by {
            assert(diags_view(out@)[x] == out@[x]@);
            assert(table@.errors[x] == table@.errors[x]);
        }
        out
    }
}

} // verus!
