//! Rendering a parsed table back to text: the engine behind align, compact
//! and dialect conversion. Rows overlapping a parse error are emitted
//! verbatim.

use vstd::prelude::*;
use vstd::string::StringSliceAdditionalSpecFns;
use vstd::utf8::*;

use std::collections::HashSet;

use crate::dialect::{delimiter_of, Dialect};
use crate::edits::append_range;
use crate::grammar::{CR, LF, QUOTE, SPACE};
use crate::parse::{cell_value, Cell, row_is_blank, LineTerminator, Quoting, Table, TableView, terminator_bytes};
use crate::text::{
    push_ascii, push_text, bom_bytes, lemma_ascii_boundaries, lemma_ascii_valid, lemma_bom_valid, lemma_valid_subrange,
    string_as_bytes, string_bytes, string_from_utf8, substr,
    to_owned_string,
};
use crate::wellformed::table_sliceable;

verus! {

/// What [`render`] should produce.
#[derive(Debug, Clone)]
pub struct RenderOptions {
    /// Target delimiter (differs from the table's for dialect transforms).
    pub dialect: Dialect,
    /// `Some(column display widths)`: pad cells so delimiters line up.
    /// `None`: compact, no padding.
    pub align: Option<Vec<usize>>,
    /// How cell content is emitted.
    pub quote_policy: QuotePolicy,
    /// Row terminator to emit.
    pub line_terminator: LineTerminator,
    /// Re-emit the BOM the file started with.
    pub include_bom: bool,
    /// Reproduce the trailing newline.
    pub final_newline: bool,
}

/// How cell content leaves the renderer.
#[derive(Debug, Clone, Copy, PartialEq, Eq, Structural)]
pub enum QuotePolicy {
    /// Emit each cell's content bytes verbatim.
    Preserve,
    /// Re-encode each decoded value, quoting only where the target dialect
    /// requires it.
    Required,
    /// Dialect conversion: quoted cells stay verbatim; unquoted cells gain
    /// quotes only when their content contains the target delimiter.
    PreserveOrRequired,
}

impl RenderOptions {
    /// Compact rendering preserving the table's dialect, terminator, BOM and
    /// final newline.
    pub fn compact_for(table: &Table) -> (r: Self)
        ensures
            r.dialect == table.dialect,
            r.align is None,
            r.quote_policy == QuotePolicy::Preserve,
            r.line_terminator == table.line_terminator,
            r.include_bom == table.has_bom,
            r.final_newline == table.ends_with_newline,
    {
        RenderOptions {
            dialect: table.dialect,
            align: None,
            quote_policy: QuotePolicy::Preserve,
            line_terminator: table.line_terminator,
            include_bom: table.has_bom,
            final_newline: table.ends_with_newline,
        }
    }

    /// Aligned rendering with the given column widths, everything else
    /// preserved.
    pub fn aligned_for(table: &Table, widths: Vec<usize>) -> (r: Self)
        ensures
            r.dialect == table.dialect,
            r.align == Some(widths),
            r.quote_policy == QuotePolicy::Preserve,
            r.line_terminator == table.line_terminator,
            r.include_bom == table.has_bom,
            r.final_newline == table.ends_with_newline,
    {
        RenderOptions {
            dialect: table.dialect,
            align: Some(widths),
            quote_policy: QuotePolicy::Preserve,
            line_terminator: table.line_terminator,
            include_bom: table.has_bom,
            final_newline: table.ends_with_newline,
        }
    }
}

/// The display width of a string as the `unicode-width` crate computes it
/// (UAX #11 plus its documented ligature rules).
pub uninterp spec fn str_width(s: Seq<char>) -> usize;

/// The display width of `s`: a call of `UnicodeWidthStr::width`, whose
/// result this crate names [`str_width`] (it depends on the characters
/// alone).
#[verifier::external_body]
fn display_width(s: &str) -> (r: usize)
    ensures
        r == str_width(s@),
{
    unicode_width::UnicodeWidthStr::width(s)
}

/// Whether `x` occurs in `s`.
pub open spec fn contains_byte(s: Seq<u8>, x: u8) -> bool {
    exists|i: int| 0 <= i < s.len() && s[i] == x
}

/// Every `"` doubled.
pub open spec fn double_quotes(s: Seq<u8>) -> Seq<u8>
    decreases s.len(),
{
    if s.len() == 0 {
        s
    } else {
        (if s[0] == QUOTE {
            seq![QUOTE, QUOTE]
        } else {
            seq![s[0]]
        }) + double_quotes(s.drop_first())
    }
}

/// Whether a value needs quotes under delimiter `d`.
pub open spec fn needs_quotes(v: Seq<u8>, d: u8, force: bool) -> bool {
    force || contains_byte(v, d) || contains_byte(v, QUOTE) || contains_byte(v, LF)
        || contains_byte(v, CR)
}

/// The RFC 4180 encoding of a value under delimiter `d`.
pub open spec fn encoded(v: Seq<u8>, d: u8, force: bool) -> Seq<u8> {
    if needs_quotes(v, d, force) {
        seq![QUOTE] + double_quotes(v) + seq![QUOTE]
    } else {
        v
    }
}

/// Doubling the quotes of two byte strings one after the other doubles
/// those of their concatenation.
proof fn lemma_double_concat(a: Seq<u8>, b: Seq<u8>)
    ensures
        double_quotes(a + b) == double_quotes(a) + double_quotes(b),
    decreases a.len(),
{
    if a.len() > 0 {
        lemma_double_concat(a.drop_first(), b);
        assert((a + b).drop_first() =~= a.drop_first() + b);
        assert((a + b)[0] == a[0]);
    } else {
        assert(a + b =~= b);
    }
}

/// A byte string without quotes has nothing to double.
proof fn lemma_double_plain(s: Seq<u8>)
    requires
        forall|k: int| 0 <= k < s.len() ==> s[k] != QUOTE,
    ensures
        double_quotes(s) == s,
    decreases s.len(),
{
    if s.len() > 0 {
        lemma_double_plain(s.drop_first());
        assert(seq![s[0]] + s.drop_first() =~= s);
    }
}

/// Doubles every `"` of `s`.
fn replace_quote_by_two(s: &str) -> (r: String)
    ensures
        string_bytes(r) == double_quotes(s.spec_bytes()),
{
    let b = s.as_bytes();
    let ghost bs = b@;
    let n = b.len();
    let mut out: Vec<u8> = Vec::new();
    let mut seg: usize = 0;
    let mut i: usize = 0;
    proof {
        encode_utf8_valid_utf8(s@);
        is_char_boundary_start_end_of_seq(bs);
        assert(valid_utf8(Seq::<u8>::empty())) by {
            reveal_with_fuel(valid_utf8, 1);
        }
        assert(bs.subrange(0, 0) =~= Seq::<u8>::empty());
    }
    while i < n
        invariant
            bs == b@,
            bs == s.spec_bytes(),
            valid_utf8(bs),
            n == bs.len(),
            seg <= i <= n,
            is_char_boundary(bs, seg as int),
            forall|k: int| seg <= k < i ==> bs[k] != QUOTE,
            out@ == double_quotes(bs.subrange(0, seg as int)),
            valid_utf8(out@),
        decreases n - i,
    {
        if b[i] == QUOTE {
            proof {
                lemma_ascii_boundaries(bs, i as int);
                lemma_double_plain(bs.subrange(seg as int, i as int));
                lemma_double_concat(bs.subrange(0, seg as int), bs.subrange(seg as int, i as int));
                assert(bs.subrange(0, seg as int) + bs.subrange(seg as int, i as int) =~= bs.subrange(0, i as int));
                lemma_double_concat(bs.subrange(0, i as int), seq![QUOTE]);
                assert(bs.subrange(0, i as int) + seq![QUOTE] =~= bs.subrange(0, i + 1));
                assert(double_quotes(seq![QUOTE]) =~= seq![QUOTE, QUOTE]) by {
                    assert(seq![QUOTE].drop_first() =~= Seq::<u8>::empty());
                    reveal_with_fuel(double_quotes, 2);
                }
            }
            push_text(&mut out, substr(s, seg, i));
            push_ascii(&mut out, QUOTE);
            push_ascii(&mut out, QUOTE);
            proof {
                assert(out@ =~= double_quotes(bs.subrange(0, i + 1)));
            }
            seg = i + 1;
        }
        i = i + 1;
    }
    proof {
        lemma_double_plain(bs.subrange(seg as int, n as int));
        lemma_double_concat(bs.subrange(0, seg as int), bs.subrange(seg as int, n as int));
        assert(bs.subrange(0, seg as int) + bs.subrange(seg as int, n as int) =~= bs);
    }
    push_text(&mut out, substr(s, seg, n));
    string_from_utf8(out)
}

/// Whether `x` occurs in `s`.
pub fn has_byte(s: &[u8], x: u8) -> (r: bool)
    ensures
        r == contains_byte(s@, x),
{
    let mut i: usize = 0;
    while i < s.len()
        invariant
            i <= s@.len(),
            forall|k: int| 0 <= k < i ==> s@[k] != x,
        decreases s@.len() - i,
    {
        if s[i] == x {
            return true;
        }
        i = i + 1;
    }
    false
}

/// RFC 4180-encode a decoded value for `dialect`: quote when it contains
/// the delimiter, a quote or a line break (or when forced), doubling any
/// embedded quotes.
pub fn encode_cell(value: &str, dialect: Dialect, force_quote: bool) -> (r: String)
    ensures
        string_bytes(r) == encoded(value.spec_bytes(), delimiter_of(dialect), force_quote),
{
    let d = dialect.delimiter();
    let v = value.as_bytes();
    let needs = force_quote || has_byte(v, d) || has_byte(v, QUOTE) || has_byte(v, LF) || has_byte(
        v,
        CR,
    );
    if needs {
        let inner = replace_quote_by_two(value);
        let ib = string_as_bytes(&inner);
        let mut out: Vec<u8> = Vec::new();
        out.push(QUOTE);
        append_range(&mut out, ib, 0, ib.len());
        out.push(QUOTE);
        proof {
            assert(ib@.subrange(0, ib@.len() as int) =~= ib@);
            lemma_ascii_valid(QUOTE);
            encode_utf8_valid_utf8(inner@);
            valid_utf8_concat(seq![QUOTE], ib@);
            valid_utf8_concat(seq![QUOTE] + ib@, seq![QUOTE]);
            assert(out@ =~= seq![QUOTE] + ib@ + seq![QUOTE]);
        }
        string_from_utf8(out)
    } else {
        to_owned_string(value)
    }
}


/// Render options as a mathematical value.
pub struct RenderOptionsView {
    /// Target dialect.
    pub dialect: Dialect,
    /// Column widths when aligning.
    pub align: Option<Seq<usize>>,
    /// Quote policy.
    pub quote_policy: QuotePolicy,
    /// Row terminator.
    pub line_terminator: LineTerminator,
    /// Whether a BOM is emitted.
    pub include_bom: bool,
    /// Whether a final terminator is emitted.
    pub final_newline: bool,
}

impl View for RenderOptions {
    type V = RenderOptionsView;

    open spec fn view(&self) -> RenderOptionsView {
        RenderOptionsView {
            dialect: self.dialect,
            align: match self.align {
                Some(w) => Some(w@),
                None => None,
            },
            quote_policy: self.quote_policy,
            line_terminator: self.line_terminator,
            include_bom: self.include_bom,
            final_newline: self.final_newline,
        }
    }
}

/// Whether `s` starts with the bytes of U+FEFF.
pub open spec fn starts_with_bom(s: Seq<u8>) -> bool {
    s.len() >= 3 && s.subrange(0, 3) == bom_bytes()
}

/// Whether a recovered error belongs to row `i`.
pub open spec fn error_row(t: TableView, i: int) -> bool {
    exists|k: int| 0 <= k < t.errors.len() && t.errors[k].row == i
}

/// A cell's text under a quote policy, before the BOM guard.
pub open spec fn policy_content(b: Seq<u8>, c: Cell, policy: QuotePolicy, dialect: Dialect) -> Seq<u8> {
    let content = b.subrange(c.content_span.start as int, c.content_span.end as int);
    let d = delimiter_of(dialect);
    match policy {
        QuotePolicy::Preserve => content,
        QuotePolicy::Required => encoded(cell_value(b, c), d, false),
        QuotePolicy::PreserveOrRequired => if c.quoting == Quoting::Unquoted && contains_byte(
            content,
            d,
        ) {
            encoded(content, d, false)
        } else {
            content
        },
    }
}

/// The emitted text of cell `j` of row `i`: its policy content, except
/// that the very first output cell is force-quoted when it would put
/// U+FEFF at byte 0 of the output.
pub open spec fn cell_content(b: Seq<u8>, t: TableView, o: RenderOptionsView, i: int, j: int) -> Seq<u8> {
    let c = t.rows[i].cells[j];
    let p = policy_content(b, c, o.quote_policy, o.dialect);
    if !o.include_bom && i == 0 && j == 0 && starts_with_bom(p) {
        encoded(cell_value(b, c), delimiter_of(o.dialect), true)
    } else {
        p
    }
}

/// The target width of column `j`: its entry in `widths`, 0 past the end.
pub open spec fn column_target(widths: Seq<usize>, j: int) -> int {
    if 0 <= j < widths.len() {
        widths[j] as int
    } else {
        0
    }
}

/// Spaces after cell `j` of a row of `n` cells with content `content`:
/// only when aligning and another cell follows, up to the column width.
pub open spec fn padding(o: RenderOptionsView, n: int, j: int, content: Seq<u8>) -> nat {
    match o.align {
        Some(w) => if j + 1 < n {
            let cw = str_width(decode_utf8(content)) as int;
            let tw = column_target(w, j);
            if tw > cw {
                (tw - cw) as nat
            } else {
                0
            }
        } else {
            0
        },
        None => 0,
    }
}

/// `n` spaces.
pub open spec fn spaces(n: nat) -> Seq<u8> {
    Seq::new(n, |_k: int| SPACE)
}

/// The first `k` cells of row `i`, delimited and padded.
pub open spec fn cells_text(b: Seq<u8>, t: TableView, o: RenderOptionsView, i: int, k: int) -> Seq<u8>
    decreases k,
{
    if k <= 0 {
        Seq::empty()
    } else {
        let j = k - 1;
        let content = cell_content(b, t, o, i, j);
        cells_text(b, t, o, i, j) + (if j > 0 {
            seq![delimiter_of(o.dialect)]
        } else {
            Seq::empty()
        }) + content + spaces(padding(o, t.rows[i].cells.len() as int, j, content))
    }
}

/// The emitted text of row `i`: verbatim for rows with parse errors,
/// nothing for blank rows, the rendered cells otherwise.
pub open spec fn row_text(b: Seq<u8>, t: TableView, o: RenderOptionsView, i: int) -> Seq<u8> {
    let r = t.rows[i];
    if error_row(t, i) {
        b.subrange(r.span.start as int, r.span.end as int)
    } else if row_is_blank(r) {
        Seq::empty()
    } else {
        cells_text(b, t, o, i, r.cells.len() as int)
    }
}

/// The first `k` rows, separated by the terminator.
pub open spec fn rows_text(b: Seq<u8>, t: TableView, o: RenderOptionsView, k: int) -> Seq<u8>
    decreases k,
{
    if k <= 0 {
        Seq::empty()
    } else {
        rows_text(b, t, o, k - 1) + (if k - 1 > 0 {
            terminator_bytes(o.line_terminator)
        } else {
            Seq::empty()
        }) + row_text(b, t, o, k - 1)
    }
}

/// The whole rendered text of table `t` parsed from `b` under options `o`.
pub open spec fn rendered(b: Seq<u8>, t: TableView, o: RenderOptionsView) -> Seq<u8> {
    (if o.include_bom {
        bom_bytes()
    } else {
        Seq::empty()
    }) + rows_text(b, t, o, t.rows.len() as int) + (if o.final_newline && t.rows.len() > 0 {
        terminator_bytes(o.line_terminator)
    } else {
        Seq::empty()
    })
}


/// Appends `n` spaces.
fn push_spaces(out: &mut Vec<u8>, n: usize)
    requires
        valid_utf8(old(out)@),
    ensures
        final(out)@ == old(out)@ + spaces(n as nat),
        valid_utf8(final(out)@),
{
    let mut k: usize = 0;
    assert(old(out)@ + spaces(0) =~= old(out)@);
    while k < n
        invariant
            k <= n,
            out@ == old(out)@ + spaces(k as nat),
            valid_utf8(out@),
        decreases n - k,
    {
        push_ascii(out, SPACE);
        assert(old(out)@ + spaces((k + 1) as nat) =~= (old(out)@ + spaces(k as nat)).push(SPACE));
        k = k + 1;
    }
}

/// Whether `s` starts with the bytes of U+FEFF.
fn has_bom_prefix(s: &[u8]) -> (r: bool)
    ensures
        r == starts_with_bom(s@),
{
    let r = s.len() >= 3 && s[0] == 0xEFu8 && s[1] == 0xBBu8 && s[2] == 0xBFu8;
    proof {
        if s@.len() >= 3 {
            assert(r == (s@.subrange(0, 3) =~= bom_bytes()));
        }
    }
    r
}

/// The rows that recovered errors belong to.
pub fn error_row_set(table: &Table) -> (r: HashSet<usize>)
    ensures
        forall|x: usize| #[trigger] r@.contains(x) == error_row(table@, x as int),
{
    broadcast use vstd::std_specs::hash::group_hash_axioms;

    let mut rows: HashSet<usize> = HashSet::new();
    let mut k: usize = 0;
    while k < table.errors.len()
        invariant
            k <= table.errors@.len(),
            forall|x: usize|
                #[trigger] rows@.contains(x) <==> exists|e: int| 0 <= e < k && table.errors@[e].row == x,
        decreases table.errors@.len() - k,
    {
        let row = table.errors[k].row;
        rows.insert(row);
        assert forall|x: usize| #[trigger] rows@.contains(x) <==> exists|e: int|
            0 <= e < k + 1 && table.errors@[e].row == x by {
            if x == row {
                assert(table.errors@[k as int].row == x);
            }
            if exists|e: int| 0 <= e < k + 1 && table.errors@[e].row == x {
                let e = choose|e: int| 0 <= e < k + 1 && table.errors@[e].row == x;
                if e < k {
                    assert(exists|e2: int| 0 <= e2 < k && table.errors@[e2].row == x);
                }
            }
        }
        k = k + 1;
    }
    assert forall|x: usize| #[trigger] rows@.contains(x) == error_row(table@, x as int) by {
        if rows@.contains(x) {
            let e = choose|e: int| 0 <= e < table.errors@.len() && table.errors@[e].row == x;
            assert(table@.errors[e].row == x);
        }
        if error_row(table@, x as int) {
            let e = choose|e: int| 0 <= e < table@.errors.len() && table@.errors[e].row == x as int;
            assert(table.errors@[e].row == x);
        }
    }
    rows
}

/// The emitted text of cell `j` of row `i` (see [`cell_content`]).
fn render_cell(text: &str, table: &Table, opts: &RenderOptions, i: usize, j: usize) -> (r: String)
    requires
        table_sliceable(table@, text.spec_bytes()),
        i < table.rows@.len(),
        j < table.rows@[i as int].cells@.len(),
    ensures
        string_bytes(r) == cell_content(text.spec_bytes(), table@, opts@, i as int, j as int),
{
    let ghost b = text.spec_bytes();
    let ghost tv = table@;
    assert(tv.rows[i as int] == table.rows@[i as int]@);
    assert(tv.rows[i as int].cells[j as int] == table.rows@[i as int].cells@[j as int]);
    let cell = table.rows[i].cells[j];
    let d = opts.dialect.delimiter();
    let content = match opts.quote_policy {
        QuotePolicy::Preserve => to_owned_string(cell.content_span.slice(text)),
        QuotePolicy::Required => {
            let v = cell.value(text);
            encode_cell(v.as_str(), opts.dialect, false)
        },
        QuotePolicy::PreserveOrRequired => {
            let c = cell.content_span.slice(text);
            if cell.quoting == Quoting::Unquoted && has_byte(c.as_bytes(), d) {
                encode_cell(c, opts.dialect, false)
            } else {
                to_owned_string(c)
            }
        },
    };
    assert(string_bytes(content) == policy_content(b, cell, opts.quote_policy, opts.dialect));
    if !opts.include_bom && i == 0 && j == 0 && has_bom_prefix(string_as_bytes(&content)) {
        let v = cell.value(text);
        encode_cell(v.as_str(), opts.dialect, true)
    } else {
        content
    }
}


/// The spaces that follow cell `j` of a row of `n` cells (see [`padding`]).
fn cell_padding(opts: &RenderOptions, n: usize, j: usize, content: &str) -> (r: usize)
    requires
        j < n,
    ensures
        r == padding(opts@, n as int, j as int, content.spec_bytes()),
{
    match &opts.align {
        Some(widths) => {
            if j + 1 < n {
                let width: usize = if j < widths.len() {
                    widths[j]
                } else {
                    0
                };
                let cw = display_width(content);
                proof {
                    encode_utf8_decode_utf8(content@);
                }
                width.saturating_sub(cw)
            } else {
                0
            }
        },
        None => 0,
    }
}

/// Appends the cells of row `i` (not an error row, not blank).
#[verifier::spinoff_prover]
fn push_cells(out: &mut Vec<u8>, text: &str, table: &Table, opts: &RenderOptions, i: usize)
    requires
        table_sliceable(table@, text.spec_bytes()),
        i < table.rows@.len(),
        valid_utf8(old(out)@),
    ensures
        final(out)@ == old(out)@ + cells_text(
            text.spec_bytes(),
            table@,
            opts@,
            i as int,
            table@.rows[i as int].cells.len() as int,
        ),
        valid_utf8(final(out)@),
{
    let ghost b = text.spec_bytes();
    let ghost tv = table@;
    let ghost ov = opts@;
    let n = table.rows[i].cells.len();
    assert(tv.rows[i as int].cells.len() == n);
    let d = opts.dialect.delimiter();
    let mut j: usize = 0;
    assert(old(out)@ + cells_text(b, tv, ov, i as int, 0) =~= old(out)@);
    while j < n
        invariant
            table_sliceable(tv, b),
            b == text.spec_bytes(),
            tv == table@,
            ov == opts@,
            i < tv.rows.len(),
            n == tv.rows[i as int].cells.len(),
            d == delimiter_of(opts.dialect),
            j <= n,
            out@ == old(out)@ + cells_text(b, tv, ov, i as int, j as int),
            valid_utf8(out@),
        decreases n - j,
    {
        let ghost before = out@;
        if j > 0 {
            push_ascii(out, d);
        }
        let content = render_cell(text, table, opts, i, j);
        push_text(out, content.as_str());
        let pad = cell_padding(opts, n, j, content.as_str());
        push_spaces(out, pad);
        proof {
            let c = string_bytes(content);
            let sep = if j > 0 {
                seq![delimiter_of(ov.dialect)]
            } else {
                Seq::<u8>::empty()
            };
            assert(out@ =~= before + sep + c + spaces(padding(ov, n as int, j as int, c)));
            assert(cells_text(b, tv, ov, i as int, j + 1) == cells_text(b, tv, ov, i as int, j as int)
                + sep + c + spaces(padding(ov, n as int, j as int, c)));
            assert(out@ =~= old(out)@ + cells_text(b, tv, ov, i as int, j + 1));
        }
        j = j + 1;
    }
}

/// Render the table back to text under `opts`.
pub fn render(text: &str, table: &Table, opts: &RenderOptions) -> (r: String)
    requires
        table_sliceable(table@, text.spec_bytes()),
    ensures
        string_bytes(r) == rendered(text.spec_bytes(), table@, opts@),
{
    let ghost b = text.spec_bytes();
    let ghost tv = table@;
    let ghost ov = opts@;
    let mut out: Vec<u8> = Vec::new();
    if opts.include_bom {
        proof {
            lemma_bom_valid();
            valid_utf8_concat(Seq::<u8>::empty(), bom_bytes());
        }
        out.push(0xEFu8);
        out.push(0xBBu8);
        out.push(0xBFu8);
        assert(out@ =~= bom_bytes());
    }
    let ghost head = out@;
    let terminator = opts.line_terminator.as_str();
    broadcast use vstd::std_specs::hash::group_hash_axioms;

    let flags = error_row_set(table);
    let n = table.rows.len();
    assert(head + rows_text(b, tv, ov, 0) =~= head);
    let mut i: usize = 0;
    while i < n
        invariant
            table_sliceable(tv, b),
            b == text.spec_bytes(),
            tv == table@,
            ov == opts@,
            n == tv.rows.len(),
            forall|x: usize| #[trigger] flags@.contains(x) == error_row(tv, x as int),
            terminator.spec_bytes() == terminator_bytes(ov.line_terminator),
            i <= n,
            out@ == head + rows_text(b, tv, ov, i as int),
            valid_utf8(out@),
        decreases n - i,
    {
        let ghost before = out@;
        if i > 0 {
            push_text(&mut out, terminator);
        }
        assert(tv.rows[i as int] == table.rows@[i as int]@);
        if flags.contains(&i) {
            let sp = table.rows[i].span;
            proof {
                lemma_valid_subrange(b, sp.start as int, sp.end as int);
            }
            push_text(&mut out, sp.slice(text));
        } else if table.rows[i].is_blank() {
        } else {
            push_cells(&mut out, text, table, opts, i);
        }
        proof {
            let sep = if i > 0 {
                terminator_bytes(ov.line_terminator)
            } else {
                Seq::<u8>::empty()
            };
            assert(out@ =~= before + sep + row_text(b, tv, ov, i as int));
            assert(out@ =~= head + rows_text(b, tv, ov, i + 1));
        }
        i = i + 1;
    }
    if opts.final_newline && n > 0 {
        push_text(&mut out, terminator);
    }
    proof {
        assert(out@ =~= rendered(b, tv, ov));
    }
    string_from_utf8(out)
}


/// A row that takes part in layout: neither blank nor touched by a parse
/// error.
pub open spec fn clean_row(t: TableView, i: int) -> bool {
    !row_is_blank(t.rows[i]) && !error_row(t, i)
}

/// The display width that cell `j` of row `i` occupies when rendered:
/// the width of its content, or, for the first cell of a file without BOM
/// whose content starts with U+FEFF (which the renderer quotes), the width
/// of that content between quotes.
pub open spec fn measured_width(b: Seq<u8>, t: TableView, i: int, j: int) -> int {
    let c = t.rows[i].cells[j];
    let content = b.subrange(c.content_span.start as int, c.content_span.end as int);
    if i == 0 && j == 0 && !t.has_bom && starts_with_bom(content) {
        str_width(decode_utf8(seq![QUOTE] + content + seq![QUOTE])) as int
    } else {
        str_width(decode_utf8(content)) as int
    }
}

/// Cell `j` of row `i` fits in column width `w[j]`.
pub open spec fn fits_column(b: Seq<u8>, t: TableView, i: int, j: int, w: Seq<usize>) -> bool {
    j < w.len() && measured_width(b, t, i, j) <= w[j]
}

/// Every cell of the clean rows before `k` fits in its column width.
pub open spec fn widths_cover(b: Seq<u8>, t: TableView, k: int, w: Seq<usize>) -> bool {
    forall|i: int, j: int|
        0 <= i < k && clean_row(t, i) && 0 <= j < t.rows[i].cells.len() ==> #[trigger] fits_column(
            b,
            t,
            i,
            j,
            w,
        )
}

/// Some cell in column `j` of a clean row before `k` measures `v`.
pub open spec fn width_attained(b: Seq<u8>, t: TableView, k: int, j: int, v: int) -> bool {
    exists|i: int|
        0 <= i < k && clean_row(t, i) && j < t.rows[i].cells.len() && #[trigger] measured_width(
            b,
            t,
            i,
            j,
        ) == v
}

/// Display width of the content of cell `j` of row `i`, as laid out.
fn measure_cell(text: &str, table: &Table, i: usize, j: usize) -> (r: usize)
    requires
        table_sliceable(table@, text.spec_bytes()),
        i < table.rows@.len(),
        j < table.rows@[i as int].cells@.len(),
    ensures
        r == measured_width(text.spec_bytes(), table@, i as int, j as int),
{
    assert(table@.rows[i as int] == table.rows@[i as int]@);
    let cell = table.rows[i].cells[j];
    assert(table@.rows[i as int].cells[j as int] == cell);
    let content = cell.content_span.slice(text);
    proof {
        encode_utf8_decode_utf8(content@);
    }
    if i == 0 && j == 0 && !table.has_bom && has_bom_prefix(content.as_bytes()) {
        // The renderer quotes this cell: measure it as written.
        let mut quoted: Vec<u8> = Vec::new();
        proof {
            assert(valid_utf8(Seq::<u8>::empty())) by {
                reveal_with_fuel(valid_utf8, 1);
            }
        }
        push_ascii(&mut quoted, QUOTE);
        push_text(&mut quoted, content);
        push_ascii(&mut quoted, QUOTE);
        let ghost qb = quoted@;
        let q = string_from_utf8(quoted);
        proof {
            encode_utf8_decode_utf8(q@);
            assert(qb =~= seq![QUOTE] + content.spec_bytes() + seq![QUOTE]);
        }
        display_width(q.as_str())
    } else {
        display_width(content)
    }
}

/// Display width of every column (Unicode width, UAX #11), measured over
/// the content spans of clean rows. Blank rows and rows with parse errors
/// contribute nothing (they are passed through verbatim when rendering).
pub fn column_widths(text: &str, table: &Table) -> (r: Vec<usize>)
    requires
        table_sliceable(table@, text.spec_bytes()),
    ensures
        r@ == layout_widths(text.spec_bytes(), table@),
        widths_cover(text.spec_bytes(), table@, table@.rows.len() as int, r@),
        forall|j: int|
            0 <= j < r@.len() ==> width_attained(
                text.spec_bytes(),
                table@,
                table@.rows.len() as int,
                j,
                #[trigger] r@[j] as int,
            ),
{
    let ghost b = text.spec_bytes();
    let ghost tv = table@;
    broadcast use vstd::std_specs::hash::group_hash_axioms;

    let flags = error_row_set(table);
    let n = table.rows.len();
    let mut widths: Vec<usize> = Vec::new();
    let mut i: usize = 0;
    while i < n
        invariant
            table_sliceable(tv, b),
            b == text.spec_bytes(),
            tv == table@,
            n == tv.rows.len(),
            forall|x: usize| #[trigger] flags@.contains(x) == error_row(tv, x as int),
            i <= n,
            widths_cover(b, tv, i as int, widths@),
            forall|j: int|
                0 <= j < widths@.len() ==> width_attained(b, tv, i as int, j, #[trigger] widths@[j] as int),
        decreases n - i,
    {
        assert(tv.rows[i as int] == table.rows@[i as int]@);
        if !(table.rows[i].is_blank() || flags.contains(&i)) {
            let m = table.rows[i].cells.len();
            let mut c: usize = 0;
            while c < m
                invariant
                    table_sliceable(tv, b),
                    b == text.spec_bytes(),
                    tv == table@,
                    n == tv.rows.len(),
                    i < n,
                    clean_row(tv, i as int),
                    m == tv.rows[i as int].cells.len(),
                    c <= m,
                    c <= widths@.len(),
                    widths_cover(b, tv, i as int, widths@),
                    forall|j: int| 0 <= j < c ==> #[trigger] fits_column(b, tv, i as int, j, widths@),
                    forall|j: int|
                        0 <= j < widths@.len() ==> width_attained(
                            b,
                            tv,
                            i as int,
                            j,
                            #[trigger] widths@[j] as int,
                        ) || (j < c && measured_width(b, tv, i as int, j) == widths@[j]),
                decreases m - c,
            {
                let w = measure_cell(text, table, i, c);
                let ghost old_w = widths@;
                assert(widths_cover(b, tv, i as int, old_w));
                if c == widths.len() {
                    widths.push(w);
                } else if widths[c] < w {
                    widths.set(c, w);
                }
                assert forall|j: int| 0 <= j < widths@.len() implies width_attained(
                    b,
                    tv,
                    i as int,
                    j,
                    #[trigger] widths@[j] as int,
                ) || (j < c + 1 && measured_width(b, tv, i as int, j) == widths@[j]) by {
                    if j != c {
                        assert(widths@[j] == old_w[j]);
                    }
                }
                assert forall|x: int, j: int|
                    0 <= x < i && clean_row(tv, x) && 0 <= j < tv.rows[x].cells.len() implies #[trigger] fits_column(b, tv, x, j, widths@) by {
                    assert(fits_column(b, tv, x, j, old_w));
                    assert(widths@[j] >= old_w[j]);
                }
                assert forall|j: int| 0 <= j < c + 1 implies #[trigger] fits_column(b, tv, i as int, j, widths@) by {
                    if j < c {
                        assert(fits_column(b, tv, i as int, j, old_w));
                        assert(widths@[j] >= old_w[j]);
                    }
                }
                assert(widths_cover(b, tv, i as int, widths@));
                c = c + 1;
            }
            assert forall|x: int, j: int|
                0 <= x < i + 1 && clean_row(tv, x) && 0 <= j < tv.rows[x].cells.len() implies #[trigger] fits_column(b, tv, x, j, widths@) by {
            }
            assert forall|j: int| 0 <= j < widths@.len() implies width_attained(
                b,
                tv,
                i + 1,
                j,
                #[trigger] widths@[j] as int,
            ) by {
                if !width_attained(b, tv, i as int, j, widths@[j] as int) {
                    assert(measured_width(b, tv, i as int, j) == widths@[j]);
                }
            }
        }
        i = i + 1;
    }
    proof {
        let w = layout_widths(b, tv);
        assert(widths_cover(b, tv, n as int, widths@) && forall|j: int|
            0 <= j < widths@.len() ==> width_attained(b, tv, n as int, j, #[trigger] widths@[j] as int));
        lemma_widths_unique(b, tv, w, widths@);
    }
    widths
}


/// The column widths of table `t` parsed from `b`: the one sequence that
/// covers every clean cell and whose every entry some clean cell attains.
pub open spec fn layout_widths(b: Seq<u8>, t: TableView) -> Seq<usize> {
    choose|w: Seq<usize>|
        widths_cover(b, t, t.rows.len() as int, w) && forall|j: int|
            0 <= j < w.len() ==> width_attained(b, t, t.rows.len() as int, j, #[trigger] w[j] as int)
}

/// At most one sequence of widths covers the clean cells with attained
/// entries.
pub proof fn lemma_widths_unique(b: Seq<u8>, t: TableView, w1: Seq<usize>, w2: Seq<usize>)
    requires
        widths_cover(b, t, t.rows.len() as int, w1),
        forall|j: int|
            0 <= j < w1.len() ==> width_attained(b, t, t.rows.len() as int, j, #[trigger] w1[j] as int),
        widths_cover(b, t, t.rows.len() as int, w2),
        forall|j: int|
            0 <= j < w2.len() ==> width_attained(b, t, t.rows.len() as int, j, #[trigger] w2[j] as int),
    ensures
        w1 == w2,
{
    let n = t.rows.len() as int;
    if w1.len() < w2.len() {
        let j = w1.len() as int;
        assert(width_attained(b, t, n, j, w2[j] as int));
        let i = choose|i: int|
            0 <= i < n && clean_row(t, i) && j < t.rows[i].cells.len() && #[trigger] measured_width(b, t, i, j)
                == w2[j] as int;
        assert(fits_column(b, t, i, j, w1));
    } else if w2.len() < w1.len() {
        let j = w2.len() as int;
        assert(width_attained(b, t, n, j, w1[j] as int));
        let i = choose|i: int|
            0 <= i < n && clean_row(t, i) && j < t.rows[i].cells.len() && #[trigger] measured_width(b, t, i, j)
                == w1[j] as int;
        assert(fits_column(b, t, i, j, w2));
    } else {
        assert forall|j: int| 0 <= j < w1.len() implies w1[j] == w2[j] by {
            assert(width_attained(b, t, n, j, w1[j] as int));
            assert(width_attained(b, t, n, j, w2[j] as int));
            let i1 = choose|i: int|
                0 <= i < n && clean_row(t, i) && j < t.rows[i].cells.len() && #[trigger] measured_width(
                    b,
                    t,
                    i,
                    j,
                ) == w1[j] as int;
            let i2 = choose|i: int|
                0 <= i < n && clean_row(t, i) && j < t.rows[i].cells.len() && #[trigger] measured_width(
                    b,
                    t,
                    i,
                    j,
                ) == w2[j] as int;
            assert(fits_column(b, t, i1, j, w2));
            assert(fits_column(b, t, i2, j, w1));
        }
        assert(w1 =~= w2);
    }
}

/// Options that keep the table's dialect, terminator, BOM and final newline
/// and emit cells verbatim, aligned to `align` when given.
pub open spec fn layout_options(t: TableView, align: Option<Seq<usize>>) -> RenderOptionsView {
    RenderOptionsView {
        dialect: t.dialect,
        align,
        quote_policy: QuotePolicy::Preserve,
        line_terminator: t.line_terminator,
        include_bom: t.has_bom,
        final_newline: t.ends_with_newline,
    }
}

/// The aligned form of the text `b` parsed as `t`.
pub open spec fn aligned_text(b: Seq<u8>, t: TableView) -> Seq<u8> {
    rendered(b, t, layout_options(t, Some(layout_widths(b, t))))
}

/// The compact form of the text `b` parsed as `t`.
pub open spec fn compact_text(b: Seq<u8>, t: TableView) -> Seq<u8> {
    rendered(b, t, layout_options(t, None))
}

/// The text `b` parsed as `t`, converted to dialect `target`: compact, with
/// quoting adapted to the new delimiter.
pub open spec fn converted_text(b: Seq<u8>, t: TableView, target: Dialect) -> Seq<u8> {
    rendered(
        b,
        t,
        RenderOptionsView {
            dialect: target,
            align: None,
            quote_policy: QuotePolicy::PreserveOrRequired,
            line_terminator: t.line_terminator,
            include_bom: t.has_bom,
            final_newline: t.ends_with_newline,
        },
    )
}

} // verus!
