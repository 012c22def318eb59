//! Align columns: pad cells with spaces so the delimiters line up under
//! the header. Exposed twice, as document formatting and as an `Align
//! columns` source action, over one code path.

use vstd::prelude::*;
use vstd::utf8::{encode_utf8, encode_utf8_valid_utf8};

use crate::document::Document;
use crate::edits::{
    applied, edits_applicable, edits_view, law_minimize_then_apply, minimal_edits, minimize,
    splits_crlf_at,
};
use crate::features::{actions_view, all_sound, Action, ActionContext, ActionKind, ActionProvider, ActionView};
use crate::parse::Span;
use crate::render::{aligned_text, column_widths, layout_options, render, RenderOptions};
use crate::text::{string_bytes, to_owned_string};
use crate::dialect::Dialect;
use crate::grammar::spec_parse;
use crate::reparse::law_align_idempotent;

verus! {

/// The edits that align document text `b` parsed as `t`.
pub open spec fn align_edit_views(b: Seq<u8>, t: crate::parse::TableView) -> Seq<(Span, Seq<u8>)> {
    minimal_edits(b, aligned_text(b, t))
}

/// Whole-document alignment as a minimal edit; empty when the document is
/// already aligned (which makes formatting idempotent).
pub fn align_edits(doc: &Document) -> (r: Vec<(Span, String)>)
    requires
        doc.wf(),
    ensures
        edits_view(r@) == align_edit_views(string_bytes(doc.text), doc.table@),
        edits_applicable(string_bytes(doc.text), edits_view(r@)),
        r@.len() <= 1,
        applied(string_bytes(doc.text), edits_view(r@)) == aligned_text(string_bytes(doc.text), doc.table@),
        forall|k: int|
            0 <= k < r@.len() ==> !splits_crlf_at(string_bytes(doc.text), #[trigger] r@[k].0.start as int)
                && !splits_crlf_at(string_bytes(doc.text), r@[k].0.end as int),
{
    let widths = column_widths(doc.text.as_str(), &doc.table);
    let opts = RenderOptions::aligned_for(&doc.table, widths);
    assert(opts@ == layout_options(doc.table@, Some(widths@)));
    let aligned = render(doc.text.as_str(), &doc.table, &opts);
    let _n = doc.text.as_str().as_bytes().len();
    proof {
        encode_utf8_valid_utf8(doc.text@);
        encode_utf8_valid_utf8(aligned@);
        law_minimize_then_apply(string_bytes(doc.text), string_bytes(aligned));
    }
    let r = minimize(doc.text.as_str(), aligned.as_str());
    proof {
        assert forall|k: int| 0 <= k < r@.len() implies !splits_crlf_at(string_bytes(doc.text), #[trigger] r@[k].0.start as int)
            && !splits_crlf_at(string_bytes(doc.text), r@[k].0.end as int) by {
            assert(edits_view(r@)[k].0 == r@[k].0);
        }
    }
    r
}

/// What [`AlignColumns`] offers for a document: one source action carrying
/// the alignment edits, or nothing when the document is already aligned.
pub open spec fn align_actions(b: Seq<u8>, t: crate::parse::TableView) -> Seq<ActionView> {
    let edits = align_edit_views(b, t);
    if edits.len() == 0 {
        Seq::empty()
    } else {
        seq![
            ActionView {
                title: encode_utf8("Align columns"@),
                kind: ActionKind::Source,
                edits,
                command: None,
                dialect_change: None,
                fixes: Seq::empty(),
                is_preferred: false,
            },
        ]
    }
}

/// The `Align columns` source action.
pub struct AlignColumns;

impl ActionProvider for AlignColumns {
    fn name(&self) -> (r: &'static str)
        ensures
            r@ == "align-columns"@,
    {
        "align-columns"
    }

    fn actions(&self, ctx: &ActionContext) -> (r: Vec<Action>)
        ensures
            actions_view(r@) == align_actions(string_bytes(ctx.doc.text), ctx.doc.table@),
            all_sound(string_bytes(ctx.doc.text), actions_view(r@)),
    {
        let edits = align_edits(ctx.doc);
        let mut actions: Vec<Action> = Vec::new();
        if edits.len() == 0 {
            // Already aligned: no no-op entry in the picker.
            assert(actions_view(actions@) =~= Seq::<ActionView>::empty());
            return actions;
        }
        actions.push(
            Action {
                title: to_owned_string("Align columns"),
                kind: ActionKind::Source,
                edits,
                command: None,
                dialect_change: None,
                fixes: Vec::new(),
                is_preferred: false,
            },
        );
        proof {
            assert(actions@[0]@.fixes =~= Seq::empty());
            assert(actions_view(actions@) =~= align_actions(string_bytes(ctx.doc.text), ctx.doc.table@));
        }
        actions
    }
}

/// Formatting is idempotent at the edit level: once a text is aligned,
/// formatting it again edits nothing.
pub proof fn law_formatting_idempotent(b: Seq<u8>, dialect: Dialect)
    requires
        b.len() <= usize::MAX,
        aligned_text(b, spec_parse(b, dialect)).len() <= usize::MAX,
    ensures
        ({
            let a = aligned_text(b, spec_parse(b, dialect));
            align_edit_views(a, spec_parse(a, dialect)).len() == 0
        }),
{
    law_align_idempotent(b, dialect);
}

} // verus!
