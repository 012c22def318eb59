//! Compact columns: strip the alignment padding that align adds,
//! restoring the canonical, machine-friendly form of the file.

use vstd::prelude::*;
use vstd::utf8::{encode_utf8, encode_utf8_valid_utf8};

use crate::document::Document;
use crate::edits::{
    applied, edits_applicable, edits_view, law_minimize_then_apply, minimal_edits, minimize,
    splits_crlf_at,
};
use crate::features::{actions_view, all_sound, Action, ActionContext, ActionKind, ActionProvider, ActionView};
use crate::parse::Span;
use crate::render::{compact_text, layout_options, render, RenderOptions};
use crate::text::{string_bytes, to_owned_string};

verus! {

/// The edits that compact document text `b` parsed as `t`.
pub open spec fn compact_edit_views(b: Seq<u8>, t: crate::parse::TableView) -> Seq<(Span, Seq<u8>)> {
    minimal_edits(b, compact_text(b, t))
}

/// Whole-document compaction as a minimal edit; empty when the document
/// carries no padding.
pub fn compact_edits(doc: &Document) -> (r: Vec<(Span, String)>)
    requires
        doc.wf(),
    ensures
        edits_view(r@) == compact_edit_views(string_bytes(doc.text), doc.table@),
        edits_applicable(string_bytes(doc.text), edits_view(r@)),
        r@.len() <= 1,
        applied(string_bytes(doc.text), edits_view(r@)) == compact_text(string_bytes(doc.text), doc.table@),
        forall|k: int|
            0 <= k < r@.len() ==> !splits_crlf_at(string_bytes(doc.text), #[trigger] r@[k].0.start as int)
                && !splits_crlf_at(string_bytes(doc.text), r@[k].0.end as int),
{
    let opts = RenderOptions::compact_for(&doc.table);
    assert(opts@ == layout_options(doc.table@, None));
    let aligned = render(doc.text.as_str(), &doc.table, &opts);
    let _n = doc.text.as_str().as_bytes().len();
    proof {
        encode_utf8_valid_utf8(doc.text@);
        encode_utf8_valid_utf8(aligned@);
        law_minimize_then_apply(string_bytes(doc.text), string_bytes(aligned));
    }
    let r = minimize(doc.text.as_str(), aligned.as_str());
    proof {
        assert forall|k: int| 0 <= k < r@.len() implies !splits_crlf_at(string_bytes(doc.text), #[trigger] r@[k].0.start as int)
            && !splits_crlf_at(string_bytes(doc.text), r@[k].0.end as int) by {
            assert(edits_view(r@)[k].0 == r@[k].0);
        }
    }
    r
}

/// What [`CompactColumns`] offers for a document: one source action carrying
/// the compaction edits, or nothing when the document carries no padding.
pub open spec fn compact_actions(b: Seq<u8>, t: crate::parse::TableView) -> Seq<ActionView> {
    let edits = compact_edit_views(b, t);
    if edits.len() == 0 {
        Seq::empty()
    } else {
        seq![
            ActionView {
                title: encode_utf8("Compact columns"@),
                kind: ActionKind::Source,
                edits,
                command: None,
                dialect_change: None,
                fixes: Seq::empty(),
                is_preferred: false,
            },
        ]
    }
}

/// The `Compact columns` source action.
pub struct CompactColumns;

impl ActionProvider for CompactColumns {
    fn name(&self) -> (r: &'static str)
        ensures
            r@ == "compact-columns"@,
    {
        "compact-columns"
    }

    fn actions(&self, ctx: &ActionContext) -> (r: Vec<Action>)
        ensures
            actions_view(r@) == compact_actions(string_bytes(ctx.doc.text), ctx.doc.table@),
            all_sound(string_bytes(ctx.doc.text), actions_view(r@)),
    {
        let edits = compact_edits(ctx.doc);
        let mut actions: Vec<Action> = Vec::new();
        if edits.len() == 0 {
            // Already compact: no no-op entry in the picker.
            assert(actions_view(actions@) =~= Seq::<ActionView>::empty());
            return actions;
        }
        actions.push(
            Action {
                title: to_owned_string("Compact columns"),
                kind: ActionKind::Source,
                edits,
                command: None,
                dialect_change: None,
                fixes: Vec::new(),
                is_preferred: false,
            },
        );
        proof {
            assert(actions@[0]@.fixes =~= Seq::empty());
            assert(actions_view(actions@) =~= compact_actions(string_bytes(ctx.doc.text), ctx.doc.table@));
        }
        actions
    }
}

} // verus!
