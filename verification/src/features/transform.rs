//! Convert the document to a different dialect: rewrite the delimiters and
//! adapt quoting.
//!
//! Conversion emits the compact form (padding is layout for the old column
//! widths). Files with parse errors offer no conversions: their rows would
//! pass through verbatim with old delimiters, producing a mixed-dialect
//! file; quoting has to be fixed first.

use vstd::prelude::*;
use vstd::string::StringSliceAdditionalSpecFns;
use vstd::utf8::*;

use crate::dialect::{dialect_at, dialect_in_order, name_of, Dialect};
use crate::document::Document;
use crate::edits::{
    applied, edits_applicable, edits_view, law_minimize_then_apply, minimal_edits, minimize,
    splits_crlf_at,
};
use crate::features::{
    action_sound, actions_view, all_sound, diags_view, Action, ActionContext, ActionKind, ActionProvider, ActionView,
};
use crate::parse::{Span, TableView};
use crate::render::{converted_text, render, QuotePolicy, RenderOptions};
use crate::text::{push_text, string_bytes, string_from_utf8};

verus! {

/// The edits converting document text `b` parsed as `t` to `target`.
pub open spec fn convert_edit_views(b: Seq<u8>, t: TableView, target: Dialect) -> Seq<(Span, Seq<u8>)> {
    minimal_edits(b, converted_text(b, t, target))
}

/// The conversion as a minimal edit; empty when converting changes nothing
/// (e.g. single-column files).
pub fn convert_edits(doc: &Document, target: Dialect) -> (r: Vec<(Span, String)>)
    requires
        doc.wf(),
    ensures
        edits_view(r@) == convert_edit_views(string_bytes(doc.text), doc.table@, target),
        edits_applicable(string_bytes(doc.text), edits_view(r@)),
        r@.len() <= 1,
        applied(string_bytes(doc.text), edits_view(r@)) == converted_text(string_bytes(doc.text), doc.table@, target),
        forall|k: int|
            0 <= k < r@.len() ==> !splits_crlf_at(string_bytes(doc.text), #[trigger] r@[k].0.start as int)
                && !splits_crlf_at(string_bytes(doc.text), r@[k].0.end as int),
{
    let opts = RenderOptions {
        dialect: target,
        align: None,
        quote_policy: QuotePolicy::PreserveOrRequired,
        line_terminator: doc.table.line_terminator,
        include_bom: doc.table.has_bom,
        final_newline: doc.table.ends_with_newline,
    };
    let converted = render(doc.text.as_str(), &doc.table, &opts);
    let _n = doc.text.as_str().as_bytes().len();
    proof {
        encode_utf8_valid_utf8(doc.text@);
        encode_utf8_valid_utf8(converted@);
        law_minimize_then_apply(string_bytes(doc.text), string_bytes(converted));
    }
    let r = minimize(doc.text.as_str(), converted.as_str());
    proof {
        assert forall|k: int| 0 <= k < r@.len() implies !splits_crlf_at(string_bytes(doc.text), #[trigger] r@[k].0.start as int)
            && !splits_crlf_at(string_bytes(doc.text), r@[k].0.end as int) by {
            assert(edits_view(r@)[k].0 == r@[k].0);
        }
    }
    r
}

/// `Convert to NAME`.
pub open spec fn convert_title(d: Dialect) -> Seq<u8> {
    encode_utf8("Convert to "@) + encode_utf8(name_of(d))
}

/// The conversions among the first `k` dialects of the detection order,
/// skipping `current` and those that would change nothing.
pub open spec fn convert_upto(b: Seq<u8>, t: TableView, current: Dialect, k: int) -> Seq<ActionView>
    decreases k,
{
    if k <= 0 {
        Seq::empty()
    } else {
        let d = dialect_at(k - 1);
        let edits = convert_edit_views(b, t, d);
        convert_upto(b, t, current, k - 1) + (if d != current && edits.len() > 0 {
            seq![
                ActionView {
                    title: convert_title(d),
                    kind: ActionKind::Source,
                    edits,
                    command: None,
                    dialect_change: Some(d),
                    fixes: Seq::empty(),
                    is_preferred: false,
                },
            ]
        } else {
            Seq::empty()
        })
    }
}

/// Everything [`ConvertDialect`] offers: nothing for files with parse
/// errors, else a conversion to each other dialect that changes the text.
pub open spec fn convert_actions(b: Seq<u8>, t: TableView, current: Dialect) -> Seq<ActionView> {
    if t.errors.len() > 0 {
        Seq::empty()
    } else {
        convert_upto(b, t, current, 4)
    }
}

/// `Convert to …` for every non-current dialect.
pub struct ConvertDialect;

/// `Convert to NAME`.
fn convert_title_text(d: Dialect) -> (r: String)
    ensures
        string_bytes(r) == convert_title(d),
{
    let mut out: Vec<u8> = Vec::new();
    proof {
        assert(valid_utf8(Seq::<u8>::empty())) by {
            reveal_with_fuel(valid_utf8, 1);
        }
    }
    push_text(&mut out, "Convert to ");
    push_text(&mut out, d.name());
    string_from_utf8(out)
}

impl ActionProvider for ConvertDialect {
    fn name(&self) -> (r: &'static str)
        ensures
            r@ == "convert-dialect"@,
    {
        "convert-dialect"
    }

    fn actions(&self, ctx: &ActionContext) -> (r: Vec<Action>)
        ensures
            actions_view(r@) == convert_actions(
                string_bytes(ctx.doc.text),
                ctx.doc.table@,
                ctx.doc.dialect,
            ),
            all_sound(string_bytes(ctx.doc.text), actions_view(r@)),
    {
        let ghost b = string_bytes(ctx.doc.text);
        let ghost t = ctx.doc.table@;
        let mut actions: Vec<Action> = Vec::new();
        if ctx.doc.table.errors.len() > 0 {
            assert(actions_view(actions@) =~= Seq::<ActionView>::empty());
            return actions;
        }
        let current = ctx.doc.dialect;
        let mut i: usize = 0;
        while i < 4
            invariant
                ctx.wf(),
                b == string_bytes(ctx.doc.text),
                t == ctx.doc.table@,
                current == ctx.doc.dialect,
                i <= 4,
                actions_view(actions@) == convert_upto(b, t, current, i as int),
                all_sound(b, actions_view(actions@)),
            decreases 4 - i,
        {
            let d = dialect_in_order(i);
            let ghost before = actions@;
            if d != current {
                let edits = convert_edits(ctx.doc, d);
                if edits.len() > 0 {
                    let action = Action {
                        title: convert_title_text(d),
                        kind: ActionKind::Source,
                        edits,
                        command: None,
                        dialect_change: Some(d),
                        fixes: Vec::new(),
                        is_preferred: false,
                    };
                    proof {
                        assert(diags_view(action.fixes@) =~= Seq::empty());
                    }
                    actions.push(action);
                }
            }
            proof {
                assert(actions_view(actions@) =~= convert_upto(b, t, current, i + 1));
                assert forall|k: int| 0 <= k < actions@.len() implies action_sound(
                    b,
                    #[trigger] actions_view(actions@)[k],
                ) by {
                    if k < before.len() {
                        assert(actions_view(actions@)[k] == actions_view(before)[k]);
                    }
                }
            }
            i = i + 1;
        }
        actions
    }
}

/// The conversions among the first `i` dialects come first among those of
/// the first `n`.
proof fn lemma_convert_prefix(b: Seq<u8>, t: TableView, current: Dialect, i: int, n: int)
    requires
        0 <= i <= n,
    ensures
        convert_upto(b, t, current, i).len() <= convert_upto(b, t, current, n).len(),
        forall|j: int|
            0 <= j < convert_upto(b, t, current, i).len() ==> #[trigger] convert_upto(b, t, current, n)[j]
                == convert_upto(b, t, current, i)[j],
    decreases n,
{
    if n > i {
        lemma_convert_prefix(b, t, current, i, n - 1);
        let prev = convert_upto(b, t, current, n - 1);
        let all = convert_upto(b, t, current, n);
        assert forall|j: int| 0 <= j < convert_upto(b, t, current, i).len() implies #[trigger] all[j]
            == convert_upto(b, t, current, i)[j] by {
            assert(all[j] == prev[j]);
        }
    }
}

/// Each conversion among the first `n` dialects is titled with its target,
/// which is not the current dialect, switches the document to it, and
/// carries the edits that turn the text into its conversion to it.
proof fn lemma_convert_named(b: Seq<u8>, t: TableView, current: Dialect, n: int)
    ensures
        forall|k: int|
            0 <= k < convert_upto(b, t, current, n).len() ==> ((#[trigger] convert_upto(b, t, current, n)[k]).dialect_change
                matches Some(d) && d != current && convert_upto(b, t, current, n)[k].title == convert_title(d)
                && convert_upto(b, t, current, n)[k].edits == convert_edit_views(b, t, d)
                && convert_edit_views(b, t, d).len() > 0 && convert_upto(b, t, current, n)[k].command is None),
    decreases n,
{
    if n > 0 {
        lemma_convert_named(b, t, current, n - 1);
        let prev = convert_upto(b, t, current, n - 1);
        let all = convert_upto(b, t, current, n);
        assert forall|k: int| 0 <= k < all.len() implies ((#[trigger] all[k]).dialect_change matches Some(d) && d
            != current && all[k].title == convert_title(d) && all[k].edits == convert_edit_views(b, t, d)
            && convert_edit_views(b, t, d).len() > 0 && all[k].command is None) by {
            if k < prev.len() {
                assert(all[k] == prev[k]);
            }
        }
    }
}

/// Every conversion is titled with the dialect it converts to: each
/// "Convert to NAME" action switches the document to dialect NAME, which is
/// not the current one, and its edits turn the text into the text
/// converted to NAME, which differs from it; and, on a table without parse
/// errors, every other dialect whose conversion changes the text has such
/// an action.
pub proof fn law_convert_targets(b: Seq<u8>, t: TableView, current: Dialect)
    requires
        valid_utf8(b),
        b.len() <= usize::MAX,
        forall|d: Dialect| valid_utf8(#[trigger] converted_text(b, t, d)),
    ensures
        forall|k: int|
            0 <= k < convert_actions(b, t, current).len() ==> ((#[trigger] convert_actions(b, t, current)[k]).dialect_change
                matches Some(d) && d != current && convert_actions(b, t, current)[k].title == convert_title(d)
                && applied(b, convert_actions(b, t, current)[k].edits) == converted_text(b, t, d)
                && converted_text(b, t, d) != b),
        forall|d: Dialect|
            #![trigger convert_title(d)]
            d != current && t.errors.len() == 0 && converted_text(b, t, d) != b ==> exists|k: int|
                0 <= k < convert_actions(b, t, current).len() && (#[trigger] convert_actions(b, t, current)[k]).title
                    == convert_title(d) && convert_actions(b, t, current)[k].dialect_change == Some(d),
{
    let acts = convert_actions(b, t, current);
    if t.errors.len() == 0 {
        lemma_convert_named(b, t, current, 4);
    }
    assert forall|k: int| 0 <= k < acts.len() implies ((#[trigger] acts[k]).dialect_change matches Some(d) && d
        != current && acts[k].title == convert_title(d) && applied(b, acts[k].edits) == converted_text(b, t, d)
        && converted_text(b, t, d) != b) by {
        assert(acts[k] == convert_upto(b, t, current, 4)[k]);
        let d = acts[k].dialect_change->0;
        law_minimize_then_apply(b, converted_text(b, t, d));
    }
    assert forall|d: Dialect| #![trigger convert_title(d)] d != current && t.errors.len() == 0 && converted_text(
        b,
        t,
        d,
    ) != b implies exists|k: int|
        0 <= k < acts.len() && (#[trigger] acts[k]).title == convert_title(d) && acts[k].dialect_change == Some(
            d,
        ) by {
        let i: int = if d == Dialect::Csv {
            0
        } else if d == Dialect::Tsv {
            1
        } else if d == Dialect::Ssv {
            2
        } else {
            3
        };
        assert(dialect_at(i) == d);
        law_minimize_then_apply(b, converted_text(b, t, d));
        lemma_convert_prefix(b, t, current, i + 1, 4);
        let k = convert_upto(b, t, current, i).len() as int;
        assert(convert_upto(b, t, current, i + 1)[k].title == convert_title(d));
        assert(acts[k] == convert_upto(b, t, current, i + 1)[k]);
    }
}

} // verus!
