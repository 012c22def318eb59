//! Reinterpret the document under a different dialect: zero text changes,
//! only how the server parses it. The escape hatch for files whose
//! extension lies (a `.csv` that is actually semicolon-separated).
//!
//! The action carries no edit; picking it makes the client execute the
//! set-dialect command, and the server flips the dialect, reparses and
//! republishes diagnostics. Session-scoped by design: on reopen the
//! extension wins again.

use vstd::prelude::*;
use vstd::string::StringSliceAdditionalSpecFns;
use vstd::utf8::*;

use crate::dialect::{dialect_at, dialect_in_order, name_of, Dialect};
use crate::edits::edits_view;
use crate::features::{
    action_sound, actions_view, all_sound, diags_view, Action, ActionContext, ActionKind, ActionProvider, ActionView,
    ServerCommand,
};
use crate::text::{push_text, string_bytes, string_from_utf8};

verus! {

/// `Reinterpret as NAME`.
pub open spec fn reinterpret_title(d: Dialect) -> Seq<u8> {
    encode_utf8("Reinterpret as "@) + encode_utf8(name_of(d))
}

/// The reinterpretations among the first `k` dialects of the detection
/// order, skipping `current`.
pub open spec fn reinterpret_upto(current: Dialect, k: int) -> Seq<ActionView>
    decreases k,
{
    if k <= 0 {
        Seq::empty()
    } else {
        let d = dialect_at(k - 1);
        reinterpret_upto(current, k - 1) + (if d != current {
            seq![
                ActionView {
                    title: reinterpret_title(d),
                    kind: ActionKind::Source,
                    edits: Seq::empty(),
                    command: Some(ServerCommand::SetDialect { dialect: d }),
                    dialect_change: None,
                    fixes: Seq::empty(),
                    is_preferred: false,
                },
            ]
        } else {
            Seq::empty()
        })
    }
}

/// `Reinterpret as …` for every non-current dialect.
pub struct ReinterpretDialect;

/// `Reinterpret as NAME`.
fn reinterpret_title_text(d: Dialect) -> (r: String)
    ensures
        string_bytes(r) == reinterpret_title(d),
{
    let mut out: Vec<u8> = Vec::new();
    proof {
        assert(valid_utf8(Seq::<u8>::empty())) by {
            reveal_with_fuel(valid_utf8, 1);
        }
    }
    push_text(&mut out, "Reinterpret as ");
    push_text(&mut out, d.name());
    string_from_utf8(out)
}

impl ActionProvider for ReinterpretDialect {
    fn name(&self) -> (r: &'static str)
        ensures
            r@ == "reinterpret-dialect"@,
    {
        "reinterpret-dialect"
    }

    fn actions(&self, ctx: &ActionContext) -> (r: Vec<Action>)
        ensures
            actions_view(r@) == reinterpret_upto(ctx.doc.dialect, 4),
            all_sound(string_bytes(ctx.doc.text), actions_view(r@)),
    {
        let current = ctx.doc.dialect;
        let mut actions: Vec<Action> = Vec::new();
        let mut i: usize = 0;
        while i < 4
            invariant
                current == ctx.doc.dialect,
                i <= 4,
                actions_view(actions@) == reinterpret_upto(current, i as int),
                all_sound(string_bytes(ctx.doc.text), actions_view(actions@)),
            decreases 4 - i,
        {
            let d = dialect_in_order(i);
            let ghost before = actions@;
            if d != current {
                let action = Action {
                    title: reinterpret_title_text(d),
                    kind: ActionKind::Source,
                    edits: Vec::new(),
                    command: Some(ServerCommand::SetDialect { dialect: d }),
                    dialect_change: None,
                    fixes: Vec::new(),
                    is_preferred: false,
                };
                proof {
                    assert(edits_view(action.edits@) =~= Seq::empty());
                    assert(diags_view(action.fixes@) =~= Seq::empty());
                }
                actions.push(action);
            }
            proof {
                assert(actions_view(actions@) =~= reinterpret_upto(current, i + 1));
                assert forall|k: int| 0 <= k < actions@.len() implies action_sound(
                    string_bytes(ctx.doc.text),
                    #[trigger] actions_view(actions@)[k],
                ) by {
                    if k < before.len() {
                        assert(actions_view(actions@)[k] == actions_view(before)[k]);
                    }
                }
            }
            i = i + 1;
        }
        actions
    }
}

/// Every reinterpretation is titled with the dialect it switches to: the
/// three dialects other than the current one each have one action, titled
/// "Reinterpret as NAME", changing no text and carrying the set-dialect
/// command for that very dialect.
pub proof fn law_reinterpret_targets(current: Dialect)
    ensures
        reinterpret_upto(current, 4).len() == 3,
        forall|k: int|
            #![trigger reinterpret_upto(current, 4)[k]]
            0 <= k < 3 ==> exists|d: Dialect|
                #![trigger reinterpret_title(d)]
                d != current && reinterpret_upto(current, 4)[k].title == reinterpret_title(d)
                    && reinterpret_upto(current, 4)[k].command == Some(ServerCommand::SetDialect { dialect: d })
                    && reinterpret_upto(current, 4)[k].edits.len() == 0,
        forall|d: Dialect|
            #![trigger reinterpret_title(d)]
            d != current ==> exists|k: int|
                #![trigger reinterpret_upto(current, 4)[k]]
                0 <= k < 3 && reinterpret_upto(current, 4)[k].title == reinterpret_title(d)
                    && reinterpret_upto(current, 4)[k].command == Some(ServerCommand::SetDialect { dialect: d }),
{
    reveal_with_fuel(reinterpret_upto, 5);
    let acts = reinterpret_upto(current, 4);
    let ds = seq![Dialect::Csv, Dialect::Tsv, Dialect::Ssv, Dialect::Psv];
    assert forall|i: int| 0 <= i < 4 implies dialect_at(i) == #[trigger] ds[i] by {}
    assert(acts.len() == 3);
    assert forall|k: int| #![trigger reinterpret_upto(current, 4)[k]] 0 <= k < 3 implies exists|d: Dialect|
        #![trigger reinterpret_title(d)]
        d != current && acts[k].title == reinterpret_title(d) && acts[k].command == Some(
            ServerCommand::SetDialect { dialect: d },
        ) && acts[k].edits.len() == 0 by {
        let d = match acts[k].command {
            Some(ServerCommand::SetDialect { dialect }) => dialect,
            _ => current,
        };
        assert(d != current && acts[k].title == reinterpret_title(d));
    }
    assert forall|d: Dialect| #![trigger reinterpret_title(d)] d != current implies exists|k: int|
        #![trigger reinterpret_upto(current, 4)[k]]
        0 <= k < 3 && reinterpret_upto(current, 4)[k].title == reinterpret_title(d)
            && reinterpret_upto(current, 4)[k].command == Some(ServerCommand::SetDialect { dialect: d }) by {

        let i: int = if d == Dialect::Csv {
            0
        } else if d == Dialect::Tsv {
            1
        } else if d == Dialect::Ssv {
            2
        } else {
            3
        };
        let ci: int = if current == Dialect::Csv {
            0
        } else if current == Dialect::Tsv {
            1
        } else if current == Dialect::Ssv {
            2
        } else {
            3
        };
        let k = if i < ci {
            i
        } else {
            i - 1
        };
        assert(acts[k].title == reinterpret_title(d));
    }
}

} // verus!
