//! The feature framework: diagnostic rules and code-action providers
//! collected in a [`Registry`].
//!
//! Adding a feature is one new module here plus one entry in
//! [`Registry::standard`]. Everything works on byte spans over the parsed
//! [`Table`]; the server converts to protocol types at its boundary only.

pub mod parse_errors;
pub mod ragged_rows;
pub mod pad_rows;
pub mod align;
pub mod compact;
pub mod reinterpret;
pub mod transform;
pub mod quote;
pub mod columns;

use vstd::prelude::*;
use vstd::string::StringSliceAdditionalSpecFns;
use vstd::utf8::{encode_utf8, valid_utf8};

use crate::dialect::Dialect;
use crate::document::Document;
use crate::edits::{edits_applicable, edits_view, edits_whole, edit_view};
use crate::grammar::spec_parse;
use crate::parse::{cell_at_spec, Span, Table, TableView};
use crate::position::{
    law_position_round_trip, line_at, line_starts_of, offset_of, position_of, units, PositionEncoding,
};
use crate::text::string_bytes;
use crate::wellformed::span_addressable;

verus! {

/// Diagnostic severity, mapped to the protocol's severities at the
/// boundary.
#[derive(Debug, Clone, Copy, PartialEq, Eq, Structural)]
pub enum Severity {
    /// The file's structure is broken.
    Error,
    /// Suspicious but parseable (e.g. a stray quote).
    Warning,
    /// Informational.
    Info,
    /// Editor hint.
    Hint,
}

/// The structured payload of a ragged-row diagnostic, echoed back by
/// clients in code-action requests. Never relied upon: providers recompute
/// from the table.
#[derive(Debug, Clone, Copy, PartialEq, Eq, Structural)]
pub enum DiagData {
    /// Row `row` lacks `missing` cells.
    Missing {
        /// The row index.
        row: usize,
        /// How many cells are missing.
        missing: usize,
    },
    /// Row `row` has `extra` cells too many.
    Extra {
        /// The row index.
        row: usize,
        /// How many cells are extra.
        extra: usize,
    },
}

/// A diagnostic in crate-internal form.
#[derive(Debug, Clone, PartialEq, Eq)]
pub struct Diag {
    /// The offending bytes (zero-width spans are legal and render as a
    /// caret / end-of-line marker in editors).
    pub span: Span,
    /// How loud the editor should be about it.
    pub severity: Severity,
    /// Stable machine-readable code (e.g. `row-missing-cells`), also shown
    /// to users next to the message.
    pub code: &'static str,
    /// Human-readable: states the fact and the expectation, lowercase, no
    /// trailing period.
    pub message: String,
    /// Optional structured payload.
    pub data: Option<DiagData>,
}

/// A diagnostic as a mathematical value.
pub struct DiagView {
    /// The span.
    pub span: Span,
    /// The severity.
    pub severity: Severity,
    /// The code.
    pub code: Seq<char>,
    /// The message bytes.
    pub message: Seq<u8>,
    /// The payload.
    pub data: Option<DiagData>,
}

impl View for Diag {
    type V = DiagView;

    open spec fn view(&self) -> DiagView {
        DiagView {
            span: self.span,
            severity: self.severity,
            code: self.code@,
            message: string_bytes(self.message),
            data: self.data,
        }
    }
}

/// Diagnostics as mathematical values.
pub open spec fn diags_view(ds: Seq<Diag>) -> Seq<DiagView> {
    ds.map_values(|d: Diag| d@)
}

/// The kinds of code action this server produces (hierarchical dotted
/// names on the wire).
#[derive(Debug, Clone, Copy, PartialEq, Eq, Structural)]
pub enum ActionKind {
    /// `quickfix`
    QuickFix,
    /// `source`
    Source,
    /// `source.fixAll`
    SourceFixAll,
    /// `refactor`
    Refactor,
    /// `refactor.rewrite`
    RefactorRewrite,
}

/// The wire name of a kind.
pub open spec fn kind_name(k: ActionKind) -> Seq<char> {
    match k {
        ActionKind::QuickFix => "quickfix"@,
        ActionKind::Source => "source"@,
        ActionKind::SourceFixAll => "source.fixAll"@,
        ActionKind::Refactor => "refactor"@,
        ActionKind::RefactorRewrite => "refactor.rewrite"@,
    }
}

impl ActionKind {
    /// The wire name of this kind.
    pub fn as_str(self) -> (r: &'static str)
        ensures
            r@ == kind_name(self),
    {
        match self {
            ActionKind::QuickFix => "quickfix",
            ActionKind::Source => "source",
            ActionKind::SourceFixAll => "source.fixAll",
            ActionKind::Refactor => "refactor",
            ActionKind::RefactorRewrite => "refactor.rewrite",
        }
    }
}

/// An effect the server performs on itself when the client executes an
/// action's command.
#[derive(Debug, Clone, Copy, PartialEq, Eq, Structural)]
pub enum ServerCommand {
    /// Re-parse the document under `dialect`.
    SetDialect {
        /// The dialect to parse under from now on.
        dialect: Dialect,
    },
}

/// A code action in crate-internal form.
#[derive(Debug, Clone, PartialEq, Eq)]
pub struct Action {
    /// Shown verbatim in the picker.
    pub title: String,
    /// The action's kind.
    pub kind: ActionKind,
    /// Non-overlapping edits of the current text, in document order.
    pub edits: Vec<(Span, String)>,
    /// A server-side effect to run when the action is picked.
    pub command: Option<ServerCommand>,
    /// The dialect the document switches to once the edits are applied.
    pub dialect_change: Option<Dialect>,
    /// The diagnostics this action fixes.
    pub fixes: Vec<Diag>,
    /// Whether this is the default choice.
    pub is_preferred: bool,
}

/// An action as a mathematical value.
pub struct ActionView {
    /// The title bytes.
    pub title: Seq<u8>,
    /// The kind.
    pub kind: ActionKind,
    /// The edits.
    pub edits: Seq<(Span, Seq<u8>)>,
    /// The server command.
    pub command: Option<ServerCommand>,
    /// The dialect switch.
    pub dialect_change: Option<Dialect>,
    /// The fixed diagnostics.
    pub fixes: Seq<DiagView>,
    /// Whether preferred.
    pub is_preferred: bool,
}

impl View for Action {
    type V = ActionView;

    open spec fn view(&self) -> ActionView {
        ActionView {
            title: string_bytes(self.title),
            kind: self.kind,
            edits: edits_view(self.edits@),
            command: self.command,
            dialect_change: self.dialect_change,
            fixes: diags_view(self.fixes@),
            is_preferred: self.is_preferred,
        }
    }
}

/// An action honours the protocol's edit contract on text `b`: its edits
/// lie within the text on character boundaries, in document order without
/// overlapping, no end falls inside a CRLF break (so a client can address
/// every end), and it is no no-op (it edits or runs a command).
pub open spec fn action_sound(b: Seq<u8>, a: ActionView) -> bool {
    &&& edits_applicable(b, a.edits)
    &&& edits_whole(b, a.edits)
    &&& (a.edits.len() > 0 || a.command is Some)
}

/// Both ends of an addressable span survive the trip to a protocol
/// position and back in every encoding: the position computed for an end
/// addresses exactly that offset again (when the position's numbers fit
/// the protocol's `u32`s). Diagnostics, action edits and highlight spans
/// are all addressable.
pub proof fn law_addressable_round_trip(b: Seq<u8>, s: Seq<usize>, sp: Span, enc: PositionEncoding)
    requires
        valid_utf8(b),
        line_starts_of(b, s),
        span_addressable(b, sp),
        s.len() <= u32::MAX,
        units(enc, b.subrange(s[line_at(s, sp.start as int)] as int, sp.start as int)) <= u32::MAX,
        units(enc, b.subrange(s[line_at(s, sp.end as int)] as int, sp.end as int)) <= u32::MAX,
    ensures
        offset_of(b, s, position_of(b, s, sp.start as int, enc), enc, sp.start as int),
        offset_of(b, s, position_of(b, s, sp.end as int, enc), enc, sp.end as int),
{
    law_position_round_trip(b, s, sp.start as int, enc);
    law_position_round_trip(b, s, sp.end as int, enc);
}

/// Every action of `acts` honours the edit contract on `b`.
pub open spec fn all_sound(b: Seq<u8>, acts: Seq<ActionView>) -> bool {
    forall|k: int| 0 <= k < acts.len() ==> action_sound(b, #[trigger] acts[k])
}

/// Actions as mathematical values.
pub open spec fn actions_view(acts: Seq<Action>) -> Seq<ActionView> {
    acts.map_values(|a: Action| a@)
}

/// Everything a provider may look at: the document, the requested byte
/// range (a cursor is a zero-width range) and the client's kind filter.
pub struct ActionContext<'a> {
    /// The document the actions are for.
    pub doc: &'a Document,
    /// The requested range.
    pub range: Span,
    /// The kinds the client asked for, if it filtered.
    pub only: Option<Vec<String>>,
}

impl<'a> ActionContext<'a> {
    /// The context describes a consistent document and an ordered range.
    pub open spec fn wf(&self) -> bool {
        &&& self.doc.wf()
        &&& self.range.start <= self.range.end
    }

    /// Whether `span` touches the requested range (inclusive at both ends,
    /// so a cursor at a row's end still counts as on the row).
    pub fn intersects(&self, span: Span) -> (r: bool)
        ensures
            r == (self.range.start <= span.end && span.start <= self.range.end),
    {
        self.range.start <= span.end && span.start <= self.range.end
    }

    /// The `(row, column)` of the cell under the cursor (the range start).
    pub fn cell_at_cursor(&self) -> (r: Option<(usize, usize)>)
        ensures
            match cell_at_spec(self.doc.table@, self.range.start as int) {
                Some((i, j)) => r == Some((i as usize, j as usize)),
                None => r is None,
            },
            r matches Some((i, j)) ==> i < self.doc.table.rows@.len() && j
                < self.doc.table.rows@[i as int].cells@.len() && cell_at_spec(
                self.doc.table@,
                self.range.start as int,
            ) == Some((i as int, j as int)),
    {
        self.doc.table.cell_at(self.range.start)
    }

    /// The column of the cell under the cursor.
    pub fn column_at_cursor(&self) -> (r: Option<usize>)
        ensures
            match cell_at_spec(self.doc.table@, self.range.start as int) {
                Some((i, j)) => r == Some(j as usize),
                None => r is None,
            },
            r matches Some(j) ==> exists|i: int|
                0 <= i < self.doc.table.rows@.len() && j < self.doc.table.rows@[i].cells@.len()
                    && cell_at_spec(self.doc.table@, self.range.start as int) == Some((i, j as int)),
    {
        match self.cell_at_cursor() {
            Some((_, column)) => Some(column),
            None => None,
        }
    }
}

/// Whether a client filter entry `o` selects the kind named `k` (both as
/// bytes): equal, or a prefix ending at a dot (`source` selects
/// `source.fixAll`; `quickfix` does not select `quickfixes`).
pub open spec fn kind_selected_by(k: Seq<u8>, o: Seq<u8>) -> bool {
    k == o || (o.len() < k.len() && k.subrange(0, o.len() as int) == o && k[o.len() as int] == 46u8)
}

/// The client's kind filter as bytes.
pub open spec fn only_view(only: Option<Vec<String>>) -> Option<Seq<Seq<u8>>> {
    match only {
        None => None,
        Some(os) => Some(os@.map_values(|o: String| string_bytes(o))),
    }
}

/// Whether some filter entry of `os` selects the kind named `k`.
pub open spec fn any_selects(os: Seq<Seq<u8>>, k: Seq<u8>) -> bool {
    exists|i: int| 0 <= i < os.len() && kind_selected_by(k, #[trigger] os[i])
}

/// Whether the client's filter admits kind `k`.
pub open spec fn kind_matches(only: Option<Seq<Seq<u8>>>, k: ActionKind) -> bool {
    match only {
        None => true,
        Some(os) => any_selects(os, encode_utf8(kind_name(k))),
    }
}

/// Whether filter entry `o` selects the kind named `k`.
fn selects(k: &[u8], o: &[u8]) -> (r: bool)
    ensures
        r == kind_selected_by(k@, o@),
{
    if o.len() > k.len() {
        return false;
    }
    let mut i: usize = 0;
    while i < o.len()
        invariant
            o@.len() <= k@.len(),
            i <= o@.len(),
            forall|x: int| 0 <= x < i ==> k@[x] == o@[x],
        decreases o@.len() - i,
    {
        if k[i] != o[i] {
            proof {
                assert(k@.subrange(0, o@.len() as int)[i as int] != o@[i as int]);
                if k@ == o@ {
                    assert(k@[i as int] == o@[i as int]);
                }
            }
            return false;
        }
        i = i + 1;
    }
    assert(k@.subrange(0, o@.len() as int) =~= o@);
    if o.len() == k.len() {
        assert(k@ =~= o@);
        true
    } else {
        k[o.len()] == 46u8
    }
}

/// Whether the client's filter admits kind `k`.
pub fn kind_admitted(only: &Option<Vec<String>>, k: ActionKind) -> (r: bool)
    ensures
        r == kind_matches(only_view(*only), k),
{
    match only {
        None => true,
        Some(os) => {
            let kb = k.as_str().as_bytes();
            let ghost ov = os@.map_values(|o: String| string_bytes(o));
            assert(only_view(*only) == Some(ov));
            let mut i: usize = 0;
            while i < os.len()
                invariant
                    i <= os@.len(),
                    ov == os@.map_values(|o: String| string_bytes(o)),
                    only_view(*only) == Some(ov),
                    kb@ == encode_utf8(kind_name(k)),
                    forall|x: int| 0 <= x < i ==> !kind_selected_by(kb@, #[trigger] ov[x]),
                decreases os@.len() - i,
            {
                if selects(kb, os[i].as_str().as_bytes()) {
                    assert(kind_selected_by(encode_utf8(kind_name(k)), ov[i as int]));
                    assert(any_selects(ov, kb@));
                    return true;
                }
                i = i + 1;
            }
            false
        },
    }
}


/// A table parsed from `text`: what every rule and provider works on.
pub open spec fn parsed_from(table: &Table, text: &str) -> bool {
    table@ == spec_parse(text.spec_bytes(), table@.dialect)
}

/// A check over the parsed table producing diagnostics.
pub trait DiagnosticRule {
    /// Stable rule name (for logs).
    fn name(&self) -> &'static str;

    /// Run the rule over a table parsed from `text`.
    fn check(&self, text: &str, table: &Table) -> Vec<Diag>
        requires
            parsed_from(table, text),
    ;
}

/// A source of code actions for a context.
pub trait ActionProvider {
    /// Stable provider name (for logs).
    fn name(&self) -> &'static str;

    /// The actions this provider offers for `ctx`.
    fn actions(&self, ctx: &ActionContext) -> Vec<Action>
        requires
            ctx.wf(),
    ;
}


/// The registered diagnostic rules.
#[derive(Debug, Clone, Copy, PartialEq, Eq, Structural)]
pub enum Rule {
    /// [`parse_errors::ParseErrors`]
    ParseErrors,
    /// [`ragged_rows::RaggedRows`]
    RaggedRows,
}

/// The registered action providers.
#[derive(Debug, Clone, Copy, PartialEq, Eq, Structural)]
pub enum Provider {
    /// [`pad_rows::PadRows`]
    PadRows,
    /// [`align::AlignColumns`]
    AlignColumns,
    /// [`compact::CompactColumns`]
    CompactColumns,
    /// [`reinterpret::ReinterpretDialect`]
    ReinterpretDialect,
    /// [`transform::ConvertDialect`]
    ConvertDialect,
    /// [`quote::QuoteCells`]
    QuoteCells,
    /// [`columns::ColumnEdits`]
    ColumnEdits,
}

/// What a rule reports for table `t`.
pub open spec fn rule_output(rule: Rule, t: TableView) -> Seq<DiagView> {
    match rule {
        Rule::ParseErrors => parse_errors::parse_error_diags(t.errors),
        Rule::RaggedRows => ragged_rows::ragged_diags(t),
    }
}

/// What the rules `rules[0..k]` report, in rule order.
pub open spec fn rules_output(rules: Seq<Rule>, t: TableView, k: int) -> Seq<DiagView>
    decreases k,
{
    if k <= 0 {
        Seq::empty()
    } else {
        rules_output(rules, t, k - 1) + rule_output(rules[k - 1], t)
    }
}

/// What a provider offers for a document with text `b`, table `t` and
/// dialect `d`, and the requested range.
pub open spec fn provider_output(p: Provider, b: Seq<u8>, t: TableView, d: Dialect, range: Span) -> Seq<ActionView> {
    match p {
        Provider::PadRows => pad_rows::pad_actions(t, range),
        Provider::AlignColumns => align::align_actions(b, t),
        Provider::CompactColumns => compact::compact_actions(b, t),
        Provider::ReinterpretDialect => reinterpret::reinterpret_upto(d, 4),
        Provider::ConvertDialect => transform::convert_actions(b, t, d),
        Provider::QuoteCells => quote::quote_actions(b, t, d, range.start as int),
        Provider::ColumnEdits => columns::column_actions(b, t, range.start as int),
    }
}

/// The actions of `acts` whose kind the filter admits, in order.
pub open spec fn admitted(acts: Seq<ActionView>, only: Option<Seq<Seq<u8>>>) -> Seq<ActionView>
    decreases acts.len(),
{
    if acts.len() == 0 {
        acts
    } else {
        admitted(acts.drop_last(), only) + (if kind_matches(only, acts.last().kind) {
            seq![acts.last()]
        } else {
            Seq::empty()
        })
    }
}

/// What the providers `ps[0..k]` offer, filtered, in provider order.
pub open spec fn providers_output(
    ps: Seq<Provider>,
    b: Seq<u8>,
    t: TableView,
    d: Dialect,
    range: Span,
    only: Option<Seq<Seq<u8>>>,
    k: int,
) -> Seq<ActionView>
    decreases k,
{
    if k <= 0 {
        Seq::empty()
    } else {
        providers_output(ps, b, t, d, range, only, k - 1) + admitted(
            provider_output(ps[k - 1], b, t, d, range),
            only,
        )
    }
}

/// All registered features.
pub struct Registry {
    rules: Vec<Rule>,
    providers: Vec<Provider>,
}

impl Registry {
    /// The registered rules, in order.
    pub closed spec fn rules(&self) -> Seq<Rule> {
        self.rules@
    }

    /// The registered providers, in order.
    pub closed spec fn providers(&self) -> Seq<Provider> {
        self.providers@
    }

    /// The standard feature set: the single registration point.
    pub fn standard() -> (r: Self)
        ensures
            r.rules() == seq![Rule::ParseErrors, Rule::RaggedRows],
            r.providers() == seq![
                Provider::PadRows,
                Provider::AlignColumns,
                Provider::CompactColumns,
                Provider::ReinterpretDialect,
                Provider::ConvertDialect,
                Provider::QuoteCells,
                Provider::ColumnEdits,
            ],
    {
        let mut rules: Vec<Rule> = Vec::new();
        rules.push(Rule::ParseErrors);
        rules.push(Rule::RaggedRows);
        let mut providers: Vec<Provider> = Vec::new();
        providers.push(Provider::PadRows);
        providers.push(Provider::AlignColumns);
        providers.push(Provider::CompactColumns);
        providers.push(Provider::ReinterpretDialect);
        providers.push(Provider::ConvertDialect);
        providers.push(Provider::QuoteCells);
        providers.push(Provider::ColumnEdits);
        let r = Registry { rules, providers };
        assert(r.rules() =~= seq![Rule::ParseErrors, Rule::RaggedRows]);
        assert(r.providers() =~= seq![
            Provider::PadRows,
            Provider::AlignColumns,
            Provider::CompactColumns,
            Provider::ReinterpretDialect,
            Provider::ConvertDialect,
            Provider::QuoteCells,
            Provider::ColumnEdits,
        ]);
        r
    }

    /// All diagnostics for a parsed document, in rule order.
    pub fn diagnostics(&self, text: &str, table: &Table) -> (r: Vec<Diag>)
        requires
            parsed_from(table, text),
        ensures
            diags_view(r@) == rules_output(self.rules(), table@, self.rules().len() as int),
            forall|k: int| 0 <= k < r@.len() ==> span_addressable(text.spec_bytes(), #[trigger] r@[k].span),
    {
        let mut out: Vec<Diag> = Vec::new();
        let mut k: usize = 0;
        while k < self.rules.len()
            invariant
                parsed_from(table, text),
                k <= self.rules@.len(),
                diags_view(out@) == rules_output(self.rules@, table@, k as int),
                forall|x: int| 0 <= x < out@.len() ==> span_addressable(text.spec_bytes(), #[trigger] out@[x].span),
            decreases self.rules@.len() - k,
        {
            let mut found = match self.rules[k] {
                Rule::ParseErrors => parse_errors::ParseErrors.check(text, table),
                Rule::RaggedRows => ragged_rows::RaggedRows.check(text, table),
            };
            let ghost before = out@;
            let ghost added = found@;
            let ghost add = diags_view(found@);
            out.append(&mut found);
            proof {
                assert(diags_view(out@) =~= diags_view(before) + add);
                assert forall|x: int| 0 <= x < out@.len() implies span_addressable(text.spec_bytes(), #[trigger] out@[x].span) by {
                    if x < before.len() {
                        assert(out@[x] == before[x]);
                    } else {
                        assert(out@[x] == added[x - before.len()]);
                    }
                }
            }
            k = k + 1;
        }
        out
    }

    /// All actions for a context, in provider order, restricted to the
    /// kinds the client asked for (a filter entry selects its kind and every
    /// kind below it: `source` selects `source.fixAll`).
    pub fn actions(&self, ctx: &ActionContext) -> (r: Vec<Action>)
        requires
            ctx.wf(),
        ensures
            actions_view(r@) == providers_output(
                self.providers(),
                string_bytes(ctx.doc.text),
                ctx.doc.table@,
                ctx.doc.dialect,
                ctx.range,
                only_view(ctx.only),
                self.providers().len() as int,
            ),
            all_sound(string_bytes(ctx.doc.text), actions_view(r@)),
    {
        let ghost b = string_bytes(ctx.doc.text);
        let ghost t = ctx.doc.table@;
        let ghost ov = only_view(ctx.only);
        let mut out: Vec<Action> = Vec::new();
        let mut k: usize = 0;
        while k < self.providers.len()
            invariant
                ctx.wf(),
                b == string_bytes(ctx.doc.text),
                t == ctx.doc.table@,
                ov == only_view(ctx.only),
                k <= self.providers@.len(),
                actions_view(out@) == providers_output(
                    self.providers@,
                    b,
                    t,
                    ctx.doc.dialect,
                    ctx.range,
                    ov,
                    k as int,
                ),
                all_sound(b, actions_view(out@)),
            decreases self.providers@.len() - k,
        {
            let offered = match self.providers[k] {
                Provider::PadRows => pad_rows::PadRows.actions(ctx),
                Provider::AlignColumns => align::AlignColumns.actions(ctx),
                Provider::CompactColumns => compact::CompactColumns.actions(ctx),
                Provider::ReinterpretDialect => reinterpret::ReinterpretDialect.actions(ctx),
                Provider::ConvertDialect => transform::ConvertDialect.actions(ctx),
                Provider::QuoteCells => quote::QuoteCells.actions(ctx),
                Provider::ColumnEdits => columns::ColumnEdits.actions(ctx),
            };
            let ghost all = actions_view(offered@);
            assert(all == provider_output(self.providers@[k as int], b, t, ctx.doc.dialect, ctx.range));
            let ghost start = out@;
            let mut offered = offered;
            let mut m: usize = 0;
            let n = offered.len();
            while offered.len() > 0
                invariant
                    ov == only_view(ctx.only),
                    offered@.len() + m == n,
                    n == all.len(),
                    forall|x: int| 0 <= x < offered@.len() ==> (#[trigger] offered@[x])@ == all[m + x],
                    actions_view(out@) == actions_view(start) + admitted(all.subrange(0, m as int), ov),
                    all_sound(b, all),
                    all_sound(b, actions_view(out@)),
                decreases offered@.len(),
            {
                let action = offered.remove(0);
                assert(action@ == all[m as int]);
                let ghost prev = out@;
                let ghost av = action@;
                let keep = kind_admitted(&ctx.only, action.kind);
                if keep {
                    out.push(action);
                }
                proof {
                    let sub = all.subrange(0, m + 1);
                    assert(sub.drop_last() =~= all.subrange(0, m as int));
                    assert(sub.last() == av);
                    assert(admitted(sub, ov) == admitted(all.subrange(0, m as int), ov) + (if kind_matches(ov, av.kind) {
                        seq![av]
                    } else {
                        Seq::empty()
                    }));
                    if keep {
                        assert(actions_view(out@) =~= actions_view(prev).push(av));
                    } else {
                        assert(actions_view(out@) =~= actions_view(prev));
                    }
                    assert(action_sound(b, all[m as int]));
                    assert forall|x: int| 0 <= x < out@.len() implies action_sound(b, #[trigger] actions_view(out@)[x]) by {
                        if x < prev.len() {
                            assert(actions_view(out@)[x] == actions_view(prev)[x]);
                        }
                    }
                    assert(actions_view(out@) =~= actions_view(start) + admitted(sub, ov));
                }
                m = m + 1;
            }
            proof {
                assert(all.subrange(0, m as int) =~= all);
            }
            k = k + 1;
        }
        out
    }
}

} // verus!
