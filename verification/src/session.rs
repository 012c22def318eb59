//! The decisions of a language-server session that are not about one
//! feature: position-encoding negotiation, the set-dialect command, the
//! code-action round trip that lets an applied conversion flip the
//! document's dialect, and column highlights. The protocol plumbing around
//! them (reading and writing messages) lives outside the library.

use vstd::prelude::*;
use vstd::string::StringSliceAdditionalSpecFns;
use vstd::utf8::encode_utf8;

use crate::dialect::{ascii_lower, dialect_named, Dialect};
use crate::document::{Document, Store};
use crate::features::columns::{column_content_spans, content_spans_upto};
use crate::features::{actions_view, only_view, providers_output, Action, ActionContext, Registry};
use crate::parse::{cell_at_spec, Span};
use crate::render::{converted_text, render, QuotePolicy, RenderOptions};
use crate::edits::{applied, law_minimize_then_apply};
use crate::features::transform::convert_edit_views;
use crate::features::ActionView;
use crate::parse::TableView;
use vstd::utf8::encode_utf8_valid_utf8;
use crate::text::{same_text, string_bytes, to_owned_string};
use crate::position::PositionEncoding;

verus! {

/// The one command the server executes on itself: re-parse a document
/// under a different dialect (`arguments: [uri, "csv"|"tsv"|"ssv"|"psv"]`).
/// Carried by the `Reinterpret as …` code actions.
pub const SET_DIALECT_COMMAND: &'static str = "csv-lsp.setDialect";

/// The encoding picked from a client's offer (wire names): `utf-8` when
/// offered (offsets are bytes already), else `utf-32`, else the protocol's
/// mandatory `utf-16`.
pub open spec fn negotiated(offered: Seq<Seq<char>>) -> PositionEncoding {
    if offered.contains("utf-8"@) {
        PositionEncoding::Utf8
    } else if offered.contains("utf-32"@) {
        PositionEncoding::Utf32
    } else {
        PositionEncoding::Utf16
    }
}

/// Whether `offered` holds `name`.
fn offers(offered: &Vec<String>, name: &str) -> (r: bool)
    ensures
        r == offered@.map_values(|s: String| s@).contains(name@),
{
    let ghost names = offered@.map_values(|s: String| s@);
    let mut i: usize = 0;
    while i < offered.len()
        invariant
            names == offered@.map_values(|s: String| s@),
            i <= offered@.len(),
            forall|k: int| 0 <= k < i ==> names[k] != name@,
        decreases offered@.len() - i,
    {
        if same_text(offered[i].as_str(), name) {
            assert(names[i as int] == name@);
            return true;
        }
        i = i + 1;
    }
    false
}

/// Pick the position encoding from the encodings a client offers (their
/// wire names): prefer `utf-8`, then `utf-32`, falling back to the
/// protocol's mandatory `utf-16`.
pub fn negotiate_position_encoding(offered: &Vec<String>) -> (r: PositionEncoding)
    ensures
        r == negotiated(offered@.map_values(|s: String| s@)),
{
    if offers(offered, "utf-8") {
        PositionEncoding::Utf8
    } else if offers(offered, "utf-32") {
        PositionEncoding::Utf32
    } else {
        PositionEncoding::Utf16
    }
}

/// The wire name of an encoding.
pub open spec fn encoding_name(enc: PositionEncoding) -> Seq<char> {
    match enc {
        PositionEncoding::Utf8 => "utf-8"@,
        PositionEncoding::Utf16 => "utf-16"@,
        PositionEncoding::Utf32 => "utf-32"@,
    }
}

/// The wire name of a negotiated encoding.
pub fn encoding_kind(enc: PositionEncoding) -> (r: &'static str)
    ensures
        r@ == encoding_name(enc),
{
    match enc {
        PositionEncoding::Utf8 => "utf-8",
        PositionEncoding::Utf16 => "utf-16",
        PositionEncoding::Utf32 => "utf-32",
    }
}

/// Whether a string is a URI as `lsp_types::Uri` parses it.
pub uninterp spec fn uri_parses(s: Seq<char>) -> bool;

/// Whether `s` parses as a URI: a call of `<lsp_types::Uri as FromStr>`,
/// whose result (a function of the string alone) this crate names
/// [`uri_parses`]. The parser it calls panics on input longer than
/// `i32::MAX` bytes, so such input is left out.
#[verifier::external_body]
fn parses_as_uri(s: &str) -> (r: bool)
    requires
        encode_utf8(s@).len() <= 0x7fff_ffff,
    ensures
        r == uri_parses(s@),
{
    s.parse::<lsp_types::Uri>().is_ok()
}

/// Why a set-dialect command was refused.
#[derive(Debug, Clone, Copy, PartialEq, Eq, Structural)]
pub enum CommandError {
    /// Not the one command this server executes.
    UnknownCommand,
    /// Not exactly `[uri, dialect]`.
    WrongArity {
        /// How many arguments came.
        got: usize,
    },
    /// The first argument is no URI string.
    InvalidUri,
    /// The second argument names no dialect.
    InvalidDialect,
}

/// The outcome of a command with name `command` and arguments `args`
/// (`None` for an argument that is no string).
pub open spec fn command_outcome(command: Seq<char>, args: Seq<Option<Seq<char>>>) -> Result<(Seq<char>, Dialect), CommandError> {
    if command != SET_DIALECT_COMMAND@ {
        Err(CommandError::UnknownCommand)
    } else if args.len() != 2 {
        Err(CommandError::WrongArity { got: args.len() as usize })
    } else if !(args[0] matches Some(u) && uri_parses(u)) {
        Err(CommandError::InvalidUri)
    } else if !(args[1] matches Some(d) && dialect_named(ascii_lower(encode_utf8(d))) is Some) {
        Err(CommandError::InvalidDialect)
    } else {
        Ok((args[0]->0, dialect_named(ascii_lower(encode_utf8(args[1]->0)))->0))
    }
}

/// The arguments as character sequences.
pub open spec fn args_view(args: Seq<Option<String>>) -> Seq<Option<Seq<char>>> {
    args.map_values(|a: Option<String>| match a {
        Some(s) => Some(s@),
        None => None,
    })
}

/// Validate a `workspace/executeCommand` request for the set-dialect
/// command: its name, then `[uri, dialect]` (a URI string and a dialect
/// name as `languageId`s spell it). A first argument longer than
/// `i32::MAX` bytes is more than the URI parser takes.
pub fn parse_set_dialect(command: &str, args: &Vec<Option<String>>) -> (r: Result<(String, Dialect), CommandError>)
    requires
        args@.len() > 0 && args@[0] is Some ==> string_bytes(args@[0]->0).len() <= 0x7fff_ffff,
    ensures
        match (r, command_outcome(command@, args_view(args@))) {
            (Ok((u, d)), Ok((u2, d2))) => u@ == u2 && d == d2,
            (Err(e), Err(e2)) => e == e2,
            _ => false,
        },
{
    let ghost av = args_view(args@);
    if !same_text(command, SET_DIALECT_COMMAND) {
        return Err(CommandError::UnknownCommand);
    }
    if args.len() != 2 {
        return Err(CommandError::WrongArity { got: args.len() });
    }
    assert(av[0] == match args@[0] {
        Some(s) => Some(s@),
        None => None::<Seq<char>>,
    });
    assert(av[1] == match args@[1] {
        Some(s) => Some(s@),
        None => None::<Seq<char>>,
    });
    let uri = match &args[0] {
        Some(u) => {
            if !parses_as_uri(u.as_str()) {
                return Err(CommandError::InvalidUri);
            }
            u
        },
        None => return Err(CommandError::InvalidUri),
    };
    let dialect = match &args[1] {
        Some(d) => match Dialect::from_language_id(d.as_str()) {
            Some(d) => d,
            None => return Err(CommandError::InvalidDialect),
        },
        None => return Err(CommandError::InvalidDialect),
    };
    Ok((uri.clone(), dialect))
}


/// Offered conversions as values: the converted text and its dialect.
pub open spec fn offers_view(os: Seq<(String, Dialect)>) -> Seq<(Seq<char>, Dialect)> {
    os.map_values(|o: (String, Dialect)| (o.0@, o.1))
}

/// The dialect of the first offer whose text is `text`.
pub open spec fn first_match(os: Seq<(Seq<char>, Dialect)>, text: Seq<char>) -> Option<Dialect>
    decreases os.len(),
{
    if os.len() == 0 {
        None
    } else if os[0].0 == text {
        Some(os[0].1)
    } else {
        first_match(os.drop_first(), text)
    }
}

/// Where the entry for `uri` sits among `entries`.
pub open spec fn entry_index(entries: Seq<(String, Vec<(String, Dialect)>)>, uri: Seq<char>) -> Option<int> {
    if exists|i: int| 0 <= i < entries.len() && (#[trigger] entries[i]).0@ == uri {
        Some(choose|i: int| 0 <= i < entries.len() && (#[trigger] entries[i]).0@ == uri)
    } else {
        None
    }
}

/// Dialect conversions offered in the last code-action response, per URI.
/// When a change carries exactly one of these texts, the user applied that
/// conversion and the document flips dialect. Entries go on every change
/// or close of their document, so dismissed actions cost nothing.
pub struct PendingTransforms {
    entries: Vec<(String, Vec<(String, Dialect)>)>,
}

/// Among entries with distinct URIs, the one holding `uri` is found.
proof fn lemma_entry_unique(entries: Seq<(String, Vec<(String, Dialect)>)>, uri: Seq<char>, j: int)
    requires
        forall|a: int, b: int| 0 <= a < b < entries.len() ==> (#[trigger] entries[a]).0@ != (#[trigger] entries[b]).0@,
        0 <= j < entries.len(),
        entries[j].0@ == uri,
    ensures
        entry_index(entries, uri) == Some(j),
{
    let k = choose|i: int| 0 <= i < entries.len() && (#[trigger] entries[i]).0@ == uri;
    if k < j {
        assert(entries[k].0@ != entries[j].0@);
    } else if j < k {
        assert(entries[j].0@ != entries[k].0@);
    }
}

impl PendingTransforms {
    /// The entries.
    pub closed spec fn entries(&self) -> Seq<(String, Vec<(String, Dialect)>)> {
        self.entries@
    }

    /// No two entries share a URI.
    pub open spec fn wf(&self) -> bool {
        forall|a: int, b: int|
            0 <= a < b < self.entries().len() ==> (#[trigger] self.entries()[a]).0@ != (#[trigger] self.entries()[b]).0@
    }

    /// The conversions pending for `uri`.
    pub open spec fn pending(&self, uri: Seq<char>) -> Option<Seq<(Seq<char>, Dialect)>> {
        match entry_index(self.entries(), uri) {
            Some(i) => Some(offers_view(self.entries()[i].1@)),
            None => None,
        }
    }

    /// Nothing pending anywhere.
    pub fn new() -> (r: Self)
        ensures
            r.wf(),
            forall|u: Seq<char>| #[trigger] r.pending(u) is None,
    {
        PendingTransforms { entries: Vec::new() }
    }

    /// Where the entry for `uri` sits.
    fn index_of(&self, uri: &str) -> (r: Option<usize>)
        requires
            self.wf(),
        ensures
            match r {
                Some(i) => entry_index(self.entries(), uri@) == Some(i as int) && i < self.entries().len(),
                None => entry_index(self.entries(), uri@) is None,
            },
    {
        let mut i: usize = 0;
        while i < self.entries.len()
            invariant
                self.wf(),
                i <= self.entries@.len(),
                forall|k: int| 0 <= k < i ==> (#[trigger] self.entries@[k]).0@ != uri@,
            decreases self.entries@.len() - i,
        {
            if same_text(self.entries[i].0.as_str(), uri) {
                proof {
                    lemma_entry_unique(self.entries@, uri@, i as int);
                }
                return Some(i);
            }
            i = i + 1;
        }
        None
    }

    /// Remove and return the entry for `uri`, if any.
    fn take(&mut self, uri: &str) -> (r: Option<Vec<(String, Dialect)>>)
        requires
            old(self).wf(),
        ensures
            final(self).wf(),
            final(self).pending(uri@) is None,
            forall|u: Seq<char>| u != uri@ ==> #[trigger] final(self).pending(u) == old(self).pending(u),
            match r {
                Some(os) => old(self).pending(uri@) == Some(offers_view(os@)),
                None => old(self).pending(uri@) is None,
            },
    {
        let ghost old_e = self.entries@;
        match self.index_of(uri) {
            Some(i) => {
                let (_, offers) = self.entries.remove(i);
                proof {
                    let e = self.entries@;
                    assert forall|a: int, b: int| 0 <= a < b < e.len() implies (#[trigger] e[a]).0@ != (#[trigger] e[b]).0@ by {
                        let a0 = if a < i { a } else { a + 1 };
                        let b0 = if b < i { b } else { b + 1 };
                        assert(e[a] == old_e[a0]);
                        assert(e[b] == old_e[b0]);
                    }
                    if exists|k: int| 0 <= k < e.len() && (#[trigger] e[k]).0@ == uri@ {
                        let k = choose|k: int| 0 <= k < e.len() && (#[trigger] e[k]).0@ == uri@;
                        let k0 = if k < i { k } else { k + 1 };
                        assert(e[k] == old_e[k0]);
                        lemma_entry_unique(old_e, uri@, k0);
                    }
                    assert forall|u: Seq<char>| u != uri@ implies #[trigger] self.pending(u) == old(self).pending(u) by {
                        if exists|k: int| 0 <= k < old_e.len() && (#[trigger] old_e[k]).0@ == u {
                            let k = choose|k: int| 0 <= k < old_e.len() && (#[trigger] old_e[k]).0@ == u;
                            lemma_entry_unique(old_e, u, k);
                            let k1 = if k < i { k } else { k - 1 };
                            assert(e[k1] == old_e[k]);
                            lemma_entry_unique(e, u, k1);
                        } else if exists|k: int| 0 <= k < e.len() && (#[trigger] e[k]).0@ == u {
                            let k = choose|k: int| 0 <= k < e.len() && (#[trigger] e[k]).0@ == u;
                            let k0 = if k < i { k } else { k + 1 };
                            assert(e[k] == old_e[k0]);
                        }
                    }
                }
                Some(offers)
            },
            None => None,
        }
    }

    /// Remember the conversions just offered for `uri`, replacing earlier
    /// ones.
    pub fn record(&mut self, uri: String, offers: Vec<(String, Dialect)>)
        requires
            old(self).wf(),
        ensures
            final(self).wf(),
            final(self).pending(uri@) == Some(offers_view(offers@)),
            forall|u: Seq<char>| u != uri@ ==> #[trigger] final(self).pending(u) == old(self).pending(u),
    {
        let ghost key = uri@;
        let ghost ov = offers_view(offers@);
        let _ = self.take(uri.as_str());
        let ghost snapshot = *self;
        let ghost mid = self.entries@;
        self.entries.push((uri, offers));
        proof {
            let e = self.entries@;
            let n = mid.len() as int;
            assert(entry_index(mid, key) is None);
            assert forall|a: int, b: int| 0 <= a < b < e.len() implies (#[trigger] e[a]).0@ != (#[trigger] e[b]).0@ by {
                if b == n {
                    assert(e[a] == mid[a]);
                }
            }
            lemma_entry_unique(e, key, n);
            assert forall|u: Seq<char>| u != key implies #[trigger] self.pending(u) == old(self).pending(u) by {
                assert(snapshot.pending(u) == old(self).pending(u));
                if exists|k: int| 0 <= k < mid.len() && (#[trigger] mid[k]).0@ == u {
                    let k = choose|k: int| 0 <= k < mid.len() && (#[trigger] mid[k]).0@ == u;
                    lemma_entry_unique(mid, u, k);
                    assert(e[k] == mid[k]);
                    lemma_entry_unique(e, u, k);
                } else if exists|k: int| 0 <= k < e.len() && (#[trigger] e[k]).0@ == u {
                    let k = choose|k: int| 0 <= k < e.len() && (#[trigger] e[k]).0@ == u;
                    assert(k < n);
                    assert(e[k] == mid[k]);
                }
            }
        }
    }

    /// Drop whatever was offered for `uri` (its document closed).
    pub fn forget(&mut self, uri: &str)
        requires
            old(self).wf(),
        ensures
            final(self).wf(),
            final(self).pending(uri@) is None,
            forall|u: Seq<char>| u != uri@ ==> #[trigger] final(self).pending(u) == old(self).pending(u),
    {
        let _ = self.take(uri);
    }

    /// A full-text change of `uri` arrived: drop its pending conversions
    /// and return the dialect of the one whose text the change carries
    /// exactly, if any (the user applied that conversion).
    pub fn take_override(&mut self, uri: &str, text: &str) -> (r: Option<Dialect>)
        requires
            old(self).wf(),
        ensures
            final(self).wf(),
            final(self).pending(uri@) is None,
            forall|u: Seq<char>| u != uri@ ==> #[trigger] final(self).pending(u) == old(self).pending(u),
            r == match old(self).pending(uri@) {
                Some(os) => first_match(os, text@),
                None => None,
            },
    {
        let offers = match self.take(uri) {
            Some(os) => os,
            None => return None,
        };
        let ghost ov = offers_view(offers@);
        assert(ov.subrange(0, ov.len() as int) =~= ov);
        let mut i: usize = 0;
        while i < offers.len()
            invariant
                self.wf(),
                self.pending(uri@) is None,
                forall|u: Seq<char>| u != uri@ ==> #[trigger] self.pending(u) == old(self).pending(u),
                old(self).pending(uri@) == Some(ov),
                ov == offers_view(offers@),
                i <= offers@.len(),
                first_match(ov, text@) == first_match(ov.subrange(i as int, ov.len() as int), text@),
            decreases offers@.len() - i,
        {
            let ghost rest = ov.subrange(i as int, ov.len() as int);
            assert(rest[0] == ov[i as int]);
            assert(rest.drop_first() =~= ov.subrange(i + 1, ov.len() as int));
            if same_text(offers[i].0.as_str(), text) {
                return Some(offers[i].1);
            }
            i = i + 1;
        }
        proof {
            assert(ov.subrange(i as int, ov.len() as int) =~= Seq::<(Seq<char>, Dialect)>::empty());
        }
        None
    }
}


/// The full text a document would have after converting it to `target`;
/// applying the conversion's edits to the current text gives exactly this
/// text.
pub fn converted(doc: &Document, target: Dialect) -> (r: String)
    requires
        doc.wf(),
    ensures
        string_bytes(r) == converted_text(string_bytes(doc.text), doc.table@, target),
        applied(string_bytes(doc.text), convert_edit_views(string_bytes(doc.text), doc.table@, target))
            == string_bytes(r),
{
    let opts = RenderOptions {
        dialect: target,
        align: None,
        quote_policy: QuotePolicy::PreserveOrRequired,
        line_terminator: doc.table.line_terminator,
        include_bom: doc.table.has_bom,
        final_newline: doc.table.ends_with_newline,
    };
    let r = render(doc.text.as_str(), &doc.table, &opts);
    let _n = doc.text.as_str().as_bytes().len();
    proof {
        encode_utf8_valid_utf8(doc.text@);
        encode_utf8_valid_utf8(r@);
        law_minimize_then_apply(string_bytes(doc.text), string_bytes(r));
    }
    r
}

/// The conversions among `acts`: for each action that switches the
/// dialect, in order, the converted text and the new dialect.
pub open spec fn conversions_of(acts: Seq<ActionView>, b: Seq<u8>, t: TableView) -> Seq<(Seq<u8>, Dialect)>
    decreases acts.len(),
{
    if acts.len() == 0 {
        Seq::empty()
    } else {
        conversions_of(acts.drop_last(), b, t) + match acts.last().dialect_change {
            Some(d) => seq![(converted_text(b, t, d), d)],
            None => Seq::empty(),
        }
    }
}

/// Offered conversions as bytes.
pub open spec fn offer_bytes(os: Seq<(String, Dialect)>) -> Seq<(Seq<u8>, Dialect)> {
    os.map_values(|o: (String, Dialect)| (string_bytes(o.0), o.1))
}

/// The dialect a full-text change of a document switches to: that of the
/// first conversion offered for it whose text the change carries, if any.
pub open spec fn change_dialect(offers: Option<Seq<(Seq<char>, Dialect)>>, text: Seq<char>) -> Option<Dialect> {
    match offers {
        Some(os) => first_match(os, text),
        None => None,
    }
}

/// A full-text change of `uri` to `text` at `version`: the document takes
/// the text and version, and the dialect of the conversion it applies when
/// the text is one offered for it (else it keeps its dialect); what was
/// offered for it is dropped. Returns `None` for unknown documents.
pub fn apply_full_change<'a>(
    store: &'a mut Store,
    pending: &mut PendingTransforms,
    uri: &str,
    version: i32,
    text: String,
) -> (r: Option<&'a Document>)
    requires
        old(store).wf(),
        old(pending).wf(),
    ensures
        final(store).wf(),
        final(pending).wf(),
        final(pending).pending(uri@) is None,
        forall|u: Seq<char>| u != uri@ ==> #[trigger] final(pending).pending(u) == old(pending).pending(u),
        final(store).same_elsewhere(old(store), uri@),
        match old(store).lookup(uri@) {
            None => r is None && final(store).lookup(uri@) is None,
            Some(before) => match r {
                Some(d) => {
                    &&& final(store).lookup(uri@) == Some(*d)
                    &&& d.uri == before.uri
                    &&& d.version == version
                    &&& d.text == text
                    &&& d.dialect == match change_dialect(old(pending).pending(uri@), text@) {
                        Some(x) => x,
                        None => before.dialect,
                    }
                },
                None => false,
            },
        },
{
    let dialect = pending.take_override(uri, text.as_str());
    store.change_as(uri, version, text, dialect)
}

/// Answer a code-action request for the byte range between `start` and
/// `end` (in either order): the registry's actions, filtered by the
/// client's kinds, and the conversions among them to remember for the
/// next change.
pub fn plan_code_actions(
    registry: &Registry,
    doc: &Document,
    start: usize,
    end: usize,
    only: Option<Vec<String>>,
) -> (r: (Vec<Action>, Vec<(String, Dialect)>))
    requires
        doc.wf(),
    ensures
        actions_view(r.0@) == providers_output(
            registry.providers(),
            string_bytes(doc.text),
            doc.table@,
            doc.dialect,
            Span {
                start: if start <= end { start } else { end },
                end: if start <= end { end } else { start },
            },
            only_view(only),
            registry.providers().len() as int,
        ),
        offer_bytes(r.1@) == conversions_of(actions_view(r.0@), string_bytes(doc.text), doc.table@),
{
    let range = if start <= end {
        Span::new(start, end)
    } else {
        Span::new(end, start)
    };
    let ctx = ActionContext { doc, range, only };
    let actions = registry.actions(&ctx);
    let ghost av = actions_view(actions@);
    let ghost b = string_bytes(doc.text);
    let ghost t = doc.table@;
    let mut offered: Vec<(String, Dialect)> = Vec::new();
    let mut i: usize = 0;
    while i < actions.len()
        invariant
            doc.wf(),
            b == string_bytes(doc.text),
            t == doc.table@,
            av == actions_view(actions@),
            i <= actions@.len(),
            offer_bytes(offered@) == conversions_of(av.subrange(0, i as int), b, t),
        decreases actions@.len() - i,
    {
        let ghost before = offered@;
        assert(av.subrange(0, i + 1).drop_last() =~= av.subrange(0, i as int));
        assert(av[i as int] == actions@[i as int]@);
        match actions[i].dialect_change {
            Some(d) => {
                let text = converted(doc, d);
                offered.push((text, d));
            },
            None => {},
        }
        proof {
            assert(offer_bytes(offered@) =~= conversions_of(av.subrange(0, i + 1), b, t));
        }
        i = i + 1;
    }
    assert(av.subrange(0, i as int) =~= av);
    (actions, offered)
}

/// The content spans of the column under offset `offset` across clean
/// rows, for document highlights; `None` when the offset is on no cell
/// (clients ask speculatively).
pub fn column_highlights(doc: &Document, offset: usize) -> (r: Option<Vec<Span>>)
    requires
        doc.wf(),
    ensures
        match cell_at_spec(doc.table@, offset as int) {
            None => r is None,
            Some((_i, j)) => r matches Some(spans) && spans@ == content_spans_upto(
                doc.table@,
                j,
                doc.table@.rows.len() as int,
            ),
        },
{
    match doc.table.cell_at(offset) {
        Some((_, column)) => Some(column_content_spans(&doc.table, column)),
        None => None,
    }
}

} // verus!
