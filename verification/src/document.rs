//! Open-document state: text, version, dialect and derived indexes.
//!
//! The server advertises FULL document sync, so every change replaces the
//! whole text; derived state (line index, parse tree) is rebuilt eagerly —
//! CSV parsing is linear and cheap.

use vstd::prelude::*;
use vstd::string::StringSliceAdditionalSpecFns;

use crate::dialect::{ascii_lower, dialect_named, dialect_of_extension, extension_of, sniffed, Dialect};
use crate::grammar::spec_parse;
use crate::parse::{parse, Table};
use crate::position::{line_starts_of, LineIndex};
use crate::text::{same_text, string_bytes};
use crate::wellformed::{law_parse_whole, lemma_parse_fits, lemma_parse_ordered, table_fits, table_ordered, table_whole};
use vstd::utf8::encode_utf8_valid_utf8;

verus! {

/// The dialect a document opens with: `languageId` → file extension →
/// content sniffing → CSV.
pub open spec fn resolved_dialect(language_id: Seq<u8>, uri: Seq<u8>, text: Seq<u8>) -> Dialect {
    match dialect_named(ascii_lower(language_id)) {
        Some(d) => d,
        None => match (match extension_of(uri) {
            Some(e) => dialect_of_extension(ascii_lower(e)),
            None => None,
        }) {
            Some(d) => d,
            None => match sniffed(text) {
                Some(d) => d,
                None => Dialect::Csv,
            },
        },
    }
}

/// The parse of a text fits it (the length bound comes from the slice).
fn proof_fits(text: &str, dialect: Dialect)
    ensures
        table_fits(spec_parse(text.spec_bytes(), dialect), text.spec_bytes()),
        table_ordered(spec_parse(text.spec_bytes(), dialect)),
        table_whole(spec_parse(text.spec_bytes(), dialect), text.spec_bytes()),
        text.spec_bytes().len() <= usize::MAX,
{
    let _n = text.as_bytes().len();
    proof {
        encode_utf8_valid_utf8(text@);
        lemma_parse_fits(text.spec_bytes(), dialect);
        lemma_parse_ordered(text.spec_bytes(), dialect);
        law_parse_whole(text.spec_bytes(), dialect);
    }
}

/// A single open document with its derived state.
#[derive(Debug)]
pub struct Document {
    /// The document's URI exactly as sent by the client.
    pub uri: String,
    /// Client-side version, bumped on every change.
    pub version: i32,
    /// The full document text.
    pub text: String,
    /// Resolved once at open; stable across edits (a half-typed document
    /// must not flip dialect under the user's cursor).
    pub dialect: Dialect,
    /// Line-start index for position conversion; rebuilt on every change.
    pub line_index: LineIndex,
    /// The parse of `text` under `dialect`; rebuilt on every change.
    pub table: Table,
}

impl Document {
    /// The derived state belongs to the current text and dialect.
    pub open spec fn wf(&self) -> bool {
        &&& line_starts_of(string_bytes(self.text), self.line_index@)
        &&& self.table@ == spec_parse(string_bytes(self.text), self.dialect)
        &&& table_fits(self.table@, string_bytes(self.text))
        &&& table_ordered(self.table@)
        &&& table_whole(self.table@, string_bytes(self.text))
        &&& string_bytes(self.text).len() <= usize::MAX
    }

    /// Create a document, resolving the dialect with the precedence
    /// `languageId` → file extension → content sniffing → CSV.
    pub fn new(uri: String, language_id: &str, version: i32, text: String) -> (r: Self)
        ensures
            r.wf(),
            r.uri == uri,
            r.version == version,
            r.text == text,
            r.dialect == resolved_dialect(
                language_id.spec_bytes(),
                string_bytes(uri),
                string_bytes(text),
            ),
    {
        let dialect = match Dialect::from_language_id(language_id) {
            Some(d) => d,
            None => match Dialect::from_path(uri.as_str()) {
                Some(d) => d,
                None => match Dialect::sniff(text.as_str()) {
                    Some(d) => d,
                    None => Dialect::Csv,
                },
            },
        };
        let line_index = LineIndex::new(text.as_str());
        let table = parse(text.as_str(), dialect);
        proof_fits(text.as_str(), dialect);
        Document { uri, version, text, dialect, line_index, table }
    }

    /// Replace the text (FULL sync) and rebuild derived state.
    pub fn update(&mut self, version: i32, text: String)
        ensures
            final(self).wf(),
            final(self).uri == old(self).uri,
            final(self).version == version,
            final(self).text == text,
            final(self).dialect == old(self).dialect,
    {
        self.version = version;
        self.line_index = LineIndex::new(text.as_str());
        self.table = parse(text.as_str(), self.dialect);
        proof_fits(text.as_str(), self.dialect);
        self.text = text;
    }

    /// Parse the text under another dialect from now on (the text stays).
    pub fn set_dialect(&mut self, dialect: Dialect)
        requires
            old(self).wf(),
        ensures
            final(self).wf(),
            final(self).uri == old(self).uri,
            final(self).version == old(self).version,
            final(self).text == old(self).text,
            final(self).dialect == dialect,
    {
        self.dialect = dialect;
        self.table = parse(self.text.as_str(), dialect);
        proof_fits(self.text.as_str(), dialect);
    }
}


/// The index of the document with URI `uri` among `docs`.
pub open spec fn index_of_uri(docs: Seq<Document>, uri: Seq<char>) -> Option<int> {
    if exists|i: int| 0 <= i < docs.len() && (#[trigger] docs[i]).uri@ == uri {
        Some(choose|i: int| 0 <= i < docs.len() && (#[trigger] docs[i]).uri@ == uri)
    } else {
        None
    }
}

/// All currently open documents, keyed by URI.
#[derive(Debug)]
pub struct Store {
    docs: Vec<Document>,
}

impl Store {
    /// The open documents.
    pub closed spec fn docs(&self) -> Seq<Document> {
        self.docs@
    }

    /// Every document is consistent, and no two share a URI.
    pub open spec fn wf(&self) -> bool {
        &&& forall|i: int| 0 <= i < self.docs().len() ==> (#[trigger] self.docs()[i]).wf()
        &&& forall|i: int, j: int|
            0 <= i < j < self.docs().len() ==> (#[trigger] self.docs()[i]).uri@ != (#[trigger] self.docs()[j]).uri@
    }

    /// The open document with URI `uri`, if any.
    pub open spec fn lookup(&self, uri: Seq<char>) -> Option<Document> {
        match index_of_uri(self.docs(), uri) {
            Some(i) => Some(self.docs()[i]),
            None => None,
        }
    }

    /// Documents under other URIs are the same in both stores.
    pub open spec fn same_elsewhere(&self, other: &Store, uri: Seq<char>) -> bool {
        forall|u: Seq<char>| u != uri ==> #[trigger] self.lookup(u) == other.lookup(u)
    }

    /// An empty store.
    pub fn new() -> (r: Self)
        ensures
            r.wf(),
            forall|u: Seq<char>| #[trigger] r.lookup(u) is None,
    {
        Store { docs: Vec::new() }
    }

    /// Where the document with URI `uri` sits.
    fn position_of(&self, uri: &str) -> (r: Option<usize>)
        requires
            self.wf(),
        ensures
            match r {
                Some(i) => index_of_uri(self.docs(), uri@) == Some(i as int) && i < self.docs().len(),
                None => index_of_uri(self.docs(), uri@) is None,
            },
    {
        let mut i: usize = 0;
        while i < self.docs.len()
            invariant
                self.wf(),
                i <= self.docs@.len(),
                forall|k: int| 0 <= k < i ==> (#[trigger] self.docs@[k]).uri@ != uri@,
            decreases self.docs@.len() - i,
        {
            if same_text(self.docs[i].uri.as_str(), uri) {
                proof {
                    let j = choose|j: int| 0 <= j < self.docs@.len() && (#[trigger] self.docs@[j]).uri@ == uri@;
                    if j != i {
                        assert(self.docs@[j].uri@ == self.docs@[i as int].uri@);
                    }
                }
                return Some(i);
            }
            i = i + 1;
        }
        None
    }

    /// Look up an open document.
    pub fn get(&self, uri: &str) -> (r: Option<&Document>)
        requires
            self.wf(),
        ensures
            match r {
                Some(d) => self.lookup(uri@) == Some(*d),
                None => self.lookup(uri@) is None,
            },
    {
        match self.position_of(uri) {
            Some(i) => Some(&self.docs[i]),
            None => None,
        }
    }
}


/// Among documents with distinct URIs, the one holding `uri` is found.
proof fn lemma_index_unique(docs: Seq<Document>, uri: Seq<char>, j: int)
    requires
        forall|a: int, b: int| 0 <= a < b < docs.len() ==> (#[trigger] docs[a]).uri@ != (#[trigger] docs[b]).uri@,
        0 <= j < docs.len(),
        docs[j].uri@ == uri,
    ensures
        index_of_uri(docs, uri) == Some(j),
{
    let k = choose|i: int| 0 <= i < docs.len() && (#[trigger] docs[i]).uri@ == uri;
    if k < j {
        assert(docs[k].uri@ != docs[j].uri@);
    } else if j < k {
        assert(docs[j].uri@ != docs[k].uri@);
    }
}

/// Replacing or appending the document under `uri` leaves every other URI's
/// document where it was.
proof fn lemma_elsewhere(old_docs: Seq<Document>, new_docs: Seq<Document>, uri: Seq<char>, u: Seq<char>)
    requires
        forall|a: int, b: int| 0 <= a < b < old_docs.len() ==> (#[trigger] old_docs[a]).uri@ != (#[trigger] old_docs[b]).uri@,
        forall|a: int, b: int| 0 <= a < b < new_docs.len() ==> (#[trigger] new_docs[a]).uri@ != (#[trigger] new_docs[b]).uri@,
        u != uri,
        forall|k: int| 0 <= k < new_docs.len() && (#[trigger] new_docs[k]).uri@ != uri ==> k < old_docs.len() && new_docs[k] == old_docs[k],
        forall|k: int| 0 <= k < old_docs.len() && (#[trigger] old_docs[k]).uri@ != uri ==> k < new_docs.len() && new_docs[k] == old_docs[k],
    ensures
        match index_of_uri(new_docs, u) {
            Some(i) => Some(new_docs[i]),
            None => None,
        } == match index_of_uri(old_docs, u) {
            Some(i) => Some(old_docs[i]),
            None => None,
        },
{
    if exists|i: int| 0 <= i < old_docs.len() && (#[trigger] old_docs[i]).uri@ == u {
        let j = choose|i: int| 0 <= i < old_docs.len() && (#[trigger] old_docs[i]).uri@ == u;
        lemma_index_unique(old_docs, u, j);
        lemma_index_unique(new_docs, u, j);
    } else if exists|i: int| 0 <= i < new_docs.len() && (#[trigger] new_docs[i]).uri@ == u {
        let j = choose|i: int| 0 <= i < new_docs.len() && (#[trigger] new_docs[i]).uri@ == u;
        assert(old_docs[j].uri@ == u);
    }
}

impl Store {
    /// Track a newly opened document (replacing one under the same URI).
    pub fn open(&mut self, uri: String, language_id: &str, version: i32, text: String) -> (r: &Document)
        requires
            old(self).wf(),
        ensures
            final(self).wf(),
            final(self).lookup(uri@) == Some(*r),
            r.uri == uri,
            r.version == version,
            r.text == text,
            r.dialect == resolved_dialect(language_id.spec_bytes(), string_bytes(uri), string_bytes(text)),
            final(self).same_elsewhere(old(self), uri@),
    {
        let ghost old_docs = self.docs@;
        let ghost key = uri@;
        let doc = Document::new(uri, language_id, version, text);
        let i = match self.position_of(doc.uri.as_str()) {
            Some(i) => {
                self.docs.set(i, doc);
                i
            },
            None => {
                self.docs.push(doc);
                self.docs.len() - 1
            },
        };
        proof {
            assert forall|a: int, b: int| 0 <= a < b < self.docs@.len() implies (#[trigger] self.docs@[a]).uri@
                != (#[trigger] self.docs@[b]).uri@ by {
                if a == i && b < old_docs.len() {
                    assert(old_docs[b].uri@ != key);
                } else if b == i && a < old_docs.len() {
                    assert(old_docs[a].uri@ != key);
                }
            }
            lemma_index_unique(self.docs@, key, i as int);
            assert forall|u: Seq<char>| u != key implies #[trigger] self.lookup(u) == old(self).lookup(u) by {
                lemma_elsewhere(old_docs, self.docs@, key, u);
            }
        }
        &self.docs[i]
    }
}


impl Store {
    /// Apply a FULL-sync change, switching to `dialect` when given (an
    /// applied conversion). Returns `None` for unknown documents (a client
    /// protocol error that is tolerated).
    pub fn change_as(&mut self, uri: &str, version: i32, text: String, dialect: Option<Dialect>) -> (r: Option<&Document>)
        requires
            old(self).wf(),
        ensures
            final(self).wf(),
            final(self).same_elsewhere(old(self), uri@),
            match old(self).lookup(uri@) {
                None => r is None && final(self).lookup(uri@) is None,
                Some(before) => match r {
                    Some(d) => {
                        &&& final(self).lookup(uri@) == Some(*d)
                        &&& d.uri == before.uri
                        &&& d.version == version
                        &&& d.text == text
                        &&& d.dialect == match dialect {
                            Some(x) => x,
                            None => before.dialect,
                        }
                    },
                    None => false,
                },
            },
    {
        let ghost old_docs = self.docs@;
        let i = match self.position_of(uri) {
            Some(i) => i,
            None => return None,
        };
        let mut doc = self.docs.remove(i);
        doc.update(version, text);
        match dialect {
            Some(d) => doc.set_dialect(d),
            None => {},
        }
        self.docs.insert(i, doc);
        proof {
            assert forall|k: int| 0 <= k < self.docs@.len() implies (#[trigger] self.docs@[k]).wf() by {
                if k != i {
                    assert(self.docs@[k] == old_docs[k]);
                }
            }
            assert forall|a: int, b: int| 0 <= a < b < self.docs@.len() implies (#[trigger] self.docs@[a]).uri@
                != (#[trigger] self.docs@[b]).uri@ by {
                assert(self.docs@[a].uri == old_docs[a].uri);
                assert(self.docs@[b].uri == old_docs[b].uri);
            }
            lemma_index_unique(self.docs@, uri@, i as int);
            assert forall|u: Seq<char>| u != uri@ implies #[trigger] self.lookup(u) == old(self).lookup(u) by {
                lemma_elsewhere(old_docs, self.docs@, uri@, u);
            }
        }
        Some(&self.docs[i])
    }

    /// Apply a FULL-sync change. Returns `None` for unknown documents (a
    /// client protocol error that is tolerated).
    pub fn change(&mut self, uri: &str, version: i32, text: String) -> (r: Option<&Document>)
        requires
            old(self).wf(),
        ensures
            final(self).wf(),
            final(self).same_elsewhere(old(self), uri@),
            match old(self).lookup(uri@) {
                None => r is None && final(self).lookup(uri@) is None,
                Some(before) => match r {
                    Some(d) => {
                        &&& final(self).lookup(uri@) == Some(*d)
                        &&& d.uri == before.uri
                        &&& d.version == version
                        &&& d.text == text
                        &&& d.dialect == before.dialect
                    },
                    None => false,
                },
            },
    {
        self.change_as(uri, version, text, None)
    }

    /// Re-parse an open document under another dialect (the text stays).
    /// Returns `None` for unknown documents.
    pub fn set_dialect(&mut self, uri: &str, dialect: Dialect) -> (r: Option<&Document>)
        requires
            old(self).wf(),
        ensures
            final(self).wf(),
            final(self).same_elsewhere(old(self), uri@),
            match old(self).lookup(uri@) {
                None => r is None && final(self).lookup(uri@) is None,
                Some(before) => match r {
                    Some(d) => {
                        &&& final(self).lookup(uri@) == Some(*d)
                        &&& d.uri == before.uri
                        &&& d.version == before.version
                        &&& d.text == before.text
                        &&& d.dialect == dialect
                    },
                    None => false,
                },
            },
    {
        let ghost old_docs = self.docs@;
        let i = match self.position_of(uri) {
            Some(i) => i,
            None => return None,
        };
        let mut doc = self.docs.remove(i);
        doc.set_dialect(dialect);
        self.docs.insert(i, doc);
        proof {
            assert forall|k: int| 0 <= k < self.docs@.len() implies (#[trigger] self.docs@[k]).wf() by {
                if k != i {
                    assert(self.docs@[k] == old_docs[k]);
                }
            }
            assert forall|a: int, b: int| 0 <= a < b < self.docs@.len() implies (#[trigger] self.docs@[a]).uri@
                != (#[trigger] self.docs@[b]).uri@ by {
                assert(self.docs@[a].uri == old_docs[a].uri);
                assert(self.docs@[b].uri == old_docs[b].uri);
            }
            lemma_index_unique(self.docs@, uri@, i as int);
            assert forall|u: Seq<char>| u != uri@ implies #[trigger] self.lookup(u) == old(self).lookup(u) by {
                lemma_elsewhere(old_docs, self.docs@, uri@, u);
            }
        }
        Some(&self.docs[i])
    }

    /// Forget a closed document.
    pub fn close(&mut self, uri: &str)
        requires
            old(self).wf(),
        ensures
            final(self).wf(),
            final(self).lookup(uri@) is None,
            final(self).same_elsewhere(old(self), uri@),
    {
        let ghost old_docs = self.docs@;
        match self.position_of(uri) {
            Some(i) => {
                self.docs.remove(i);
                proof {
                    assert forall|a: int, b: int| 0 <= a < b < self.docs@.len() implies (#[trigger] self.docs@[a]).uri@
                        != (#[trigger] self.docs@[b]).uri@ by {
                        let a0 = if a < i { a } else { a + 1 };
                        let b0 = if b < i { b } else { b + 1 };
                        assert(self.docs@[a] == old_docs[a0]);
                        assert(self.docs@[b] == old_docs[b0]);
                    }
                    assert forall|k: int| 0 <= k < self.docs@.len() implies (#[trigger] self.docs@[k]).wf() by {
                        let k0 = if k < i { k } else { k + 1 };
                        assert(self.docs@[k] == old_docs[k0]);
                    }
                    if exists|k: int| 0 <= k < self.docs@.len() && (#[trigger] self.docs@[k]).uri@ == uri@ {
                        let k = choose|k: int| 0 <= k < self.docs@.len() && (#[trigger] self.docs@[k]).uri@ == uri@;
                        let k0 = if k < i { k } else { k + 1 };
                        assert(self.docs@[k] == old_docs[k0]);
                        lemma_index_unique(old_docs, uri@, k0);
                    }
                    assert forall|u: Seq<char>| u != uri@ implies #[trigger] self.lookup(u) == old(self).lookup(u) by {
                        if exists|k: int| 0 <= k < old_docs.len() && (#[trigger] old_docs[k]).uri@ == u {
                            let k = choose|k: int| 0 <= k < old_docs.len() && (#[trigger] old_docs[k]).uri@ == u;
                            lemma_index_unique(old_docs, u, k);
                            assert(k != i);
                            let k1 = if k < i { k } else { k - 1 };
                            assert(self.docs@[k1] == old_docs[k]);
                            lemma_index_unique(self.docs@, u, k1);
                        } else if exists|k: int| 0 <= k < self.docs@.len() && (#[trigger] self.docs@[k]).uri@ == u {
                            let k = choose|k: int| 0 <= k < self.docs@.len() && (#[trigger] self.docs@[k]).uri@ == u;
                            let k0 = if k < i { k } else { k + 1 };
                            assert(self.docs@[k] == old_docs[k0]);
                        }
                    }
                }
            },
            None => {},
        }
    }
}


impl Default for Store {
    /// An empty store.
    fn default() -> (r: Self)
        ensures
            r.wf(),
            forall|u: Seq<char>| #[trigger] r.lookup(u) is None,
    {
        Store::new()
    }
}

} // verus!
