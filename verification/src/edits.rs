//! Turning a full re-render into a minimal edit, and applying edits.
//!
//! Trimming the identical outer bytes of two texts yields one small
//! replacement instead of a whole-document one, and no edit at all for
//! identical texts.

use vstd::prelude::*;
use vstd::string::StringSliceAdditionalSpecFns;
use vstd::utf8::*;

use crate::grammar::{CR, LF};
use crate::parse::Span;
use crate::text::{
    lemma_ascii_boundaries, lemma_shared_prefix_boundary, lemma_valid_subrange,
    lemma_valid_suffix_boundary, string_as_bytes, string_bytes, string_from_utf8, substr,
    to_owned_string,
};

verus! {

broadcast use vstd::utf8::group_utf8_lib;

/// An edit as a mathematical value: a span of the old text and the bytes
/// that replace it.
pub open spec fn edit_view(e: (Span, String)) -> (Span, Seq<u8>) {
    (e.0, string_bytes(e.1))
}

/// A list of edits as mathematical values.
pub open spec fn edits_view(es: Seq<(Span, String)>) -> Seq<(Span, Seq<u8>)> {
    es.map_values(|e: (Span, String)| edit_view(e))
}

/// Edits that can be applied to `b`: each within the text and on character
/// boundaries, none overlapping, in document order.
pub open spec fn edits_applicable(b: Seq<u8>, es: Seq<(Span, Seq<u8>)>) -> bool {
    &&& forall|i: int|
        #![trigger es[i]]
        0 <= i < es.len() ==> {
            &&& es[i].0.start <= es[i].0.end <= b.len()
            &&& is_char_boundary(b, es[i].0.start as int)
            &&& is_char_boundary(b, es[i].0.end as int)
        }
    &&& forall|i: int| 0 <= i < es.len() - 1 ==> #[trigger] es[i].0.end <= es[i + 1].0.start
}

/// No edit of `es` starts or ends between the `\r` and `\n` of a CRLF
/// break, so a client can address both ends of each.
pub open spec fn edits_whole(b: Seq<u8>, es: Seq<(Span, Seq<u8>)>) -> bool {
    forall|i: int|
        #![trigger es[i]]
        0 <= i < es.len() ==> !splits_crlf_at(b, es[i].0.start as int) && !splits_crlf_at(
            b,
            es[i].0.end as int,
        )
}

/// The text after applying `es[i..]` to `b`, copying from `cursor`.
pub open spec fn applied_from(b: Seq<u8>, es: Seq<(Span, Seq<u8>)>, i: int, cursor: int) -> Seq<u8>
    decreases es.len() - i,
{
    if i < 0 || i >= es.len() {
        b.subrange(cursor, b.len() as int)
    } else {
        b.subrange(cursor, es[i].0.start as int) + es[i].1 + applied_from(
            b,
            es,
            i + 1,
            es[i].0.end as int,
        )
    }
}

/// The text after applying the edits `es` to `b`.
pub open spec fn applied(b: Seq<u8>, es: Seq<(Span, Seq<u8>)>) -> Seq<u8> {
    applied_from(b, es, 0, 0)
}

/// The length of the common prefix of `a` and `b` from `i` on.
pub open spec fn common_prefix_from(a: Seq<u8>, b: Seq<u8>, i: int) -> int
    decreases a.len() - i,
{
    if 0 <= i < a.len() && i < b.len() && a[i] == b[i] {
        common_prefix_from(a, b, i + 1)
    } else {
        i
    }
}

/// Whether `a` and `b` agree at the `j`-th byte from their ends.
pub open spec fn same_from_end(a: Seq<u8>, b: Seq<u8>, j: int) -> bool {
    a[a.len() - 1 - j] == b[b.len() - 1 - j]
}

/// The length (at most `limit`) of the common suffix of `a` and `b`,
/// counting from `k`.
pub open spec fn common_suffix_from(a: Seq<u8>, b: Seq<u8>, k: int, limit: int) -> int
    decreases limit - k,
{
    if 0 <= k < limit && same_from_end(a, b, k) {
        common_suffix_from(a, b, k + 1, limit)
    } else {
        k
    }
}

/// The largest character boundary at or before `p`.
pub open spec fn snap_back(a: Seq<u8>, p: int) -> int
    decreases p,
{
    if p <= 0 || is_char_boundary(a, p) {
        p
    } else {
        snap_back(a, p - 1)
    }
}

/// The largest suffix length at most `s` that starts on a boundary.
pub open spec fn snap_suffix(a: Seq<u8>, s: int) -> int
    decreases s,
{
    if s <= 0 || is_char_boundary(a, a.len() - s) {
        s
    } else {
        snap_suffix(a, s - 1)
    }
}

/// Whether `p` points between the `\r` and `\n` of a CRLF break, the one
/// character boundary an LSP position cannot express.
pub open spec fn splits_crlf_at(a: Seq<u8>, p: int) -> bool {
    0 < p < a.len() && a[p - 1] == CR && a[p] == LF
}

/// Where the minimal edit from `a` to `b` starts.
pub open spec fn edit_start(a: Seq<u8>, b: Seq<u8>) -> int {
    let p = snap_back(a, common_prefix_from(a, b, 0));
    if splits_crlf_at(a, p) {
        p - 1
    } else {
        p
    }
}

/// How many bytes at the end the minimal edit from `a` to `b` leaves alone.
pub open spec fn edit_keep_suffix(a: Seq<u8>, b: Seq<u8>) -> int {
    let p = edit_start(a, b);
    let limit = vstd::math::min(a.len() as int, b.len() as int) - p;
    let s = snap_suffix(a, common_suffix_from(a, b, 0, limit));
    if splits_crlf_at(a, a.len() - s) {
        s - 1
    } else {
        s
    }
}

/// The minimal edit turning `a` into `b`: none for equal texts, else one
/// replacement of the part between the common prefix and suffix.
pub open spec fn minimal_edits(a: Seq<u8>, b: Seq<u8>) -> Seq<(Span, Seq<u8>)> {
    if a == b {
        seq![]
    } else {
        let p = edit_start(a, b);
        let s = edit_keep_suffix(a, b);
        seq![
            (
                Span { start: p as usize, end: (a.len() - s) as usize },
                b.subrange(p, b.len() - s),
            ),
        ]
    }
}

proof fn lemma_common_prefix(a: Seq<u8>, b: Seq<u8>, i: int)
    requires
        0 <= i <= a.len(),
        i <= b.len(),
    ensures
        i <= common_prefix_from(a, b, i) <= a.len(),
        common_prefix_from(a, b, i) <= b.len(),
        forall|k: int| i <= k < common_prefix_from(a, b, i) ==> a[k] == b[k],
        common_prefix_from(a, b, i) < a.len() && common_prefix_from(a, b, i) < b.len() ==> a[common_prefix_from(a, b, i)] != b[common_prefix_from(a, b, i)],
    decreases a.len() - i,
{
    if i < a.len() && i < b.len() && a[i] == b[i] {
        lemma_common_prefix(a, b, i + 1);
    }
}

proof fn lemma_common_suffix(a: Seq<u8>, b: Seq<u8>, k: int, limit: int)
    requires
        0 <= k <= limit <= a.len(),
        limit <= b.len(),
    ensures
        k <= common_suffix_from(a, b, k, limit) <= limit,
        forall|j: int|
            k <= j < common_suffix_from(a, b, k, limit) ==> #[trigger] same_from_end(a, b, j),
    decreases limit - k,
{
    if k < limit && same_from_end(a, b, k) {
        lemma_common_suffix(a, b, k + 1, limit);
    }
}

proof fn lemma_snap_back(a: Seq<u8>, p: int)
    requires
        valid_utf8(a),
        0 <= p <= a.len(),
    ensures
        0 <= snap_back(a, p) <= p,
        is_char_boundary(a, snap_back(a, p)),
    decreases p,
{
    is_char_boundary_start_end_of_seq(a);
    if p > 0 && !is_char_boundary(a, p) {
        lemma_snap_back(a, p - 1);
    }
}

proof fn lemma_snap_suffix(a: Seq<u8>, s: int)
    requires
        valid_utf8(a),
        0 <= s <= a.len(),
    ensures
        0 <= snap_suffix(a, s) <= s,
        is_char_boundary(a, a.len() - snap_suffix(a, s)),
    decreases s,
{
    is_char_boundary_start_end_of_seq(a);
    if s > 0 && !is_char_boundary(a, a.len() - s) {
        lemma_snap_suffix(a, s - 1);
    }
}

/// The facts behind the minimal edit: where it starts and ends, that both
/// ends are boundaries of both texts that split no CRLF break, and that the
/// kept prefix and suffix are shared.
pub proof fn lemma_minimal_edit_bounds(a: Seq<u8>, b: Seq<u8>)
    requires
        valid_utf8(a),
        valid_utf8(b),
    ensures
        ({
            let p = edit_start(a, b);
            let s = edit_keep_suffix(a, b);
            &&& 0 <= p
            &&& 0 <= s
            &&& p + s <= a.len()
            &&& p + s <= b.len()
            &&& is_char_boundary(a, p)
            &&& is_char_boundary(a, a.len() - s)
            &&& is_char_boundary(b, p)
            &&& is_char_boundary(b, b.len() - s)
            &&& !splits_crlf_at(a, p)
            &&& !splits_crlf_at(a, a.len() - s)
            &&& a.subrange(0, p) == b.subrange(0, p)
            &&& a.subrange(a.len() - s, a.len() as int) == b.subrange(b.len() - s, b.len() as int)
        }),
{
    lemma_common_prefix(a, b, 0);
    let cp = common_prefix_from(a, b, 0);
    lemma_snap_back(a, cp);
    let p0 = snap_back(a, cp);
    let p = edit_start(a, b);
    if splits_crlf_at(a, p0) {
        lemma_ascii_boundaries(a, p0 - 1);
    }
    assert(a.subrange(0, p) =~= b.subrange(0, p));
    lemma_shared_prefix_boundary(a, b, p);
    let limit = vstd::math::min(a.len() as int, b.len() as int) - p;
    lemma_common_suffix(a, b, 0, limit);
    let s0 = common_suffix_from(a, b, 0, limit);
    lemma_snap_suffix(a, s0);
    let s1 = snap_suffix(a, s0);
    let s = edit_keep_suffix(a, b);
    if splits_crlf_at(a, a.len() - s1) {
        lemma_ascii_boundaries(a, a.len() - s1);
    }
    assert forall|k: int| 0 <= k < s implies #[trigger] a.subrange(a.len() - s, a.len() as int)[k]
        == b.subrange(b.len() - s, b.len() as int)[k] by {
        assert(same_from_end(a, b, s - 1 - k));
    }
    assert(a.subrange(a.len() - s, a.len() as int) =~= b.subrange(b.len() - s, b.len() as int));
    lemma_valid_subrange(a, a.len() - s, a.len() as int);
    is_char_boundary_start_end_of_seq(a);
    lemma_valid_suffix_boundary(b, b.len() - s);
}

/// Applying the minimal edit from `a` to `b` to `a` gives `b`; the edit
/// list is empty exactly when the texts are equal, holds at most one edit,
/// and that edit is applicable and splits no CRLF break.
pub proof fn law_minimize_then_apply(a: Seq<u8>, b: Seq<u8>)
    requires
        valid_utf8(a),
        valid_utf8(b),
        a.len() <= usize::MAX,
    ensures
        minimal_edits(a, b).len() <= 1,
        minimal_edits(a, b).len() == 0 <==> a == b,
        edits_applicable(a, minimal_edits(a, b)),
        forall|i: int|
            0 <= i < minimal_edits(a, b).len() ==> !splits_crlf_at(
                a,
                #[trigger] minimal_edits(a, b)[i].0.start as int,
            ) && !splits_crlf_at(a, minimal_edits(a, b)[i].0.end as int),
        applied(a, minimal_edits(a, b)) == b,
{
    if a == b {
        assert(applied(a, minimal_edits(a, b)) =~= a.subrange(0, a.len() as int));
    } else {
        lemma_minimal_edit_bounds(a, b);
        let p = edit_start(a, b);
        let s = edit_keep_suffix(a, b);
        let es = minimal_edits(a, b);
        assert(es[0].0.start == p);
        assert(es[0].0.end == a.len() - s);
        assert(applied_from(a, es, 1, a.len() - s) == a.subrange(a.len() - s, a.len() as int));
        assert(applied(a, es) == a.subrange(0, p) + b.subrange(p, b.len() - s) + a.subrange(
            a.len() - s,
            a.len() as int,
        ));
        assert(b =~= b.subrange(0, p) + b.subrange(p, b.len() - s) + b.subrange(
            b.len() - s,
            b.len() as int,
        ));
        assert(applied(a, es) =~= b);
    }
}

/// Splice non-overlapping, document-ordered edits into `text`.
pub fn apply(text: &str, edits: &[(Span, String)]) -> (r: String)
    requires
        edits_applicable(text.spec_bytes(), edits_view(edits@)),
    ensures
        string_bytes(r) == applied(text.spec_bytes(), edits_view(edits@)),
{
    let b = text.as_bytes();
    let ghost es = edits_view(edits@);
    let ghost goal = applied(b@, es);
    proof {
        encode_utf8_valid_utf8(text@);
        is_char_boundary_start_end_of_seq(b@);
    }
    let mut out: Vec<u8> = Vec::new();
    let mut cursor: usize = 0;
    let mut i: usize = 0;
    while i < edits.len()
        invariant
            b@ == text.spec_bytes(),
            valid_utf8(b@),
            es == edits_view(edits@),
            edits_applicable(b@, es),
            goal == applied(b@, es),
            i <= edits@.len(),
            cursor <= b@.len(),
            is_char_boundary(b@, cursor as int),
            i < edits@.len() ==> cursor <= es[i as int].0.start,
            valid_utf8(out@),
            out@ + applied_from(b@, es, i as int, cursor as int) == goal,
        decreases edits@.len() - i,
    {
        let span = edits[i].0;
        let rep = string_as_bytes(&edits[i].1);
        assert(es[i as int] == (span, rep@));
        let ghost before = out@;
        proof {
            lemma_valid_subrange(b@, cursor as int, span.start as int);
            encode_utf8_valid_utf8(edits@[i as int].1@);
        }
        append_range(&mut out, b, cursor, span.start);
        append_range(&mut out, rep, 0, rep.len());
        proof {
            assert(rep@.subrange(0, rep@.len() as int) =~= rep@);
            valid_utf8_concat(before, b@.subrange(cursor as int, span.start as int));
            valid_utf8_concat(before + b@.subrange(cursor as int, span.start as int), rep@);
            assert(out@ + applied_from(b@, es, i + 1, span.end as int) =~= before
                + applied_from(b@, es, i as int, cursor as int));
            if i + 1 < edits@.len() {
                assert(es[i as int].0.end <= es[i + 1].0.start);
            }
        }
        cursor = span.end;
        i = i + 1;
    }
    let ghost before = out@;
    proof {
        lemma_valid_subrange(b@, cursor as int, b@.len() as int);
    }
    append_range(&mut out, b, cursor, b.len());
    proof {
        valid_utf8_concat(before, b@.subrange(cursor as int, b@.len() as int));
    }
    string_from_utf8(out)
}

/// Append `src[lo..hi]` to `out`.
pub fn append_range(out: &mut Vec<u8>, src: &[u8], lo: usize, hi: usize)
    requires
        lo <= hi <= src@.len(),
    ensures
        final(out)@ == old(out)@ + src@.subrange(lo as int, hi as int),
{
    let mut k = lo;
    while k < hi
        invariant
            lo <= k <= hi <= src@.len(),
            out@ == old(out)@ + src@.subrange(lo as int, k as int),
        decreases hi - k,
    {
        out.push(src[k]);
        assert(src@.subrange(lo as int, k + 1) =~= src@.subrange(lo as int, k as int).push(
            src@[k as int],
        ));
        k = k + 1;
    }
}

/// The smallest single replacement turning `old` into `new`: the common
/// prefix and suffix are trimmed (snapped to character boundaries and off
/// the middle of CRLF breaks). Empty for identical inputs.
pub fn minimize(old: &str, new: &str) -> (r: Vec<(Span, String)>)
    ensures
        edits_view(r@) == minimal_edits(old.spec_bytes(), new.spec_bytes()),
{
    let a = old.as_bytes();
    let b = new.as_bytes();
    proof {
        encode_utf8_valid_utf8(old@);
        encode_utf8_valid_utf8(new@);
        lemma_common_prefix(a@, b@, 0);
        lemma_minimal_edit_bounds(a@, b@);
    }
    let mut prefix: usize = 0;
    while prefix < a.len() && prefix < b.len() && a[prefix] == b[prefix]
        invariant
            prefix <= a@.len(),
            prefix <= b@.len(),
            common_prefix_from(a@, b@, 0) == common_prefix_from(a@, b@, prefix as int),
        decreases a@.len() - prefix,
    {
        prefix = prefix + 1;
    }
    if prefix == a.len() && prefix == b.len() {
        proof {
            lemma_common_prefix(a@, b@, 0);
            assert(a@ =~= b@);
        }
        return Vec::new();
    }
    proof {
        lemma_common_prefix(a@, b@, 0);
        if a@ == b@ {
            assert(a@[prefix as int] == b@[prefix as int]);
        }
        is_char_boundary_start_end_of_seq(a@);
    }
    while !old.is_char_boundary(prefix)
        invariant
            valid_utf8(a@),
            a@ == old.spec_bytes(),
            prefix <= a@.len(),
            snap_back(a@, common_prefix_from(a@, b@, 0)) == snap_back(a@, prefix as int),
            is_char_boundary(a@, 0),
        decreases prefix,
    {
        prefix = prefix - 1;
    }
    if splits_crlf(a, prefix) {
        prefix = prefix - 1;
    }
    assert(prefix == edit_start(a@, b@));
    let max_suffix = if a.len() < b.len() {
        a.len()
    } else {
        b.len()
    } - prefix;
    let mut suffix: usize = 0;
    while suffix < max_suffix && a[a.len() - 1 - suffix] == b[b.len() - 1 - suffix]
        invariant
            prefix + max_suffix <= a@.len(),
            prefix + max_suffix <= b@.len(),
            suffix <= max_suffix,
            common_suffix_from(a@, b@, 0, max_suffix as int) == common_suffix_from(
                a@,
                b@,
                suffix as int,
                max_suffix as int,
            ),
        decreases max_suffix - suffix,
    {
        suffix = suffix + 1;
    }
    proof {
        lemma_common_suffix(a@, b@, 0, max_suffix as int);
    }
    while !old.is_char_boundary(a.len() - suffix)
        invariant
            valid_utf8(a@),
            a@ == old.spec_bytes(),
            suffix <= a@.len(),
            snap_suffix(a@, common_suffix_from(a@, b@, 0, max_suffix as int)) == snap_suffix(
                a@,
                suffix as int,
            ),
            is_char_boundary(a@, a@.len() as int),
        decreases suffix,
    {
        suffix = suffix - 1;
    }
    let end_old = a.len() - suffix;
    if splits_crlf(a, end_old) {
        suffix = suffix - 1;
    }
    assert(suffix == edit_keep_suffix(a@, b@));
    let span = Span { start: prefix, end: a.len() - suffix };
    let replacement = to_owned_string(substr(new, prefix, b.len() - suffix));
    let mut r: Vec<(Span, String)> = Vec::new();
    r.push((span, replacement));
    proof {
        assert(edits_view(r@) =~= minimal_edits(a@, b@));
    }
    r
}

/// True when `offset` points between the `\r` and `\n` of a CRLF break.
fn splits_crlf(bytes: &[u8], offset: usize) -> (r: bool)
    requires
        offset <= bytes@.len(),
    ensures
        r == splits_crlf_at(bytes@, offset as int),
{
    offset > 0 && offset < bytes.len() && bytes[offset - 1] == CR && bytes[offset] == LF
}


/// Applying no edits gives the text back unchanged.
pub proof fn law_apply_nothing(b: Seq<u8>)
    ensures
        edits_applicable(b, Seq::empty()),
        applied(b, Seq::empty()) == b,
{
    assert(applied(b, Seq::empty()) =~= b.subrange(0, b.len() as int));
}


/// An edit after the others, within the text and on character boundaries,
/// keeps a list applicable.
pub proof fn lemma_push_applicable(b: Seq<u8>, es: Seq<(Span, Seq<u8>)>, e: (Span, Seq<u8>))
    requires
        edits_applicable(b, es),
        e.0.start <= e.0.end <= b.len(),
        is_char_boundary(b, e.0.start as int),
        is_char_boundary(b, e.0.end as int),
        es.len() > 0 ==> es.last().0.end <= e.0.start,
    ensures
        edits_applicable(b, es.push(e)),
{
    let es2 = es.push(e);
    assert forall|i: int| 0 <= i < es2.len() - 1 implies #[trigger] es2[i].0.end <= es2[i + 1].0.start by {
        if i + 1 < es.len() {
            assert(es[i].0.end <= es[i + 1].0.start);
        }
    }
    assert forall|i: int| #![trigger es2[i]] 0 <= i < es2.len() implies {
        &&& es2[i].0.start <= es2[i].0.end <= b.len()
        &&& is_char_boundary(b, es2[i].0.start as int)
        &&& is_char_boundary(b, es2[i].0.end as int)
    } by {
        if i < es.len() {
            assert(es2[i] == es[i]);
        }
    }
}

/// An edit whose ends are whole keeps a whole list whole.
pub proof fn lemma_push_whole(b: Seq<u8>, es: Seq<(Span, Seq<u8>)>, e: (Span, Seq<u8>))
    requires
        edits_whole(b, es),
        !splits_crlf_at(b, e.0.start as int),
        !splits_crlf_at(b, e.0.end as int),
    ensures
        edits_whole(b, es.push(e)),
{
    let es2 = es.push(e);
    assert forall|i: int| #![trigger es2[i]] 0 <= i < es2.len() implies !splits_crlf_at(b, es2[i].0.start as int)
        && !splits_crlf_at(b, es2[i].0.end as int) by {
        if i < es.len() {
            assert(es2[i] == es[i]);
        }
    }
}

} // verus!
