//! Byte-level facts about UTF-8 text shared by the parser, the renderer and
//! the edit helpers: every offset in this crate is a byte offset into the
//! UTF-8 encoding of a `str`.

use vstd::prelude::*;
use vstd::string::StringSliceAdditionalSpecFns;
use vstd::utf8::*;

use crate::edits::append_range;

verus! {

broadcast use vstd::utf8::group_utf8_lib;

/// The bytes of a `String`.
pub open spec fn string_bytes(s: String) -> Seq<u8> {
    encode_utf8(s@)
}

/// ASCII bytes are whole characters: in valid UTF-8 both sides of an ASCII
/// byte are character boundaries.
pub proof fn lemma_ascii_boundaries(b: Seq<u8>, i: int)
    requires
        valid_utf8(b),
        0 <= i < b.len(),
        b[i] < 0x80,
    ensures
        is_char_boundary(b, i),
        is_char_boundary(b, i + 1),
{
    is_char_boundary_iff_not_is_continuation_byte(b, i);
    if i + 1 < b.len() {
        valid_utf8_split(b, i);
        let rest = b.subrange(i, b.len() as int);
        assert(valid_first_scalar(rest));
        assert(length_of_first_scalar(rest) == 1);
        let rest2 = b.subrange(i + 1, b.len() as int);
        assert(pop_first_scalar(rest) =~= rest2);
        assert(valid_utf8(rest2));
        assert(valid_first_scalar(rest2));
        assert(rest2[0] == b[i + 1]);
        is_char_boundary_iff_not_is_continuation_byte(b, i + 1);
    } else {
        is_char_boundary_start_end_of_seq(b);
    }
}

/// A boundary of a text is a boundary of its suffix starting at another
/// boundary.
pub proof fn lemma_suffix_boundary(b: Seq<u8>, start: int, end: int)
    requires
        valid_utf8(b),
        0 <= start <= end <= b.len(),
        is_char_boundary(b, start),
        is_char_boundary(b, end),
    ensures
        valid_utf8(b.subrange(start, b.len() as int)),
        is_char_boundary(b.subrange(start, b.len() as int), end - start),
{
    valid_utf8_split(b, start);
    let t = b.subrange(start, b.len() as int);
    if end == b.len() {
        is_char_boundary_start_end_of_seq(t);
    } else {
        is_char_boundary_iff_not_is_continuation_byte(b, end);
        assert(t[end - start] == b[end]);
        is_char_boundary_iff_not_is_continuation_byte(t, end - start);
    }
}

/// The bytes `start..end` of `s` as a string slice.
pub fn substr(s: &str, start: usize, end: usize) -> (r: &str)
    requires
        start <= end <= s.spec_bytes().len(),
        is_char_boundary(s.spec_bytes(), start as int),
        is_char_boundary(s.spec_bytes(), end as int),
    ensures
        r.spec_bytes() == s.spec_bytes().subrange(start as int, end as int),
{
    proof {
        encode_utf8_valid_utf8(s@);
        lemma_suffix_boundary(s.spec_bytes(), start as int, end as int);
    }
    let (_, tail) = s.split_at(start);
    proof {
        assert(tail.spec_bytes() =~= s.spec_bytes().subrange(start as int, s.spec_bytes().len() as int));
    }
    let (mid, _) = tail.split_at(end - start);
    proof {
        assert(mid.spec_bytes() =~= s.spec_bytes().subrange(start as int, end as int));
    }
    mid
}

/// A byte range between two boundaries of valid text is valid text.
pub proof fn lemma_valid_subrange(b: Seq<u8>, i: int, j: int)
    requires
        valid_utf8(b),
        0 <= i <= j <= b.len(),
        is_char_boundary(b, i),
        is_char_boundary(b, j),
    ensures
        valid_utf8(b.subrange(i, j)),
{
    lemma_suffix_boundary(b, i, j);
    let t = b.subrange(i, b.len() as int);
    valid_utf8_split(t, j - i);
    assert(t.subrange(0, j - i) =~= b.subrange(i, j));
}

/// A single ASCII byte is valid text.
pub proof fn lemma_ascii_valid(x: u8)
    requires
        x < 0x80,
    ensures
        valid_utf8(seq![x]),
{
    let s = seq![x];
    assert(pop_first_scalar(s) =~= Seq::<u8>::empty());
    reveal_with_fuel(valid_utf8, 2);
}

/// Where two valid texts meet is a character boundary.
pub proof fn lemma_concat_boundary(x: Seq<u8>, y: Seq<u8>)
    requires
        valid_utf8(x),
        valid_utf8(x + y),
    ensures
        is_char_boundary(x + y, x.len() as int),
    decreases x.len(),
{
    let xy = x + y;
    if x.len() == 0 {
    } else {
        assert(xy[0] == x[0]);
        let l = length_of_first_scalar(x);
        assert(length_of_first_scalar(xy) == l);
        assert(forall|k: int| 0 <= k < l ==> xy[k] == x[k]);
        assert(pop_first_scalar(xy) =~= pop_first_scalar(x) + y);
        assert(pop_first_scalar(x).len() < x.len());
        lemma_concat_boundary(pop_first_scalar(x), y);
    }
}

/// A prefix shared with valid text, ending at one of its boundaries, is a
/// boundary of the other valid text too.
pub proof fn lemma_shared_prefix_boundary(a: Seq<u8>, b: Seq<u8>, p: int)
    requires
        valid_utf8(a),
        valid_utf8(b),
        0 <= p <= a.len(),
        p <= b.len(),
        is_char_boundary(a, p),
        a.subrange(0, p) == b.subrange(0, p),
    ensures
        is_char_boundary(b, p),
{
    is_char_boundary_start_end_of_seq(a);
    lemma_valid_subrange(a, 0, p);
    assert(b =~= b.subrange(0, p) + b.subrange(p, b.len() as int));
    lemma_concat_boundary(b.subrange(0, p), b.subrange(p, b.len() as int));
}

/// Where a valid suffix starts is a boundary.
pub proof fn lemma_valid_suffix_boundary(b: Seq<u8>, p: int)
    requires
        valid_utf8(b),
        0 <= p <= b.len(),
        valid_utf8(b.subrange(p, b.len() as int)),
    ensures
        is_char_boundary(b, p),
{
    if p == b.len() {
        is_char_boundary_start_end_of_seq(b);
    } else {
        let t = b.subrange(p, b.len() as int);
        assert(valid_first_scalar(t));
        assert(t[0] == b[p]);
        is_char_boundary_iff_not_is_continuation_byte(b, p);
    }
}

/// The bytes of the byte-order mark U+FEFF.
pub open spec fn bom_bytes() -> Seq<u8> {
    seq![0xEFu8, 0xBBu8, 0xBFu8]
}

/// The byte-order mark is one valid character.
pub proof fn lemma_bom_valid()
    ensures
        valid_utf8(bom_bytes()),
{
    let s = bom_bytes();
    assert(is_leading_byte_width_3(s[0]));
    assert(length_of_first_scalar(s) == 3);
    let (b0, b1, b2) = (0xEFu8, 0xBBu8, 0xBFu8);
    assert((((b0 & 0x0F) as u32) << 12) | (((b1 & 0x3f) as u32) << 6) | ((b2 & 0x3f) as u32)
        == 0xFEFFu32) by (bit_vector)
        requires
            b0 == 0xEFu8,
            b1 == 0xBBu8,
            b2 == 0xBFu8,
    ;
    assert(decode_first_codepoint(s) == 0xFEFFu32);
    assert(pop_first_scalar(s) =~= Seq::<u8>::empty());
    reveal_with_fuel(valid_utf8, 2);
}

/// The text of bytes known to be valid UTF-8: a call of
/// `String::from_utf8`, which the standard library documents to succeed
/// on valid UTF-8 and to keep the bytes as they are.
#[verifier::external_body]
pub(crate) fn string_from_utf8(v: Vec<u8>) -> (s: String)
    requires
        valid_utf8(v@),
    ensures
        string_bytes(s) == v@,
{
    match String::from_utf8(v) {
        Ok(s) => s,
        Err(_) => String::new(),
    }
}

/// An owned copy of a string slice.
pub fn to_owned_string(s: &str) -> (r: String)
    ensures
        string_bytes(r) == s.spec_bytes(),
{
    s.to_owned()
}

/// The bytes of a `String`.
pub fn string_as_bytes(s: &String) -> (r: &[u8])
    ensures
        r@ == string_bytes(*s),
{
    s.as_str().as_bytes()
}


/// Whether two strings hold the same text.
pub fn same_text(a: &str, b: &str) -> (r: bool)
    ensures
        r == (a@ == b@),
{
    let x = a.as_bytes();
    let y = b.as_bytes();
    proof {
        encode_utf8_decode_utf8(a@);
        encode_utf8_decode_utf8(b@);
    }
    if x.len() != y.len() {
        return false;
    }
    let mut i: usize = 0;
    while i < x.len()
        invariant
            x@ == a.spec_bytes(),
            y@ == b.spec_bytes(),
            x@.len() == y@.len(),
            i <= x@.len(),
            forall|k: int| 0 <= k < i ==> x@[k] == y@[k],
        decreases x@.len() - i,
    {
        if x[i] != y[i] {
            return false;
        }
        i = i + 1;
    }
    assert(x@ =~= y@);
    true
}

/// Appends an ASCII byte, keeping the buffer valid UTF-8.
pub fn push_ascii(out: &mut Vec<u8>, x: u8)
    requires
        x < 0x80,
        valid_utf8(old(out)@),
    ensures
        final(out)@ == old(out)@.push(x),
        valid_utf8(final(out)@),
{
    proof {
        lemma_ascii_valid(x);
        valid_utf8_concat(old(out)@, seq![x]);
        assert(old(out)@ + seq![x] =~= old(out)@.push(x));
    }
    out.push(x);
}

/// Appends the bytes of a string, keeping the buffer valid UTF-8.
pub fn push_text(out: &mut Vec<u8>, s: &str)
    requires
        valid_utf8(old(out)@),
    ensures
        final(out)@ == old(out)@ + s.spec_bytes(),
        valid_utf8(final(out)@),
{
    let sb = s.as_bytes();
    proof {
        encode_utf8_valid_utf8(s@);
        valid_utf8_concat(old(out)@, sb@);
        assert(sb@.subrange(0, sb@.len() as int) =~= sb@);
    }
    append_range(out, sb, 0, sb.len());
}

/// The decimal digits of `n`, most significant first.
pub open spec fn decimal_bytes(n: nat) -> Seq<u8>
    decreases n,
{
    if n < 10 {
        seq![(48 + n) as u8]
    } else {
        decimal_bytes(n / 10) + seq![(48 + n % 10) as u8]
    }
}

/// Appends the decimal digits of `n`.
pub fn push_decimal(out: &mut Vec<u8>, n: usize)
    requires
        valid_utf8(old(out)@),
    ensures
        final(out)@ == old(out)@ + decimal_bytes(n as nat),
        valid_utf8(final(out)@),
    decreases n,
{
    if n >= 10 {
        push_decimal(out, n / 10);
    }
    let ghost mid = out@;
    push_ascii(out, 48u8 + (n % 10) as u8);
    assert(out@ =~= old(out)@ + decimal_bytes(n as nat)) by {
        if n >= 10 {
            assert(mid == old(out)@ + decimal_bytes((n / 10) as nat));
        } else {
            assert(mid == old(out)@);
        }
    }
}

} // verus!
