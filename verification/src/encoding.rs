//! Reconciliation of character offsets and UTF-8 byte offsets.
//!
//! The pattern matcher reports byte offsets into the UTF-8 encoding of a
//! document, while every span the library stores is a pair of character
//! offsets.  This module relates the two: [`byte_offset`] gives the byte
//! position of a character index, and the lemmas here let a byte-level
//! substring match be carried over to a character-level one and back.

use vstd::prelude::*;
use vstd::utf8::{
    encode_scalar, encode_utf8, decode_utf8, valid_utf8, is_char_boundary,
    valid_first_scalar, length_of_first_scalar, pop_first_scalar, char_is_scalar,
    encode_utf8_valid_utf8, encode_utf8_decode_utf8, decode_utf8_encode_utf8,
    is_char_boundary_start_end_of_seq, is_char_boundary_iff_is_leading_byte,
    valid_utf8_split, decode_utf8_split,
};

verus! {

/// Number of bytes in the UTF-8 encoding of `s`.
pub open spec fn byte_len(s: Seq<char>) -> int {
    encode_utf8(s).len() as int
}

/// Byte offset of the `i`-th character of `s` in the UTF-8 encoding of `s`.
pub open spec fn byte_offset(s: Seq<char>, i: int) -> int {
    encode_utf8(s.take(i)).len() as int
}

/// UTF-8 encoding distributes over concatenation.
pub proof fn lemma_encode_utf8_concat(a: Seq<char>, b: Seq<char>)
    ensures
        encode_utf8(a + b) == encode_utf8(a) + encode_utf8(b),
    decreases a.len(),
{
    if a.len() == 0 {
        assert(a + b =~= b);
        assert(encode_utf8(a) + encode_utf8(b) =~= encode_utf8(b));
    } else {
        lemma_encode_utf8_concat(a.drop_first(), b);
        assert((a + b).drop_first() =~= a.drop_first() + b);
        assert((a + b)[0] == a[0]);
        assert(encode_utf8(a + b) =~= encode_utf8(a) + encode_utf8(b));
    }
}

/// A character subrange encodes to the corresponding byte subrange.
pub proof fn lemma_encode_subrange(s: Seq<char>, i: int, j: int)
    requires
        0 <= i <= j <= s.len(),
    ensures
        byte_offset(s, i) <= byte_offset(s, j) <= byte_len(s),
        byte_offset(s, j) == byte_offset(s, i) + byte_len(s.subrange(i, j)),
        encode_utf8(s.subrange(i, j)) == encode_utf8(s).subrange(
            byte_offset(s, i),
            byte_offset(s, j),
        ),
{
    lemma_encode_utf8_concat(s.take(i), s.subrange(i, j));
    assert(s.take(i) + s.subrange(i, j) =~= s.take(j));
    lemma_encode_utf8_concat(s.take(j), s.skip(j));
    assert(s.take(j) + s.skip(j) =~= s);
    assert(encode_utf8(s.subrange(i, j)) =~= encode_utf8(s).subrange(
        byte_offset(s, i),
        byte_offset(s, j),
    ));
}

/// One character advances the byte offset by the length of its encoding.
pub proof fn lemma_byte_offset_step(s: Seq<char>, i: int)
    requires
        0 <= i < s.len(),
    ensures
        byte_offset(s, i + 1) == byte_offset(s, i) + encode_scalar(s[i] as u32).len(),
        1 <= encode_scalar(s[i] as u32).len() <= 4,
{
    assert(s.take(i + 1) =~= s.take(i) + seq![s[i]]);
    lemma_encode_utf8_concat(s.take(i), seq![s[i]]);
    char_is_scalar(s[i]);
    assert(seq![s[i]].drop_first() =~= Seq::<char>::empty());
    assert(encode_utf8(Seq::<char>::empty()) =~= Seq::<u8>::empty());
    assert(seq![s[i]][0] == s[i]);
    assert(encode_utf8(seq![s[i]]) =~= encode_scalar(s[i] as u32) + encode_utf8(
        seq![s[i]].drop_first(),
    ));
    assert(encode_utf8(seq![s[i]]) =~= encode_scalar(s[i] as u32));
}

/// Byte offsets are strictly increasing in the character index.
pub proof fn lemma_byte_offset_strictly_increasing(s: Seq<char>, i: int, j: int)
    requires
        0 <= i < j <= s.len(),
    ensures
        byte_offset(s, i) < byte_offset(s, j),
    decreases j - i,
{
    lemma_byte_offset_step(s, i);
    if i + 1 < j {
        lemma_byte_offset_strictly_increasing(s, i + 1, j);
    }
}

/// The byte offset of the end of the text is the total byte length.
pub proof fn lemma_byte_offset_total(s: Seq<char>)
    ensures
        byte_offset(s, s.len() as int) == byte_len(s),
        byte_offset(s, 0) == 0,
{
    assert(s.take(s.len() as int) =~= s);
    assert(s.take(0) =~= Seq::<char>::empty());
}

/// A valid prefix of a valid UTF-8 byte sequence ends on a character boundary.
pub proof fn lemma_valid_prefix_boundary(v: Seq<u8>, n: int)
    requires
        valid_utf8(v),
        0 <= n <= v.len(),
        valid_utf8(v.subrange(0, n)),
    ensures
        is_char_boundary(v, n),
    decreases n,
{
    if n > 0 {
        let p = v.subrange(0, n);
        assert(valid_first_scalar(p));
        assert(valid_first_scalar(v));
        assert(p[0] == v[0]);
        let l = length_of_first_scalar(v);
        assert(length_of_first_scalar(p) == l);
        assert(l <= n);
        assert(pop_first_scalar(p) =~= pop_first_scalar(v).subrange(0, n - l));
        assert(valid_utf8(pop_first_scalar(p)));
        assert(valid_utf8(pop_first_scalar(v)));
        lemma_valid_prefix_boundary(pop_first_scalar(v), n - l);
        assert(is_char_boundary(v, n));
    }
}

/// A byte-level substring match of the encoding of a non-empty character
/// sequence `q` inside the encoding of `t` lies on character boundaries and
/// corresponds to a character-level match.
pub proof fn lemma_byte_match_to_char_match(t: Seq<char>, q: Seq<char>, s: int)
    requires
        q.len() > 0,
        0 <= s,
        s + byte_len(q) <= byte_len(t),
        encode_utf8(t).subrange(s, s + byte_len(q)) == encode_utf8(q),
    ensures
        exists|ci: int|
            0 <= ci && ci + q.len() <= t.len() && #[trigger] byte_offset(t, ci) == s
                && t.subrange(ci, ci + q.len() as int) == q,
{
    let w = encode_utf8(t);
    let p = encode_utf8(q);
    encode_utf8_valid_utf8(t);
    encode_utf8_valid_utf8(q);
    assert(p.len() > 0) by {
        assert(encode_scalar(q[0] as u32).len() >= 1);
    }
    // The first byte of the encoding of `q` is a leading byte, so the match
    // starts on a character boundary of `w`.
    is_char_boundary_start_end_of_seq(p);
    is_char_boundary_iff_is_leading_byte(p, 0);
    assert(w[s] == p[0]);
    is_char_boundary_iff_is_leading_byte(w, s);
    assert(is_char_boundary(w, s));
    valid_utf8_split(w, s);
    decode_utf8_split(w, s);
    encode_utf8_decode_utf8(t);
    let w1 = w.subrange(0, s);
    let v = w.subrange(s, w.len() as int);
    let ci = decode_utf8(w1).len() as int;
    assert(t =~= decode_utf8(w1) + decode_utf8(v));
    assert(t.take(ci) =~= decode_utf8(w1));
    // byte_offset(t, ci) == s
    decode_utf8_encode_utf8(w1);
    assert(encode_utf8(t.take(ci)) == w1);
    assert(byte_offset(t, ci) == s);
    // Within the tail `v`, the prefix `p` is valid, so it ends on a boundary
    // of `v`, and decoding it back yields `q`.
    assert(v.subrange(0, p.len() as int) =~= p);
    lemma_valid_prefix_boundary(v, p.len() as int);
    decode_utf8_split(v, p.len() as int);
    encode_utf8_decode_utf8(q);
    assert(decode_utf8(v) =~= q + decode_utf8(v.subrange(p.len() as int, v.len() as int)));
    assert(t.subrange(ci, ci + q.len() as int) =~= q);
    assert(ci + q.len() <= t.len());
    assert(0 <= ci && ci + q.len() <= t.len() && byte_offset(t, ci) == s && t.subrange(
        ci,
        ci + q.len() as int,
    ) == q);
}

/// A character-level match corresponds to a byte-level match of the
/// encodings, starting at the byte offset of the match's character offset.
pub proof fn lemma_char_match_to_byte_match(t: Seq<char>, q: Seq<char>, ci: int)
    requires
        0 <= ci,
        ci + q.len() <= t.len(),
        t.subrange(ci, ci + q.len() as int) == q,
    ensures
        byte_offset(t, ci) + byte_len(q) == byte_offset(t, ci + q.len()),
        0 <= byte_offset(t, ci),
        byte_offset(t, ci + q.len()) <= byte_len(t),
        encode_utf8(t).subrange(byte_offset(t, ci), byte_offset(t, ci) + byte_len(q))
            == encode_utf8(q),
{
    lemma_encode_subrange(t, ci, ci + q.len() as int);
    assert(byte_offset(t, 0) == 0) by {
        lemma_byte_offset_total(t);
    }
    if ci > 0 {
        lemma_byte_offset_strictly_increasing(t, 0, ci);
    }
}

/// The length in bytes of the UTF-8 encoding of one character.
pub fn utf8_len_of_char(c: char) -> (n: usize)
    ensures
        n == encode_scalar(c as u32).len(),
{
    proof {
        char_is_scalar(c);
    }
    let u = c as u32;
    if u < 0x80 {
        1
    } else if u < 0x800 {
        2
    } else if u < 0x10000 {
        3
    } else {
        4
    }
}

/// The number of bytes in the UTF-8 encoding of the string.
pub fn byte_count(s: &str) -> (n: usize)
    ensures
        n == byte_len(s@),
{
    s.as_bytes().len()
}

/// The byte offset of every character of `s`, plus the total byte length as
/// a final entry, in strictly increasing order.
pub fn char_starts(s: &str) -> (st: Vec<usize>)
    ensures
        st@.len() == s@.len() + 1,
        forall|i: int| 0 <= i <= s@.len() ==> #[trigger] st@[i] == byte_offset(s@, i),
{
    let total = byte_count(s);
    let n = s.unicode_len();
    let mut st: Vec<usize> = Vec::new();
    let mut acc: usize = 0;
    proof {
        lemma_byte_offset_total(s@);
    }
    st.push(0);
    for i in 0..n
        invariant
            n == s@.len(),
            total == byte_len(s@),
            st@.len() == i + 1,
            acc == byte_offset(s@, i as int),
            acc <= total,
            forall|j: int| 0 <= j <= i ==> #[trigger] st@[j] == byte_offset(s@, j),
    {
        let c = s.get_char(i);
        let l = utf8_len_of_char(c);
        proof {
            lemma_byte_offset_step(s@, i as int);
            if i + 1 < n {
                lemma_byte_offset_strictly_increasing(s@, i as int + 1, n as int);
            }
            lemma_byte_offset_total(s@);
        }
        acc = acc + l;
        st.push(acc);
    }
    st
}

/// Converts a pair of character offsets into byte offsets, with the clamping
/// the store applies when a span reaches past the end of the text: a start
/// offset at or past the end becomes byte 0, an end offset at or past the
/// end becomes the total byte length.
pub fn char_to_byte(text: &str, start: usize, end: usize) -> (r: (usize, usize))
    ensures
        r.0 == if start < text@.len() {
            byte_offset(text@, start as int)
        } else {
            0int
        },
        r.1 == if end < text@.len() {
            byte_offset(text@, end as int)
        } else {
            byte_len(text@)
        },
{
    let st = char_starts(text);
    proof {
        lemma_byte_offset_total(text@);
    }
    let n = st.len() - 1;
    let b_start = if start < n {
        st[start]
    } else {
        0
    };
    let b_end = if end < n {
        st[end]
    } else {
        st[n]
    };
    (b_start, b_end)
}

/// Decides whether a byte sequence is a valid UTF-8 encoding, in the sense
/// of `vstd::utf8::valid_utf8`.
pub fn is_valid_utf8(bytes: &[u8]) -> (r: bool)
    ensures
        r == valid_utf8(bytes@),
{
    let n = bytes.len();
    let mut i: usize = 0;
    assert(bytes@.skip(0) =~= bytes@);
    while i < n
        invariant
            i <= n,
            n == bytes@.len(),
            valid_utf8(bytes@) == valid_utf8(bytes@.skip(i as int)),
        decreases n - i,
    {
        let ghost rest = bytes@.skip(i as int);
        assert(rest.len() == n - i);
        assert(forall|k: int| 0 <= k < rest.len() ==> rest[k] == bytes@[i + k]);
        let b0 = bytes[i];
        let l: usize;
        if b0 <= 0x7f {
            l = 1;
            proof {
                assert(valid_first_scalar(rest));
            }
        } else if 0xc0 <= b0 && b0 <= 0xdf {
            if n - i < 2 || !(0x80 <= bytes[i + 1] && bytes[i + 1] <= 0xbf) {
                assert(!valid_first_scalar(rest));
                return false;
            }
            let b1 = bytes[i + 1];
            let cp: u32 = (((b0 & 0x1F) as u32) << 6) | ((b1 & 0x3F) as u32);
            if cp < 0x80 {
                assert(!valid_first_scalar(rest));
                return false;
            }
            l = 2;
            proof {
                assert((((b0 & 0x1F) as u32) << 6) | ((b1 & 0x3F) as u32) <= 0x7FF) by (bit_vector);
                assert(valid_first_scalar(rest));
            }
        } else if 0xe0 <= b0 && b0 <= 0xef {
            if n - i < 3 || !(0x80 <= bytes[i + 1] && bytes[i + 1] <= 0xbf) || !(0x80 <= bytes[i
                + 2] && bytes[i + 2] <= 0xbf) {
                assert(!valid_first_scalar(rest));
                return false;
            }
            let b1 = bytes[i + 1];
            let b2 = bytes[i + 2];
            let cp: u32 = (((b0 & 0x0F) as u32) << 12) | (((b1 & 0x3F) as u32) << 6) | ((b2
                & 0x3F) as u32);
            if cp < 0x800 || (0xD800 <= cp && cp <= 0xDFFF) {
                assert(!valid_first_scalar(rest));
                return false;
            }
            l = 3;
            proof {
                assert(valid_first_scalar(rest));
            }
        } else if 0xf0 <= b0 && b0 <= 0xf7 {
            if n - i < 4 || !(0x80 <= bytes[i + 1] && bytes[i + 1] <= 0xbf) || !(0x80 <= bytes[i
                + 2] && bytes[i + 2] <= 0xbf) || !(0x80 <= bytes[i + 3] && bytes[i + 3] <= 0xbf) {
                assert(!valid_first_scalar(rest));
                return false;
            }
            let b1 = bytes[i + 1];
            let b2 = bytes[i + 2];
            let b3 = bytes[i + 3];
            let cp: u32 = (((b0 & 0x07) as u32) << 18) | (((b1 & 0x3F) as u32) << 12) | (((b2
                & 0x3F) as u32) << 6) | ((b3 & 0x3F) as u32);
            if cp < 0x10000 || cp > 0x10FFFF {
                assert(!valid_first_scalar(rest));
                return false;
            }
            l = 4;
            proof {
                assert(valid_first_scalar(rest));
            }
        } else {
            assert(!valid_first_scalar(rest));
            return false;
        }
        proof {
            assert(length_of_first_scalar(rest) == l);
            assert(pop_first_scalar(rest) =~= bytes@.skip(i + l));
            assert(valid_utf8(rest) == valid_utf8(bytes@.skip(i + l)));
        }
        i = i + l;
    }
    assert(bytes@.skip(n as int) =~= Seq::<u8>::empty());
    true
}

/// Relies on `String::from_utf8`: succeeds exactly on valid UTF-8 input,
/// and the resulting string's characters are the decoding of the bytes.
#[verifier::external_body]
pub fn utf8_to_string(bytes: &Vec<u8>) -> (r: Option<String>)
    ensures
        (r is Some) == valid_utf8(bytes@),
        r matches Some(s) ==> s@ == decode_utf8(bytes@),
{
    String::from_utf8(bytes.clone()).ok()
}

/// The character index whose byte offset in `st` is exactly `b`, if any.
pub fn byte_to_char_index(st: &Vec<usize>, b: usize) -> (r: Option<usize>)
    ensures
        match r {
            Some(ci) => ci < st@.len() && st@[ci as int] == b,
            None => forall|i: int| 0 <= i < st@.len() ==> st@[i] != b,
        },
{
    for i in 0..st.len()
        invariant
            forall|j: int| 0 <= j < i ==> st@[j] != b,
    {
        if st[i] == b {
            return Some(i);
        }
    }
    None
}

} // verus!
