//! Content-derived document identifiers.
//!
//! A document's id is a deterministic hash of its text, so that two
//! documents with identical text collide by design and are deduplicated at
//! ingestion.  The hash is the 64-bit FNV-1a fold of the text's characters,
//! rendered as a lowercase hexadecimal string without leading zeros.

use vstd::prelude::*;
use vstd::wrapping::u64_specs;
use crate::text::push_char;

verus! {

/// The FNV-1a offset basis.
pub open spec fn fnv_basis() -> u64 {
    0xcbf29ce484222325u64
}

/// The FNV-1a prime.
pub open spec fn fnv_prime() -> u64 {
    0x100000001b3u64
}

/// The 64-bit FNV-1a fold of a character sequence: starting from the offset
/// basis, each character's scalar value is xor-ed in and the state is
/// multiplied by the FNV prime, wrapping modulo 2^64.
pub open spec fn fnv_accum(s: Seq<char>) -> u64
    decreases s.len(),
{
    if s.len() == 0 {
        fnv_basis()
    } else {
        u64_specs::wrapping_mul(fnv_accum(s.drop_last()) ^ ((s.last() as u32) as u64), fnv_prime())
    }
}

/// The lowercase hexadecimal digit for a value below 16.
pub open spec fn hex_digit(v: u64) -> char {
    if v == 0 {
        '0'
    } else if v == 1 {
        '1'
    } else if v == 2 {
        '2'
    } else if v == 3 {
        '3'
    } else if v == 4 {
        '4'
    } else if v == 5 {
        '5'
    } else if v == 6 {
        '6'
    } else if v == 7 {
        '7'
    } else if v == 8 {
        '8'
    } else if v == 9 {
        '9'
    } else if v == 10 {
        'a'
    } else if v == 11 {
        'b'
    } else if v == 12 {
        'c'
    } else if v == 13 {
        'd'
    } else if v == 14 {
        'e'
    } else {
        'f'
    }
}

/// The lowercase hexadecimal rendering of a 64-bit value, most significant
/// digit first, without leading zeros.
pub open spec fn hex_of(v: u64) -> Seq<char>
    decreases v,
{
    if v < 16 {
        seq![hex_digit(v)]
    } else {
        hex_of(v / 16).push(hex_digit(v % 16))
    }
}

/// The identifier assigned to a document whose text is `s`.
pub open spec fn id_of(s: Seq<char>) -> Seq<char> {
    hex_of(fnv_accum(s))
}

/// Decides [`hex_digit`].
fn hex_digit_char(v: u64) -> (c: char)
    requires
        v < 16,
    ensures
        c == hex_digit(v),
{
    if v == 0 {
        '0'
    } else if v == 1 {
        '1'
    } else if v == 2 {
        '2'
    } else if v == 3 {
        '3'
    } else if v == 4 {
        '4'
    } else if v == 5 {
        '5'
    } else if v == 6 {
        '6'
    } else if v == 7 {
        '7'
    } else if v == 8 {
        '8'
    } else if v == 9 {
        '9'
    } else if v == 10 {
        'a'
    } else if v == 11 {
        'b'
    } else if v == 12 {
        'c'
    } else if v == 13 {
        'd'
    } else if v == 14 {
        'e'
    } else {
        'f'
    }
}

/// Renders a 64-bit value in lowercase hexadecimal without leading zeros.
pub fn to_hex(v: u64) -> (r: String)
    ensures
        r@ == hex_of(v),
{
    let mut digits: Vec<char> = Vec::new();
    let mut x: u64 = v;
    loop
        invariant_except_break
            hex_of(v) =~= hex_of(x) + digits@.reverse(),
        ensures
            hex_of(v) =~= digits@.reverse(),
        decreases x,
    {
        digits.push(hex_digit_char(x % 16));
        proof {
            assert(digits@.reverse() =~= seq![hex_digit(x % 16)] + digits@.drop_last().reverse());
        }
        if x < 16 {
            proof {
                assert(x % 16 == x);
                assert(hex_of(x) =~= seq![hex_digit(x)]);
            }
            break ;
        }
        x = x / 16;
    }
    let mut r = String::new();
    let k = digits.len();
    for i in 0..k
        invariant
            k == digits@.len(),
            r@ =~= digits@.reverse().take(i as int),
    {
        push_char(&mut r, digits[k - 1 - i]);
        proof {
            assert(digits@.reverse()[i as int] == digits@[k - 1 - i]);
            assert(r@ =~= digits@.reverse().take(i + 1));
        }
    }
    proof {
        assert(digits@.reverse().take(k as int) =~= digits@.reverse());
    }
    r
}

/// The content hash of a text, as the document store uses for ids.
pub fn hash_string(text: &str) -> (r: String)
    ensures
        r@ == id_of(text@),
{
    let n = crate::text::s_len(text);
    let mut h: u64 = 0xcbf29ce484222325;
    proof {
        assert(text@.take(0) =~= Seq::<char>::empty());
    }
    for i in 0..n
        invariant
            n == text@.len(),
            h == fnv_accum(text@.take(i as int)),
    {
        let c = text.get_char(i);
        proof {
            assert(text@.take(i + 1).drop_last() =~= text@.take(i as int));
            assert(text@.take(i + 1).last() == text@[i as int]);
        }
        h = (h ^ ((c as u32) as u64)).wrapping_mul(0x100000001b3);
    }
    proof {
        assert(text@.take(n as int) =~= text@);
    }
    to_hex(h)
}

} // verus!
