//! Derivation of a 32-bit seed from a text token.

use vstd::prelude::*;

verus! {

/// The length of the longest token that is read as a decimal number.
pub const MAX_DECIMAL_LEN: usize = 10;

/// The polynomial rolling hash of `s`: starting from 0, each byte `b` turns
/// the hash `h` into `h * 31 + b`, modulo 2^32.
pub open spec fn hash_of(s: Seq<u8>) -> u32
    decreases s.len(),
{
    if s.len() == 0 {
        0
    } else {
        ((hash_of(s.drop_last()) * 31 + s.last()) % 0x1_0000_0000) as u32
    }
}

/// `b` is one of the ASCII digits `0` to `9`.
pub open spec fn is_digit(b: u8) -> bool {
    0x30 <= b <= 0x39
}

/// Every byte of `s` is an ASCII digit. The empty sequence qualifies.
pub open spec fn all_digits(s: Seq<u8>) -> bool {
    forall|i: int| 0 <= i < s.len() ==> is_digit(#[trigger] s[i])
}

/// The number that the digits of `s` write in base 10; 0 for the empty
/// sequence. Meaningful where `all_digits(s)` holds.
pub open spec fn decimal_value(s: Seq<u8>) -> int
    decreases s.len(),
{
    if s.len() == 0 {
        0
    } else {
        decimal_value(s.drop_last()) * 10 + (s.last() - 0x30)
    }
}

/// `s` is read as a number: at most ten bytes, all of them digits, writing a
/// value that fits in 32 bits.
pub open spec fn is_numeric_seed(s: Seq<u8>) -> bool {
    &&& s.len() <= MAX_DECIMAL_LEN
    &&& all_digits(s)
    &&& decimal_value(s) <= 0xFFFF_FFFF
}

/// The seed that a token stands for: its decimal value where it is read as a
/// number, its hash otherwise.
pub open spec fn seed_of(s: Seq<u8>) -> u32 {
    if is_numeric_seed(s) {
        decimal_value(s) as u32
    } else {
        hash_of(s)
    }
}

/// 10 to the power `n`.
pub open spec fn pow10(n: nat) -> int
    decreases n,
{
    if n == 0 {
        1
    } else {
        10 * pow10((n - 1) as nat)
    }
}

/// A sequence of `n` digits writes a value from 0 to `10^n - 1`.
pub proof fn lemma_decimal_value_bound(s: Seq<u8>)
    requires
        all_digits(s),
    ensures
        0 <= decimal_value(s) < pow10(s.len()),
    decreases s.len(),
{
    if s.len() > 0 {
        let front = s.drop_last();
        assert forall|i: int| 0 <= i < front.len() implies is_digit(#[trigger] front[i]) by {
            assert(front[i] == s[i]);
        }
        lemma_decimal_value_bound(front);
        assert(is_digit(s[s.len() - 1]));
    }
}

/// Computes the polynomial rolling hash of `s` with wrapping 32-bit
/// arithmetic.
pub fn hashcode(s: &[u8]) -> (h: u32)
    ensures
        h == hash_of(s@),
{
    let mut h: u32 = 0;
    let mut i: usize = 0;
    while i < s.len()
        invariant
            i <= s@.len(),
            h == hash_of(s@.take(i as int)),
        decreases s@.len() - i,
    {
        let b: u8 = s[i];
        proof {
            assert(s@.take(i + 1).drop_last() =~= s@.take(i as int));
            assert(s@.take(i + 1).last() == b);
        }
        h = h.wrapping_mul(31).wrapping_add(b as u32);
        i = i + 1;
    }
    proof {
        assert(s@.take(i as int) =~= s@);
    }
    h
}

/// Turns a token into a seed. A token of at most ten ASCII digits whose value
/// fits in 32 bits is that value; every other token, longer ones and those
/// with any other byte included, is hashed. The empty token gives 0.
pub fn string_to_seed(s: &[u8]) -> (seed: u32)
    ensures
        seed == seed_of(s@),
        s@.len() > 10 ==> seed == hash_of(s@),
        s@.len() <= 10 && all_digits(s@) && decimal_value(s@) <= 0xFFFF_FFFF ==> seed
            == decimal_value(s@),
        s@.len() <= 10 && !(all_digits(s@) && decimal_value(s@) <= 0xFFFF_FFFF) ==> seed
            == hash_of(s@),
{
    if s.len() > MAX_DECIMAL_LEN {
        return hashcode(s);
    }
    let mut res: u64 = 0;
    let mut i: usize = 0;
    while i < s.len()
        invariant
            i <= s@.len() <= 10,
            all_digits(s@.take(i as int)),
            res == decimal_value(s@.take(i as int)),
        decreases s@.len() - i,
    {
        let b: u8 = s[i];
        if b >= 0x30 && b <= 0x39 {
            proof {
                let next = s@.take(i + 1);
                assert(next.drop_last() =~= s@.take(i as int));
                assert(next.last() == b);
                assert forall|k: int| 0 <= k < next.len() implies is_digit(#[trigger] next[k]) by {
                    if k < i {
                        assert(next[k] == s@.take(i as int)[k]);
                    }
                }
                lemma_decimal_value_bound(s@.take(i as int));
                reveal_with_fuel(pow10, 11);
            }
            res = res * 10 + (b - 0x30) as u64;
        } else {
            proof {
                assert(!is_digit(s@[i as int]));
            }
            return hashcode(s);
        }
        i = i + 1;
    }
    proof {
        assert(s@.take(i as int) =~= s@);
    }
    if res > 0xffff_ffff {
        return hashcode(s);
    }
    res as u32
}

} // verus!
