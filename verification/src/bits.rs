//! Big-endian binary digit strings: the mathematical model shared by
//! `bits_string` rendering and `bit_to_int` parsing, and the proof that
//! the two are inverses.

use vstd::arithmetic::div_mod::{lemma_div_denominator, lemma_fundamental_div_mod};
use vstd::arithmetic::power2::{
    lemma2_to64, lemma_pow2_pos, lemma_pow2_strictly_increases, lemma_pow2_unfold, pow2,
};
use vstd::prelude::*;
use vstd::string::StrSliceExecFns;

verus! {

/// A binary digit character.
pub open spec fn is_bit_char(c: char) -> bool {
    c == '0' || c == '1'
}

pub open spec fn all_bit_chars(s: Seq<char>) -> bool {
    forall|i: int| 0 <= i < s.len() ==> is_bit_char(s[i])
}

/// The character for one bit.
pub open spec fn bit_char(b: int) -> char {
    if b == 1 {
        '1'
    } else {
        '0'
    }
}

/// The value of a big-endian binary digit string (most-significant bit first).
pub open spec fn bin_value(s: Seq<char>) -> int
    decreases s.len(),
{
    if s.len() == 0 {
        0
    } else {
        bin_value(s.drop_last()) * 2 + (if s.last() == '1' {
            1int
        } else {
            0int
        })
    }
}

/// The fixed-width big-endian binary rendering of `v`: `n` characters,
/// most-significant bit first, zero-padded.
pub open spec fn bit_string_of(v: int, n: nat) -> Seq<char>
    decreases n,
{
    if n == 0 {
        Seq::empty()
    } else {
        bit_string_of(v / 2, (n - 1) as nat).push(bit_char(v % 2))
    }
}

pub proof fn lemma_bit_string_shape(v: int, n: nat)
    ensures
        bit_string_of(v, n).len() == n,
        all_bit_chars(bit_string_of(v, n)),
    decreases n,
{
    if n > 0 {
        lemma_bit_string_shape(v / 2, (n - 1) as nat);
        let prefix = bit_string_of(v / 2, (n - 1) as nat);
        let s = bit_string_of(v, n);
        assert forall|i: int| 0 <= i < s.len() implies is_bit_char(s[i]) by {
            if i < n - 1 {
                assert(s[i] == prefix[i]);
            } else {
                assert(s[i] == bit_char(v % 2));
            }
        }
    }
}

/// Character `i` of the width-`n` rendering of `v` is bit `n - 1 - i` of `v`.
pub proof fn lemma_bit_string_index(v: int, n: nat, i: int)
    requires
        0 <= v,
        0 <= i < n,
    ensures
        bit_string_of(v, n)[i] == bit_char((v / pow2((n - 1 - i) as nat) as int) % 2),
    decreases n,
{
    lemma_bit_string_shape(v, n);
    lemma_bit_string_shape(v / 2, (n - 1) as nat);
    if i == n - 1 {
        lemma2_to64();
        assert(bit_string_of(v, n)[i] == bit_char(v % 2));
        assert(v / 1 == v);
    } else {
        lemma_bit_string_index(v / 2, (n - 1) as nat, i);
        let m: nat = (n - 2 - i) as nat;
        lemma_pow2_pos(m);
        lemma_div_denominator(v, 2, pow2(m) as int);
        lemma_pow2_unfold((n - 1 - i) as nat);
        assert((v / 2) / pow2(m) as int == v / pow2((n - 1 - i) as nat) as int);
    }
}

/// The value of a binary digit string of length `n` lies below `pow2(n)`.
pub proof fn lemma_bin_value_bound(s: Seq<char>)
    requires
        all_bit_chars(s),
    ensures
        0 <= bin_value(s) < pow2(s.len()),
    decreases s.len(),
{
    if s.len() == 0 {
        lemma2_to64();
    } else {
        assert forall|i: int| 0 <= i < s.drop_last().len() implies is_bit_char(
            s.drop_last()[i],
        ) by {
            assert(s.drop_last()[i] == s[i]);
        }
        lemma_bin_value_bound(s.drop_last());
        lemma_pow2_unfold(s.len());
        assert(is_bit_char(s.last()));
    }
}

proof fn lemma_bin_value_inverse(v: int, n: nat)
    requires
        0 <= v < pow2(n),
    ensures
        bin_value(bit_string_of(v, n)) == v,
    decreases n,
{
    if n == 0 {
        lemma2_to64();
        assert(bit_string_of(v, 0) =~= Seq::<char>::empty());
    } else {
        let prefix = bit_string_of(v / 2, (n - 1) as nat);
        let s = bit_string_of(v, n);
        lemma_bit_string_shape(v, n);
        lemma_bit_string_shape(v / 2, (n - 1) as nat);
        assert(s.drop_last() =~= prefix);
        assert(s.last() == bit_char(v % 2));
        lemma_pow2_unfold(n);
        lemma_fundamental_div_mod(v, 2);
        assert(v / 2 < pow2((n - 1) as nat));
        lemma_bin_value_inverse(v / 2, (n - 1) as nat);
    }
}

/// Interpreting the 32-character binary rendering of any 32-bit value as a
/// big-endian binary literal reproduces that value exactly: `bin_value` is a
/// left inverse of `bit_string_of` at width 32.
pub proof fn lemma_bit_string_round_trip(v: u32)
    ensures
        bin_value(bit_string_of(v as int, 32)) == v,
{
    lemma2_to64();
    lemma_bin_value_inverse(v as int, 32);
}

/// Parses a big-endian binary digit string into its value.
pub fn bit_to_int(bit: &str) -> (r: u32)
    requires
        all_bit_chars(bit@),
        bit@.len() <= 32,
    ensures
        r as int == bin_value(bit@),
{
    let len: usize = bit.unicode_len();
    let mut res: u32 = 0;
    let mut i: usize = 0;
    while i < len
        invariant
            all_bit_chars(bit@),
            len == bit@.len() <= 32,
            i <= len,
            res as int == bin_value(bit@.take(i as int)),
        decreases len - i,
    {
        let c = bit.get_char(i);
        proof {
            lemma_bin_value_bound(bit@.take(i as int));
            if (i as nat) < 31 {
                lemma_pow2_strictly_increases(i as nat, 31);
            }
            lemma2_to64();
            assert(bit@.take(i as int + 1).drop_last() =~= bit@.take(i as int));
            assert(bit@.take(i as int + 1).last() == bit@[i as int]);
        }
        let b: u32 = if c == '1' {
            1
        } else {
            0
        };
        res = res * 2 + b;
        i += 1;
    }
    proof {
        assert(bit@.take(len as int) =~= bit@);
    }
    res
}

} // verus!
