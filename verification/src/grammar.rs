//! The dotted-decimal IPv4 grammar: which texts are valid, the octet values
//! they denote, the canonical rendering, and the proof that rendering the
//! parsed octets reproduces the input with redundant leading zeros removed.

use vstd::arithmetic::div_mod::{lemma_div_denominator, lemma_fundamental_div_mod_converse};
use vstd::prelude::*;

verus! {

/// The value of a decimal digit character, `-1` for any other character.
pub open spec fn digit_val(c: char) -> int {
    if c == '0' {
        0
    } else if c == '1' {
        1
    } else if c == '2' {
        2
    } else if c == '3' {
        3
    } else if c == '4' {
        4
    } else if c == '5' {
        5
    } else if c == '6' {
        6
    } else if c == '7' {
        7
    } else if c == '8' {
        8
    } else if c == '9' {
        9
    } else {
        -1
    }
}

pub open spec fn is_ascii_digit(c: char) -> bool {
    digit_val(c) >= 0
}

/// The character for one decimal digit.
pub open spec fn digit_char(d: int) -> char {
    if d == 0 {
        '0'
    } else if d == 1 {
        '1'
    } else if d == 2 {
        '2'
    } else if d == 3 {
        '3'
    } else if d == 4 {
        '4'
    } else if d == 5 {
        '5'
    } else if d == 6 {
        '6'
    } else if d == 7 {
        '7'
    } else if d == 8 {
        '8'
    } else {
        '9'
    }
}

pub open spec fn all_digits(s: Seq<char>) -> bool {
    forall|i: int| 0 <= i < s.len() ==> is_ascii_digit(s[i])
}

/// The value of a decimal digit string, most-significant digit first.
pub open spec fn dec_value(s: Seq<char>) -> int
    decreases s.len(),
{
    if s.len() == 0 {
        0
    } else {
        dec_value(s.drop_last()) * 10 + digit_val(s.last())
    }
}

/// The value of a digit string of at most three digits lies in `0 ..= 999`.
pub proof fn lemma_dec_value_small(s: Seq<char>)
    requires
        all_digits(s),
        s.len() <= 3,
    ensures
        0 <= dec_value(s),
        dec_value(s) <= 999,
        s.len() <= 2 ==> dec_value(s) <= 99,
        s.len() <= 1 ==> dec_value(s) <= 9,
    decreases s.len(),
{
    if s.len() > 0 {
        assert forall|i: int| 0 <= i < s.drop_last().len() implies is_ascii_digit(
            s.drop_last()[i],
        ) by {
            assert(s.drop_last()[i] == s[i]);
        }
        lemma_dec_value_small(s.drop_last());
        assert(is_ascii_digit(s.last()));
    }
}

/// The end of the group that starts at `from`: the first index at or after
/// `from` that holds a dot, or the length of the text if there is none.
pub open spec fn seg_end(s: Seq<char>, from: int) -> int
    decreases s.len() - from,
{
    if from < 0 || from >= s.len() {
        s.len() as int
    } else if s[from] == '.' {
        from
    } else {
        seg_end(s, from + 1)
    }
}

/// `seg_end` is determined by a dot-free stretch followed by a dot or the end.
pub proof fn lemma_seg_end_at(s: Seq<char>, from: int, e: int)
    requires
        0 <= from <= e <= s.len(),
        forall|m: int| from <= m < e ==> s[m] != '.',
        e == s.len() || s[e] == '.',
    ensures
        seg_end(s, from) == e,
    decreases e - from,
{
    if from < e {
        lemma_seg_end_at(s, from + 1, e);
    }
}

/// Exactly the texts the dotted-decimal grammar accepts as one group:
/// one to three decimal digits whose value is at most 255.
pub open spec fn is_octet_group(s: Seq<char>) -> bool {
    1 <= s.len() <= 3 && all_digits(s) && dec_value(s) <= 255
}

/// Whether the whole text is a dotted-decimal IPv4 address: exactly four
/// groups separated by single dots, nothing else before or after.
pub open spec fn is_valid_ipv4(s: Seq<char>) -> bool {
    let i: int = seg_end(s, 0);
    let j: int = seg_end(s, i + 1);
    let k: int = seg_end(s, j + 1);
    &&& i < s.len()
    &&& j < s.len()
    &&& k < s.len()
    &&& seg_end(s, k + 1) == s.len()
    &&& is_octet_group(s.subrange(0, i))
    &&& is_octet_group(s.subrange(i + 1, j))
    &&& is_octet_group(s.subrange(j + 1, k))
    &&& is_octet_group(s.subrange(k + 1, s.len() as int))
}

/// The four octet values of a valid dotted-decimal text, most significant first.
pub open spec fn parsed_octets(s: Seq<char>) -> Seq<u8> {
    let i: int = seg_end(s, 0);
    let j: int = seg_end(s, i + 1);
    let k: int = seg_end(s, j + 1);
    seq![
        dec_value(s.subrange(0, i)) as u8,
        dec_value(s.subrange(i + 1, j)) as u8,
        dec_value(s.subrange(j + 1, k)) as u8,
        dec_value(s.subrange(k + 1, s.len() as int)) as u8,
    ]
}

/// The big-endian packing of four octets into one 32-bit value.
pub open spec fn pack_octets(os: Seq<u8>) -> int {
    os[0] * 0x1000000 + os[1] * 0x10000 + os[2] * 0x100 + os[3]
}

/// The minimal decimal rendering of an octet value: no leading zeros.
pub open spec fn dec_string_of(n: int) -> Seq<char> {
    if n < 10 {
        seq![digit_char(n)]
    } else if n < 100 {
        seq![digit_char(n / 10), digit_char(n % 10)]
    } else {
        seq![digit_char(n / 100), digit_char((n / 10) % 10), digit_char(n % 10)]
    }
}

/// The canonical dotted-decimal rendering of four octets.
pub open spec fn canonical_of(os: Seq<u8>) -> Seq<char> {
    dec_string_of(os[0] as int) + seq!['.'] + dec_string_of(os[1] as int) + seq!['.']
        + dec_string_of(os[2] as int) + seq!['.'] + dec_string_of(os[3] as int)
}

/// A digit group with its redundant leading zeros removed.
pub open spec fn strip_zeros(g: Seq<char>) -> Seq<char>
    decreases g.len(),
{
    if g.len() > 1 && g[0] == '0' {
        strip_zeros(g.drop_first())
    } else {
        g
    }
}

/// A valid dotted-decimal text with each group's redundant leading zeros removed.
pub open spec fn normalize_ipv4(s: Seq<char>) -> Seq<char> {
    let i: int = seg_end(s, 0);
    let j: int = seg_end(s, i + 1);
    let k: int = seg_end(s, j + 1);
    strip_zeros(s.subrange(0, i)) + seq!['.'] + strip_zeros(s.subrange(i + 1, j)) + seq!['.']
        + strip_zeros(s.subrange(j + 1, k)) + seq!['.'] + strip_zeros(
        s.subrange(k + 1, s.len() as int),
    )
}

/// The message a rejected text comes back with.
pub open spec fn invalid_ip_msg(s: Seq<char>) -> Seq<char> {
    "Invalid IP "@ + s
}

/// A leading zero does not change the value of a digit string.
proof fn lemma_dec_value_drop_leading_zero(g: Seq<char>)
    requires
        g.len() >= 1,
        g[0] == '0',
    ensures
        dec_value(g) == dec_value(g.drop_first()),
    decreases g.len(),
{
    if g.len() == 1 {
        assert(g.drop_last() =~= Seq::<char>::empty());
        assert(g.drop_first() =~= Seq::<char>::empty());
        assert(g.last() == g[0]);
    } else {
        assert(g.drop_last()[0] == g[0]);
        lemma_dec_value_drop_leading_zero(g.drop_last());
        assert(g.drop_last().drop_first() =~= g.drop_first().drop_last());
        assert(g.drop_first().last() == g.last());
    }
}

/// Stripping leading zeros keeps the value and yields a canonical digit string.
proof fn lemma_strip_zeros_props(g: Seq<char>)
    requires
        g.len() >= 1,
        all_digits(g),
    ensures
        1 <= strip_zeros(g).len() <= g.len(),
        all_digits(strip_zeros(g)),
        dec_value(strip_zeros(g)) == dec_value(g),
        strip_zeros(g).len() > 1 ==> strip_zeros(g)[0] != '0',
    decreases g.len(),
{
    if g.len() > 1 && g[0] == '0' {
        assert forall|i: int| 0 <= i < g.drop_first().len() implies is_ascii_digit(
            g.drop_first()[i],
        ) by {
            assert(g.drop_first()[i] == g[i + 1]);
        }
        lemma_dec_value_drop_leading_zero(g);
        lemma_strip_zeros_props(g.drop_first());
    }
}

/// On a digit string with no redundant leading zero, rendering the value
/// reproduces the string.
proof fn lemma_dec_string_of_canonical(h: Seq<char>)
    requires
        all_digits(h),
        1 <= h.len() <= 3,
        h.len() > 1 ==> h[0] != '0',
        dec_value(h) <= 255,
    ensures
        dec_string_of(dec_value(h)) == h,
{
    let v: int = dec_value(h);
    lemma_dec_value_small(h);
    if h.len() == 1 {
        assert(h.drop_last() =~= Seq::<char>::empty());
        assert(h.last() == h[0]);
        assert(is_ascii_digit(h[0]));
        assert(digit_char(digit_val(h[0])) == h[0]);
        assert(dec_string_of(v) =~= h);
    } else if h.len() == 2 {
        let a: int = digit_val(h[0]);
        let b: int = digit_val(h[1]);
        assert(is_ascii_digit(h[0]) && is_ascii_digit(h[1]));
        assert(h.drop_last().drop_last() =~= Seq::<char>::empty());
        assert(h.drop_last().last() == h[0]);
        assert(h.last() == h[1]);
        assert(dec_value(Seq::<char>::empty()) == 0);
        assert(dec_value(h.drop_last()) == a);
        assert(v == a * 10 + b);
        assert(a >= 1);
        lemma_fundamental_div_mod_converse(v, 10, a, b);
        assert(digit_char(a) == h[0]);
        assert(digit_char(b) == h[1]);
        assert(10 <= v < 100);
        assert(dec_string_of(v) =~= h);
    } else {
        let a: int = digit_val(h[0]);
        let b: int = digit_val(h[1]);
        let c: int = digit_val(h[2]);
        assert(is_ascii_digit(h[0]) && is_ascii_digit(h[1]) && is_ascii_digit(h[2]));
        let d1 = h.drop_last();
        assert(d1.drop_last().drop_last() =~= Seq::<char>::empty());
        assert(d1.drop_last().last() == h[0]);
        assert(d1.last() == h[1]);
        assert(h.last() == h[2]);
        assert(dec_value(Seq::<char>::empty()) == 0);
        assert(dec_value(d1.drop_last()) == a);
        assert(dec_value(d1) == a * 10 + b);
        assert(v == (a * 10 + b) * 10 + c);
        assert(a >= 1);
        lemma_fundamental_div_mod_converse(v, 10, a * 10 + b, c);
        lemma_fundamental_div_mod_converse(a * 10 + b, 10, a, b);
        lemma_div_denominator(v, 10, 10);
        assert(v / 100 == a);
        assert(digit_char(a) == h[0]);
        assert(digit_char(b) == h[1]);
        assert(digit_char(c) == h[2]);
        assert(100 <= v);
        assert(dec_string_of(v) =~= h);
    }
}

/// Rendering the value of one accepted group reproduces the group with its
/// redundant leading zeros removed.
proof fn lemma_group_round_trip(g: Seq<char>)
    requires
        is_octet_group(g),
    ensures
        dec_string_of((dec_value(g) as u8) as int) == strip_zeros(g),
        0 <= dec_value(g) <= 255,
{
    lemma_dec_value_small(g);
    lemma_strip_zeros_props(g);
    lemma_dec_string_of_canonical(strip_zeros(g));
}

/// Round trip: for every valid dotted-decimal text, the canonical rendering
/// of its parsed octets equals the text itself with each group's redundant
/// leading zeros removed.
pub proof fn lemma_canonical_round_trip(s: Seq<char>)
    requires
        is_valid_ipv4(s),
    ensures
        canonical_of(parsed_octets(s)) == normalize_ipv4(s),
{
    let i: int = seg_end(s, 0);
    let j: int = seg_end(s, i + 1);
    let k: int = seg_end(s, j + 1);
    let g0 = s.subrange(0, i);
    let g1 = s.subrange(i + 1, j);
    let g2 = s.subrange(j + 1, k);
    let g3 = s.subrange(k + 1, s.len() as int);
    lemma_group_round_trip(g0);
    lemma_group_round_trip(g1);
    lemma_group_round_trip(g2);
    lemma_group_round_trip(g3);
    assert(parsed_octets(s)[0] == dec_value(g0) as u8);
    assert(parsed_octets(s)[1] == dec_value(g1) as u8);
    assert(parsed_octets(s)[2] == dec_value(g2) as u8);
    assert(parsed_octets(s)[3] == dec_value(g3) as u8);
}

} // verus!
