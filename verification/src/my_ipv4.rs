//! The concrete validated IPv4 address: four octets plus their packed
//! 32-bit value, constructed only by the validating parser.

use crate::bits::{bit_string_of, lemma_bit_string_index, lemma_bit_string_shape};
use crate::grammar::{
    all_digits, canonical_of, dec_string_of, dec_value, digit_char, digit_val, invalid_ip_msg,
    is_ascii_digit, is_octet_group, is_valid_ipv4, lemma_dec_value_small, lemma_seg_end_at,
    pack_octets, parsed_octets, seg_end,
};
use crate::ip_trait::Ip;
use vstd::bits::lemma_u32_shr_is_div;
use vstd::prelude::*;
use vstd::string::{StrSliceExecFns, StringExecFns};

verus! {

/// A validated IPv4 address: the packed big-endian 32-bit value and the four
/// octets it was packed from, most significant first.
#[derive(Debug, PartialEq, Eq)]
pub struct Ipv4 {
    pub bit: u32,
    pub octets: [u8; 4],
}

/// Packs four octets, most significant first, into one 32-bit value:
/// exactly `a * 2^24 + b * 2^16 + c * 2^8 + d`.
pub fn octets2bit(octets: &[u8; 4]) -> (r: u32)
    ensures
        r as int == pack_octets(octets@),
{
    let a: u32 = octets[0] as u32;
    let b: u32 = octets[1] as u32;
    let c: u32 = octets[2] as u32;
    let d: u32 = octets[3] as u32;
    a * 0x1000000 + b * 0x10000 + c * 0x100 + d
}

/// The numeric value of a decimal digit character, `None` for any other.
fn digit_of(c: char) -> (r: Option<u8>)
    ensures
        r is Some <==> is_ascii_digit(c),
        r matches Some(d) ==> d as int == digit_val(c) && d <= 9,
{
    if c == '0' {
        Some(0)
    } else if c == '1' {
        Some(1)
    } else if c == '2' {
        Some(2)
    } else if c == '3' {
        Some(3)
    } else if c == '4' {
        Some(4)
    } else if c == '5' {
        Some(5)
    } else if c == '6' {
        Some(6)
    } else if c == '7' {
        Some(7)
    } else if c == '8' {
        Some(8)
    } else if c == '9' {
        Some(9)
    } else {
        None
    }
}

/// The one-character text of a decimal digit.
fn digit_str(d: u8) -> (r: &'static str)
    requires
        d <= 9,
    ensures
        r@ =~= seq![digit_char(d as int)],
{
    proof {
        reveal_strlit("0");
        reveal_strlit("1");
        reveal_strlit("2");
        reveal_strlit("3");
        reveal_strlit("4");
        reveal_strlit("5");
        reveal_strlit("6");
        reveal_strlit("7");
        reveal_strlit("8");
        reveal_strlit("9");
    }
    if d == 0 {
        "0"
    } else if d == 1 {
        "1"
    } else if d == 2 {
        "2"
    } else if d == 3 {
        "3"
    } else if d == 4 {
        "4"
    } else if d == 5 {
        "5"
    } else if d == 6 {
        "6"
    } else if d == 7 {
        "7"
    } else if d == 8 {
        "8"
    } else {
        "9"
    }
}

/// Appends the minimal decimal rendering of one octet value.
fn append_octet(res: &mut String, v: u8)
    ensures
        final (res)@ == old(res)@ + dec_string_of(v as int),
{
    if v >= 100 {
        let d0: u8 = v / 100;
        let d1: u8 = (v / 10) % 10;
        let d2: u8 = v % 10;
        res.append(digit_str(d0));
        res.append(digit_str(d1));
        res.append(digit_str(d2));
        proof {
            assert(res@ =~= old(res)@ + dec_string_of(v as int));
        }
    } else if v >= 10 {
        let d0: u8 = v / 10;
        let d1: u8 = v % 10;
        res.append(digit_str(d0));
        res.append(digit_str(d1));
        proof {
            assert(res@ =~= old(res)@ + dec_string_of(v as int));
        }
    } else {
        res.append(digit_str(v));
        proof {
            assert(res@ =~= old(res)@ + dec_string_of(v as int));
        }
    }
}

/// The first dot at or after `start`, or `len` if there is none.
fn group_end(s: &str, len: usize, start: usize) -> (r: usize)
    requires
        len == s@.len(),
        start <= len,
    ensures
        r as int == seg_end(s@, start as int),
        start <= r <= len,
{
    let mut i: usize = start;
    while i < len && s.get_char(i) != '.'
        invariant
            len == s@.len(),
            start <= i <= len,
            forall|m: int| start <= m < i ==> s@[m] != '.',
        decreases len - i,
    {
        i += 1;
    }
    proof {
        lemma_seg_end_at(s@, start as int, i as int);
    }
    i
}

/// Parses the group `s[start .. end]`: accepts exactly one to three decimal
/// digits whose value is at most 255, and returns that value.
fn parse_group(s: &str, len: usize, start: usize, end: usize) -> (r: Option<u8>)
    requires
        len == s@.len(),
        start <= end <= len,
    ensures
        r is Some <==> is_octet_group(s@.subrange(start as int, end as int)),
        r matches Some(v) ==> v as int == dec_value(s@.subrange(start as int, end as int)),
{
    let ghost g: Seq<char> = s@.subrange(start as int, end as int);
    let n: usize = end - start;
    if n == 0 || n > 3 {
        return None;
    }
    let mut val: u16 = 0;
    let mut i: usize = start;
    while i < end
        invariant
            len == s@.len(),
            start <= i <= end <= len,
            1 <= end - start <= 3,
            g == s@.subrange(start as int, end as int),
            all_digits(g.subrange(0, i - start)),
            val as int == dec_value(g.subrange(0, i - start)),
        decreases end - i,
    {
        let c: char = s.get_char(i);
        proof {
            assert(g[i - start] == s@[i as int]);
        }
        match digit_of(c) {
            None => {
                proof {
                    assert(!is_ascii_digit(g[i - start]));
                }
                return None;
            },
            Some(d) => {
                proof {
                    lemma_dec_value_small(g.subrange(0, i - start));
                    assert(g.subrange(0, i - start + 1).drop_last() =~= g.subrange(0, i - start));
                    assert(g.subrange(0, i - start + 1).last() == g[i - start]);
                    assert forall|t: int| 0 <= t < i - start + 1 implies is_ascii_digit(
                        #[trigger] g.subrange(0, i - start + 1)[t],
                    ) by {
                        assert(g.subrange(0, i - start + 1)[t] == g[t]);
                        if t < i - start {
                            assert(g.subrange(0, i - start)[t] == g[t]);
                        }
                    }
                }
                val = val * 10 + d as u16;
                i += 1;
            },
        }
    }
    proof {
        assert(g.subrange(0, end - start) =~= g);
    }
    if val <= 255 {
        Some(val as u8)
    } else {
        None
    }
}

/// The rejection message for a text the grammar refuses.
fn invalid(ipaddress: &str) -> (r: String)
    ensures
        r@ == invalid_ip_msg(ipaddress@),
{
    let mut m: String = String::from_str("Invalid IP ");
    m.append(ipaddress);
    m
}

impl Ip for Ipv4 {
    type Err = String;

    open spec fn value_spec(&self) -> u32 {
        self.bit
    }

    open spec fn octets_spec(&self) -> Seq<u8> {
        self.octets@
    }

    open spec fn wf(&self) -> bool {
        self.octets@.len() == 4 && self.bit as int == pack_octets(self.octets@)
    }

    open spec fn is_invalid_err(e: String, text: Seq<char>) -> bool {
        e@ == invalid_ip_msg(text)
    }

    fn new(ipaddress: &str) -> Result<Ipv4, String> {
        let len: usize = ipaddress.unicode_len();
        let i: usize = group_end(ipaddress, len, 0);
        if i >= len {
            return Err(invalid(ipaddress));
        }
        let j: usize = group_end(ipaddress, len, i + 1);
        if j >= len {
            return Err(invalid(ipaddress));
        }
        let k: usize = group_end(ipaddress, len, j + 1);
        if k >= len {
            return Err(invalid(ipaddress));
        }
        let e: usize = group_end(ipaddress, len, k + 1);
        if e < len {
            return Err(invalid(ipaddress));
        }
        let a: u8 = match parse_group(ipaddress, len, 0, i) {
            Some(v) => v,
            None => {
                return Err(invalid(ipaddress));
            },
        };
        let b: u8 = match parse_group(ipaddress, len, i + 1, j) {
            Some(v) => v,
            None => {
                return Err(invalid(ipaddress));
            },
        };
        let c: u8 = match parse_group(ipaddress, len, j + 1, k) {
            Some(v) => v,
            None => {
                return Err(invalid(ipaddress));
            },
        };
        let d: u8 = match parse_group(ipaddress, len, k + 1, len) {
            Some(v) => v,
            None => {
                return Err(invalid(ipaddress));
            },
        };
        let octets: [u8; 4] = [a, b, c, d];
        let bit: u32 = octets2bit(&octets);
        proof {
            assert(octets@ =~= parsed_octets(ipaddress@));
        }
        Ok(Ipv4 { bit, octets })
    }

    fn bits_string(&self) -> (r: String) {
        let v: u32 = self.bit;
        let mut res: String = String::new();
        let mut k: usize = 0;
        while k < 32
            invariant
                v == self.bit,
                k <= 32,
                res@ == bit_string_of(v as int, 32).take(k as int),
            decreases 32 - k,
        {
            proof {
                lemma_bit_string_shape(v as int, 32);
                lemma_bit_string_index(v as int, 32, k as int);
            }
            let shift: u32 = 31 - (k as u32);
            let b: u32 = (v >> shift) & 1;
            proof {
                lemma_u32_shr_is_div(v, shift);
                let sh: u32 = v >> shift;
                assert(sh & 1 == sh % 2) by (bit_vector);
                reveal_strlit("1");
                reveal_strlit("0");
            }
            if b == 1 {
                res.append("1");
            } else {
                res.append("0");
            }
            proof {
                assert(res@ =~= bit_string_of(v as int, 32).take(k as int + 1));
            }
            k += 1;
        }
        proof {
            lemma_bit_string_shape(v as int, 32);
            assert(res@ =~= bit_string_of(v as int, 32));
        }
        res
    }

    fn to_string(&self) -> (r: String) {
        let mut res: String = String::new();
        append_octet(&mut res, self.octets[0]);
        res.append(".");
        append_octet(&mut res, self.octets[1]);
        res.append(".");
        append_octet(&mut res, self.octets[2]);
        res.append(".");
        append_octet(&mut res, self.octets[3]);
        proof {
            reveal_strlit(".");
            assert(res@ =~= canonical_of(self.octets@));
        }
        res
    }

    fn native(&self) -> (r: [u8; 4]) {
        self.octets
    }
}

impl core::str::FromStr for Ipv4 {
    type Err = String;

    fn from_str(s: &str) -> Result<Ipv4, String> {
        Ipv4::new(s)
    }
}

} // verus!
