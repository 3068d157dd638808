//! The capability every concrete IPv4 address representation offers:
//! validating construction from dotted-decimal text, bit-string and
//! canonical-text rendering, and a raw byte form for networking code.

use crate::bits::bit_string_of;
use crate::grammar::{canonical_of, is_valid_ipv4, pack_octets, parsed_octets};
use vstd::prelude::*;

verus! {

/// A validated IPv4 address representation. Construction accepts exactly the
/// dotted-decimal grammar; the queries render the value as a 32-character
/// big-endian bit string, as canonical dotted-decimal text, and as the four
/// raw octets that networking primitives take.
pub trait Ip: Sized {
    type Err;

    /// The packed 32-bit value the representation stands for.
    spec fn value_spec(&self) -> u32;

    /// The four octets, most significant first.
    spec fn octets_spec(&self) -> Seq<u8>;

    /// The representation invariant: four octets, and the value is their
    /// big-endian packing.
    spec fn wf(&self) -> bool;

    /// Whether `e` is the rejection that construction from `text` produces.
    spec fn is_invalid_err(e: Self::Err, text: Seq<char>) -> bool;

    /// Validating constructor: succeeds exactly on the dotted-decimal
    /// grammar, and then holds the parsed octets and their packed value.
    fn new(ipaddress: &str) -> (r: Result<Self, Self::Err>)
        ensures
            r is Ok <==> is_valid_ipv4(ipaddress@),
            r matches Ok(ip) ==> ip.wf(),
            r matches Ok(ip) ==> ip.octets_spec() == parsed_octets(ipaddress@),
            r matches Ok(ip) ==> ip.value_spec() as int == pack_octets(parsed_octets(ipaddress@)),
            r matches Err(e) ==> Self::is_invalid_err(e, ipaddress@),
    ;

    /// The 32-character big-endian binary rendering of the value,
    /// most-significant bit first, zero-padded.
    fn bits_string(&self) -> (r: String)
        ensures
            r@ == bit_string_of(self.value_spec() as int, 32),
    ;

    /// The canonical dotted-decimal rendering: plain decimal octets separated
    /// by dots, no leading zeros.
    fn to_string(&self) -> (r: String)
        requires
            self.wf(),
        ensures
            r@ == canonical_of(self.octets_spec()),
    ;

    /// The raw four-byte form, most significant first, for networking code.
    fn native(&self) -> (r: [u8; 4])
        requires
            self.wf(),
        ensures
            r@ == self.octets_spec(),
    ;
}

} // verus!
