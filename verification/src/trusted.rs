//! The calls that leave the verified code, each with the contract assumed of it.

use byteorder::{ByteOrder, LittleEndian};
use vstd::prelude::*;
use vstd::string::*;
use vstd::utf8::valid_utf8;

verus! {

/// `core::str::Utf8Error`, the error of `core::str::from_utf8`: nothing is
/// read from it.
#[verifier::external_type_specification]
#[verifier::external_body]
pub struct ExUtf8Error(core::str::Utf8Error);

/// What `str::trim` leaves of a string: the string without its leading and
/// trailing Unicode whitespace.
pub uninterp spec fn trimmed(s: Seq<char>) -> Seq<char>;

/// Whether `part` is a run of characters of `whole`.
pub open spec fn is_part_of(part: Seq<char>, whole: Seq<char>) -> bool {
    exists|from: int, to: int|
        0 <= from <= to <= whole.len() && part == #[trigger] whole.subrange(from, to)
}

/// The number that two bytes spell in little-endian order.
pub open spec fn le_u16(lo: u8, hi: u8) -> int {
    lo as int + 256 * (hi as int)
}

/// `byteorder::LittleEndian::read_u16`: reads the first two bytes of `buf` as a
/// little-endian number. The outside function panics on a shorter buffer, which
/// the precondition excludes.
#[verifier::external_body]
pub(crate) fn read_u16_le(buf: &[u8]) -> (value: u16)
    requires
        buf@.len() >= 2,
    ensures
        value as int == le_u16(buf@[0], buf@[1]),
{
    LittleEndian::read_u16(buf)
}

/// `core::str::from_utf8`: succeeds exactly on well-formed UTF-8, and the
/// string it returns is made of the very bytes it was given.
#[verifier::external_body]
pub(crate) fn str_from_utf8<'a>(bytes: &'a [u8]) -> (result: Result<&'a str, core::str::Utf8Error>)
    ensures
        result is Ok <==> valid_utf8(bytes@),
        result matches Ok(s) ==> s.spec_bytes() == bytes@,
{
    core::str::from_utf8(bytes)
}

/// `str::trim`: the result is named by [`trimmed`], and is a part of the
/// string it was cut from.
#[verifier::external_body]
pub(crate) fn str_trim<'a>(s: &'a str) -> (result: &'a str)
    ensures
        result@ == trimmed(s@),
        is_part_of(result@, s@),
{
    s.trim()
}

} // verus!
