//! Encodings as hex text, for display and for import.

use crate::encodings::onebyte_rle::{decode_outcome, rle_on_indexed, DecodeError, OneByteRle};
use crate::types::IndexedImage;
use vstd::prelude::*;
use vstd::string::StringSliceAdditionalSpecFns;

verus! {

/// The ASCII code of a space.
const SPACE: u8 = 0x20;

/// The sixteen lowercase hex digits.
pub open spec fn lower_hex_digits() -> Seq<char> {
    seq!['0', '1', '2', '3', '4', '5', '6', '7', '8', '9', 'a', 'b', 'c', 'd', 'e', 'f']
}

/// Two lowercase hex digits per byte, high nibble first.
pub open spec fn hex_of(b: Seq<u8>) -> Seq<char> {
    Seq::new(
        2 * b.len(),
        |i: int|
            if i % 2 == 0 {
                lower_hex_digits()[(b[i / 2] / 16) as int]
            } else {
                lower_hex_digits()[(b[i / 2] % 16) as int]
            },
    )
}

/// `0-9`, `a-f` or `A-F` in ASCII.
pub open spec fn is_hex_digit(c: u8) -> bool {
    (48 <= c <= 57) || (65 <= c <= 70) || (97 <= c <= 102)
}

/// The value of a hex digit.
pub open spec fn hex_digit_value(c: u8) -> int {
    if 48 <= c <= 57 {
        c - 48
    } else if 65 <= c <= 70 {
        c - 55
    } else {
        c - 87
    }
}

/// The bytes that an even run of hex digits spells, two digits per byte.
pub open spec fn hex_decoded(t: Seq<u8>) -> Seq<u8> {
    Seq::new(
        t.len() / 2,
        |i: int| (hex_digit_value(t[2 * i]) * 16 + hex_digit_value(t[2 * i + 1])) as u8,
    )
}

/// Every byte of `t` is a hex digit.
pub open spec fn all_hex(t: Seq<u8>) -> bool {
    forall|i: int| 0 <= i < t.len() ==> is_hex_digit(#[trigger] t[i])
}

/// Why hex text could not be read.
#[derive(Debug, Clone, Copy, PartialEq, Eq, Structural)]
pub enum HexError {
    /// The byte at `index` (shown as `c`) is not a hex digit.
    InvalidHexCharacter { c: char, index: usize },
    /// An odd number of digits.
    OddLength,
    /// The text does not fit a fixed-size result.
    InvalidStringLength,
}

/// What reading hex text `t` gives: the bytes, or the first fault in it.
pub open spec fn hex_outcome_ok(t: Seq<u8>, r: Result<Vec<u8>, HexError>) -> bool {
    if t.len() % 2 == 1 {
        r == Err::<Vec<u8>, HexError>(HexError::OddLength)
    } else if all_hex(t) {
        r matches Ok(v) && v@ == hex_decoded(t)
    } else {
        r matches Err(HexError::InvalidHexCharacter { c, index }) && {
            &&& index < t.len()
            &&& !is_hex_digit(t[index as int])
            &&& forall|j: int| 0 <= j < index ==> is_hex_digit(#[trigger] t[j])
        }
    }
}

/// Relies on hex::encode: the result is two lowercase hex digits per byte, the
/// high nibble first.
#[verifier::external_body]
fn hex_encode(bytes: &Vec<u8>) -> (r: String)
    ensures
        r@ == hex_of(bytes@),
{
    hex::encode(bytes)
}

/// Relies on hex::decode (through `FromHex for Vec<u8>`): an odd length is
/// `OddLength`; else the first byte, in order, that is not a hex digit of either
/// case is `InvalidHexCharacter` with its index; else every two digits make one
/// byte, high nibble first. The error is carried over variant by variant.
#[verifier::external_body]
fn hex_decode(text: &[u8]) -> (r: Result<Vec<u8>, HexError>)
    ensures
        hex_outcome_ok(text@, r),
{
    match hex::decode(text) {
        Ok(v) => Ok(v),
        Err(hex::FromHexError::InvalidHexCharacter { c, index }) => Err(
            HexError::InvalidHexCharacter { c, index },
        ),
        Err(hex::FromHexError::OddLength) => Err(HexError::OddLength),
        Err(hex::FromHexError::InvalidStringLength) => Err(HexError::InvalidStringLength),
    }
}

/// `t` without the spaces at either end.
pub open spec fn trim_spaces(t: Seq<u8>) -> Seq<u8>
    decreases t.len(),
{
    if t.len() > 0 && t[0] == 0x20 {
        trim_spaces(t.drop_first())
    } else if t.len() > 0 && t.last() == 0x20 {
        trim_spaces(t.drop_last())
    } else {
        t
    }
}

/// Reads hex text, ignoring spaces at either end, into the bytes it spells.
pub fn parse_hex(text: &str) -> (r: Result<Vec<u8>, HexError>)
    ensures
        hex_outcome_ok(trim_spaces(text.spec_bytes()), r),
{
    let bytes = text.as_bytes();
    let ghost t = bytes@;
    let mut start: usize = 0;
    assert(t.subrange(0, t.len() as int) =~= t);
    while start < bytes.len() && bytes[start] == SPACE
        invariant
            bytes@ == t,
            start <= t.len(),
            trim_spaces(t.subrange(start as int, t.len() as int)) == trim_spaces(t),
        decreases t.len() - start,
    {
        assert(t.subrange(start as int, t.len() as int).drop_first() =~= t.subrange(
            start as int + 1,
            t.len() as int,
        ));
        start = start + 1;
    }
    let mut end: usize = bytes.len();
    while end > start && bytes[end - 1] == SPACE
        invariant
            bytes@ == t,
            start <= end <= t.len(),
            start < end ==> t[start as int] != 0x20,
            trim_spaces(t.subrange(start as int, end as int)) == trim_spaces(t),
        decreases end - start,
    {
        assert(t.subrange(start as int, end as int).drop_last() =~= t.subrange(
            start as int,
            end as int - 1,
        ));
        end = end - 1;
    }
    let trimmed = vstd::slice::slice_subrange(bytes, start, end);
    assert(trim_spaces(t.subrange(start as int, end as int)) == t.subrange(start as int, end as int));
    hex_decode(trimmed)
}

/// Why hex text could not be applied to a grid.
#[derive(Debug, Clone, Copy, PartialEq, Eq, Structural)]
pub enum ImportError {
    /// The text is not hex.
    Hex(HexError),
    /// The bytes did not decode in full.
    Decode(DecodeError),
}

impl OneByteRle {
    /// The encoded bytes as lowercase hex, two digits per byte.
    pub fn to_hex(&self) -> (r: String)
        ensures
            r@ == hex_of(self.bytes@),
    {
        hex_encode(&self.bytes)
    }
}

/// Reads hex text (spaces at either end ignored) as an encoding and decodes it
/// onto `image_out` from row `trim`, as `rle_on_indexed` does. Text that is not
/// hex changes nothing; nor does text with no bytes (`EmptyBuffer`).
pub fn rle_hex_on_indexed<const PIXELS: usize, const WIDTH: usize>(
    image_out: &mut IndexedImage<PIXELS, WIDTH>,
    text: &str,
    trim: u8,
    overwrite: bool,
) -> (r: Result<(), ImportError>)
    requires
        old(image_out).wf(),
    ensures
        final(image_out).wf(),
        final(image_out).vertical_trim == old(image_out).vertical_trim,
        ({
            let t = trim_spaces(text.spec_bytes());
            if t.len() % 2 == 0 && all_hex(t) {
                let (px, outcome) = decode_outcome(
                    old(image_out)@,
                    PIXELS as int,
                    WIDTH as int,
                    hex_decoded(t),
                    trim as int,
                    overwrite,
                );
                &&& final(image_out)@ == px
                &&& outcome is Ok ==> r is Ok
                &&& outcome matches Err(e) ==> r == Err::<(), ImportError>(ImportError::Decode(e))
            } else {
                &&& final(image_out)@ == old(image_out)@
                &&& r matches Err(ImportError::Hex(e)) && hex_outcome_ok(t, Err(e))
            }
        }),
{
    let bytes = match parse_hex(text) {
        Ok(bytes) => bytes,
        Err(e) => {
            return Err(ImportError::Hex(e));
        },
    };
    let rle = match OneByteRle::new_with_bytes(bytes) {
        Some(rle) => rle,
        None => {
            return Err(ImportError::Decode(DecodeError::EmptyBuffer));
        },
    };
    match rle_on_indexed(image_out, &rle, trim, overwrite) {
        Ok(()) => Ok(()),
        Err(e) => Err(ImportError::Decode(e)),
    }
}

} // verus!
