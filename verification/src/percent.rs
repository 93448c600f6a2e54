//! Percent-decoding of the bytes of a URL path.

use vstd::prelude::*;

verus! {

/// The byte that opens an escape.
pub const PERCENT: u8 = 0x25;

/// The value of a hexadecimal digit, in either case; `None` for any other
/// byte.
pub open spec fn hex_digit(byte: u8) -> Option<u8> {
    if 0x30 <= byte <= 0x39 {
        Some((byte - 0x30) as u8)
    } else if 0x41 <= byte <= 0x46 {
        Some((byte - 0x41 + 10) as u8)
    } else if 0x61 <= byte <= 0x66 {
        Some((byte - 0x61 + 10) as u8)
    } else {
        None
    }
}

/// The byte that an escape at the beginning of `bytes` stands for: a
/// percent sign and two hexadecimal digits give the byte of that value.
/// `None` where `bytes` begins with no escape.
pub open spec fn escaped_byte(bytes: Seq<u8>) -> Option<u8> {
    if bytes.len() >= 3 && bytes[0] == PERCENT && hex_digit(bytes[1]) is Some && hex_digit(
        bytes[2],
    ) is Some {
        Some((hex_digit(bytes[1])->0 * 16 + hex_digit(bytes[2])->0) as u8)
    } else {
        None
    }
}

/// `bytes` with every escape replaced by the byte that it stands for, read
/// from the left. A percent sign that opens no escape stands for itself.
pub open spec fn percent_decoded(bytes: Seq<u8>) -> Seq<u8>
    decreases bytes.len(),
{
    if bytes.len() == 0 {
        Seq::empty()
    } else {
        match escaped_byte(bytes) {
            Some(byte) => seq![byte] + percent_decoded(bytes.skip(3)),
            None => seq![bytes[0]] + percent_decoded(bytes.drop_first()),
        }
    }
}

/// The value of a hexadecimal digit.
pub fn hex_value(byte: u8) -> (value: Option<u8>)
    ensures
        value == hex_digit(byte),
{
    if 0x30 <= byte && byte <= 0x39 {
        Some(byte - 0x30)
    } else if 0x41 <= byte && byte <= 0x46 {
        Some(byte - 0x41 + 10)
    } else if 0x61 <= byte && byte <= 0x66 {
        Some(byte - 0x61 + 10)
    } else {
        None
    }
}

/// Replaces every escape in `bytes` by the byte that it stands for.
pub fn percent_decode(bytes: &[u8]) -> (decoded: Vec<u8>)
    ensures
        decoded@ == percent_decoded(bytes@),
{
    let mut decoded: Vec<u8> = Vec::new();
    let mut at: usize = 0;
    assert(bytes@.skip(0) =~= bytes@);
    while at < bytes.len()
        invariant
            at <= bytes@.len(),
            percent_decoded(bytes@) == decoded@ + percent_decoded(bytes@.skip(at as int)),
        decreases bytes@.len() - at,
    {
        let ghost rest = bytes@.skip(at as int);
        let ghost before = decoded@;
        let mut byte: u8 = bytes[at];
        let mut width: usize = 1;
        if byte == PERCENT && bytes.len() - at >= 3 {
            match (hex_value(bytes[at + 1]), hex_value(bytes[at + 2])) {
                (Some(high), Some(low)) => {
                    byte = high * 16 + low;
                    width = 3;
                },
                _ => {},
            }
        }
        decoded.push(byte);
        proof {
            if width == 3 {
                assert(rest.skip(3) =~= bytes@.skip(at + 3));
            } else {
                assert(rest.drop_first() =~= bytes@.skip(at + 1));
            }
            assert(before + (seq![byte] + percent_decoded(bytes@.skip(at + width))) =~= decoded@
                + percent_decoded(bytes@.skip(at + width)));
        }
        at = at + width;
    }
    assert(decoded@ + Seq::<u8>::empty() =~= decoded@);
    decoded
}

} // verus!
