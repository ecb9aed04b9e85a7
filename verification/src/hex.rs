use vstd::prelude::*;

use crate::error::{MigrateError, SquashEpochParseError};
use crate::text::push_char;

verus! {

/// The value of a hexadecimal digit (either case), or `None` for any other byte.
pub open spec fn hex_digit_value(b: u8) -> Option<u8> {
    if 0x30 <= b <= 0x39 {
        Some((b - 0x30) as u8)
    } else if 0x61 <= b <= 0x66 {
        Some((b - 0x61 + 10) as u8)
    } else if 0x41 <= b <= 0x46 {
        Some((b - 0x41 + 10) as u8)
    } else {
        None
    }
}

/// Whether `b` is a hexadecimal digit.
pub open spec fn is_hex_digit(b: u8) -> bool {
    hex_digit_value(b) is Some
}

/// The index of the first byte of `b[i..]` that is not a hex digit, or `b.len()`.
pub open spec fn first_non_hex(b: Seq<u8>, i: int) -> int
    decreases b.len() - i,
{
    if i >= b.len() {
        b.len() as int
    } else if !is_hex_digit(b[i]) {
        i
    } else {
        first_non_hex(b, i + 1)
    }
}

/// The byte encoded by the hex digits at `2k` and `2k + 1`.
pub open spec fn decoded_pair(b: Seq<u8>, k: int) -> u8 {
    (hex_digit_value(b[2 * k])->0 * 16 + hex_digit_value(b[2 * k + 1])->0) as u8
}

/// Decoding a hex string given as bytes: an odd length is refused first,
/// then the first byte that is not a hex digit; otherwise each pair of
/// digits gives one byte, high nibble first.
pub open spec fn hex_decode(b: Seq<u8>) -> Result<Seq<u8>, MigrateError> {
    if b.len() % 2 != 0 {
        Err(MigrateError::SquashEpochParse(SquashEpochParseError::OddHexLength(b.len() as usize)))
    } else if first_non_hex(b, 0) < b.len() {
        Err(
            MigrateError::SquashEpochParse(
                SquashEpochParseError::InvalidHexDigit(b[first_non_hex(b, 0)]),
            ),
        )
    } else {
        Ok(Seq::new(b.len() / 2, |k: int| decoded_pair(b, k)))
    }
}

/// The lowercase hex digit for a nibble.
pub open spec fn hex_char(n: u8) -> char {
    if n < 10 {
        (0x30 + n) as char
    } else {
        (0x61 + n - 10) as char
    }
}

/// Lowercase hex encoding: two digits per byte, high nibble first.
pub open spec fn hex_encode(b: Seq<u8>) -> Seq<char> {
    Seq::new(
        2 * b.len(),
        |i: int|
            if i % 2 == 0 {
                hex_char(b[i / 2] / 16)
            } else {
                hex_char(b[i / 2] % 16)
            },
    )
}

/// `first_non_hex` is the first non-digit at or after `i`.
pub proof fn lemma_first_non_hex(b: Seq<u8>, i: int, j: int)
    requires
        0 <= i <= j <= b.len(),
        forall|k: int| i <= k < j ==> is_hex_digit(#[trigger] b[k]),
        j == b.len() || !is_hex_digit(b[j]),
    ensures
        first_non_hex(b, i) == j,
    decreases j - i,
{
    if i < j {
        lemma_first_non_hex(b, i + 1, j);
    }
}

/// The value of one hex digit.
pub fn from_hex_digit(b: u8) -> (r: Result<u8, MigrateError>)
    ensures
        match hex_digit_value(b) {
            Some(v) => r == Ok::<u8, MigrateError>(v),
            None => r == Err::<u8, MigrateError>(
                MigrateError::SquashEpochParse(SquashEpochParseError::InvalidHexDigit(b)),
            ),
        },
{
    if 0x30 <= b && b <= 0x39 {
        Ok(b - 0x30)
    } else if 0x61 <= b && b <= 0x66 {
        Ok(b - 0x61 + 10)
    } else if 0x41 <= b && b <= 0x46 {
        Ok(b - 0x41 + 10)
    } else {
        Err(MigrateError::SquashEpochParse(SquashEpochParseError::InvalidHexDigit(b)))
    }
}

/// Decodes a hex string given as its bytes.
pub fn decode_hex(bytes: &[u8]) -> (r: Result<Vec<u8>, MigrateError>)
    ensures
        match hex_decode(bytes@) {
            Ok(v) => r matches Ok(out) && out@ == v,
            Err(e) => r == Err::<Vec<u8>, MigrateError>(e),
        },
{
    let len = bytes.len();
    if len % 2 != 0 {
        return Err(MigrateError::SquashEpochParse(SquashEpochParseError::OddHexLength(len)));
    }
    let mut out: Vec<u8> = Vec::with_capacity(len / 2);
    let mut i: usize = 0;
    while i < len
        invariant
            len == bytes@.len(),
            len % 2 == 0,
            i % 2 == 0,
            i <= len,
            forall|k: int| 0 <= k < i ==> is_hex_digit(#[trigger] bytes@[k]),
            out@ =~= Seq::new((i / 2) as nat, |k: int| decoded_pair(bytes@, k)),
        decreases len - i,
    {
        let hi = match from_hex_digit(bytes[i]) {
            Ok(v) => v,
            Err(e) => {
                proof {
                    lemma_first_non_hex(bytes@, 0, i as int);
                }
                return Err(e);
            },
        };
        let lo = match from_hex_digit(bytes[i + 1]) {
            Ok(v) => v,
            Err(e) => {
                proof {
                    lemma_first_non_hex(bytes@, 0, i + 1);
                }
                return Err(e);
            },
        };
        assert((hi << 4) | lo == hi * 16 + lo) by (bit_vector)
            requires
                hi < 16,
                lo < 16,
        ;
        out.push((hi << 4) | lo);
        i += 2;
    }
    proof {
        lemma_first_non_hex(bytes@, 0, len as int);
    }
    Ok(out)
}

/// The lowercase hex digit for a nibble.
fn nibble_char(n: u8) -> (c: char)
    requires
        n < 16,
    ensures
        c == hex_char(n),
{
    if n < 10 {
        (0x30 + n) as char
    } else {
        (0x61 + n - 10) as char
    }
}

/// Appends the lowercase hex encoding of `bytes` to `out`.
pub fn encode_hex_into(bytes: &[u8], out: &mut String)
    ensures
        final(out)@ == old(out)@ + hex_encode(bytes@),
{
    let ghost start = out@;
    let len = bytes.len();
    for i in 0..len
        invariant
            len == bytes@.len(),
            out@ =~= start + hex_encode(bytes@.take(i as int)),
    {
        let b = bytes[i];
        assert(b >> 4 == b / 16 && b & 0xf == b % 16) by (bit_vector);
        push_char(out, nibble_char(b >> 4));
        push_char(out, nibble_char(b & 0xf));
        assert(hex_encode(bytes@.take(i + 1)) =~= hex_encode(bytes@.take(i as int)) + seq![
            hex_char(b / 16),
            hex_char(b % 16),
        ]);
    }
    assert(bytes@.take(len as int) =~= bytes@);
}

} // verus!
