//! Decoding of hexadecimal strings into bytes, two digits per byte.
use vstd::prelude::*;
use vstd::string::StringSliceAdditionalSpecFns;

verus! {

/// Why a hexadecimal string could not be decoded.
#[derive(Debug, Clone, Copy, PartialEq, Eq)]
pub enum HexError {
    /// The string has an odd number of bytes.
    OddLength,
    /// A pair of bytes is not a hexadecimal number.
    InvalidDigit,
}

/// The value of a hexadecimal digit (either case).
pub open spec fn hex_value(c: u8) -> Option<u8> {
    if 0x30 <= c <= 0x39 {
        Some((c - 0x30) as u8)
    } else if 0x61 <= c <= 0x66 {
        Some((c - 0x61 + 10) as u8)
    } else if 0x41 <= c <= 0x46 {
        Some((c - 0x41 + 10) as u8)
    } else {
        None
    }
}

/// The byte that a pair of characters stands for: two digits, or a `+`
/// sign and one digit.
pub open spec fn pair_value(a: u8, b: u8) -> Option<u8> {
    if a == 0x2b {
        hex_value(b)
    } else {
        match (hex_value(a), hex_value(b)) {
            (Some(x), Some(y)) => Some((16 * x + y) as u8),
            _ => None,
        }
    }
}

/// Every pair of `b` stands for a byte.
pub open spec fn pairs_valid(b: Seq<u8>) -> bool {
    forall|i: int| 0 <= i < b.len() / 2 ==> #[trigger] pair_value(b[2 * i], b[2 * i + 1]).is_some()
}

/// The bytes that the pairs of `b` stand for.
pub open spec fn decode_pairs(b: Seq<u8>) -> Seq<u8> {
    Seq::new(b.len() / 2, |i: int| pair_value(b[2 * i], b[2 * i + 1]).unwrap())
}

fn digit(c: u8) -> (r: Option<u8>)
    ensures
        r == hex_value(c),
{
    if 0x30 <= c && c <= 0x39 {
        Some(c - 0x30)
    } else if 0x61 <= c && c <= 0x66 {
        Some(c - 0x61 + 10)
    } else if 0x41 <= c && c <= 0x46 {
        Some(c - 0x41 + 10)
    } else {
        None
    }
}

fn pair(a: u8, b: u8) -> (r: Option<u8>)
    ensures
        r == pair_value(a, b),
{
    if a == 0x2b {
        digit(b)
    } else {
        match (digit(a), digit(b)) {
            (Some(x), Some(y)) => Some(16 * x + y),
            _ => None,
        }
    }
}

/// Decodes a hexadecimal string, two characters per byte.
pub fn parse_hex(hex_str: &str) -> (r: Result<Vec<u8>, HexError>)
    ensures
        (r matches Err(HexError::OddLength)) <==> hex_str.spec_bytes().len() % 2 != 0,
        (r matches Err(HexError::InvalidDigit)) <==> (hex_str.spec_bytes().len() % 2 == 0
            && !pairs_valid(hex_str.spec_bytes())),
        r.is_ok() ==> r.unwrap()@ == decode_pairs(hex_str.spec_bytes()),
{
    let b = hex_str.as_bytes();
    let len = b.len();
    if len % 2 != 0 {
        return Err(HexError::OddLength);
    }
    let mut out: Vec<u8> = Vec::new();
    let mut i: usize = 0;
    while i < len / 2
        invariant
            len == b@.len(),
            b@ == hex_str.spec_bytes(),
            len % 2 == 0,
            i <= len / 2,
            out@ == decode_pairs(b@).take(i as int),
            forall|j: int| 0 <= j < i ==> #[trigger] pair_value(b@[2 * j], b@[2 * j + 1]).is_some(),
        decreases len / 2 - i,
    {
        match pair(b[2 * i], b[2 * i + 1]) {
            Some(x) => {
                out.push(x);
                assert(out@ =~= decode_pairs(b@).take(i + 1));
            },
            None => {
                assert(!pairs_valid(b@));
                return Err(HexError::InvalidDigit);
            },
        }
        i = i + 1;
    }
    assert(out@ =~= decode_pairs(b@));
    Ok(out)
}

} // verus!
