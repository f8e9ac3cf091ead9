use vstd::prelude::*;
use vstd::string::StringSliceAdditionalSpecFns;
use vstd::utf8::{encode_utf8, is_ascii_chars, is_ascii_chars_encode_utf8};

verus! {

/// Why a hex string does not decode.
#[derive(Debug, Clone, Copy, PartialEq, Eq, Structural)]
pub enum HexError {
    InvalidHexCharacter { c: char, index: usize },
    OddLength,
    InvalidStringLength,
}

/// Value of a hex digit (either case).
pub open spec fn hex_digit(b: u8) -> Option<u8> {
    if 48 <= b <= 57 {
        Some((b - 48) as u8)
    } else if 97 <= b <= 102 {
        Some((b - 87) as u8)
    } else if 65 <= b <= 70 {
        Some((b - 55) as u8)
    } else {
        None
    }
}

/// Index of the first byte at or after `i` that is not a hex digit, if any.
pub open spec fn first_non_hex(data: Seq<u8>, i: nat) -> Option<nat>
    decreases data.len() - i,
{
    if i >= data.len() {
        None
    } else if hex_digit(data[i as int]) is None {
        Some(i)
    } else {
        first_non_hex(data, i + 1)
    }
}

/// `hex::decode` on the bytes `data`: an even number of hex digits, two per byte, high
/// nibble first; an odd length, or the first byte that is not a hex digit, is an error.
pub open spec fn spec_hex_decode(data: Seq<u8>) -> Result<Seq<u8>, HexError> {
    if data.len() % 2 != 0 {
        Err(HexError::OddLength)
    } else {
        match first_non_hex(data, 0) {
            Some(i) => Err(HexError::InvalidHexCharacter { c: data[i as int] as char, index: i as usize }),
            None => Ok(
                Seq::new(
                    data.len() / 2,
                    |i: int|
                        (hex_digit(data[2 * i]).unwrap() * 16 + hex_digit(
                            data[2 * i + 1],
                        ).unwrap()) as u8,
                ),
            ),
        }
    }
}

/// Calls `hex::decode` on the UTF-8 bytes of `s`.  The contract states the crate's
/// documented behaviour, in the order its source checks it: odd length first, then the first
/// invalid character, else the decoded bytes.
#[verifier::external_body]
pub(crate) fn hex_decode(s: &str) -> (res: Result<Vec<u8>, HexError>)
    ensures
        match spec_hex_decode(s.spec_bytes()) {
            Ok(v) => res matches Ok(r) && r@ == v,
            Err(e) => res == Err::<Vec<u8>, HexError>(e),
        },
{
    match hex::decode(s) {
        Ok(v) => Ok(v),
        Err(hex::FromHexError::InvalidHexCharacter { c, index }) => Err(
            HexError::InvalidHexCharacter { c, index },
        ),
        Err(hex::FromHexError::OddLength) => Err(HexError::OddLength),
        Err(hex::FromHexError::InvalidStringLength) => Err(HexError::InvalidStringLength),
    }
}

/// A 32-byte hash from a byte vector of exactly that length.
pub fn to_hash(bytes: &Vec<u8>) -> (res: Option<[u8; 32]>)
    ensures
        bytes@.len() == 32 ==> (res matches Some(h) && h@ == bytes@),
        bytes@.len() != 32 ==> res is None,
{
    if bytes.len() != 32 {
        return None;
    }
    let mut out = [0u8; 32];
    let mut i: usize = 0;
    while i < 32
        invariant
            bytes@.len() == 32,
            0 <= i <= 32,
            forall|j: int| 0 <= j < i ==> out@[j] == bytes@[j],
        decreases 32 - i,
    {
        out[i] = bytes[i];
        i = i + 1;
    }
    proof {
        assert(out@ =~= bytes@);
    }
    Some(out)
}

/// Decodes a hex-encoded SHA-256 hash: `None` unless the string decodes to exactly 32 bytes.
pub fn decode_hash(s: &str) -> (res: Option<[u8; 32]>)
    ensures
        match spec_hex_decode(s.spec_bytes()) {
            Ok(v) => if v.len() == 32 {
                res matches Some(h) && h@ == v
            } else {
                res is None
            },
            Err(_) => res is None,
        },
{
    match hex_decode(s) {
        Ok(v) => to_hash(&v),
        Err(_) => None,
    }
}


/// The lowercase hex digit for a value below 16.
pub open spec fn lower_hex_char(v: u8) -> char {
    if v < 10 {
        ((v as int) + 48) as char
    } else {
        ((v as int) + 87) as char
    }
}

/// `hex::encode`: two lowercase hex digits per byte, high nibble first.
pub open spec fn spec_hex_encode(bytes: Seq<u8>) -> Seq<char> {
    Seq::new(
        bytes.len() * 2,
        |i: int|
            if i % 2 == 0 {
                lower_hex_char(bytes[i / 2] / 16)
            } else {
                lower_hex_char(bytes[i / 2] % 16)
            },
    )
}

/// Calls `hex::encode` on a hash.  The contract states the crate's behaviour, as its source
/// shows it: each byte becomes two digits from `0123456789abcdef`, high nibble first.
#[verifier::external_body]
fn hex_encode(bytes: &[u8; 32]) -> (res: String)
    ensures
        res@ == spec_hex_encode(bytes@),
{
    hex::encode(bytes)
}

/// A hash written as 64 lowercase hex digits.
pub fn encode_hash(hash: &[u8; 32]) -> (res: String)
    ensures
        res@ == spec_hex_encode(hash@),
{
    hex_encode(hash)
}

proof fn lemma_all_hex(data: Seq<u8>, i: nat)
    requires
        forall|k: int| i <= k < data.len() ==> #[trigger] hex_digit(data[k]) is Some,
    ensures
        first_non_hex(data, i) is None,
    decreases data.len() - i,
{
    if i < data.len() {
        lemma_all_hex(data, i + 1);
    }
}

/// Decoding the bytes of what `hex::encode` writes gives back the bytes it encoded.
pub proof fn lemma_hex_round_trip(bytes: Seq<u8>)
    ensures
        spec_hex_decode(encode_utf8(spec_hex_encode(bytes))) == Ok::<Seq<u8>, HexError>(bytes),
{
    let chars = spec_hex_encode(bytes);
    assert forall|i: int| 0 <= i < chars.len() implies '\0' <= #[trigger] chars[i] <= '\u{7f}' by {
        let b = bytes[i / 2];
        assert(b / 16 < 16 && b % 16 < 16);
    }
    assert(is_ascii_chars(chars));
    is_ascii_chars_encode_utf8(chars);
    let data = encode_utf8(chars);
    assert forall|k: int| 0 <= k < data.len() implies #[trigger] hex_digit(data[k]) == Some(
        if k % 2 == 0 {
            bytes[k / 2] / 16
        } else {
            bytes[k / 2] % 16
        },
    ) by {
        assert(chars[k] as u8 == data[k]);
        let b = bytes[k / 2];
        assert(b / 16 < 16 && b % 16 < 16);
    }
    assert forall|k: int| 0 <= k < data.len() implies #[trigger] hex_digit(data[k]) is Some by {
        assert(hex_digit(data[k]) == Some(
            if k % 2 == 0 {
                bytes[k / 2] / 16
            } else {
                bytes[k / 2] % 16
            },
        ));
    }
    lemma_all_hex(data, 0);
    let decoded = spec_hex_decode(data);
    assert(data.len() % 2 == 0);
    assert(decoded is Ok);
    let v = decoded->Ok_0;
    assert forall|i: int| 0 <= i < bytes.len() implies v[i] == bytes[i] by {
        assert(hex_digit(data[2 * i]) == Some(bytes[i] / 16));
        assert(hex_digit(data[2 * i + 1]) == Some(bytes[i] % 16));
        assert((bytes[i] / 16) * 16 + bytes[i] % 16 == bytes[i]);
    }
    assert(v =~= bytes);
}

} // verus!
