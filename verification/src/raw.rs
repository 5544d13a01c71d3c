//! The trusted boundary around the outside crates: `bytes` for the opaque
//! byte runs that flow through resolution, and `hex` for decoding the text of
//! a hex literal. Everything else in the crate is verified against the
//! contracts stated here.
use vstd::prelude::*;
use vstd::string::StrSliceExecFns;
use vstd::string::StringExecFns;

verus! {

#[verifier::external_type_specification]
#[verifier::external_body]
pub struct ExBytes(bytes::Bytes);

/// The byte sequence a `bytes::Bytes` value holds.
pub uninterp spec fn bytes_content(b: bytes::Bytes) -> Seq<u8>;

/// Relies on `Bytes::len`: the number of bytes the value contains.
#[verifier::external_body]
pub fn bytes_len(b: &bytes::Bytes) -> (n: usize)
    ensures
        n == bytes_content(*b).len(),
{
    b.len()
}

/// Relies on `Bytes::clone`: a shallow copy holding the same bytes.
pub assume_specification[ <bytes::Bytes as Clone>::clone ](b: &bytes::Bytes) -> (r: bytes::Bytes)
    ensures
        bytes_content(r) == bytes_content(*b),
;

/// Relies on `Bytes`' deref to a slice and `slice::to_vec`: the same bytes,
/// copied out.
#[verifier::external_body]
pub fn bytes_to_vec(b: &bytes::Bytes) -> (r: Vec<u8>)
    ensures
        r@ == bytes_content(*b),
{
    b.to_vec()
}

/// Relies on `Bytes::from(Vec<u8>)`: the vector's bytes, unchanged.
#[verifier::external_body]
pub fn bytes_from_vec(v: Vec<u8>) -> (r: bytes::Bytes)
    ensures
        bytes_content(r) == v@,
{
    bytes::Bytes::from(v)
}

/// Relies on `str`'s `PartialEq`: two string slices are equal exactly when
/// they hold the same characters.
#[verifier::external_body]
pub fn str_eq(a: &str, b: &str) -> (r: bool)
    ensures
        r == (a@ == b@),
{
    a == b
}

/// Why `hex::decode` rejected its input.
#[derive(Clone, Copy, PartialEq, Eq, Structural, Debug)]
pub enum HexDecodeError {
    /// The digit string has odd length.
    OddLength,
    /// A character that is no hexadecimal digit, at this character index.
    InvalidChar { c: char, index: usize },
}

/// Whether `c` is a hexadecimal digit as `hex` recognizes them.
pub open spec fn is_hex_digit(c: char) -> bool {
    (48 <= c as int && c as int <= 57)  // '0' ..= '9'
    || (97 <= c as int && c as int <= 102)  // 'a' ..= 'f'
    || (65 <= c as int && c as int <= 70)  // 'A' ..= 'F'
}

/// The numeric value of a hexadecimal digit.
pub open spec fn hex_val(c: char) -> int
    recommends
        is_hex_digit(c),
{
    if 48 <= c as int && c as int <= 57 {
        c as int - 48
    } else if 97 <= c as int && c as int <= 102 {
        c as int - 87
    } else {
        c as int - 55
    }
}

/// The bytes an even-length string of hexadecimal digits denotes: each pair
/// of digits, high digit first, is one byte.
pub open spec fn hex_decoded(s: Seq<char>) -> Seq<u8>
    recommends
        s.len() % 2 == 0,
        forall|i: int| 0 <= i < s.len() ==> is_hex_digit(s[i]),
{
    Seq::new(s.len() / 2, |i: int| (16 * hex_val(s[2 * i]) + hex_val(s[2 * i + 1])) as u8)
}

/// The first position in `s` holding no hexadecimal digit.
pub open spec fn first_non_hex(s: Seq<char>) -> int {
    choose|i: int|
        0 <= i < s.len() && !is_hex_digit(s[i]) && (forall|j: int|
            0 <= j < i ==> is_hex_digit(s[j]))
}

/// What `hex::decode` returns for the character sequence `s`: odd length
/// fails first; then an even-length all-digit string decodes pairwise; else
/// the first bad character fails with its position.
pub open spec fn hex_decode_result(s: Seq<char>, r: Result<Vec<u8>, HexDecodeError>) -> bool {
    if s.len() % 2 != 0 {
        r == Err::<Vec<u8>, HexDecodeError>(HexDecodeError::OddLength)
    } else if forall|i: int| 0 <= i < s.len() ==> is_hex_digit(s[i]) {
        r matches Ok(v) && v@ == hex_decoded(s)
    } else {
        r == Err::<Vec<u8>, HexDecodeError>(
            (HexDecodeError::InvalidChar { c: s[first_non_hex(s)], index: first_non_hex(s) as usize }),
        )
    }
}

/// Relies on `hex::decode` (through `FromHex for Vec<u8>`): a string of even
/// length whose characters are all hexadecimal digits decodes to one byte per
/// digit pair; odd length fails first, then the first bad character fails
/// with its position. Restricted to ASCII input, where the crate's byte-wise
/// scan and the character view agree.
#[verifier::external_body]
pub fn hex_decode(s: &str) -> (r: Result<Vec<u8>, HexDecodeError>)
    requires
        s.is_ascii(),
    ensures
        hex_decode_result(s@, r),
{
    match hex::decode(s) {
        Ok(v) => Ok(v),
        Err(hex::FromHexError::OddLength) => Err(HexDecodeError::OddLength),
        Err(hex::FromHexError::InvalidHexCharacter { c, index }) => Err(
            HexDecodeError::InvalidChar { c, index },
        ),
        Err(hex::FromHexError::InvalidStringLength) => Err(HexDecodeError::OddLength),
    }
}

/// The digit string of a hex literal after the `0x` prefix, padded in front
/// with a `0` when it has odd length.
pub open spec fn padded_digits(s: Seq<char>) -> Seq<char> {
    let digits = s.skip(2);
    if digits.len() % 2 == 0 {
        digits
    } else {
        seq!['0'].add(digits)
    }
}

/// Decodes the text of a hex literal (`0x` followed by digits) into bytes,
/// padding an odd number of digits with a leading zero digit.
pub fn decode_hex_literal(s: &str) -> (r: Result<bytes::Bytes, HexDecodeError>)
    requires
        s.is_ascii(),
        s@.len() >= 2,
        s@[0] == '0',
        s@[1] == 'x',
    ensures
        (forall|i: int| 0 <= i < padded_digits(s@).len() ==> is_hex_digit(padded_digits(s@)[i]))
            ==> (r matches Ok(b) && bytes_content(b) == hex_decoded(padded_digits(s@))),
        (exists|i: int| 0 <= i < padded_digits(s@).len() && !is_hex_digit(padded_digits(s@)[i]))
            ==> r is Err,
{
    let n = s.unicode_len();
    let digits = s.substring_ascii(2, n);
    let decoded = if digits.unicode_len() % 2 == 1 {
        let mut padded = String::from_str("0");
        padded.append(digits);
        let padded_str = padded.as_str();
        proof {
            reveal_strlit("0");
            assert(padded_str@ =~= padded_digits(s@));
            assert forall|i: int| 0 <= i < padded_str@.len() implies '\0' <= #[trigger] padded_str@[i]
                <= '\u{7f}' by {
                if i > 0 {
                    assert(padded_str@[i] == digits@[i - 1]);
                    assert(vstd::utf8::is_ascii_chars(digits@));
                }
            }
        }
        hex_decode(padded_str)
    } else {
        proof {
            assert(digits@ =~= padded_digits(s@));
        }
        hex_decode(digits)
    };
    match decoded {
        Ok(v) => Ok(bytes_from_vec(v)),
        Err(e) => Err(e),
    }
}

} // verus!
