//! The encodings that message bodies and attachments come in: base64, pairs of
//! hexadecimal digits, UTF-8 and the charsets of mail.

use base64::engine::general_purpose;
use base64::Engine;
use encoding_rs::Encoding;
use vstd::prelude::*;

use crate::text;

verus! {

/// The largest number of bytes that the encoders are given, so that what they
/// write fits into memory.
pub open spec fn encodable_len() -> int {
    usize::MAX as int / 8
}

/// The characters of base64, in the order of the values that they stand for
/// (RFC 4648, table 1).
pub open spec fn base64_char(value: int) -> char {
    if value < 26 {
        (65 + value) as u8 as char
    } else if value < 52 {
        (97 + value - 26) as u8 as char
    } else if value < 62 {
        (48 + value - 52) as u8 as char
    } else if value == 62 {
        '+'
    } else {
        '/'
    }
}

/// The bytes in base64, with padding (RFC 4648, section 4): each group of three
/// bytes is one number, written in four digits of six bits.
pub open spec fn base64(bytes: Seq<u8>) -> Seq<char>
    decreases bytes.len(),
{
    if bytes.len() == 0 {
        Seq::empty()
    } else {
        let second: int = if bytes.len() > 1 { bytes[1] as int } else { 0 };
        let third: int = if bytes.len() > 2 { bytes[2] as int } else { 0 };
        let group: int = bytes[0] * 65536 + second * 256 + third;
        seq![
            base64_char(group / 262144),
            base64_char(group / 4096 % 64),
            if bytes.len() > 1 { base64_char(group / 64 % 64) } else { '=' },
            if bytes.len() > 2 { base64_char(group % 64) } else { '=' },
        ] + base64(if bytes.len() > 3 { bytes.skip(3) } else { Seq::empty() })
    }
}

/// `encode` of the engine `base64::engine::general_purpose::STANDARD`: base64
/// with the standard alphabet and padding.
#[verifier::external_body]
pub(crate) fn to_base64(bytes: &Vec<u8>) -> (r: String)
    requires
        bytes@.len() <= encodable_len(),
    ensures
        r@ == base64(bytes@),
{
    general_purpose::STANDARD.encode(bytes)
}

/// Why a text is not made of pairs of hexadecimal digits.
#[derive(Debug, Clone, Copy, PartialEq, Eq, Structural)]
pub enum HexError {
    /// A byte that is no hexadecimal digit, and its position.
    InvalidCharacter { c: char, index: usize },
    /// The last digit has no partner.
    OddLength,
    /// The text does not fill its destination.
    InvalidLength,
}

/// The value of a hexadecimal digit in ASCII, or nothing for another byte.
pub open spec fn hex_value(b: u8) -> Option<int> {
    if 48 <= b <= 57 {
        Some(b - 48)
    } else if 65 <= b <= 70 {
        Some(b - 65 + 10)
    } else if 97 <= b <= 102 {
        Some(b - 97 + 10)
    } else {
        None
    }
}

/// The position of the first byte from `from` on that is no hexadecimal digit.
pub open spec fn first_non_hex(bytes: Seq<u8>, from: int) -> Option<int>
    decreases bytes.len() - from,
{
    if from >= bytes.len() {
        None
    } else if hex_value(bytes[from]) is None {
        Some(from)
    } else {
        first_non_hex(bytes, from + 1)
    }
}

/// The bytes that pairs of hexadecimal digits stand for.
pub open spec fn hex_bytes(digits: Seq<u8>) -> Result<Seq<u8>, HexError> {
    if digits.len() % 2 != 0 {
        Err(HexError::OddLength)
    } else {
        match first_non_hex(digits, 0) {
            Some(i) => Err(
                HexError::InvalidCharacter { c: digits[i] as char, index: i as usize },
            ),
            None => Ok(
                Seq::new(
                    digits.len() / 2,
                    |i: int|
                        (hex_value(digits[2 * i])->0 * 16 + hex_value(
                            digits[2 * i + 1],
                        )->0) as u8,
                ),
            ),
        }
    }
}

/// What a list of bytes in a result holds.
pub open spec fn bytes_of(r: Result<Vec<u8>, HexError>) -> Result<Seq<u8>, HexError> {
    match r {
        Ok(bytes) => Ok(bytes@),
        Err(e) => Err(e),
    }
}

/// `hex::decode`: two digits of either case for each byte of the result. An odd
/// number of bytes is refused before the digits are looked at, then the first
/// byte that is no digit.
#[verifier::external_body]
pub(crate) fn from_hex(digits: &str) -> (r: Result<Vec<u8>, HexError>)
    ensures
        bytes_of(r) == hex_bytes(vstd::utf8::encode_utf8(digits@)),
{
    match hex::decode(digits) {
        Ok(bytes) => Ok(bytes),
        Err(hex::FromHexError::InvalidHexCharacter { c, index }) => Err(
            HexError::InvalidCharacter { c, index },
        ),
        Err(hex::FromHexError::OddLength) => Err(HexError::OddLength),
        Err(hex::FromHexError::InvalidStringLength) => Err(HexError::InvalidLength),
    }
}

/// `String::from_utf8` of the standard library: the text that the bytes encode,
/// if they are valid UTF-8.
#[verifier::external_body]
pub(crate) fn from_utf8(bytes: Vec<u8>) -> (r: Option<String>)
    ensures
        text::optional_text(r) == (if vstd::utf8::valid_utf8(bytes@) {
            Some(vstd::utf8::decode_utf8(bytes@))
        } else {
            None
        }),
{
    String::from_utf8(bytes).ok()
}

/// What `encoding_rs` decodes bytes to under the label of a charset, or nothing
/// where it knows no such label.
pub uninterp spec fn decoded_text(label: Seq<char>, bytes: Seq<u8>) -> Option<Seq<char>>;

/// The bytes begin with the byte order mark of UTF-8.
pub open spec fn has_utf8_mark(bytes: Seq<u8>) -> bool {
    bytes.len() >= 3 && bytes[0] == 0xef && bytes[1] == 0xbb && bytes[2] == 0xbf
}

/// `Encoding::for_label` of `encoding_rs`, then `decode` of the encoding it
/// finds. The result is a function of the label and the bytes, called
/// `decoded_text`. Valid UTF-8 without a byte order mark comes out as it is
/// under the label `utf-8`; what other labels and malformed bytes give is left
/// unsaid.
#[verifier::external_body]
pub(crate) fn decode(label: &str, bytes: &Vec<u8>) -> (r: Option<String>)
    requires
        bytes@.len() <= encodable_len(),
    ensures
        text::optional_text(r) == decoded_text(label@, bytes@),
        label@ == "utf-8"@ && vstd::utf8::valid_utf8(bytes@) && !has_utf8_mark(bytes@) ==> text::optional_text(r)
            == Some(vstd::utf8::decode_utf8(bytes@)),
{
    let encoding = Encoding::for_label(label.as_bytes())?;
    Some(encoding.decode(bytes).0.to_string())
}

/// Base64 takes four characters for each group of three bytes, or part of one.
pub proof fn lemma_base64_len(bytes: Seq<u8>)
    ensures
        base64(bytes).len() == (bytes.len() + 2) / 3 * 4,
    decreases bytes.len(),
{
    if bytes.len() > 3 {
        lemma_base64_len(bytes.skip(3));
    } else {
        reveal_with_fuel(base64, 2);
    }
}

proof fn lemma_base64_char(a: int, b: int)
    requires
        0 <= a < 64,
        0 <= b < 64,
    ensures
        base64_char(a) == base64_char(b) ==> a == b,
        base64_char(a) != '=',
{
}

/// The number that the first three bytes stand for, or those that are there.
spec fn group_of(bytes: Seq<u8>) -> int {
    bytes[0] * 65536 + (if bytes.len() > 1 {
        bytes[1] as int
    } else {
        0
    }) * 256 + (if bytes.len() > 2 {
        bytes[2] as int
    } else {
        0
    })
}

spec fn after_group(bytes: Seq<u8>) -> Seq<u8> {
    if bytes.len() > 3 {
        bytes.skip(3)
    } else {
        Seq::empty()
    }
}

proof fn lemma_digits(bytes: Seq<u8>)
    requires
        bytes.len() > 0,
    ensures
        0 <= group_of(bytes) < 16777216,
        base64(bytes).len() >= 4,
        base64(bytes)[0] == base64_char(group_of(bytes) / 262144),
        base64(bytes)[1] == base64_char(group_of(bytes) / 4096 % 64),
        base64(bytes)[2] == (if bytes.len() > 1 {
            base64_char(group_of(bytes) / 64 % 64)
        } else {
            '='
        }),
        base64(bytes)[3] == (if bytes.len() > 2 {
            base64_char(group_of(bytes) % 64)
        } else {
            '='
        }),
        base64(bytes).skip(4) == base64(after_group(bytes)),
{
    assert(base64(bytes).skip(4) =~= base64(after_group(bytes)));
}

/// The bytes of a group, by its digits.
proof fn lemma_bytes_of_group(first: u8, second: u8, third: u8)
    ensures
        ({
            let g = first * 65536 + second * 256 + third;
            &&& first == (g / 262144) * 4 + (g / 4096 % 64) / 16
            &&& second == (g / 4096 % 64) % 16 * 16 + (g / 64 % 64) / 4
            &&& third == (g / 64 % 64) % 4 * 64 + g % 64
        }),
{
    let (f, s, t) = (first as u32, second as u32, third as u32);
    let g: u32 = (f * 65536 + s * 256 + t) as u32;
    assert(f == (g / 262144) * 4 + (g / 4096 % 64) / 16 && s == (g / 4096 % 64) % 16 * 16 + (g / 64
        % 64) / 4 && t == (g / 64 % 64) % 4 * 64 + g % 64) by (bit_vector)
        requires
            f < 256,
            s < 256,
            t < 256,
            g == f * 65536 + s * 256 + t,
    ;
}

proof fn lemma_first_group(a: Seq<u8>, b: Seq<u8>)
    requires
        a.len() > 0,
        b.len() > 0,
        base64(a) == base64(b),
    ensures
        a[0] == b[0],
        a.len() > 1 <==> b.len() > 1,
        a.len() > 2 <==> b.len() > 2,
        a.len() > 1 ==> a[1] == b[1],
        a.len() > 2 ==> a[2] == b[2],
        base64(after_group(a)) == base64(after_group(b)),
{
    let (m, n) = (group_of(a), group_of(b));
    lemma_digits(a);
    lemma_digits(b);
    lemma_base64_char(m / 262144, n / 262144);
    lemma_base64_char(m / 4096 % 64, n / 4096 % 64);
    lemma_base64_char(m / 64 % 64, n / 64 % 64);
    lemma_base64_char(n / 64 % 64, m / 64 % 64);
    lemma_base64_char(m % 64, n % 64);
    lemma_base64_char(n % 64, m % 64);
    lemma_bytes_of_group(
        a[0],
        if a.len() > 1 { a[1] } else { 0 },
        if a.len() > 2 { a[2] } else { 0 },
    );
    lemma_bytes_of_group(
        b[0],
        if b.len() > 1 { b[1] } else { 0 },
        if b.len() > 2 { b[2] } else { 0 },
    );
}

/// Base64 loses nothing: only one content is written as a given text, so what an
/// image shows is the content of its attachment.
pub proof fn law_base64_loses_nothing(a: Seq<u8>, b: Seq<u8>)
    requires
        base64(a) == base64(b),
    ensures
        a == b,
    decreases a.len(),
{
    if a.len() == 0 {
        assert(base64(b).len() == 0);
        assert(a =~= b);
    } else if b.len() == 0 {
        assert(base64(a).len() == 0);
    } else {
        lemma_first_group(a, b);
        let a_rest = after_group(a);
        let b_rest = after_group(b);
        law_base64_loses_nothing(a_rest, b_rest);
        if a.len() > 3 {
            assert(a =~= seq![a[0], a[1], a[2]] + a_rest);
            assert(b_rest.len() > 0);
            assert(b =~= seq![b[0], b[1], b[2]] + b_rest);
        } else {
            assert(b_rest.len() == 0);
            assert(a =~= b);
        }
    }
}

/// The character of each value of six bits is the one at its place in the alphabet of
/// base64.
pub proof fn law_base64_uses_its_alphabet(value: int)
    requires
        0 <= value < 64,
    ensures
        base64_char(value)
            == "ABCDEFGHIJKLMNOPQRSTUVWXYZabcdefghijklmnopqrstuvwxyz0123456789+/"@[value],
{
    reveal_strlit("ABCDEFGHIJKLMNOPQRSTUVWXYZabcdefghijklmnopqrstuvwxyz0123456789+/");
}

/// A byte is the code of a hexadecimal digit of the given value, in either case.
pub open spec fn digit_of(b: u8, value: int) -> bool {
    0 <= value < 10 && b == 48 + value || 10 <= value < 16 && (b == 55 + value || b == 87 + value)
}

/// A byte is the code of a hexadecimal digit, in either case.
pub open spec fn digit_code(b: u8) -> bool {
    48 <= b <= 57 || 65 <= b <= 70 || 97 <= b <= 102
}

proof fn lemma_first_non_hex(digits: Seq<u8>, from: int)
    requires
        0 <= from <= digits.len(),
    ensures
        first_non_hex(digits, from) is None <==> forall|i: int|
            from <= i < digits.len() ==> hex_value(#[trigger] digits[i]) is Some,
        first_non_hex(digits, from) matches Some(at) ==> from <= at < digits.len() && hex_value(
            digits[at],
        ) is None && forall|i: int| from <= i < at ==> hex_value(#[trigger] digits[i]) is Some,
    decreases digits.len() - from,
{
    if from < digits.len() && hex_value(digits[from]) is Some {
        lemma_first_non_hex(digits, from + 1);
    }
}

/// Pairs of hexadecimal digits are read as the bytes that they write, the high digit
/// first, in either case. Only an odd number of digits, or something that is no digit,
/// is an error, and it is the first of those that is reported with its place.
pub proof fn law_digits_are_read_as_they_are_written(digits: Seq<u8>, bytes: Seq<u8>)
    ensures
        digits.len() == 2 * bytes.len() && (forall|i: int|
            0 <= i < bytes.len() ==> digit_of(digits[2 * i], #[trigger] bytes[i] as int / 16)
                && digit_of(digits[2 * i + 1], bytes[i] as int % 16)) ==> hex_bytes(digits) == Ok::<
            Seq<u8>,
            HexError,
        >(bytes),
        digits.len() % 2 != 0 ==> hex_bytes(digits) == Err::<Seq<u8>, HexError>(
            HexError::OddLength,
        ),
        hex_bytes(digits) matches Err(HexError::InvalidCharacter { c, index }) ==> digits.len() % 2
            == 0 && exists|at: int|
            0 <= at < digits.len() && index == at as usize && c == digits[at] as char
                && !digit_code(#[trigger] digits[at]) && forall|i: int|
                0 <= i < at ==> digit_code(#[trigger] digits[i]),
        !(hex_bytes(digits) matches Err(HexError::InvalidLength)),
{
    lemma_first_non_hex(digits, 0);
    if digits.len() == 2 * bytes.len() && forall|i: int|
        0 <= i < bytes.len() ==> digit_of(digits[2 * i], #[trigger] bytes[i] as int / 16)
            && digit_of(digits[2 * i + 1], bytes[i] as int % 16) {
        assert forall|i: int| 0 <= i < digits.len() implies hex_value(
            #[trigger] digits[i],
        ) is Some by {
            let k = i / 2;
            assert(digit_of(digits[2 * k], bytes[k] as int / 16));
        }
        assert(hex_bytes(digits)->Ok_0 =~= bytes) by {
            assert forall|k: int| 0 <= k < bytes.len() implies #[trigger] hex_bytes(
                digits,
            )->Ok_0[k] == bytes[k] by {
                assert(digit_of(digits[2 * k], bytes[k] as int / 16));
            }
        }
    }
    if let Err(HexError::InvalidCharacter { c, index }) = hex_bytes(digits) {
        let at = first_non_hex(digits, 0)->0;
        assert(!digit_code(digits[at]));
        assert forall|i: int| 0 <= i < at implies digit_code(#[trigger] digits[i]) by {
            assert(hex_value(digits[i]) is Some);
        }
    }
}

proof fn lemma_base64_of(a: Seq<u8>, b: Seq<u8>)
    requires
        a.len() % 3 == 0,
    ensures
        base64(a + b) == base64(a) + base64(b),
    decreases a.len(),
{
    if a.len() > 0 {
        lemma_digits(a);
        lemma_digits(a + b);
        assert(group_of(a + b) == group_of(a));
        let rest = a.skip(3);
        assert(after_group(a) =~= rest);
        assert(after_group(a + b) =~= rest + b);
        lemma_base64_of(rest, b);
        assert(base64(a) =~= base64(a).take(4) + base64(rest));
        assert(base64(a + b) =~= base64(a + b).take(4) + base64(rest + b));
        assert(base64(a + b).take(4) =~= base64(a).take(4));
        assert(base64(a + b) =~= base64(a) + base64(b));
    } else {
        assert(a + b =~= b);
        assert(base64(a) + base64(b) =~= base64(b));
    }
}

proof fn lemma_digits_of_group(x: u8, y: u8, z: u8)
    ensures
        ({
            let g = x * 65536 + y * 256 + z;
            &&& g / 262144 == x / 4
            &&& g / 4096 % 64 == x % 4 * 16 + y / 16
            &&& g / 64 % 64 == y % 16 * 4 + z / 64
            &&& g % 64 == z % 64
        }),
{
    let (f, s, t) = (x as u32, y as u32, z as u32);
    let g: u32 = (f * 65536 + s * 256 + t) as u32;
    assert(g / 262144 == f / 4 && g / 4096 % 64 == f % 4 * 16 + s / 16 && g / 64 % 64 == s % 16 * 4
        + t / 64 && g % 64 == t % 64) by (bit_vector)
        requires
            f < 256,
            s < 256,
            t < 256,
            g == f * 65536 + s * 256 + t,
    ;
}

/// Base64 writes three bytes at a time as four characters of six bits each, the high
/// bits first. What is left is filled up with zero bits, and the characters that hold
/// none of it are `=`.
pub proof fn law_base64_writes_six_bits_at_a_time(
    a: Seq<u8>,
    b: Seq<u8>,
    x: u8,
    y: u8,
    z: u8,
)
    requires
        a.len() % 3 == 0,
    ensures
        base64(a + b) == base64(a) + base64(b),
        base64(seq![x, y, z]) == seq![
            base64_char(x as int / 4),
            base64_char(x as int % 4 * 16 + y as int / 16),
            base64_char(y as int % 16 * 4 + z as int / 64),
            base64_char(z as int % 64),
        ],
        base64(seq![x, y]) == seq![
            base64_char(x as int / 4),
            base64_char(x as int % 4 * 16 + y as int / 16),
            base64_char(y as int % 16 * 4),
            '=',
        ],
        base64(seq![x]) == seq![
            base64_char(x as int / 4),
            base64_char(x as int % 4 * 16),
            '=',
            '=',
        ],
{
    lemma_base64_of(a, b);
    lemma_digits_of_group(x, y, z);
    lemma_digits_of_group(x, y, 0);
    lemma_digits_of_group(x, 0, 0);
    lemma_digits(seq![x, y, z]);
    lemma_digits(seq![x, y]);
    lemma_digits(seq![x]);
    lemma_base64_len(seq![x, y, z]);
    lemma_base64_len(seq![x, y]);
    lemma_base64_len(seq![x]);
    assert(base64(seq![x, y, z]) =~= seq![
        base64_char(x as int / 4),
        base64_char(x as int % 4 * 16 + y as int / 16),
        base64_char(y as int % 16 * 4 + z as int / 64),
        base64_char(z as int % 64),
    ]);
    assert(base64(seq![x, y]) =~= seq![
        base64_char(x as int / 4),
        base64_char(x as int % 4 * 16 + y as int / 16),
        base64_char(y as int % 16 * 4),
        '=',
    ]);
    assert(base64(seq![x]) =~= seq![
        base64_char(x as int / 4),
        base64_char(x as int % 4 * 16),
        '=',
        '=',
    ]);
}

} // verus!
