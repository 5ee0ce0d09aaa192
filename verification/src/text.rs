//! Texts made of ASCII characters: decimal and hexadecimal numbers.

use vstd::prelude::*;
use vstd::utf8::{
    decode_utf8, encode_utf8, encode_utf8_decode_utf8, encode_utf8_valid_utf8, is_ascii_chars,
    is_ascii_chars_encode_utf8, valid_utf8,
};

use crate::bencode_parser::{decimal, is_digit, ZERO};

verus! {

/// `core::str::Utf8Error`, carried through as it is.
#[verifier::external_type_specification]
#[verifier::external_body]
pub struct ExUtf8Error(core::str::Utf8Error);

/// The error of `core::str::from_utf8` on bytes that are not UTF-8.
pub uninterp spec fn utf8_error_of(bytes: Seq<u8>) -> core::str::Utf8Error;

/// `core::str::from_utf8` succeeds on valid UTF-8 and on nothing else. The text that it returns
/// is made of the characters that the bytes encode. The error says where the bytes stop being
/// UTF-8, and so depends on the bytes alone.
pub assume_specification[ core::str::from_utf8 ](v: &[u8]) -> (r: Result<
    &str,
    core::str::Utf8Error,
>)
    ensures
        r is Ok <==> valid_utf8(v@),
        r matches Ok(s) ==> s@ == decode_utf8(v@),
        r matches Err(e) ==> e == utf8_error_of(v@),
;

/// The decimal digits of `n`, without leading zeroes.
pub open spec fn decimal_digits(n: nat) -> Seq<u8>
    decreases n,
{
    let digit = (ZERO + n % 10) as u8;
    if n < 10 {
        seq![digit]
    } else {
        decimal_digits(n / 10).push(digit)
    }
}

/// The decimal digits of a number stand for that number, and only zero begins with a zero.
pub proof fn law_decimal_digits(n: nat)
    ensures
        decimal(decimal_digits(n)) == n,
        decimal_digits(n).len() > 0,
        forall|i: int|
            0 <= i < decimal_digits(n).len() ==> is_digit(#[trigger] decimal_digits(n)[i]),
        decimal_digits(n)[0] == ZERO <==> n == 0,
        n == 0 ==> decimal_digits(n).len() == 1,
    decreases n,
{
    let digit = (ZERO + n % 10) as u8;
    if n >= 10 {
        law_decimal_digits(n / 10);
        let front = decimal_digits(n / 10);
        assert(front.push(digit).drop_last() =~= front);
    } else {
        assert(seq![digit].drop_last() =~= Seq::<u8>::empty());
        assert(decimal(Seq::<u8>::empty()) == 0);
    }
}

/// Writes `n` in decimal.
pub fn decimal_text(n: u64) -> (text: Vec<u8>)
    ensures
        text@ == decimal_digits(n as nat),
    decreases n,
{
    let digit: u8 = ZERO + (n % 10) as u8;
    let mut text: Vec<u8> = if n < 10 {
        Vec::new()
    } else {
        decimal_text(n / 10)
    };
    text.push(digit);
    text
}

/// The hexadecimal digit of a number below sixteen, in lower case.
pub open spec fn hex_digit(n: u8) -> u8 {
    if n < 10 {
        (0x30 + n) as u8
    } else {
        (0x61 + (n - 10)) as u8
    }
}

/// The two hexadecimal digits of each byte, one byte behind the other.
pub open spec fn hex_digits(bytes: Seq<u8>) -> Seq<u8> {
    Seq::new(
        2 * bytes.len(),
        |i: int| hex_digit(if i % 2 == 0 { bytes[i / 2] / 16 } else { bytes[i / 2] % 16 }),
    )
}

fn one_hex_digit(n: u8) -> (digit: u8)
    requires
        n < 16,
    ensures
        digit == hex_digit(n),
        digit < 0x80,
{
    if n < 10 {
        0x30 + n
    } else {
        0x61 + (n - 10)
    }
}

/// Writes bytes in hexadecimal.
pub fn hex_text(bytes: &[u8]) -> (text: String)
    ensures
        text@ == ascii(hex_digits(bytes@)),
{
    let mut digits: Vec<u8> = Vec::new();
    for i in 0..bytes.len()
        invariant
            digits@ == hex_digits(bytes@.take(i as int)),
            forall|j: int| 0 <= j < digits@.len() ==> #[trigger] digits@[j] < 0x80,
    {
        digits.push(one_hex_digit(bytes[i] / 16));
        digits.push(one_hex_digit(bytes[i] % 16));
        proof {
            assert(digits@ =~= hex_digits(bytes@.take(i + 1)));
        }
    }
    proof {
        assert(bytes@.take(bytes@.len() as int) =~= bytes@);
    }
    ascii_string(digits.as_slice())
}

/// The characters whose codes are `bytes`.
pub open spec fn ascii(bytes: Seq<u8>) -> Seq<char> {
    bytes.map_values(|b: u8| b as char)
}

/// ASCII characters are encoded by their own codes.
pub proof fn lemma_ascii(bytes: Seq<u8>)
    requires
        forall|i: int| 0 <= i < bytes.len() ==> #[trigger] bytes[i] < 0x80,
    ensures
        encode_utf8(ascii(bytes)) == bytes,
        valid_utf8(bytes),
        decode_utf8(bytes) == ascii(bytes),
{
    let chars = ascii(bytes);
    assert forall|i: int| 0 <= i < chars.len() implies '\0' <= #[trigger] chars[i] <= '\u{7f}' by {
        assert(bytes[i] < 0x80);
    }
    assert(is_ascii_chars(chars));
    is_ascii_chars_encode_utf8(chars);
    assert forall|i: int| 0 <= i < bytes.len() implies encode_utf8(chars)[i] == bytes[i] by {
        assert(bytes[i] < 0x80);
        assert(chars[i] as u8 == encode_utf8(chars)[i]);
    }
    assert(encode_utf8(chars) =~= bytes);
    encode_utf8_valid_utf8(chars);
    encode_utf8_decode_utf8(chars);
}

/// Makes a text of ASCII codes.
pub fn ascii_string(bytes: &[u8]) -> (text: String)
    requires
        forall|i: int| 0 <= i < bytes@.len() ==> #[trigger] bytes@[i] < 0x80,
    ensures
        text@ == ascii(bytes@),
{
    proof {
        lemma_ascii(bytes@);
    }
    match core::str::from_utf8(bytes) {
        Ok(text) => text.to_owned(),
        Err(_) => String::new(),
    }
}

/// The number that a hexadecimal digit in lower case stands for.
pub open spec fn digit_value(digit: u8) -> int {
    if 0x30 <= digit <= 0x39 {
        digit - 0x30
    } else if 0x61 <= digit <= 0x66 {
        digit - 0x61 + 10
    } else {
        -1
    }
}

/// A text in hexadecimal gives each byte back from two digits, the more significant one first.
pub proof fn law_hex_digits_read_back(bytes: Seq<u8>)
    ensures
        hex_digits(bytes).len() == 2 * bytes.len(),
        forall|i: int|
            0 <= i < bytes.len() ==> #[trigger] bytes[i] == 16 * digit_value(
                hex_digits(bytes)[2 * i],
            ) + digit_value(hex_digits(bytes)[2 * i + 1]),
        forall|j: int|
            0 <= j < 2 * bytes.len() ==> 0 <= digit_value(#[trigger] hex_digits(bytes)[j]) < 16,
{
}

/// An ASCII text has one character for each code, that of the code.
pub proof fn law_ascii_keeps_codes(bytes: Seq<u8>)
    ensures
        ascii(bytes).len() == bytes.len(),
        forall|i: int|
            0 <= i < bytes.len() ==> #[trigger] ascii(bytes)[i] as u32 == bytes[i] as u32,
{
}

} // verus!
