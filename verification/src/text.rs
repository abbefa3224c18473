//! Text helpers: building strings, byte lengths, decimal and hexadecimal
//! digits, and the byte order of strings.

use vstd::prelude::*;
use vstd::string::*;
use vstd::utf8::*;

verus! {

/// `String::push` appends one character.
pub assume_specification[ String::push ](text: &mut String, character: char)
    ensures
        final(text)@ == old(text)@.push(character),
;

/// The number of UTF-8 bytes of a string.
pub open spec fn byte_len(text: Seq<char>) -> nat {
    encode_utf8(text).len()
}

/// The number of UTF-8 bytes of `text`.
pub fn len_bytes(text: &str) -> (len: usize)
    ensures
        len == byte_len(text@),
{
    text.as_bytes().len()
}

/// An owned copy of `text`.
pub fn owned(text: &str) -> (copy: String)
    ensures
        copy@ == text@,
{
    text.to_owned()
}

/// Compares two byte slices for equality.
pub fn same_bytes(left: &[u8], right: &[u8]) -> (same: bool)
    ensures
        same == (left@ == right@),
{
    if left.len() != right.len() {
        return false;
    }
    let mut index: usize = 0;
    while index < left.len()
        invariant
            index <= left.len(),
            left.len() == right.len(),
            forall|i: int| 0 <= i < index ==> left@[i] == right@[i],
        decreases left.len() - index,
    {
        if left[index] != right[index] {
            assert(left@[index as int] != right@[index as int]);
            return false;
        }
        index += 1;
    }
    assert(left@ =~= right@);
    true
}

/// Compares two strings for equality.
pub fn same_text(left: &str, right: &str) -> (same: bool)
    ensures
        same == (left@ == right@),
{
    proof {
        encode_utf8_decode_utf8(left@);
        encode_utf8_decode_utf8(right@);
    }
    same_bytes(left.as_bytes(), right.as_bytes())
}

/// An owned copy of a byte slice.
pub fn copy_bytes(bytes: &[u8]) -> (copy: Vec<u8>)
    ensures
        copy@ == bytes@,
{
    let mut copy: Vec<u8> = Vec::with_capacity(bytes.len());
    copy.extend_from_slice(bytes);
    assert(copy@ =~= bytes@);
    copy
}

/// The character of one decimal digit.
pub open spec fn digit_char(digit: int) -> char {
    (('0' as int) + digit) as char
}

/// The decimal digits of a number, most significant first.
pub open spec fn decimal_text(value: nat) -> Seq<char>
    decreases value,
{
    if value < 10 {
        seq![digit_char(value as int)]
    } else {
        decimal_text(value / 10).push(digit_char((value % 10) as int))
    }
}

fn digit(value: u8) -> (character: char)
    requires
        value < 10,
    ensures
        character == digit_char(value as int),
{
    (48u8 + value) as char
}

/// Writes a number in decimal.
pub fn decimal(value: u64) -> (text: String)
    ensures
        text@ == decimal_text(value as nat),
{
    decimal_wide(value as u128)
}

/// Writes a number of up to 128 bits in decimal.
pub fn decimal_wide(value: u128) -> (text: String)
    ensures
        text@ == decimal_text(value as nat),
    decreases value,
{
    if value < 10 {
        let mut text = String::new();
        text.push(digit(value as u8));
        assert(text@ =~= decimal_text(value as nat));
        text
    } else {
        let mut text = decimal_wide(value / 10);
        text.push(digit((value % 10) as u8));
        text
    }
}

/// Why text is no number.
#[derive(Clone, Copy, Debug, PartialEq, Eq, Structural)]
pub enum NumberError {
    /// The text is empty.
    Empty,
    /// A character is no decimal digit.
    InvalidDigit,
    /// The number does not fit in 64 bits.
    Overflow,
}

impl NumberError {
    /// The human-readable reason.
    pub open spec fn text(self) -> Seq<char> {
        match self {
            NumberError::Empty => "cannot parse integer from empty string"@,
            NumberError::InvalidDigit => "invalid digit found in string"@,
            NumberError::Overflow => "number too large to fit in target type"@,
        }
    }

    /// Returns the human-readable reason.
    pub fn message(self) -> (message: &'static str)
        ensures
            message@ == self.text(),
    {
        match self {
            NumberError::Empty => "cannot parse integer from empty string",
            NumberError::InvalidDigit => "invalid digit found in string",
            NumberError::Overflow => "number too large to fit in target type",
        }
    }
}

/// What a sequence of decimal digits stands for; the first fault counts.
pub open spec fn digits_number(digits: Seq<char>) -> Result<nat, NumberError>
    decreases digits.len(),
{
    if digits.len() == 0 {
        Ok(0)
    } else {
        match digits_number(digits.drop_last()) {
            Err(error) => Err(error),
            Ok(value) => {
                let digit = digits.last();
                if !('0' <= digit && digit <= '9') {
                    Err(NumberError::InvalidDigit)
                } else if value * 10 + (digit as int - '0' as int) > u64::MAX {
                    Err(NumberError::Overflow)
                } else {
                    Ok((value * 10 + (digit as int - '0' as int)) as nat)
                }
            },
        }
    }
}

/// What text stands for as a number: digits, after a plus sign where there is
/// one.
pub open spec fn parsed_number(text: Seq<char>) -> Result<nat, NumberError> {
    if text.len() == 0 {
        Err(NumberError::Empty)
    } else if text.len() > 1 && text[0] == '+' {
        digits_number(text.skip(1))
    } else {
        digits_number(text)
    }
}

proof fn lemma_first_fault(digits: Seq<char>, len: int)
    requires
        0 <= len <= digits.len(),
        digits_number(digits.take(len)) is Err,
    ensures
        digits_number(digits) == digits_number(digits.take(len)),
    decreases digits.len() - len,
{
    if len < digits.len() {
        assert(digits.take(len + 1).drop_last() =~= digits.take(len));
        lemma_first_fault(digits, len + 1);
    } else {
        assert(digits.take(len) =~= digits);
    }
}

/// Reads a number of up to 64 bits in decimal.
pub fn parse_number(text: &str) -> (number: Result<u64, NumberError>)
    ensures
        match number {
            Ok(number) => parsed_number(text@) == Ok::<nat, NumberError>(number as nat),
            Err(error) => parsed_number(text@) == Err::<nat, NumberError>(error),
        },
{
    let len: usize = text.unicode_len();
    if len == 0 {
        return Err(NumberError::Empty);
    }
    let start: usize = if len > 1 && text.get_char(0) == '+' {
        1
    } else {
        0
    };
    let ghost digits = text@.skip(start as int);
    assert(start == 0 ==> digits =~= text@);
    assert(parsed_number(text@) == digits_number(digits));
    let mut value: u64 = 0;
    let mut index: usize = start;
    assert(digits.take(0) =~= Seq::<char>::empty());
    while index < len
        invariant
            start <= index <= len,
            len == text@.len(),
            digits == text@.skip(start as int),
            parsed_number(text@) == digits_number(digits),
            digits_number(digits.take(index - start)) == Ok::<nat, NumberError>(value as nat),
        decreases len - index,
    {
        let character = text.get_char(index);
        let code: u32 = character as u32;
        let ghost longer = digits.take(index - start + 1);
        proof {
            assert(longer.drop_last() =~= digits.take(index - start));
            assert(longer.last() == character);
        }
        if code < 48 || code > 57 {
            proof {
                lemma_first_fault(digits, index - start + 1);
            }
            return Err(NumberError::InvalidDigit);
        }
        let units: u64 = (code - 48) as u64;
        if value > 1844674407370955161 || value * 10 > 0xffff_ffff_ffff_ffff - units {
            proof {
                lemma_first_fault(digits, index - start + 1);
            }
            return Err(NumberError::Overflow);
        }
        value = value * 10 + units;
        index += 1;
    }
    assert(digits.take(digits.len() as int) =~= digits);
    Ok(value)
}

proof fn lemma_decimal_digits(value: nat)
    requires
        value <= u64::MAX,
    ensures
        digits_number(decimal_text(value)) == Ok::<nat, NumberError>(value),
        decimal_text(value).len() >= 1,
        '0' <= decimal_text(value)[0] <= '9',
    decreases value,
{
    let text = decimal_text(value);
    if value < 10 {
        assert(text.drop_last() =~= Seq::<char>::empty());
        assert(digits_number(text.drop_last()) == Ok::<nat, NumberError>(0));
    } else {
        lemma_decimal_digits(value / 10);
        assert(text.drop_last() =~= decimal_text(value / 10));
        assert(text[0] == decimal_text(value / 10)[0]);
    }
}

/// A number reads back from its decimal text.
pub proof fn law_decimal_round_trip(value: u64)
    ensures
        parsed_number(decimal_text(value as nat)) == Ok::<nat, NumberError>(value as nat),
{
    lemma_decimal_digits(value as nat);
}

/// What an optional text says.
pub open spec fn optional(value: Option<&str>) -> Option<Seq<char>> {
    match value {
        Some(text) => Some(text@),
        None => None,
    }
}

/// Numbers are written in decimal, the greatest digit first and without leading
/// zeros.
pub proof fn law_decimal_digits(value: nat, digit: int)
    requires
        0 <= digit < 10,
    ensures
        decimal_text(digit as nat) == seq![(48 + digit) as char],
        value > 0 ==> decimal_text((value * 10 + digit) as nat) == decimal_text(value).push(
            (48 + digit) as char,
        ),
{
    assert((value * 10 + digit) / 10 == value);
    assert((value * 10 + digit) % 10 == digit);
}

/// A number is read from decimal digits, the greatest first, with at most one
/// plus sign before them, and only where it fits in 64 bits.
pub proof fn law_decimal_is_read_digit_by_digit(text: Seq<char>, digit: char)
    requires
        text.len() > 0,
        text != seq!['+'],
    ensures
        parsed_number(Seq::empty()) is Err,
        parsed_number(text.push(digit)) is Ok <==> parsed_number(text) is Ok && '0' <= digit
            <= '9' && parsed_number(text)->Ok_0 * 10 + (digit as int - 48) <= u64::MAX,
        parsed_number(text.push(digit)) is Ok ==> parsed_number(text.push(digit))->Ok_0
            == parsed_number(text)->Ok_0 * 10 + (digit as int - 48),
{
    let longer = text.push(digit);
    assert(longer.drop_last() =~= text);
    if text[0] == '+' {
        assert(longer.skip(1).drop_last() =~= text.skip(1));
        assert(longer.skip(1).last() == digit);
        if text.len() == 1 {
            assert(text =~= seq!['+']);
        }
    }
}

} // verus!
