//! Decimal numerals.

use vstd::arithmetic::power::*;
use vstd::prelude::*;
use vstd::string::*;

verus! {

/// The character of a decimal digit.
pub open spec fn digit_char(digit: nat) -> char {
    (48 + digit) as char
}

/// The decimal numeral of a number, without leading zeros.
pub open spec fn decimal(number: nat) -> Seq<char>
    decreases number,
{
    if number < 10 {
        seq![digit_char(number)]
    } else {
        decimal(number / 10).push(digit_char(number % 10))
    }
}

/// Whether a character is a decimal digit.
pub open spec fn is_digit(character: char) -> bool {
    '0' <= character <= '9'
}

/// The number that a row of decimal digits stands for.
pub open spec fn value(digits: Seq<char>) -> nat
    decreases digits.len(),
{
    if digits.len() == 0 {
        0
    } else {
        value(digits.drop_last()) * 10 + (digits.last() as nat - 48) as nat
    }
}

/// A numeral without the plus sign that it may start with.
pub open spec fn unsigned_part(numeral: Seq<char>) -> Seq<char> {
    if numeral.len() > 0 && numeral[0] == '+' {
        numeral.drop_first()
    } else {
        numeral
    }
}

/// The number that `numeral` stands for: one or more decimal digits, with or without a plus sign
/// before them, that make a 64-bit number.
pub open spec fn parsed(numeral: Seq<char>) -> Option<nat> {
    let digits = unsigned_part(numeral);
    if digits.len() > 0 && (forall|i: int| 0 <= i < digits.len() ==> is_digit(#[trigger] digits[i]))
        && value(digits) <= u64::MAX {
        Some(value(digits))
    } else {
        None
    }
}

/// The decimal numeral of `number`.
pub fn to_decimal(number: u64) -> (text: String)
    ensures
        text@ == decimal(number as nat),
    decreases number,
{
    let digit: u8 = (number % 10) as u8;
    let mut text = if number < 10 {
        String::new()
    } else {
        to_decimal(number / 10)
    };
    text.push((48 + digit) as char);
    text
}

/// A number below a power of ten has a numeral of at most that many digits.
pub proof fn lemma_decimal_length(number: nat, digits: nat)
    requires
        digits > 0,
        number < pow(10, digits),
    ensures
        0 < decimal(number).len() <= digits,
    decreases digits,
{
    lemma_pow1(10);
    if number >= 10 && digits > 1 {
        let rest = (digits - 1) as nat;
        lemma_pow_adds(10, 1, rest);
        assert(pow(10, digits) == 10 * pow(10, rest));
        lemma_decimal_length(number / 10, rest);
    }
}

/// Reads a numeral.
pub fn parse_u64(numeral: &str) -> (number: Option<u64>)
    ensures
        parsed(numeral@) == (match number {
            Some(number) => Some(number as nat),
            None => None,
        }),
{
    let length: usize = numeral.unicode_len();
    let start: usize = if length > 0 && numeral.get_char(0) == '+' { 1 } else { 0 };
    let ghost digits = unsigned_part(numeral@);
    assert(digits =~= numeral@.skip(start as int));
    if start == length {
        return None;
    }
    let mut number: u64 = 0;
    let mut read: usize = start;
    while read < length
        invariant
            length == numeral@.len(),
            start < length,
            start <= read <= length,
            digits == numeral@.skip(start as int),
            digits == unsigned_part(numeral@),
            number == value(digits.take(read - start)),
            forall|i: int| 0 <= i < read - start ==> is_digit(#[trigger] digits[i]),
        decreases length - read,
    {
        let character = numeral.get_char(read);
        assert(character == digits[read - start]);
        if character < '0' || character > '9' {
            return None;
        }
        let digit: u64 = (character as u32 - 48) as u64;
        proof {
            let seen = digits.take(read - start + 1);
            assert(seen.drop_last() =~= digits.take(read - start));
            assert(value(seen) == number * 10 + digit);
            lemma_value_grows(digits, read - start + 1);
        }
        if number > (u64::MAX - digit) / 10 {
            return None;
        }
        number = number * 10 + digit;
        read += 1;
    }
    assert(digits.take(read - start) =~= digits);
    Some(number)
}

proof fn lemma_value_grows(digits: Seq<char>, taken: int)
    requires
        0 <= taken <= digits.len(),
    ensures
        value(digits.take(taken)) <= value(digits),
    decreases digits.len(),
{
    if taken == digits.len() {
        assert(digits.take(taken) =~= digits);
    } else {
        lemma_value_grows(digits.drop_last(), taken);
        assert(digits.drop_last().take(taken) =~= digits.take(taken));
    }
}

/// The numeral of a number stands for that number.
pub proof fn lemma_value_of_decimal(number: nat)
    ensures
        value(decimal(number)) == number,
        decimal(number).len() > 0,
        forall|i: int| 0 <= i < decimal(number).len() ==> is_digit(#[trigger] decimal(number)[i]),
    decreases number,
{
    if number < 10 {
        assert(value(decimal(number).drop_last()) == 0);
    } else {
        lemma_value_of_decimal(number / 10);
        assert(decimal(number).drop_last() =~= decimal(number / 10));
    }
}

/// Every 64-bit number is read back from its numeral.
pub proof fn lemma_parsed_decimal(number: nat)
    requires
        number <= u64::MAX,
    ensures
        parsed(decimal(number)) == Some(number),
{
    lemma_value_of_decimal(number);
    assert(is_digit(decimal(number)[0]));
}

/// The digits of a numeral, from the last one on, are those of the units, the tens, the hundreds and
/// so on, and the numeral does not start with a zero unless it is that of zero.
pub proof fn lemma_decimal_by_digit(number: nat, place: nat)
    requires
        place < decimal(number).len(),
    ensures
        decimal(number)[decimal(number).len() - 1 - place] as int == 48 + (number as int / pow(
            10,
            place,
        )) % 10,
        number < pow(10, decimal(number).len()),
        decimal(number).len() > 1 ==> number >= pow(10, (decimal(number).len() - 1) as nat),
    decreases number,
{
    lemma_pow0(10);
    lemma_pow1(10);
    if number >= 10 {
        let front = decimal(number / 10);
        assert(decimal(number) == front.push(digit_char(number % 10)));
        lemma_pow_adds(10, 1, front.len());
        assert(pow(10, 1 + front.len()) == 10 * pow(10, front.len()));
        lemma_decimal_nonempty(number / 10);
        lemma_decimal_by_digit(number / 10, 0);
        lemma_pow_adds(10, 1, (front.len() - 1) as nat);
        assert(pow(10, front.len()) == 10 * pow(10, (front.len() - 1) as nat));
        if place > 0 {
            let rest = (place - 1) as nat;
            lemma_decimal_by_digit(number / 10, rest);
            lemma_pow_adds(10, 1, rest);
            lemma_pow_positive(10, rest);
            vstd::arithmetic::div_mod::lemma_div_denominator(number as int, 10, pow(10, rest));
        }
    }
}

proof fn lemma_decimal_nonempty(number: nat)
    ensures
        decimal(number).len() > 0,
    decreases number,
{
    if number >= 10 {
        lemma_decimal_nonempty(number / 10);
    }
}

/// The number that digits stand for: nothing for none, for one digit the distance from the
/// character of zero, and for two rows of digits that of the first, moved to the left by the length
/// of the second, and that of the second.
pub proof fn lemma_value_by_place(front: Seq<char>, back: Seq<char>, digit: char)
    requires
        '0' <= digit <= '9',
    ensures
        value(Seq::empty()) == 0,
        value(seq![digit]) == digit as int - 48,
        value(front + back) == value(front) * pow(10, back.len()) + value(back),
    decreases back.len(),
{
    let one = seq![digit];
    assert(one.drop_last() =~= Seq::empty());
    lemma_pow0(10);
    if back.len() == 0 {
        assert(front + back =~= front);
        assert(value(front) * 1 == value(front));
    } else {
        let rest = back.drop_last();
        lemma_value_by_place(front, rest, digit);
        assert((front + back).drop_last() =~= front + rest);
        assert((front + back).last() == back.last());
        lemma_pow1(10);
        lemma_pow_adds(10, rest.len(), 1);
        let moved = pow(10, rest.len());
        assert(pow(10, back.len()) == moved * 10);
        assert((value(front) * moved + value(rest)) * 10 == value(front) * (moved * 10) + value(
            rest,
        ) * 10) by (nonlinear_arith);
    }
}

/// A text is read as a number if and only if it is one or more characters from `0` to `9`, after a
/// plus sign or not, that stand for a number of at most 64 bits; it is read as that number.
pub proof fn lemma_parsed_in_words(digits: Seq<char>)
    requires
        digits.len() > 0 ==> digits[0] != '+',
    ensures
        ({
            let only_digits = digits.len() > 0 && forall|i: int|
                0 <= i < digits.len() ==> 48 <= (#[trigger] digits[i]) as int <= 57;
            let fits = value(digits) <= 0xffff_ffff_ffff_ffff;
            &&& only_digits && fits ==> parsed(digits) == Some(value(digits))
            &&& only_digits && fits ==> parsed(seq!['+'] + digits) == Some(value(digits))
            &&& !(only_digits && fits) ==> parsed(digits) is None
            &&& !(only_digits && fits) ==> parsed(seq!['+'] + digits) is None
        }),
{
    assert((seq!['+'] + digits).drop_first() =~= digits);
}

/// A sign does not stand before a sign.
pub proof fn lemma_two_signs_refused(numeral: Seq<char>)
    requires
        numeral.len() > 1,
        numeral[0] == '+',
        numeral[1] == '+',
    ensures
        parsed(numeral) is None,
{
    assert(numeral.drop_first()[0] == '+');
}

} // verus!
