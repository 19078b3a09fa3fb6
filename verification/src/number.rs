//! The grammar of numbers: what RFC 8259 accepts as a JSON number, and the
//! proof that the decimal text of every integer is one.

use vstd::prelude::*;
use crate::text::{decimal, digit, digits, LINE_FEED, MINUS, ZERO};

verus! {

/// Where the reader stands within a number.
pub enum NumberMode {
    /// Behind the minus sign.
    Sign,
    /// Behind a zero that is the whole integer part.
    Zero,
    /// Behind the digits of an integer part that does not start with zero.
    Integer,
    /// Behind the decimal point.
    Point,
    /// Behind digits of the fraction.
    Fraction,
    /// Behind the `e` or `E` of the exponent.
    Exponent,
    /// Behind the sign of the exponent.
    ExponentSign,
    /// Behind digits of the exponent.
    ExponentDigits,
}

/// Whether `byte` is a decimal digit.
pub open spec fn is_digit(byte: u8) -> bool {
    0x30 <= byte <= 0x39
}

/// Whether `byte` is `e` or `E`.
pub open spec fn is_exponent_mark(byte: u8) -> bool {
    byte == 0x65 || byte == 0x45
}

/// Where the reader stands behind the first byte of a number, or `None`
/// where no number starts with `byte`.
pub open spec fn number_start(byte: u8) -> Option<NumberMode> {
    if byte == MINUS {
        Some(NumberMode::Sign)
    } else if byte == ZERO {
        Some(NumberMode::Zero)
    } else if is_digit(byte) {
        Some(NumberMode::Integer)
    } else {
        None
    }
}

/// Where the reader stands behind one more byte of a number, or `None`
/// where `byte` cannot follow.
pub open spec fn number_step(mode: NumberMode, byte: u8) -> Option<NumberMode> {
    match mode {
        NumberMode::Sign => if byte == ZERO {
            Some(NumberMode::Zero)
        } else if is_digit(byte) {
            Some(NumberMode::Integer)
        } else {
            None
        },
        NumberMode::Zero => if byte == 0x2e {
            Some(NumberMode::Point)
        } else if is_exponent_mark(byte) {
            Some(NumberMode::Exponent)
        } else {
            None
        },
        NumberMode::Integer => if is_digit(byte) {
            Some(NumberMode::Integer)
        } else if byte == 0x2e {
            Some(NumberMode::Point)
        } else if is_exponent_mark(byte) {
            Some(NumberMode::Exponent)
        } else {
            None
        },
        NumberMode::Point => if is_digit(byte) {
            Some(NumberMode::Fraction)
        } else {
            None
        },
        NumberMode::Fraction => if is_digit(byte) {
            Some(NumberMode::Fraction)
        } else if is_exponent_mark(byte) {
            Some(NumberMode::Exponent)
        } else {
            None
        },
        NumberMode::Exponent => if byte == 0x2b || byte == MINUS {
            Some(NumberMode::ExponentSign)
        } else if is_digit(byte) {
            Some(NumberMode::ExponentDigits)
        } else {
            None
        },
        NumberMode::ExponentSign => if is_digit(byte) {
            Some(NumberMode::ExponentDigits)
        } else {
            None
        },
        NumberMode::ExponentDigits => if is_digit(byte) {
            Some(NumberMode::ExponentDigits)
        } else {
            None
        },
    }
}

/// Whether a number may end where the reader stands.
pub open spec fn is_complete(mode: NumberMode) -> bool {
    mode is Zero || mode is Integer || mode is Fraction || mode is ExponentDigits
}

/// Where the reader stands behind the bytes of `input`, read as a number.
pub open spec fn number_read(input: Seq<u8>) -> Option<NumberMode>
    decreases input.len(),
{
    if input.len() == 0 {
        None
    } else if input.len() == 1 {
        number_start(input[0])
    } else {
        match number_read(input.drop_last()) {
            Some(mode) => number_step(mode, input.last()),
            None => None,
        }
    }
}

/// Whether `input` is a JSON number.
pub open spec fn is_json_number(input: Seq<u8>) -> bool {
    match number_read(input) {
        Some(mode) => is_complete(mode),
        None => false,
    }
}

/// Whether `input` is a JSON number without an exponent: an optional minus
/// sign, an integer part that does not start with zero unless it is zero,
/// and an optional fraction.
pub open spec fn is_plain_number(input: Seq<u8>) -> bool {
    match number_read(input) {
        Some(mode) => mode is Zero || mode is Integer || mode is Fraction,
        None => false,
    }
}

/// The digits of a natural number are a JSON number: a single zero, or
/// digits that do not start with zero.
proof fn lemma_digits_are_number(n: nat)
    ensures
        n == 0 ==> number_read(digits(n)) == Some(NumberMode::Zero),
        n > 0 ==> number_read(digits(n)) == Some(NumberMode::Integer),
        n == 0 ==> number_read(seq![MINUS] + digits(n)) == Some(NumberMode::Zero),
        n > 0 ==> number_read(seq![MINUS] + digits(n)) == Some(NumberMode::Integer),
    decreases n,
{
    let signed = seq![MINUS] + digits(n);
    if n < 10 {
        assert(digits(n) =~= seq![digit(n as int)]);
        assert(signed =~= seq![MINUS].push(digit(n as int)));
        assert(signed.drop_last() =~= seq![MINUS]);
        assert(number_read(seq![MINUS]) == Some(NumberMode::Sign));
    } else {
        lemma_digits_are_number(n / 10);
        let front = digits(n / 10);
        let last = digit((n % 10) as int);
        assert(digits(n).drop_last() =~= front);
        assert(signed =~= (seq![MINUS] + front).push(last));
        assert(signed.drop_last() =~= seq![MINUS] + front);
        assert(front.len() > 0) by {
            lemma_digits_not_empty(n / 10);
        }
    }
}

/// A number has at least one digit.
proof fn lemma_digits_not_empty(n: nat)
    ensures
        digits(n).len() > 0,
    decreases n,
{
    if n >= 10 {
        lemma_digits_not_empty(n / 10);
    }
}

/// The decimal text of an integer is a JSON number.
pub proof fn lemma_decimal_is_number(n: int)
    ensures
        is_json_number(decimal(n)),
{
    if n < 0 {
        lemma_digits_are_number((-n) as nat);
    } else {
        lemma_digits_are_number(n as nat);
    }
}

/// Whether `bytes` holds no line feed.
pub open spec fn on_one_line(bytes: Seq<u8>) -> bool {
    forall|i: int| 0 <= i < bytes.len() ==> #[trigger] bytes[i] != LINE_FEED
}

/// The digits of a number hold no line feed.
pub proof fn lemma_digits_on_one_line(n: nat)
    ensures
        on_one_line(digits(n)),
    decreases n,
{
    if n >= 10 {
        lemma_digits_on_one_line(n / 10);
    }
}

/// A JSON number holds no line feed.
pub proof fn lemma_number_on_one_line(input: Seq<u8>)
    requires
        number_read(input) is Some,
    ensures
        on_one_line(input),
    decreases input.len(),
{
    if input.len() > 1 {
        lemma_number_on_one_line(input.drop_last());
        assert forall|i: int| 0 <= i < input.len() implies #[trigger] input[i] != LINE_FEED by {
            if i < input.len() - 1 {
                assert(input.drop_last()[i] == input[i]);
            }
        }
    }
}

} // verus!
