//! Reading a time offset such as `01:30:00` from the command line.

use vstd::prelude::*;
use vstd::string::{StringExecFns, StringSliceAdditionalSpecFns};

verus! {

/// Why a time offset could not be read.
#[derive(Clone, Copy, Debug, PartialEq, Eq, Structural)]
pub enum DurationError {
    /// A field holds nothing.
    Empty,
    /// A field holds something that is no decimal digit.
    InvalidDigit,
    /// A field, or the whole offset in seconds, is more than 64 bits hold.
    Overflow,
}

impl DurationError {
    /// The words in which the error is told.
    pub open spec fn text(self) -> Seq<char> {
        match self {
            DurationError::Empty => "a field of the time offset is empty"@,
            DurationError::InvalidDigit => "a field of the time offset holds a character that is no digit"@,
            DurationError::Overflow => "the time offset is too large"@,
        }
    }

    /// The error in words, for the user.
    pub fn message(&self) -> (message: String)
        ensures
            message@ == self.text(),
    {
        match self {
            DurationError::Empty => String::from_str("a field of the time offset is empty"),
            DurationError::InvalidDigit => String::from_str(
                "a field of the time offset holds a character that is no digit",
            ),
            DurationError::Overflow => String::from_str("the time offset is too large"),
        }
    }
}

/// The byte that parts the fields.
pub const FIELD_SEPARATOR: u8 = 0x3A;

/// The byte of the sign that may stand before the digits of a field.
pub const PLUS_SIGN: u8 = 0x2B;

/// The byte of the digit zero.
pub const DIGIT_ZERO: u8 = 0x30;

/// The byte is one of the digits `0` to `9`.
pub open spec fn is_digit(byte: u8) -> bool {
    DIGIT_ZERO <= byte <= DIGIT_ZERO + 9
}

/// The end of the field that starts at `start`: the place of the next
/// separator, or the end of the text.
pub open spec fn field_end(bytes: Seq<u8>, start: int) -> int
    decreases bytes.len() - start,
{
    if start >= bytes.len() {
        bytes.len() as int
    } else if bytes[start] == FIELD_SEPARATOR {
        start
    } else {
        field_end(bytes, start + 1)
    }
}

/// The start of the field after the one that starts at `start`. It lies
/// behind the end of the text when there is no further field.
pub open spec fn next_field(bytes: Seq<u8>, start: int) -> int {
    if start > bytes.len() {
        start
    } else {
        field_end(bytes, start) + 1
    }
}

/// The number that a run of digits stands for, read from the left. The
/// first byte that is no digit, or that takes the number past 64 bits,
/// decides the error.
pub open spec fn number_of(digits: Seq<u8>) -> Result<u64, DurationError>
    decreases digits.len(),
{
    if digits.len() == 0 {
        Ok(0u64)
    } else {
        match number_of(digits.drop_last()) {
            Err(e) => Err(e),
            Ok(before) => if !is_digit(digits.last()) {
                Err(DurationError::InvalidDigit)
            } else if before * 10 + (digits.last() - DIGIT_ZERO) > u64::MAX {
                Err(DurationError::Overflow)
            } else {
                Ok((before * 10 + (digits.last() - DIGIT_ZERO)) as u64)
            },
        }
    }
}

/// The digits of a field: the field without a plus sign at its front,
/// unless the sign is all there is.
pub open spec fn digits_of(field: Seq<u8>) -> Seq<u8> {
    if field.len() > 1 && field[0] == PLUS_SIGN {
        field.skip(1)
    } else {
        field
    }
}

/// The number of one field: decimal digits, with or without a plus sign
/// before them.
pub open spec fn field_number(field: Seq<u8>) -> Result<u64, DurationError> {
    if field.len() == 0 {
        Err(DurationError::Empty)
    } else {
        number_of(digits_of(field))
    }
}

/// The number of the field that starts at `start`, or zero when the text
/// has no such field.
pub open spec fn field_value(bytes: Seq<u8>, start: int) -> Result<u64, DurationError> {
    if start > bytes.len() {
        Ok(0u64)
    } else {
        field_number(bytes.subrange(start, field_end(bytes, start)))
    }
}

/// The seconds of hours, minutes and seconds, where they fit 64 bits.
pub open spec fn seconds_of(hours: u64, minutes: u64, seconds: u64) -> Result<u64, DurationError> {
    if hours * 3600 + minutes * 60 + seconds > u64::MAX {
        Err(DurationError::Overflow)
    } else {
        Ok((hours * 3600 + minutes * 60 + seconds) as u64)
    }
}

/// The seconds that a time offset stands for.
///
/// The text is parted at each `:`. The first field gives the hours, the
/// second the minutes, the third the seconds; a field that is missing
/// counts as zero, and what follows the third field is not read. The
/// first field that cannot be read decides the error.
pub open spec fn duration_seconds(bytes: Seq<u8>) -> Result<u64, DurationError> {
    let minutes_at = next_field(bytes, 0);
    let seconds_at = next_field(bytes, minutes_at);
    match field_value(bytes, 0) {
        Err(e) => Err(e),
        Ok(hours) => match field_value(bytes, minutes_at) {
            Err(e) => Err(e),
            Ok(minutes) => match field_value(bytes, seconds_at) {
                Err(e) => Err(e),
                Ok(seconds) => seconds_of(hours, minutes, seconds),
            },
        },
    }
}

proof fn lemma_field_end_bounds(bytes: Seq<u8>, start: int)
    requires
        0 <= start <= bytes.len(),
    ensures
        start <= field_end(bytes, start) <= bytes.len(),
    decreases bytes.len() - start,
{
    if start < bytes.len() && bytes[start] != FIELD_SEPARATOR {
        lemma_field_end_bounds(bytes, start + 1);
    }
}

/// Finds the end of the field that starts at `start`.
fn find_field_end(bytes: &[u8], start: usize) -> (end: usize)
    requires
        start <= bytes@.len(),
    ensures
        end == field_end(bytes@, start as int),
        start <= end <= bytes@.len(),
{
    let n: usize = bytes.len();
    let mut end: usize = start;
    while end < n && bytes[end] != FIELD_SEPARATOR
        invariant
            n == bytes@.len(),
            start <= end <= n,
            field_end(bytes@, start as int) == field_end(bytes@, end as int),
        decreases n - end,
    {
        end += 1;
    }
    end
}

/// Reads the number of the field from `start` up to `end`.
fn parse_field(bytes: &[u8], start: usize, end: usize) -> (result: Result<u64, DurationError>)
    requires
        start <= end <= bytes@.len(),
    ensures
        result == field_number(bytes@.subrange(start as int, end as int)),
{
    let ghost field = bytes@.subrange(start as int, end as int);
    if start == end {
        return Err(DurationError::Empty);
    }
    let first: usize = if end - start > 1 && bytes[start] == PLUS_SIGN {
        start + 1
    } else {
        start
    };
    let ghost digits = bytes@.subrange(first as int, end as int);
    let mut value: u64 = 0;
    let mut i: usize = first;
    while i < end
        invariant
            start < end,
            first <= i <= end <= bytes@.len(),
            field == bytes@.subrange(start as int, end as int),
            digits == bytes@.subrange(first as int, end as int),
            digits == digits_of(field),
            number_of(digits.take(i - first)) == Ok::<u64, DurationError>(value),
        decreases end - i,
    {
        let byte: u8 = bytes[i];
        proof {
            assert(digits.take(i - first + 1).drop_last() =~= digits.take(i - first));
            lemma_number_of_prefix_error(digits, i - first + 1);
        }
        if byte < DIGIT_ZERO || byte > DIGIT_ZERO + 9 {
            return Err(DurationError::InvalidDigit);
        }
        let digit: u64 = (byte - DIGIT_ZERO) as u64;
        if value > (u64::MAX - digit) / 10 {
            return Err(DurationError::Overflow);
        }
        value = value * 10 + digit;
        i += 1;
    }
    proof {
        assert(digits.take(end - first) =~= digits);
    }
    Ok(value)
}

/// An error in a front part of the digits is the error of the whole.
proof fn lemma_number_of_prefix_error(digits: Seq<u8>, n: int)
    requires
        0 <= n <= digits.len(),
    ensures
        number_of(digits.take(n)) is Err ==> number_of(digits) == number_of(digits.take(n)),
    decreases digits.len() - n,
{
    if n < digits.len() {
        lemma_number_of_prefix_error(digits, n + 1);
        assert(digits.take(n + 1).drop_last() =~= digits.take(n));
    } else {
        assert(digits.take(n) =~= digits);
    }
}

/// The start of a field as a number: behind the end of the text when
/// there is no field.
spec fn place_of(start: Option<usize>, bytes: Seq<u8>) -> int {
    match start {
        Some(at) => at as int,
        None => bytes.len() as int + 1,
    }
}

/// Reads the field that starts at `start`, zero when there is none, and
/// says where the next field starts.
fn read_field(bytes: &[u8], start: Option<usize>) -> (result: (
    Result<u64, DurationError>,
    Option<usize>,
))
    requires
        start is Some ==> start->Some_0 <= bytes@.len(),
    ensures
        result.0 == field_value(bytes@, place_of(start, bytes@)),
        place_of(result.1, bytes@) == next_field(bytes@, place_of(start, bytes@)),
        result.1 is Some ==> result.1->Some_0 <= bytes@.len(),
{
    match start {
        None => (Ok(0), None),
        Some(at) => {
            let end = find_field_end(bytes, at);
            let next = if end < bytes.len() {
                Some(end + 1)
            } else {
                None
            };
            (parse_field(bytes, at, end), next)
        },
    }
}

/// The seconds that the time offset `arg` stands for, in the form
/// `HH:MM:SS`: hours, then minutes, then seconds, each in decimal digits. A
/// field that is missing counts as zero, so `2` is two hours and `1:30`
/// is an hour and a half.
pub fn parse_duration(arg: &str) -> (result: Result<u64, DurationError>)
    ensures
        result == duration_seconds(arg.spec_bytes()),
{
    let bytes = arg.as_bytes();
    let (hours, minutes_at) = read_field(bytes, Some(0));
    let hours: u64 = match hours {
        Ok(value) => value,
        Err(e) => {
            return Err(e);
        },
    };
    let (minutes, seconds_at) = read_field(bytes, minutes_at);
    let minutes: u64 = match minutes {
        Ok(value) => value,
        Err(e) => {
            return Err(e);
        },
    };
    let (seconds, _) = read_field(bytes, seconds_at);
    let seconds: u64 = match seconds {
        Ok(value) => value,
        Err(e) => {
            return Err(e);
        },
    };
    to_seconds(hours, minutes, seconds)
}

/// Hours, minutes and seconds in seconds, or `Overflow`.
pub fn to_seconds(hours: u64, minutes: u64, seconds: u64) -> (result: Result<u64, DurationError>)
    ensures
        result == seconds_of(hours, minutes, seconds),
{
    let from_hours = match hours.checked_mul(3600) {
        Some(value) => value,
        None => {
            return Err(DurationError::Overflow);
        },
    };
    let from_minutes = match minutes.checked_mul(60) {
        Some(value) => value,
        None => {
            return Err(DurationError::Overflow);
        },
    };
    let sum = match from_hours.checked_add(from_minutes) {
        Some(value) => value,
        None => {
            return Err(DurationError::Overflow);
        },
    };
    match sum.checked_add(seconds) {
        Some(value) => Ok(value),
        None => Err(DurationError::Overflow),
    }
}

} // verus!
