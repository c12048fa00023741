//! Errors reported by the codecs.

use vstd::prelude::*;
use vstd::string::*;

verus! {

/// Why a frame could not be encoded or decoded.
#[derive(Copy, Clone, Debug, PartialEq, Eq, Structural)]
pub enum AvlError {
    /// The buffer is too short for the frame.
    InvalidFrame,
    /// The CRC stored in the frame differs from the CRC of its data field.
    InvalidChecksum { expected: u16, actual: u16 },
    /// The two record counts of a packet differ.
    InvalidDataCount { data_1_count: u8, data_2_count: u8 },
    /// A priority byte outside 0..=2.
    InvalidPriority(u8),
    /// An IO element value of an unsupported width.
    InvalidIoElementValueSize(usize),
}

/// The decimal digit character of `d` (0..=9).
pub open spec fn digit_char(d: nat) -> char {
    if d == 0 {
        '0'
    } else if d == 1 {
        '1'
    } else if d == 2 {
        '2'
    } else if d == 3 {
        '3'
    } else if d == 4 {
        '4'
    } else if d == 5 {
        '5'
    } else if d == 6 {
        '6'
    } else if d == 7 {
        '7'
    } else if d == 8 {
        '8'
    } else {
        '9'
    }
}

/// The decimal representation of `n`, without leading zeros.
pub open spec fn decimal(n: nat) -> Seq<char>
    decreases n,
{
    if n < 10 {
        seq![digit_char(n)]
    } else {
        decimal(n / 10) + seq![digit_char(n % 10)]
    }
}

/// The human-readable message of an error.
pub open spec fn error_message(e: AvlError) -> Seq<char> {
    match e {
        AvlError::InvalidFrame => "Invalid frame"@,
        AvlError::InvalidChecksum { expected, actual } => "Invalid checksum: expected "@ + decimal(
            expected as nat,
        ) + ", actual "@ + decimal(actual as nat),
        AvlError::InvalidDataCount { data_1_count, data_2_count } => "Invalid data count: data_1_count "@
            + decimal(data_1_count as nat) + ", data_2_count "@ + decimal(data_2_count as nat)
            + ". data_1_count must equal data_2_count"@,
        AvlError::InvalidPriority(value) => "Invalid priority: "@ + decimal(value as nat),
        AvlError::InvalidIoElementValueSize(size) => "Invalid IO element value size: "@ + decimal(
            size as nat,
        ),
    }
}

/// Appends the decimal digit `d` to `s`.
fn append_digit(s: &mut String, d: u64)
    requires
        d < 10,
    ensures
        final(s)@ == old(s)@ + seq![digit_char(d as nat)],
{
    let digit = match d {
        0 => "0",
        1 => "1",
        2 => "2",
        3 => "3",
        4 => "4",
        5 => "5",
        6 => "6",
        7 => "7",
        8 => "8",
        _ => "9",
    };
    proof {
        reveal_strlit("0");
        reveal_strlit("1");
        reveal_strlit("2");
        reveal_strlit("3");
        reveal_strlit("4");
        reveal_strlit("5");
        reveal_strlit("6");
        reveal_strlit("7");
        reveal_strlit("8");
        reveal_strlit("9");
    }
    s.append(digit);
}

/// Appends the decimal representation of `n` to `s`.
fn append_decimal(s: &mut String, n: u64)
    ensures
        final(s)@ == old(s)@ + decimal(n as nat),
    decreases n,
{
    if n >= 10 {
        append_decimal(s, n / 10);
    }
    append_digit(s, n % 10);
    proof {
        if n >= 10 {
            assert(old(s)@ + decimal((n / 10) as nat) + seq![digit_char((n % 10) as nat)] =~= old(
                s,
            )@ + decimal(n as nat));
        }
    }
}

impl AvlError {
    /// The human-readable message of the error.
    pub fn message(&self) -> (m: String)
        ensures
            m@ == error_message(*self),
    {
        match self {
            AvlError::InvalidFrame => String::from_str("Invalid frame"),
            AvlError::InvalidChecksum { expected, actual } => {
                let mut m = String::from_str("Invalid checksum: expected ");
                append_decimal(&mut m, *expected as u64);
                m.append(", actual ");
                append_decimal(&mut m, *actual as u64);
                m
            },
            AvlError::InvalidDataCount { data_1_count, data_2_count } => {
                let mut m = String::from_str("Invalid data count: data_1_count ");
                append_decimal(&mut m, *data_1_count as u64);
                m.append(", data_2_count ");
                append_decimal(&mut m, *data_2_count as u64);
                m.append(". data_1_count must equal data_2_count");
                m
            },
            AvlError::InvalidPriority(value) => {
                let mut m = String::from_str("Invalid priority: ");
                append_decimal(&mut m, *value as u64);
                m
            },
            AvlError::InvalidIoElementValueSize(size) => {
                let mut m = String::from_str("Invalid IO element value size: ");
                append_decimal(&mut m, *size as u64);
                m
            },
        }
    }
}

} // verus!
