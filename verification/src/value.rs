//! The typed row values that the dump encoder serializes: the closed set
//! of value kinds a query result cell can carry.

use vstd::prelude::*;

verus! {

/// One typed database value, as produced by query execution and consumed
/// by the dump encoder. Binary-unsafe content is kept as raw bytes; the
/// two floating-point kinds carry the decimal text of the number, since
/// only that text takes part in encoding.
pub enum SqlValue {
    /// The SQL NULL marker.
    Null,
    /// A signed 64-bit integer.
    Int(i64),
    /// An unsigned 64-bit integer.
    UInt(u64),
    /// A single-precision number, held as its plain decimal text.
    Float(Vec<u8>),
    /// A double-precision number, held as its plain decimal text.
    Double(Vec<u8>),
    /// A string or blob column: a raw, possibly non-UTF-8 byte sequence.
    Bytes(Vec<u8>),
    /// A calendar timestamp with microsecond fraction.
    DateTime {
        /// Four-digit year.
        year: u16,
        /// Month of the year, 1 through 12.
        month: u8,
        /// Day of the month, 1 through 31.
        day: u8,
        /// Hour of the day, 0 through 23.
        hour: u8,
        /// Minute, 0 through 59.
        minute: u8,
        /// Second, 0 through 59.
        second: u8,
        /// Microseconds, 0 through 999999.
        micros: u32,
    },
    /// A signed duration; the sign is kept apart from the magnitude.
    Time {
        /// Whether the duration is negative.
        negative: bool,
        /// Whole days of the magnitude.
        days: u32,
        /// Hours past the last whole day, 0 through 23.
        hours: u8,
        /// Minutes, 0 through 59.
        minutes: u8,
        /// Seconds, 0 through 59.
        seconds: u8,
        /// Microseconds, 0 through 999999.
        micros: u32,
    },
}

/// A byte that may open plain decimal number text: a digit, a minus
/// sign, or a decimal point. Past the first byte only digits and the
/// decimal point may follow.
pub open spec fn is_numeric_text_byte(b: u8) -> bool {
    48 <= b <= 57 || b == 45 || b == 46
}

impl SqlValue {
    /// Validity of a value. Numeric text must look like a number, and the
    /// fields of a timestamp or duration must lie in their calendar
    /// ranges; every well-formed value encodes to a literal that reads
    /// back as the same value.
    pub open spec fn wf(self) -> bool {
        match self {
            SqlValue::Null => true,
            SqlValue::Int(_) => true,
            SqlValue::UInt(_) => true,
            SqlValue::Float(t) => t@.len() > 0 && is_numeric_text_byte(t@[0]) && forall|i: int|
                1 <= i < t@.len() ==> (48 <= #[trigger] t@[i] <= 57 || t@[i] == 46),
            SqlValue::Double(t) => t@.len() > 0 && is_numeric_text_byte(t@[0]) && forall|i: int|
                1 <= i < t@.len() ==> (48 <= #[trigger] t@[i] <= 57 || t@[i] == 46),
            SqlValue::Bytes(_) => true,
            SqlValue::DateTime { year, month, day, hour, minute, second, micros } => {
                &&& year <= 9999
                &&& 1 <= month <= 12
                &&& 1 <= day <= 31
                &&& hour <= 23
                &&& minute <= 59
                &&& second <= 59
                &&& micros <= 999999
            },
            SqlValue::Time { negative, days, hours, minutes, seconds, micros } => {
                &&& hours <= 23
                &&& minutes <= 59
                &&& seconds <= 59
                &&& micros <= 999999
            },
        }
    }
}

} // verus!
