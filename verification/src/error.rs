//! The ways in which building a histogram can fail.

use vstd::prelude::*;
use vstd::string::StringExecFns;
use crate::decimal::{decimal, to_decimal};

verus! {

/// A fatal condition: no histogram is produced once one of these is met.
#[derive(Debug, Clone, Copy, PartialEq, Eq, Structural)]
pub enum HistError {
    /// The delimiter argument is the empty string, so it names no byte.
    InvalidDelimiter,
    /// The input could not be split into a further record; `record` counts
    /// the records that were read before that.
    Parse { record: usize },
    /// The record with index `record`, counted from zero, has no field at
    /// the position of the key.
    MissingField { record: usize },
    /// The input holds more records than a `usize` can count.
    TooManyRecords,
    /// A key holds a run of digits whose value does not fit in 64 bits, so
    /// its place in the natural order cannot be computed.
    NumberTooLarge,
}

/// Whether what an operation returned is what was expected of it: the
/// same error, or strings with the expected characters.
pub open spec fn yields(
    returned: Result<Vec<String>, HistError>,
    expected: Result<Seq<Seq<char>>, HistError>,
) -> bool {
    match expected {
        Ok(texts) => returned is Ok && returned->Ok_0.deep_view() == texts,
        Err(e) => returned == Err::<Vec<String>, HistError>(e),
    }
}

impl HistError {
    /// The text that describes the error to a reader.
    pub open spec fn message_of(self) -> Seq<char> {
        match self {
            HistError::InvalidDelimiter => "not a valid delimiter"@,
            HistError::Parse { record } => "the input is malformed after record "@ + decimal(
                record as nat,
            ),
            HistError::MissingField { record } => "the key field is missing in the record after record "@
                + decimal(record as nat),
            HistError::TooManyRecords => "the input holds more records than can be counted"@,
            HistError::NumberTooLarge => "a key holds a number too large to be ordered"@,
        }
    }

    /// The text that describes the error to a reader. Records are
    /// counted from one, so "after record 0" speaks of the first record.
    pub fn message(&self) -> (text: String)
        ensures
            text@ == self.message_of(),
    {
        match self {
            HistError::InvalidDelimiter => String::from_str("not a valid delimiter"),
            HistError::Parse { record } => {
                let mut text = String::from_str("the input is malformed after record ");
                text.append(to_decimal(*record).as_str());
                text
            },
            HistError::MissingField { record } => {
                let mut text = String::from_str(
                    "the key field is missing in the record after record ",
                );
                text.append(to_decimal(*record).as_str());
                text
            },
            HistError::TooManyRecords => String::from_str(
                "the input holds more records than can be counted",
            ),
            HistError::NumberTooLarge => String::from_str(
                "a key holds a number too large to be ordered",
            ),
        }
    }
}

} // verus!
