//! Why a frequency list does not read.

use vstd::prelude::*;

use crate::text::IntErrorKind;

verus! {

/// Why a frequency list could not be read.
#[derive(Debug, Clone)]
pub enum ParseFreqsError {
    /// The text has no first line to take the column titles from.
    ExpectedCsvHeader,
    /// A frequency field is no unsigned integer; the field.
    ParseHertz(IntErrorKind, String),
    /// A channel bandwidth field is no `u32`; the field.
    ParseBandwidthHertz(IntErrorKind, String),
    /// An enable field is neither `true` nor `false`; the field.
    ParseEnabled(String),
    /// A level field is no number; the field.
    ParseDecibel(String),
    /// A day in a list of days is no digit; the (trimmed) list.
    ParseDay(IntErrorKind, String),
    /// An end of a time range is no `u16`; the time range.
    ParseTimeUtc(IntErrorKind, String),
    /// A day range lacks its dash; the list of days.
    ExpectedDash(String),
    /// A column title is none that the format knows; the title.
    UnexpectedCsvHeader(String),
    /// A time range has not exactly one dash; the time range.
    TooManyDashes(String),
    /// A row sets the same value twice.
    AlreadyDefined,
}

/// [`ParseFreqsError`] with its texts as character sequences.
pub enum ParseFreqsFault {
    ExpectedCsvHeader,
    ParseHertz(IntErrorKind, Seq<char>),
    ParseBandwidthHertz(IntErrorKind, Seq<char>),
    ParseEnabled(Seq<char>),
    ParseDecibel(Seq<char>),
    ParseDay(IntErrorKind, Seq<char>),
    ParseTimeUtc(IntErrorKind, Seq<char>),
    ExpectedDash(Seq<char>),
    UnexpectedCsvHeader(Seq<char>),
    TooManyDashes(Seq<char>),
    AlreadyDefined,
}

impl View for ParseFreqsError {
    type V = ParseFreqsFault;

    open spec fn view(&self) -> ParseFreqsFault {
        match self {
            ParseFreqsError::ExpectedCsvHeader => ParseFreqsFault::ExpectedCsvHeader,
            ParseFreqsError::ParseHertz(k, s) => ParseFreqsFault::ParseHertz(*k, s@),
            ParseFreqsError::ParseBandwidthHertz(k, s) => ParseFreqsFault::ParseBandwidthHertz(
                *k,
                s@,
            ),
            ParseFreqsError::ParseEnabled(s) => ParseFreqsFault::ParseEnabled(s@),
            ParseFreqsError::ParseDecibel(s) => ParseFreqsFault::ParseDecibel(s@),
            ParseFreqsError::ParseDay(k, s) => ParseFreqsFault::ParseDay(*k, s@),
            ParseFreqsError::ParseTimeUtc(k, s) => ParseFreqsFault::ParseTimeUtc(*k, s@),
            ParseFreqsError::ExpectedDash(s) => ParseFreqsFault::ExpectedDash(s@),
            ParseFreqsError::UnexpectedCsvHeader(s) => ParseFreqsFault::UnexpectedCsvHeader(s@),
            ParseFreqsError::TooManyDashes(s) => ParseFreqsFault::TooManyDashes(s@),
            ParseFreqsError::AlreadyDefined => ParseFreqsFault::AlreadyDefined,
        }
    }
}

} // verus!
