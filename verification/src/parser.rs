//! What every line parser produces, and the interface they share.

use vstd::prelude::*;

pub mod agreement;
pub mod automaton;
pub mod ipv4;
pub mod lanes;
pub mod pattern;
pub mod layout;
pub mod simd;

verus! {

/// One parsed request: the client address as a big-endian IPv4 number and the
/// time of the request in seconds.
#[derive(Debug, Clone, Copy, PartialEq, Eq, Structural)]
pub struct ParseResult {
    pub ip: u32,
    pub timestamp: i64,
}

/// Why a line gave no record.
#[derive(Debug, Clone, Copy, PartialEq, Eq, Structural)]
pub enum ParseError {
    InvalidLine,
    InvalidIP,
    InvalidDateTime,
    Unknown,
}

impl ParseError {
    /// The name of the error.
    pub open spec fn name(self) -> Seq<char> {
        match self {
            ParseError::InvalidLine => "InvalidLine"@,
            ParseError::InvalidIP => "InvalidIP"@,
            ParseError::InvalidDateTime => "InvalidDateTime"@,
            ParseError::Unknown => "Unknown"@,
        }
    }

    /// The name of the error, as text.
    pub fn describe(&self) -> (text: String)
        ensures
            text@ == self.name(),
    {
        match self {
            ParseError::InvalidLine => "InvalidLine".to_owned(),
            ParseError::InvalidIP => "InvalidIP".to_owned(),
            ParseError::InvalidDateTime => "InvalidDateTime".to_owned(),
            ParseError::Unknown => "Unknown".to_owned(),
        }
    }
}

/// A parser of log lines of type `L`.
pub trait LineParser<L> {
    /// What this parser makes of `line`.
    spec fn parsed(&self, line: L) -> Result<ParseResult, ParseError>;

    /// Makes a record of `line`, or says why it gives none.
    fn parse_line(&self, line: L) -> (outcome: Result<ParseResult, ParseError>)
        ensures
            outcome == self.parsed(line),
    ;
}

/// The IPv4 number of the address `a.b.c.d`.
pub open spec fn quad(a: int, b: int, c: int, d: int) -> int {
    ((a * 256 + b) * 256 + c) * 256 + d
}

/// Seconds since midnight at `h:m:s`.
pub open spec fn clock_seconds(h: int, m: int, s: int) -> int {
    (h * 60 + m) * 60 + s
}

} // verus!
