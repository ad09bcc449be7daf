//! The parser that finds the address and the date by a regular expression
//! with two named groups, and reads the date by a format string.

use crate::parser::ipv4::{ipv4_value, parse_ipv4};
use crate::parser::{LineParser, ParseError, ParseResult};
use crate::search::{contains, occurs_in};
use vstd::prelude::*;
use vstd::string::StringSliceAdditionalSpecFns;

verus! {

/// `regex::Regex`, a compiled regular expression.
#[verifier::external_type_specification]
#[verifier::external_body]
pub struct ExRegex(::regex::Regex);

/// `regex::Error`, why a pattern did not compile.
#[verifier::external_type_specification]
#[verifier::external_body]
pub struct ExRegexError(::regex::Error);

/// `chrono::format::ParseErrorKind`, why a date could not be read.
#[verifier::external_type_specification]
#[verifier::external_body]
pub struct ExDateErrorKind(::chrono::format::ParseErrorKind);

/// Whether the `regex` crate compiles `pattern`.
pub uninterp spec fn pattern_compiles(pattern: Seq<char>) -> bool;

/// The pattern that a compiled expression was made from.
pub uninterp spec fn pattern_of(matcher: ::regex::Regex) -> Seq<char>;

/// What the leftmost match of `matcher` in `haystack` captured under the
/// names `first` and `second`; nothing where there is no match.
pub uninterp spec fn captured(
    matcher: ::regex::Regex,
    haystack: Seq<char>,
    first: Seq<char>,
    second: Seq<char>,
) -> Option<(Option<Seq<char>>, Option<Seq<char>>)>;

/// The Unix timestamp that `chrono` reads off `text` under `format`.
pub uninterp spec fn timestamp_of(text: Seq<char>, format: Seq<char>) -> Option<i64>;

/// The characters of two captured groups.
pub open spec fn group_texts(groups: Option<(Option<&str>, Option<&str>)>) -> Option<
    (Option<Seq<char>>, Option<Seq<char>>),
> {
    match groups {
        Some((first, second)) => Some(
            (
                match first {
                    Some(text) => Some(text@),
                    None => None,
                },
                match second {
                    Some(text) => Some(text@),
                    None => None,
                },
            ),
        ),
        None => None,
    }
}

/// `Regex::new` compiles a pattern, or reports that it cannot. The compiled
/// expression remembers the pattern it was made from.
pub assume_specification[ ::regex::Regex::new ](re: &str) -> (compiled: Result<
    ::regex::Regex,
    ::regex::Error,
>)
    ensures
        compiled is Ok <==> pattern_compiles(re@),
        compiled matches Ok(matcher) ==> pattern_of(matcher) == re@,
;

/// `Regex::as_str` gives the pattern that the expression was made from.
pub assume_specification<'a>[ ::regex::Regex::as_str ](matcher: &'a ::regex::Regex) -> (text:
    &'a str)
    ensures
        text@ == pattern_of(*matcher),
;

/// `Regex::captures` searches for the leftmost match, and `Captures::name`
/// gives the text of a named group that took part in it. The result depends
/// on the expression, the haystack and the two names alone.
#[verifier::external_body]
fn find_groups<'h>(
    matcher: &::regex::Regex,
    haystack: &'h str,
    first: &str,
    second: &str,
) -> (groups: Option<(Option<&'h str>, Option<&'h str>)>)
    ensures
        group_texts(groups) == captured(*matcher, haystack@, first@, second@),
{
    matcher.captures(haystack).map(
        |caps| (caps.name(first).map(|m| m.as_str()), caps.name(second).map(|m| m.as_str())),
    )
}

/// `DateTime::parse_from_str` reads a date with a time zone under a format
/// string, and `DateTime::timestamp` gives its seconds since 1970 in UTC. The
/// result depends on the text and the format alone. Of an error only its kind
/// is handed on.
#[verifier::external_body]
fn read_timestamp(text: &str, format: &str) -> (stamp: Result<
    i64,
    ::chrono::format::ParseErrorKind,
>)
    ensures
        match stamp {
            Ok(seconds) => timestamp_of(text@, format@) == Some(seconds),
            Err(_) => timestamp_of(text@, format@) is None,
        },
{
    match ::chrono::DateTime::parse_from_str(text, format) {
        Ok(date) => Ok(date.timestamp()),
        Err(error) => Err(error.kind()),
    }
}

/// Why a parser could not be made of a pattern.
#[derive(Debug, Clone, Copy, PartialEq, Eq, Structural)]
pub enum RegexError {
    IPGroupExpected,
    DTGroupExpected,
    UncompilableRegex,
}

impl RegexError {
    /// The name of the error.
    pub open spec fn name(self) -> Seq<char> {
        match self {
            RegexError::IPGroupExpected => "IPGroupExpected"@,
            RegexError::DTGroupExpected => "DTGroupExpected"@,
            RegexError::UncompilableRegex => "UncompilableRegex"@,
        }
    }

    /// The name of the error, as text.
    pub fn describe(&self) -> (text: String)
        ensures
            text@ == self.name(),
    {
        match self {
            RegexError::IPGroupExpected => "IPGroupExpected".to_owned(),
            RegexError::DTGroupExpected => "DTGroupExpected".to_owned(),
            RegexError::UncompilableRegex => "UncompilableRegex".to_owned(),
        }
    }
}

/// Why no parser is made of `pattern`, if none is: the text `(?P<ip>` must
/// stand in it, then the text `(?P<DT>`, and then it must compile.
pub open spec fn rejection(pattern: &str) -> Option<RegexError> {
    if !occurs_in(pattern.spec_bytes(), "(?P<ip>".spec_bytes()) {
        Some(RegexError::IPGroupExpected)
    } else if !occurs_in(pattern.spec_bytes(), "(?P<DT>".spec_bytes()) {
        Some(RegexError::DTGroupExpected)
    } else if !pattern_compiles(pattern@) {
        Some(RegexError::UncompilableRegex)
    } else {
        None
    }
}

/// The record that the captured address and the timestamp of the captured
/// date make. The date is looked at first. A group that took no part in the
/// match counts as one whose text cannot be read.
pub open spec fn record_of(ip_text: Option<Seq<u8>>, stamp: Option<i64>) -> Result<
    ParseResult,
    ParseError,
> {
    match stamp {
        None => Err(ParseError::InvalidDateTime),
        Some(timestamp) => match ip_text {
            None => Err(ParseError::InvalidIP),
            Some(text) => match ipv4_value(text) {
                None => Err(ParseError::InvalidIP),
                Some(ip) => Ok(ParseResult { ip, timestamp }),
            },
        },
    }
}

/// The UTF-8 bytes of a captured group.
pub open spec fn text_bytes(text: Option<Seq<char>>) -> Option<Seq<u8>> {
    match text {
        Some(chars) => Some(vstd::utf8::encode_utf8(chars)),
        None => None,
    }
}

/// What a match makes of a line, given what it captured as the address and as
/// the date.
pub open spec fn outcome_of(
    groups: Option<(Option<Seq<char>>, Option<Seq<char>>)>,
    format: Seq<char>,
) -> Result<ParseResult, ParseError> {
    match groups {
        None => Err(ParseError::InvalidLine),
        Some((ip_text, date_text)) => record_of(
            text_bytes(ip_text),
            match date_text {
                Some(text) => timestamp_of(text, format),
                None => None,
            },
        ),
    }
}

/// The record that a captured address and the timestamp of the captured date
/// make.
pub fn record_from_fields(ip_text: Option<&str>, stamp: Option<i64>) -> (outcome: Result<
    ParseResult,
    ParseError,
>)
    ensures
        outcome == record_of(
            match ip_text {
                Some(text) => Some(text.spec_bytes()),
                None => None,
            },
            stamp,
        ),
{
    let timestamp: i64 = match stamp {
        Some(seconds) => seconds,
        None => { return Err(ParseError::InvalidDateTime); },
    };
    let text: &str = match ip_text {
        Some(text) => text,
        None => { return Err(ParseError::InvalidIP); },
    };
    match parse_ipv4(text.as_bytes()) {
        Some(ip) => Ok(ParseResult { ip, timestamp }),
        None => Err(ParseError::InvalidIP),
    }
}

/// A compiled pattern with the groups `ip` and `DT`, and the format of the
/// date.
#[derive(Debug)]
pub struct RegexParser {
    matcher: ::regex::Regex,
    date_format: String,
}

impl RegexParser {
    /// The compiled expression that the parser matches lines against.
    pub closed spec fn matcher(&self) -> ::regex::Regex {
        self.matcher
    }

    /// The pattern that the expression was made from.
    pub open spec fn pattern(&self) -> Seq<char> {
        pattern_of(self.matcher())
    }

    /// The format under which the parser reads the captured date.
    pub closed spec fn date_format(&self) -> Seq<char> {
        self.date_format@
    }

    /// Makes a parser of a pattern and a date format.
    pub fn new(pattern: &str, date_format: &str) -> (made: Result<RegexParser, RegexError>)
        ensures
            match made {
                Ok(parser) => rejection(pattern) is None && parser.pattern() == pattern@
                    && parser.date_format() == date_format@,
                Err(error) => rejection(pattern) == Some(error),
            },
    {
        if !contains(pattern.as_bytes(), "(?P<ip>".as_bytes()) {
            return Err(RegexError::IPGroupExpected);
        }
        if !contains(pattern.as_bytes(), "(?P<DT>".as_bytes()) {
            return Err(RegexError::DTGroupExpected);
        }
        match ::regex::Regex::new(pattern) {
            Ok(matcher) => Ok(RegexParser { matcher, date_format: date_format.to_owned() }),
            Err(_) => Err(RegexError::UncompilableRegex),
        }
    }
}

impl RegexParser {
    /// The pattern that the parser was made of.
    pub fn source(&self) -> (text: &str)
        ensures
            text@ == self.pattern(),
    {
        self.matcher.as_str()
    }

    /// The format under which the parser reads dates.
    pub fn format(&self) -> (text: &str)
        ensures
            text@ == self.date_format(),
    {
        self.date_format.as_str()
    }
}

impl<'a> LineParser<&'a str> for RegexParser {
    open spec fn parsed(&self, line: &'a str) -> Result<ParseResult, ParseError> {
        outcome_of(captured(self.matcher(), line@, "ip"@, "DT"@), self.date_format())
    }

    fn parse_line(&self, line: &'a str) -> (outcome: Result<ParseResult, ParseError>) {
        let (ip_text, date_text) = match find_groups(&self.matcher, line, "ip", "DT") {
            Some(groups) => groups,
            None => { return Err(ParseError::InvalidLine); },
        };
        let stamp: Option<i64> = match date_text {
            Some(text) => match read_timestamp(text, self.date_format.as_str()) {
                Ok(seconds) => Some(seconds),
                Err(_) => None,
            },
            None => None,
        };
        record_from_fields(ip_text, stamp)
    }
}

} // verus!
