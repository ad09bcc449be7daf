//! A single-pass byte scanner for lines that begin with a dotted quad and
//! carry a clock time after the second field separator.

use crate::parser::{LineParser, ParseError, ParseResult};
use crate::search::index_of;
use vstd::prelude::*;

verus! {

/// The byte between the fields of a line.
pub const SPACE: u8 = 0x20;

/// The byte between the groups of an address.
pub const DOT: u8 = 0x2e;

/// The byte between the groups of a clock time.
pub const COLON: u8 = 0x3a;

/// The digit zero.
pub const ZERO: u8 = 0x30;

/// One step of the scanner over a group byte: the group so far takes one more
/// decimal place. Nothing is validated, and the arithmetic wraps.
pub open spec fn push_digit(group: u32, byte: u8) -> u32 {
    group.wrapping_mul(10).wrapping_add(byte.wrapping_sub(ZERO) as u32)
}

/// One step of the scanner at a separator: the finished group becomes the
/// lowest place of the total.
pub open spec fn close_group(total: u32, group: u32, base: u32) -> u32 {
    total.wrapping_mul(base).wrapping_add(group)
}

/// The value of `line[from..to]` read as groups of decimal digits separated by
/// `sep`, the groups being the places of a number in `base`.
pub open spec fn scan_groups(
    line: Seq<u8>,
    from: int,
    to: int,
    sep: u8,
    base: u32,
    total: u32,
    group: u32,
) -> u32
    decreases to - from,
{
    if from >= to {
        close_group(total, group, base)
    } else if line[from] == sep {
        scan_groups(line, from + 1, to, sep, base, close_group(total, group, base), 0)
    } else {
        scan_groups(line, from + 1, to, sep, base, total, push_digit(group, line[from]))
    }
}

/// Where the address field ends: at the first space.
pub open spec fn address_end(line: Seq<u8>) -> int {
    index_of(line, SPACE, 0)
}

/// Where the clock field begins: the space is consumed, three bytes are
/// skipped, then everything up to the next space and on to the next colon.
pub open spec fn clock_start(line: Seq<u8>) -> int {
    let after = if address_end(line) + 4 < line.len() {
        address_end(line) + 4
    } else {
        line.len() as int
    };
    index_of(line, COLON, index_of(line, SPACE, after))
}

/// Where the clock field ends: at the next space.
pub open spec fn clock_end(line: Seq<u8>) -> int {
    index_of(line, SPACE, clock_start(line))
}

/// The address that the scanner reads off `line`.
pub open spec fn scanned_address(line: Seq<u8>) -> u32 {
    scan_groups(line, 0, address_end(line), DOT, 256, 0, 0)
}

/// The clock time that the scanner reads off `line`, in seconds.
pub open spec fn scanned_clock(line: Seq<u8>) -> u32 {
    scan_groups(line, clock_start(line), clock_end(line), COLON, 60, 0, 0)
}

/// The first index at or after `from` that holds `byte`.
pub fn find_byte(line: &[u8], byte: u8, from: usize) -> (at: usize)
    requires
        from <= line@.len(),
    ensures
        at == index_of(line@, byte, from as int),
        from <= at <= line@.len(),
{
    let mut at: usize = from;
    while at < line.len() && line[at] != byte
        invariant
            from <= at <= line@.len(),
            index_of(line@, byte, from as int) == index_of(line@, byte, at as int),
        decreases line@.len() - at,
    {
        at += 1;
    }
    at
}

/// Reads `line[from..to]` as separated decimal groups.
pub fn read_groups(line: &[u8], from: usize, to: usize, sep: u8, base: u32) -> (value: u32)
    requires
        from <= to <= line@.len(),
    ensures
        value == scan_groups(line@, from as int, to as int, sep, base, 0, 0),
{
    let mut total: u32 = 0;
    let mut group: u32 = 0;
    let mut at: usize = from;
    while at < to
        invariant
            from <= at <= to <= line@.len(),
            scan_groups(line@, from as int, to as int, sep, base, 0, 0) == scan_groups(
                line@,
                at as int,
                to as int,
                sep,
                base,
                total,
                group,
            ),
        decreases to - at,
    {
        let byte: u8 = line[at];
        if byte == sep {
            total = total.wrapping_mul(base).wrapping_add(group);
            group = 0;
        } else {
            group = group.wrapping_mul(10).wrapping_add(byte.wrapping_sub(ZERO) as u32);
        }
        at += 1;
    }
    total.wrapping_mul(base).wrapping_add(group)
}

/// The hand-written scanner. It validates nothing: a line of another shape
/// gives a record all the same, whose numbers mean nothing.
pub struct Automaton;

impl<'a> LineParser<&'a [u8]> for Automaton {
    open spec fn parsed(&self, line: &'a [u8]) -> Result<ParseResult, ParseError> {
        Ok(
            ParseResult {
                ip: scanned_address(line@),
                timestamp: scanned_clock(line@) as i64,
            },
        )
    }

    fn parse_line(&self, line: &'a [u8]) -> (outcome: Result<ParseResult, ParseError>) {
        let len: usize = line.len();
        let ip_end: usize = find_byte(line, SPACE, 0);
        let ip: u32 = read_groups(line, 0, ip_end, DOT, 256);
        let after: usize = if len - ip_end > 4 {
            ip_end + 4
        } else {
            len
        };
        let space: usize = find_byte(line, SPACE, after);
        let start: usize = find_byte(line, COLON, space);
        let end: usize = find_byte(line, SPACE, start);
        let time: u32 = read_groups(line, start, end, COLON, 60);
        Ok(ParseResult { ip, timestamp: time as i64 })
    }
}

} // verus!
