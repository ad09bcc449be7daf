//! The three parsers on lines of the fixed format: they give the same record.

use crate::parser::automaton::{Automaton, DOT};
use crate::parser::ipv4::{canonical, digit_run, ipv4_value, lemma_digit_run_is, next_group};
use crate::parser::layout::{
    decimal, dotted_quad, fixed_format, fixed_record, is_digit,
    lemma_fast_parser_reads_fixed_format, lemma_scanner_reads_fixed_format, octet, quad_value,
    separator_index,
};
use crate::parser::pattern::{captured, timestamp_of, RegexParser};
use crate::parser::simd::SimdParser;
use crate::parser::{LineParser, ParseError, ParseResult};
use vstd::prelude::*;

verus! {

/// On a line of the fixed format the scanner and the fast parser give the
/// same record: the address that the dotted quad spells and the seconds since
/// midnight of the clock field.
pub proof fn lemma_byte_parsers_agree(
    scanner: Automaton,
    fast: SimdParser,
    line: &[u8],
    l0: int,
    l1: int,
    l2: int,
    l3: int,
    second: int,
    colon: int,
)
    requires
        fixed_format(line@, l0, l1, l2, l3, second, colon),
    ensures
        scanner.parsed(line) == Ok::<ParseResult, ParseError>(
            fixed_record(line@, l0, l1, l2, l3, colon),
        ),
        fast.parsed(line) == scanner.parsed(line),
{
    lemma_scanner_reads_fixed_format(line@, l0, l1, l2, l3, second, colon);
    lemma_fast_parser_reads_fixed_format(line@, l0, l1, l2, l3, second, colon);
}

/// Whether no group of the dotted quad at the start of `s` has a leading zero.
pub open spec fn canonical_quad(s: Seq<u8>, l0: int, l1: int, l2: int, l3: int) -> bool {
    &&& canonical(s, 0, l0)
    &&& canonical(s, l0 + 1, l1)
    &&& canonical(s, l0 + l1 + 2, l2)
    &&& canonical(s, l0 + l1 + l2 + 3, l3)
}

/// A group of a dotted quad is a run of digits: it ends at a dot, or at the
/// end of the text.
proof fn lemma_group_is_run(text: Seq<u8>, at: int, len: int)
    requires
        0 <= at,
        1 <= len,
        at + len <= text.len(),
        forall|j: int| 0 <= j < len ==> is_digit(#[trigger] text[at + j]),
        at + len < text.len() ==> text[at + len] == DOT,
    ensures
        digit_run(text, at) == len,
{
    lemma_digit_run_is(text, at, len);
}

/// A dotted quad without leading zeros, and nothing behind it, reads as the
/// address that it spells.
pub proof fn lemma_text_address(text: Seq<u8>, l0: int, l1: int, l2: int, l3: int)
    requires
        dotted_quad(text, l0, l1, l2, l3),
        canonical_quad(text, l0, l1, l2, l3),
        text.len() == l0 + l1 + l2 + l3 + 3,
    ensures
        ipv4_value(text) == Some(quad_value(text, l0, l1, l2, l3) as u32),
{
    let end = l0 + l1 + l2 + l3 + 3;
    assert forall|i: int| 0 <= i < end implies (if separator_index(l0, l1, l2, l3, i) {
        text[i] == DOT
    } else {
        is_digit(text[i])
    }) by {}
    assert forall|j: int| 0 <= j < l0 implies is_digit(#[trigger] text[0 + j]) by {
        assert(!separator_index(l0, l1, l2, l3, j));
    }
    assert forall|j: int| 0 <= j < l1 implies is_digit(#[trigger] text[l0 + 1 + j]) by {
        assert(!separator_index(l0, l1, l2, l3, l0 + 1 + j));
    }
    assert forall|j: int| 0 <= j < l2 implies is_digit(#[trigger] text[l0 + l1 + 2 + j]) by {
        assert(!separator_index(l0, l1, l2, l3, l0 + l1 + 2 + j));
    }
    assert forall|j: int| 0 <= j < l3 implies is_digit(#[trigger] text[l0 + l1 + l2 + 3 + j]) by {
        assert(!separator_index(l0, l1, l2, l3, l0 + l1 + l2 + 3 + j));
    }
    assert(separator_index(l0, l1, l2, l3, l0));
    assert(separator_index(l0, l1, l2, l3, l0 + l1 + 1));
    assert(separator_index(l0, l1, l2, l3, l0 + l1 + l2 + 2));
    lemma_group_is_run(text, 0, l0);
    lemma_group_is_run(text, l0 + 1, l1);
    lemma_group_is_run(text, l0 + l1 + 2, l2);
    lemma_group_is_run(text, l0 + l1 + l2 + 3, l3);
    assert(next_group(text, 0) == l0 + 1);
    assert(next_group(text, l0 + 1) == l0 + l1 + 2);
    assert(next_group(text, l0 + l1 + 2) == l0 + l1 + l2 + 3);
    assert(octet(text, l0, l1, l2, l3, 0) == decimal(text, 0, l0));
    assert(octet(text, l0, l1, l2, l3, 1) == decimal(text, l0 + 1, l1));
    assert(octet(text, l0, l1, l2, l3, 2) == decimal(text, l0 + l1 + 2, l2));
    assert(octet(text, l0, l1, l2, l3, 3) == decimal(text, l0 + l1 + l2 + 3, l3));
}

/// On a line of the fixed format whose address has no leading zeros, the
/// pattern parser gives the same address as the other two whenever its
/// pattern captures the dotted quad as the address, and the same record
/// whenever the captured date reads as the seconds since midnight of the
/// clock field.
pub proof fn lemma_pattern_parser_agrees(
    parser: RegexParser,
    scanner: Automaton,
    text: &str,
    line: &[u8],
    l0: int,
    l1: int,
    l2: int,
    l3: int,
    second: int,
    colon: int,
    ip_text: Seq<char>,
    date_text: Seq<char>,
)
    requires
        fixed_format(line@, l0, l1, l2, l3, second, colon),
        canonical_quad(line@, l0, l1, l2, l3),
        captured(parser.matcher(), text@, "ip"@, "DT"@) == Some((Some(ip_text), Some(date_text))),
        vstd::utf8::encode_utf8(ip_text) == line@.subrange(0, l0 + l1 + l2 + l3 + 3),
        timestamp_of(date_text, parser.date_format()) == Some(
            fixed_record(line@, l0, l1, l2, l3, colon).timestamp,
        ),
    ensures
        parser.parsed(text) == scanner.parsed(line),
{
    let end = l0 + l1 + l2 + l3 + 3;
    let field = line@.subrange(0, end);
    crate::parser::layout::lemma_same_quad(line@, field, l0, l1, l2, l3);
    lemma_text_address(field, l0, l1, l2, l3);
    lemma_scanner_reads_fixed_format(line@, l0, l1, l2, l3, second, colon);
}

} // verus!
