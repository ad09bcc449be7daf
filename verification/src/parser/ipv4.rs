//! IPv4 addresses in their textual form.

use crate::parser::automaton::{DOT, ZERO};
use crate::parser::layout::{decimal, is_digit};
use crate::parser::quad;
use vstd::prelude::*;

verus! {

/// The number of digits that stand in `s` from `at` on, without a gap.
pub open spec fn digit_run(s: Seq<u8>, at: int) -> int
    decreases s.len() - at,
{
    if 0 <= at < s.len() && is_digit(s[at]) {
        1 + digit_run(s, at + 1)
    } else {
        0
    }
}

/// A group of more than one digit does not begin with the digit zero.
pub open spec fn canonical(s: Seq<u8>, at: int, len: int) -> bool {
    len > 1 ==> s[at] != ZERO
}

/// Whether a group of one to three digits begins at `at`, with no leading
/// zero and a number of at most 255.
pub open spec fn group_ok(s: Seq<u8>, at: int) -> bool {
    &&& 1 <= digit_run(s, at) <= 3
    &&& decimal(s, at, digit_run(s, at)) <= 255
    &&& canonical(s, at, digit_run(s, at))
}

/// Where the group behind the group at `at` begins: behind its digits and one
/// more byte.
pub open spec fn next_group(s: Seq<u8>, at: int) -> int {
    at + digit_run(s, at) + 1
}

/// Whether a dot stands behind the group at `at`.
pub open spec fn dot_follows(s: Seq<u8>, at: int) -> bool {
    at + digit_run(s, at) < s.len() && s[at + digit_run(s, at)] == DOT
}

/// The address that `s` spells, where it is one: four runs of digits, each a
/// group as above, with a dot between them and nothing before, behind or in
/// between.
pub open spec fn ipv4_value(s: Seq<u8>) -> Option<u32> {
    let a1 = next_group(s, 0);
    let a2 = next_group(s, a1);
    let a3 = next_group(s, a2);
    if group_ok(s, 0) && dot_follows(s, 0) && group_ok(s, a1) && dot_follows(s, a1) && group_ok(
        s,
        a2,
    ) && dot_follows(s, a2) && group_ok(s, a3) && a3 + digit_run(s, a3) == s.len() {
        Some(
            quad(
                decimal(s, 0, digit_run(s, 0)),
                decimal(s, a1, digit_run(s, a1)),
                decimal(s, a2, digit_run(s, a2)),
                decimal(s, a3, digit_run(s, a3)),
            ) as u32,
        )
    } else {
        None
    }
}

/// A run of digits holds digits, stays inside the text, and stops at a byte
/// that is no digit.
pub proof fn lemma_digit_run(s: Seq<u8>, at: int)
    requires
        0 <= at,
    ensures
        0 <= digit_run(s, at),
        digit_run(s, at) > 0 ==> at + digit_run(s, at) <= s.len(),
        forall|j: int| 0 <= j < digit_run(s, at) ==> is_digit(#[trigger] s[at + j]),
        at + digit_run(s, at) < s.len() ==> !is_digit(s[at + digit_run(s, at)]),
    decreases s.len() - at,
{
    if at < s.len() && is_digit(s[at]) {
        lemma_digit_run(s, at + 1);
        assert forall|j: int| 0 <= j < digit_run(s, at) implies is_digit(#[trigger] s[at + j]) by {
            if j > 0 {
                assert(s[at + j] == s[at + 1 + (j - 1)]);
            }
        }
    }
}

/// Digits up to a byte that is no digit, or up to the end, are a run.
pub proof fn lemma_digit_run_is(s: Seq<u8>, at: int, n: int)
    requires
        0 <= at,
        0 <= n,
        at + n <= s.len(),
        forall|j: int| 0 <= j < n ==> is_digit(#[trigger] s[at + j]),
    ensures
        digit_run(s, at) == n + digit_run(s, at + n),
    decreases n,
{
    if n > 0 {
        assert(is_digit(s[at + 0]));
        assert forall|j: int| 0 <= j < n - 1 implies is_digit(#[trigger] s[at + 1 + j]) by {
            assert(s[at + 1 + j] == s[at + (j + 1)]);
        }
        lemma_digit_run_is(s, at + 1, n - 1);
    }
}

/// Reads the group that begins at `at`: its number and its length, where it
/// has one to three digits, no leading zero, and is at most 255.
pub fn read_octet(text: &[u8], at: usize) -> (group: Option<(u32, usize)>)
    requires
        at <= text@.len(),
    ensures
        match group {
            Some((value, len)) => {
                &&& len == digit_run(text@, at as int)
                &&& 1 <= len <= 3
                &&& value == decimal(text@, at as int, len as int)
                &&& value <= 255
                &&& canonical(text@, at as int, len as int)
            },
            None => !(1 <= digit_run(text@, at as int) <= 3 && decimal(
                text@,
                at as int,
                digit_run(text@, at as int),
            ) <= 255 && canonical(text@, at as int, digit_run(text@, at as int))),
        },
{
    let len: usize = text.len();
    let mut n: usize = 0;
    let mut value: u32 = 0;
    while n < 4 && n < len - at && text[at + n] >= 0x30 && text[at + n] <= 0x39
        invariant
            n <= 4,
            at + n <= len == text@.len(),
            forall|j: int| 0 <= j < n ==> is_digit(#[trigger] text@[at + j]),
            value == decimal(text@, at as int, n as int),
            value <= 9999,
            n <= 3 ==> value <= 999,
            n <= 2 ==> value <= 99,
            n <= 1 ==> value <= 9,
            n == 0 ==> value == 0,
        decreases 4 - n,
    {
        value = value * 10 + (text[at + n] - 0x30) as u32;
        n += 1;
        assert(decimal(text@, at as int, n as int) == decimal(text@, at as int, n - 1) * 10 + (
        text@[at + n - 1] - 0x30));
    }
    proof {
        lemma_digit_run_is(text@, at as int, n as int);
        lemma_digit_run(text@, at + n);
    }
    if n == 0 || n == 4 {
        return None;
    }
    if n > 1 && text[at] == ZERO {
        return None;
    }
    if value > 255 {
        return None;
    }
    Some((value, n))
}

/// Reads `text` as an IPv4 address.
pub fn parse_ipv4(text: &[u8]) -> (address: Option<u32>)
    ensures
        address == ipv4_value(text@),
{
    let len: usize = text.len();
    let (v0, n0) = match read_octet(text, 0) {
        Some(group) => group,
        None => { return None; },
    };
    if n0 >= len || text[n0] != DOT {
        return None;
    }
    let (v1, n1) = match read_octet(text, n0 + 1) {
        Some(group) => group,
        None => { return None; },
    };
    let second_dot: usize = n0 + 1 + n1;
    if second_dot >= len || text[second_dot] != DOT {
        return None;
    }
    let (v2, n2) = match read_octet(text, second_dot + 1) {
        Some(group) => group,
        None => { return None; },
    };
    let third_dot: usize = second_dot + 1 + n2;
    if third_dot >= len || text[third_dot] != DOT {
        return None;
    }
    let (v3, n3) = match read_octet(text, third_dot + 1) {
        Some(group) => group,
        None => { return None; },
    };
    if third_dot + 1 + n3 != len {
        return None;
    }
    Some(((v0 * 256 + v1) * 256 + v2) * 256 + v3)
}

} // verus!
