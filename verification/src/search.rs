//! Search for a byte, or for a byte string, inside a byte string.

use vstd::prelude::*;
use vstd::slice::slice_subrange;

verus! {

/// Whether `needle` stands in `hay` at the index `at`.
pub open spec fn occurs_at(hay: Seq<u8>, needle: Seq<u8>, at: int) -> bool {
    0 <= at && at + needle.len() <= hay.len() && hay.subrange(at, at + needle.len()) == needle
}

/// Whether `needle` stands somewhere in `hay`.
pub open spec fn occurs_in(hay: Seq<u8>, needle: Seq<u8>) -> bool {
    exists|at: int| occurs_at(hay, needle, at)
}

/// Whether `needle` stands in `hay` at the index `at`.
pub fn matches_at(hay: &[u8], needle: &[u8], at: usize) -> (same: bool)
    requires
        at + needle@.len() <= hay@.len(),
    ensures
        same == occurs_at(hay@, needle@, at as int),
{
    let n: usize = needle.len();
    let len: usize = hay.len();
    let mut i: usize = 0;
    while i < n
        invariant
            i <= n == needle@.len(),
            at + n <= len == hay@.len(),
            forall|k: int| 0 <= k < i ==> hay@[at + k] == needle@[k],
        decreases n - i,
    {
        if hay[at + i] != needle[i] {
            assert(hay@.subrange(at as int, at + n)[i as int] == hay@[at + i]);
            return false;
        }
        i += 1;
    }
    assert(hay@.subrange(at as int, at + n) =~= needle@);
    true
}

/// Whether `needle` stands somewhere in `hay`. The empty string stands in
/// every string.
pub fn contains(hay: &[u8], needle: &[u8]) -> (found: bool)
    ensures
        found == occurs_in(hay@, needle@),
{
    if needle.len() == 0 {
        assert(occurs_at(hay@, needle@, 0)) by {
            assert(hay@.subrange(0, 0) =~= needle@);
        }
        return true;
    }
    if needle.len() > hay.len() {
        return false;
    }
    let last: usize = hay.len() - needle.len();
    let mut at: usize = 0;
    while at <= last
        invariant
            at <= last + 1,
            last < usize::MAX,
            last + needle@.len() == hay@.len(),
            forall|k: int| 0 <= k < at ==> !occurs_at(hay@, needle@, k),
        decreases last + 1 - at,
    {
        if matches_at(hay, needle, at) {
            return true;
        }
        at += 1;
    }
    false
}

/// The first index at or after `from` at which `line` holds `byte`, or the
/// length of `line` where there is none.
pub open spec fn index_of(line: Seq<u8>, byte: u8, from: int) -> int
    decreases line.len() - from,
{
    if from >= line.len() {
        line.len() as int
    } else if line[from] == byte {
        from
    } else {
        index_of(line, byte, from + 1)
    }
}

/// The index that `index_of` gives is the first that holds `byte`.
pub proof fn lemma_index_of_bounds(line: Seq<u8>, byte: u8, from: int)
    requires
        0 <= from <= line.len(),
    ensures
        from <= index_of(line, byte, from) <= line.len(),
        index_of(line, byte, from) < line.len() ==> line[index_of(line, byte, from)] == byte,
        forall|i: int| from <= i < index_of(line, byte, from) ==> line[i] != byte,
    decreases line.len() - from,
{
    if from < line.len() && line[from] != byte {
        lemma_index_of_bounds(line, byte, from + 1);
    }
}

/// `memchr::memchr` gives the index of the first occurrence of `needle` in
/// `haystack`, and nothing where it does not occur.
pub assume_specification[ ::memchr::memchr ](needle: u8, haystack: &[u8]) -> (found: Option<usize>)
    ensures
        match found {
            Some(i) => i < haystack@.len() && haystack@[i as int] == needle && forall|j: int|
                0 <= j < i ==> haystack@[j] != needle,
            None => forall|j: int| 0 <= j < haystack@.len() ==> haystack@[j] != needle,
        },
;

/// The first index at or after `from` at which `line` holds `byte`.
pub fn find_from(line: &[u8], byte: u8, from: usize) -> (at: Option<usize>)
    requires
        from <= line@.len(),
    ensures
        match at {
            Some(i) => i == index_of(line@, byte, from as int) && from <= i < line@.len(),
            None => index_of(line@, byte, from as int) == line@.len(),
        },
{
    let tail: &[u8] = slice_subrange(line, from, line.len());
    let found: Option<usize> = ::memchr::memchr(byte, tail);
    proof {
        lemma_index_of_bounds(line@, byte, from as int);
        let at = index_of(line@, byte, from as int);
        match found {
            Some(i) => {
                assert(tail@[i as int] == line@[from + i]);
                if at < from + i {
                    assert(tail@[at - from] == line@[at]);
                }
            },
            None => {
                if at < line@.len() {
                    assert(tail@[at - from] == line@[at]);
                }
            },
        }
    }
    match found {
        Some(i) => Some(i + from),
        None => None,
    }
}

} // verus!
