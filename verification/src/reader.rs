//! Splitting a buffer into lines.

use crate::search::{find_from, index_of};
use vstd::prelude::*;
use vstd::slice::slice_subrange;

verus! {

/// The byte that ends a line.
pub const NEWLINE: u8 = 0x0a;

/// The line of `data` that begins at `start`, without its newline, and where
/// the next line begins. A line ends at a newline or at the end of the data: the
/// bytes behind the last newline are a line too, and there is no line at the end
/// of the data.
pub fn next_line(data: &[u8], start: usize) -> (line: Option<(&[u8], usize)>)
    requires
        start <= data@.len(),
    ensures
        match line {
            Some((bytes, next)) => {
                &&& start < data@.len()
                &&& bytes@ == data@.subrange(start as int, index_of(data@, NEWLINE, start as int))
                &&& next == if index_of(data@, NEWLINE, start as int) < data@.len() {
                    index_of(data@, NEWLINE, start as int) + 1
                } else {
                    data@.len() as int
                }
                &&& start < next <= data@.len()
            },
            None => start == data@.len(),
        },
{
    let len: usize = data.len();
    if start == len {
        return None;
    }
    match find_from(data, NEWLINE, start) {
        Some(end) => Some((slice_subrange(data, start, end), end + 1)),
        None => Some((slice_subrange(data, start, len), len)),
    }
}

} // verus!
