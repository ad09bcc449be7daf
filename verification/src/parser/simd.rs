//! The fast parser for fixed-format lines: the address is taken from the first
//! sixteen bytes with one table lookup and a handful of lane-wise operations,
//! the clock time from eight bytes behind the second field separator.

use crate::parser::automaton::{COLON, SPACE, ZERO};
use crate::parser::lanes::{
    add_adjacent, adjacent_sums, dword_at, dword_bits, extract_dword, load, loaded, mul_add_pairs,
    mul_add_words, pair_products, shuffle, shuffled, sign_bits, sign_bits_upto, sign_mask,
    sub_bytes, sub_each, unsigned32, word_bytes, word_products, words_as_bytes, Bytes, Dwords,
    Indices, Words,
};
use crate::parser::{LineParser, ParseError, ParseResult};
use crate::search::{find_from, index_of, lemma_index_of_bounds};
use vstd::prelude::*;
use vstd::slice::slice_subrange;

verus! {

/// The length of the digit group that the low bits of `m` delimit: the number
/// of clear bits below the lowest set bit, where that is 1, 2 or 3, else 0.
pub open spec fn group_len(m: u32) -> u32 {
    if m & 3 == 2 {
        1
    } else if m & 7 == 4 {
        2
    } else if m & 15 == 8 {
        3
    } else {
        0
    }
}

/// The length of the first group under the separator mask `m`.
pub open spec fn len0(m: u32) -> u32 {
    group_len(m)
}

/// The length of the second group under the separator mask `m`.
pub open spec fn len1(m: u32) -> u32 {
    group_len(m >> (len0(m) + 1))
}

/// The length of the third group under the separator mask `m`.
pub open spec fn len2(m: u32) -> u32 {
    group_len(m >> (len0(m) + len1(m) + 2))
}

/// The length of the fourth group under the separator mask `m`.
pub open spec fn len3(m: u32) -> u32 {
    group_len(m >> (len0(m) + len1(m) + len2(m) + 3))
}

/// The bytes that the four groups of `m` and their separators take.
pub open spec fn span(m: u32) -> u32 {
    (len0(m) + len1(m) + len2(m) + len3(m) + 4) as u32
}

/// Whether `m` is the separator mask of four groups of one to three digits,
/// each followed by a separator, with anything behind them.
pub open spec fn is_layout(m: u32) -> bool {
    m < 0x1_0000 && len0(m) != 0 && len1(m) != 0 && len2(m) != 0 && len3(m) != 0
}

/// The separator mask of groups of the given lengths, with the bits `r` for
/// the bytes behind the last separator.
pub open spec fn layout_mask(l0: u32, l1: u32, l2: u32, l3: u32, r: u32) -> u32 {
    layout_base(l0, l1, l2, l3) ^ (r << ((l0 + l1 + l2 + l3 + 4) as u32))
}

/// The four separator bits of groups of the given lengths.
pub open spec fn layout_base(l0: u32, l1: u32, l2: u32, l3: u32) -> u32 {
    (1u32 << l0) ^ (1u32 << ((l0 + l1 + 1) as u32)) ^ (1u32 << ((l0 + l1 + l2 + 2) as u32)) ^ (1u32
        << ((l0 + l1 + l2 + l3 + 3) as u32))
}

/// The length of group `g`.
pub open spec fn length_of(l0: int, l1: int, l2: int, l3: int, g: int) -> int {
    if g == 0 {
        l0
    } else if g == 1 {
        l1
    } else if g == 2 {
        l2
    } else {
        l3
    }
}

/// The index of the first digit of group `g`.
pub open spec fn start_of(l0: int, l1: int, l2: int, l3: int, g: int) -> int {
    if g == 0 {
        0
    } else if g == 1 {
        l0 + 1
    } else if g == 2 {
        l0 + l1 + 2
    } else if g == 3 {
        l0 + l1 + l2 + 3
    } else {
        l0 + l1 + l2 + l3 + 4
    }
}

/// Lane `k` of the shuffle for groups of the given lengths. Group `g` goes to
/// the four lanes from `4 * (3 - g)` on, its last digit first; the lanes that
/// are left over read as zero.
pub open spec fn shuffle_lane(l0: int, l1: int, l2: int, l3: int, k: int) -> i8 {
    let g = 3 - k / 4;
    let o = k % 4;
    if o < length_of(l0, l1, l2, l3, g) {
        (start_of(l0, l1, l2, l3, g) + length_of(l0, l1, l2, l3, g) - 1 - o) as i8
    } else {
        -1i8
    }
}

/// The shuffle for groups of the given lengths.
pub open spec fn shuffle_for(l0: int, l1: int, l2: int, l3: int) -> Seq<i8> {
    Seq::new(16, |k: int| shuffle_lane(l0, l1, l2, l3, k))
}

/// What the table holds for the mask `m`: the shuffle for its groups where it
/// is a layout, and zeros where it is not.
pub open spec fn table_entry(m: u32) -> Seq<i8> {
    if is_layout(m) {
        shuffle_for(len0(m) as int, len1(m) as int, len2(m) as int, len3(m) as int)
    } else {
        Seq::new(16, |k: int| 0i8)
    }
}

/// Whether `(a0, .., a4)` comes before `(c0, .., c4)` in the order in which
/// the table is filled.
pub open spec fn filled_before(
    a0: int,
    a1: int,
    a2: int,
    a3: int,
    a4: int,
    c0: int,
    c1: int,
    c2: int,
    c3: int,
    c4: int,
) -> bool {
    a0 < c0 || (a0 == c0 && (a1 < c1 || (a1 == c1 && (a2 < c2 || (a2 == c2 && (a3 < c3 || (a3 == c3
        && a4 < c4)))))))
}

/// What the table holds for `m` when every layout before `(c0, .., c4)` has
/// been stored.
pub open spec fn entry_so_far(m: u32, c0: int, c1: int, c2: int, c3: int, c4: int) -> Seq<i8> {
    if is_layout(m) && filled_before(
        len0(m) as int,
        len1(m) as int,
        len2(m) as int,
        len3(m) as int,
        (m >> span(m)) as int,
        c0,
        c1,
        c2,
        c3,
        c4,
    ) {
        shuffle_for(len0(m) as int, len1(m) as int, len2(m) as int, len3(m) as int)
    } else {
        Seq::new(16, |k: int| 0i8)
    }
}

/// The whole table: for each of the 65536 masks the entry that belongs to it.
pub open spec fn shuffle_table() -> Seq<Seq<i8>> {
    Seq::new(0x1_0000, |m: int| table_entry(m as u32))
}

/// The decimal weights of the address path: ones, tens and hundreds in each
/// group of four lanes.
pub open spec fn ip_weights() -> Seq<u8> {
    seq![1u8, 10, 100, 0, 1, 10, 100, 0, 1, 10, 100, 0, 1, 10, 100, 0]
}

/// The shuffle that gathers the low bytes of the first four word lanes.
pub open spec fn low_bytes() -> Seq<i8> {
    seq![
        0i8, 2i8, 4i8, 6i8, -1i8, -1i8, -1i8, -1i8, -1i8, -1i8, -1i8, -1i8, -1i8, -1i8, -1i8, -1i8,
    ]
}

/// The shuffle of the clock path: the two digits of the hour go to lanes 6
/// and 7, those of the minute to 12 and 13, those of the second to 14 and 15.
pub open spec fn clock_picks() -> Seq<i8> {
    seq![
        -1i8, -1i8, -1i8, -1i8, -1i8, -1i8, 0i8, 1i8, -1i8, -1i8, -1i8, -1i8, 3i8, 4i8, 6i8, 7i8,
    ]
}

/// The decimal weights of the clock path: tens and ones.
pub open spec fn clock_tens() -> Seq<u8> {
    seq![0u8, 0, 0, 0, 0, 0, 10, 1, 0, 0, 10, 1, 10, 1, 10, 1]
}

/// The seconds in an hour, a minute and a second, in the word lanes that hold
/// the hour, the minute and the second.
pub open spec fn clock_units() -> Seq<i16> {
    seq![0i16, 0, 0, 3600, 0, 0, 60, 1]
}

/// The address that the lane operations make of a sixteen-byte window.
pub open spec fn lane_address(window: Seq<u8>) -> u32 {
    let digits = sub_each(window, ZERO);
    let groups = shuffled(digits, table_entry(sign_bits(digits)));
    let sums = adjacent_sums(pair_products(ip_weights(), groups));
    dword_at(shuffled(word_bytes(sums), low_bytes()), 0)
}

/// The seconds that the lane operations make of the field in the low eight
/// lanes of `field`.
pub open spec fn lane_clock(field: Seq<u8>) -> u32 {
    let digits = sub_each(field, ZERO);
    let pairs = pair_products(clock_tens(), shuffled(digits, clock_picks()));
    let parts = word_products(pairs, clock_units());
    unsigned32(parts[1]).wrapping_add(unsigned32(parts[3]))
}

/// What the fast parser makes of `line`. The address is read off the first
/// sixteen bytes. The clock field is the eight bytes behind the first colon
/// at or after the second separator, which is the first space at least three
/// bytes behind the first, which in turn is the first space at or after the
/// eighth byte. A line that is too short for that, or lacks one of the three
/// delimiters, is invalid; nothing else is validated.
pub open spec fn fast_parsed(line: Seq<u8>) -> Result<ParseResult, ParseError> {
    let first = index_of(line, SPACE, 7);
    let second = index_of(line, SPACE, first + 3);
    let colon = index_of(line, COLON, second);
    if line.len() < 16 || first + 3 > line.len() || second >= line.len() || colon + 9
        > line.len() {
        Err(ParseError::InvalidLine)
    } else {
        Ok(
            ParseResult {
                ip: lane_address(loaded(line, 0, 16)),
                timestamp: lane_clock(loaded(line, colon + 1, 8)) as i64,
            },
        )
    }
}

/// The top bits of `n` lanes fit in `n` bits.
pub proof fn lemma_sign_bits_fit(v: Seq<u8>, n: nat)
    requires
        n <= 16,
    ensures
        sign_bits_upto(v, n) >> (n as u32) == 0,
    decreases n,
{
    if n == 0 {
        assert(0u32 >> 0u32 == 0) by (bit_vector);
    } else {
        lemma_sign_bits_fit(v, (n - 1) as nat);
        let x = sign_bits_upto(v, (n - 1) as nat);
        let b = crate::parser::lanes::sign_bit(v[n - 1]);
        let s = (n - 1) as u32;
        let t = n as u32;
        assert((x | (b << s)) >> t == 0) by (bit_vector)
            requires
                x >> s == 0,
                b <= 1,
                s < 16,
                t == s + 1,
        ;
    }
}

/// A mask made of groups and trailing bits is a layout and gives them back.
pub proof fn lemma_layout_decodes(l0: u32, l1: u32, l2: u32, l3: u32, r: u32)
    by (bit_vector)
    requires
        1 <= l0 <= 3,
        1 <= l1 <= 3,
        1 <= l2 <= 3,
        1 <= l3 <= 3,
        r < (1u32 << ((12 - l0 - l1 - l2 - l3) as u32)),
    ensures
        layout_mask(l0, l1, l2, l3, r) < 0x1_0000,
        len0(layout_mask(l0, l1, l2, l3, r)) == l0,
        len1(layout_mask(l0, l1, l2, l3, r)) == l1,
        len2(layout_mask(l0, l1, l2, l3, r)) == l2,
        len3(layout_mask(l0, l1, l2, l3, r)) == l3,
        layout_mask(l0, l1, l2, l3, r) >> ((l0 + l1 + l2 + l3 + 4) as u32) == r,
{
}

/// A layout is made of its groups and its trailing bits.
pub proof fn lemma_layout_encodes(m: u32)
    by (bit_vector)
    requires
        is_layout(m),
    ensures
        m == layout_mask(len0(m), len1(m), len2(m), len3(m), m >> span(m)),
        (m >> span(m)) < (1u32 << ((16 - span(m)) as u32)),
        1 <= len0(m) <= 3,
        1 <= len1(m) <= 3,
        1 <= len2(m) <= 3,
        1 <= len3(m) <= 3,
{
}

/// The number of settings of the bits behind the last separator of groups of
/// the given lengths.
pub open spec fn trailing_settings(l0: int, l1: int, l2: int, l3: int) -> int {
    (1u32 << ((12 - l0 - l1 - l2 - l3) as u32)) as int
}

/// Progress in filling the table. A table that holds every layout before one
/// point of the order holds every layout before another point, where the same
/// layouts come before both; and it is complete once the point lies behind
/// every layout.
pub proof fn lemma_fill_progress(
    table: Seq<Indices>,
    a0: int,
    a1: int,
    a2: int,
    a3: int,
    a4: int,
    b0: int,
    b1: int,
    b2: int,
    b3: int,
    b4: int,
)
    requires
        table.len() == 0x1_0000,
        forall|m: int|
            0 <= m < 0x1_0000 ==> (#[trigger] table[m])@ == entry_so_far(
                m as u32,
                a0,
                a1,
                a2,
                a3,
                a4,
            ),
        forall|l0: int, l1: int, l2: int, l3: int, r: int|
            1 <= l0 <= 3 && 1 <= l1 <= 3 && 1 <= l2 <= 3 && 1 <= l3 <= 3 && 0 <= r
                < trailing_settings(l0, l1, l2, l3) ==> (#[trigger] filled_before(
                l0,
                l1,
                l2,
                l3,
                r,
                a0,
                a1,
                a2,
                a3,
                a4,
            ) <==> filled_before(l0, l1, l2, l3, r, b0, b1, b2, b3, b4)),
    ensures
        forall|m: int|
            0 <= m < 0x1_0000 ==> (#[trigger] table[m])@ == entry_so_far(
                m as u32,
                b0,
                b1,
                b2,
                b3,
                b4,
            ),
        b0 > 3 ==> forall|m: int|
            0 <= m < 0x1_0000 ==> (#[trigger] table[m])@ == table_entry(m as u32),
{
    assert forall|m: int| 0 <= m < 0x1_0000 implies (#[trigger] table[m])@ == entry_so_far(
        m as u32,
        b0,
        b1,
        b2,
        b3,
        b4,
    ) && (b0 > 3 ==> table[m]@ == table_entry(m as u32)) by {
        let mask = m as u32;
        if is_layout(mask) {
            lemma_layout_encodes(mask);
            assert((16 - span(mask)) as u32 == (12 - len0(mask) - len1(mask) - len2(mask) - len3(
                mask,
            )) as u32);
            assert(filled_before(
                len0(mask) as int,
                len1(mask) as int,
                len2(mask) as int,
                len3(mask) as int,
                (mask >> span(mask)) as int,
                a0,
                a1,
                a2,
                a3,
                a4,
            ) <==> filled_before(
                len0(mask) as int,
                len1(mask) as int,
                len2(mask) as int,
                len3(mask) as int,
                (mask >> span(mask)) as int,
                b0,
                b1,
                b2,
                b3,
                b4,
            ));
        }
    }
}

/// The shuffle for groups of the given lengths, built group by group.
pub fn layout_shuffle(l0: u32, l1: u32, l2: u32, l3: u32) -> (shuf: Indices)
    requires
        1 <= l0 <= 3,
        1 <= l1 <= 3,
        1 <= l2 <= 3,
        1 <= l3 <= 3,
    ensures
        shuf@ == shuffle_for(l0 as int, l1 as int, l2 as int, l3 as int),
{
    let lens: [u32; 4] = [l0, l1, l2, l3];
    let mut shuf: Indices = [-1i8; 16];
    let mut pos: i8 = 0;
    let mut i: usize = 0;
    while i < 4
        invariant
            i <= 4,
            1 <= l0 <= 3,
            1 <= l1 <= 3,
            1 <= l2 <= 3,
            1 <= l3 <= 3,
            lens@[0] == l0 && lens@[1] == l1 && lens@[2] == l2 && lens@[3] == l3,
            pos == start_of(l0 as int, l1 as int, l2 as int, l3 as int, i as int),
            forall|k: int|
                0 <= k < 16 ==> #[trigger] shuf@[k] == if 3 - k / 4 < i {
                    shuffle_lane(l0 as int, l1 as int, l2 as int, l3 as int, k)
                } else {
                    -1i8
                },
        decreases 4 - i,
    {
        let len: u32 = lens[i];
        let ghost start = pos;
        let mut j: u32 = 0;
        while j < len
            invariant
                i < 4,
                j <= len <= 3,
                1 <= l0 <= 3,
                1 <= l1 <= 3,
                1 <= l2 <= 3,
                1 <= l3 <= 3,
                len == length_of(l0 as int, l1 as int, l2 as int, l3 as int, i as int),
                start == start_of(l0 as int, l1 as int, l2 as int, l3 as int, i as int),
                pos == start + j,
                forall|k: int|
                    0 <= k < 16 ==> #[trigger] shuf@[k] == if 3 - k / 4 < i {
                        shuffle_lane(l0 as int, l1 as int, l2 as int, l3 as int, k)
                    } else if 3 - k / 4 == i && k % 4 < len && len - 1 - k % 4 < j {
                        (start + len - 1 - k % 4) as i8
                    } else {
                        -1i8
                    },
            decreases len - j,
        {
            shuf[(3 - i) * 4 + (len - 1 - j) as usize] = pos;
            pos += 1;
            j += 1;
        }
        pos += 1;
        i += 1;
    }
    assert(shuf@ =~= shuffle_for(l0 as int, l1 as int, l2 as int, l3 as int));
    shuf
}

/// The four separator bits of groups of the given lengths.
pub fn layout_bits(l0: u32, l1: u32, l2: u32, l3: u32) -> (base: u32)
    requires
        1 <= l0 <= 3,
        1 <= l1 <= 3,
        1 <= l2 <= 3,
        1 <= l3 <= 3,
    ensures
        base == layout_base(l0, l1, l2, l3),
{
    (1u32 << l0) ^ (1u32 << (l0 + l1 + 1)) ^ (1u32 << (l0 + l1 + l2 + 2)) ^ (1u32 << (l0 + l1 + l2
        + l3 + 3))
}

/// The fast parser: it owns the shuffle table that its address path looks up.
pub struct SimdParser {
    shuffle_table: Vec<Indices>,
}

impl SimdParser {
    /// The shuffle table, entry by entry.
    pub closed spec fn table(&self) -> Seq<Seq<i8>> {
        Seq::new(self.shuffle_table@.len(), |m: int| self.shuffle_table@[m]@)
    }

    /// The table holds, for each of the 65536 masks, the entry that belongs
    /// to it.
    #[verifier::type_invariant]
    spec fn filled(self) -> bool {
        &&& self.shuffle_table@.len() == 0x1_0000
        &&& forall|m: int|
            0 <= m < 0x1_0000 ==> (#[trigger] self.shuffle_table@[m])@ == table_entry(m as u32)
    }

    /// Builds the shuffle table: for every choice of four group lengths and
    /// every setting of the bits behind the last separator, the shuffle of
    /// those lengths is stored at the mask that they make.
    pub fn new() -> (parser: SimdParser)
        ensures
            parser.table() == shuffle_table(),
    {
        let mut table: Vec<Indices> = Vec::new();
        let mut n: usize = 0;
        while n < 0x1_0000
            invariant
                n <= 0x1_0000,
                table@.len() == n,
                forall|m: int| 0 <= m < n ==> (#[trigger] table@[m])@ == Seq::new(16, |k: int| 0i8),
            decreases 0x1_0000 - n,
        {
            let zeros: Indices = [0i8; 16];
            assert(zeros@ =~= Seq::new(16, |k: int| 0i8));
            table.push(zeros);
            n += 1;
        }
        proof {
            lemma_fill_progress(table@, 0, 0, 0, 0, 0, 1, 1, 1, 1, 0);
        }
        let mut l0: u32 = 1;
        while l0 < 4
            invariant
                1 <= l0 <= 4,
                table@.len() == 0x1_0000,
                forall|m: int|
                    0 <= m < 0x1_0000 ==> (#[trigger] table@[m])@ == entry_so_far(
                        m as u32,
                        l0 as int,
                        1,
                        1,
                        1,
                        0,
                    ),
            decreases 4 - l0,
        {
            let mut l1: u32 = 1;
            while l1 < 4
                invariant
                    1 <= l0 <= 3,
                    1 <= l1 <= 4,
                    table@.len() == 0x1_0000,
                    forall|m: int|
                        0 <= m < 0x1_0000 ==> (#[trigger] table@[m])@ == entry_so_far(
                            m as u32,
                            l0 as int,
                            l1 as int,
                            1,
                            1,
                            0,
                        ),
                decreases 4 - l1,
            {
                let mut l2: u32 = 1;
                while l2 < 4
                    invariant
                        1 <= l0 <= 3,
                        1 <= l1 <= 3,
                        1 <= l2 <= 4,
                        table@.len() == 0x1_0000,
                        forall|m: int|
                            0 <= m < 0x1_0000 ==> (#[trigger] table@[m])@ == entry_so_far(
                                m as u32,
                                l0 as int,
                                l1 as int,
                                l2 as int,
                                1,
                                0,
                            ),
                    decreases 4 - l2,
                {
                    let mut l3: u32 = 1;
                    while l3 < 4
                        invariant
                            1 <= l0 <= 3,
                            1 <= l1 <= 3,
                            1 <= l2 <= 3,
                            1 <= l3 <= 4,
                            table@.len() == 0x1_0000,
                            forall|m: int|
                                0 <= m < 0x1_0000 ==> (#[trigger] table@[m])@ == entry_so_far(
                                    m as u32,
                                    l0 as int,
                                    l1 as int,
                                    l2 as int,
                                    l3 as int,
                                    0,
                                ),
                        decreases 4 - l3,
                    {
                        Self::store_layouts(&mut table, l0, l1, l2, l3);
                        l3 += 1;
                    }
                    proof {
                        lemma_fill_progress(
                            table@,
                            l0 as int,
                            l1 as int,
                            l2 as int,
                            4,
                            0,
                            l0 as int,
                            l1 as int,
                            l2 as int + 1,
                            1,
                            0,
                        );
                    }
                    l2 += 1;
                }
                proof {
                    lemma_fill_progress(
                        table@,
                        l0 as int,
                        l1 as int,
                        4,
                        1,
                        0,
                        l0 as int,
                        l1 as int + 1,
                        1,
                        1,
                        0,
                    );
                }
                l1 += 1;
            }
            proof {
                lemma_fill_progress(table@, l0 as int, 4, 1, 1, 0, l0 as int + 1, 1, 1, 1, 0);
            }
            l0 += 1;
        }
        proof {
            lemma_fill_progress(table@, 4, 1, 1, 1, 0, 4, 1, 1, 1, 0);
        }
        let parser = SimdParser { shuffle_table: table };
        assert(parser.table() =~= shuffle_table());
        parser
    }

    /// The entry of the table for `mask`.
    pub fn entry(&self, mask: u16) -> (shuf: &Indices)
        ensures
            shuf@ == table_entry(mask as u32),
            shuf@ == self.table()[mask as int],
    {
        proof {
            use_type_invariant(self);
        }
        &self.shuffle_table[mask as usize]
    }

    /// The address in the first sixteen bytes of `x`, read with the lane
    /// operations and the table.
    pub fn parse_ip_simd(&self, x: &[u8]) -> (ip: u32)
        requires
            x@.len() >= 16,
        ensures
            ip == lane_address(loaded(x@, 0, 16)),
    {
        let input: Bytes = load(x, 0, 16);
        let input: Bytes = sub_bytes(&input, ZERO);
        let mask: u32 = sign_mask(&input);
        proof {
            use_type_invariant(self);
            lemma_sign_bits_fit(input@, 16);
            assert(mask < 0x1_0000) by (bit_vector)
                requires
                    mask >> 16u32 == 0,
            ;
        }
        let shuf: &Indices = &self.shuffle_table[mask as usize];
        let arr: Bytes = shuffle(&input, shuf);
        let coeffs: Bytes = [1, 10, 100, 0, 1, 10, 100, 0, 1, 10, 100, 0, 1, 10, 100, 0];
        assert(coeffs@ =~= ip_weights());
        let prod: Words = mul_add_pairs(&coeffs, &arr);
        let prod: Words = add_adjacent(&prod);
        let imm: Indices = [0, 2, 4, 6, -1, -1, -1, -1, -1, -1, -1, -1, -1, -1, -1, -1];
        assert(imm@ =~= low_bytes());
        let packed: Bytes = shuffle(&words_as_bytes(&prod), &imm);
        extract_dword(&packed, 0)
    }

    /// The seconds since midnight in the first eight bytes of `x`, read as
    /// `HH:MM:SS` with the lane operations.
    pub fn parse_time_simd(x: &[u8]) -> (seconds: u32)
        requires
            x@.len() >= 8,
        ensures
            seconds == lane_clock(loaded(x@, 0, 8)),
    {
        let input: Bytes = load(x, 0, 8);
        let input: Bytes = sub_bytes(&input, ZERO);
        let picks: Indices = [-1, -1, -1, -1, -1, -1, 0, 1, -1, -1, -1, -1, 3, 4, 6, 7];
        assert(picks@ =~= clock_picks());
        let input: Bytes = shuffle(&input, &picks);
        let coeffs: Bytes = [0, 0, 0, 0, 0, 0, 10, 1, 0, 0, 10, 1, 10, 1, 10, 1];
        assert(coeffs@ =~= clock_tens());
        let prod: Words = mul_add_pairs(&coeffs, &input);
        let units: Words = [0, 0, 0, 3600, 0, 0, 60, 1];
        assert(units@ =~= clock_units());
        let prod2: Dwords = mul_add_words(&prod, &units);
        let ms: u32 = dword_bits(prod2[1]);
        let h: u32 = dword_bits(prod2[3]);
        ms.wrapping_add(h)
    }

    /// Stores the shuffle of one choice of group lengths at every mask that
    /// those lengths make with the bits behind the last separator.
    fn store_layouts(table: &mut Vec<Indices>, l0: u32, l1: u32, l2: u32, l3: u32)
        requires
            1 <= l0 <= 3,
            1 <= l1 <= 3,
            1 <= l2 <= 3,
            1 <= l3 <= 3,
            old(table)@.len() == 0x1_0000,
            forall|m: int|
                0 <= m < 0x1_0000 ==> (#[trigger] old(table)@[m])@ == entry_so_far(
                    m as u32,
                    l0 as int,
                    l1 as int,
                    l2 as int,
                    l3 as int,
                    0,
                ),
        ensures
            final(table)@.len() == 0x1_0000,
            forall|m: int|
                0 <= m < 0x1_0000 ==> (#[trigger] final(table)@[m])@ == entry_so_far(
                    m as u32,
                    l0 as int,
                    l1 as int,
                    l2 as int,
                    l3 as int + 1,
                    0,
                ),
    {
        let slen: u32 = l0 + l1 + l2 + l3 + 4;
        let rem: u32 = 16 - slen;
        let shuf: Indices = layout_shuffle(l0, l1, l2, l3);
        let base: u32 = layout_bits(l0, l1, l2, l3);
        let limit: u32 = 1u32 << rem;
        assert(limit <= 0x100) by (bit_vector)
            requires
                limit == 1u32 << rem,
                rem <= 8,
        ;
        let mut rmask: u32 = 0;
        while rmask < limit
            invariant
                1 <= l0 <= 3,
                1 <= l1 <= 3,
                1 <= l2 <= 3,
                1 <= l3 <= 3,
                slen == l0 + l1 + l2 + l3 + 4,
                rem == 16 - slen,
                limit == 1u32 << rem,
                limit <= 0x100,
                rmask <= limit,
                base == layout_base(l0, l1, l2, l3),
                shuf@ == shuffle_for(l0 as int, l1 as int, l2 as int, l3 as int),
                table@.len() == 0x1_0000,
                forall|m: int|
                    0 <= m < 0x1_0000 ==> (#[trigger] table@[m])@ == entry_so_far(
                        m as u32,
                        l0 as int,
                        l1 as int,
                        l2 as int,
                        l3 as int,
                        rmask as int,
                    ),
            decreases limit - rmask,
        {
            let mask: u32 = base ^ (rmask << slen);
            proof {
                assert(rem == (12 - l0 - l1 - l2 - l3) as u32);
                lemma_layout_decodes(l0, l1, l2, l3, rmask);
                assert(mask == layout_mask(l0, l1, l2, l3, rmask));
            }
            let ghost prior = table@;
            table[mask as usize] = shuf;
            assert forall|m: int| 0 <= m < 0x1_0000 implies (#[trigger] table@[m])@
                == entry_so_far(
                m as u32,
                l0 as int,
                l1 as int,
                l2 as int,
                l3 as int,
                rmask as int + 1,
            ) by {
                if m != mask {
                    assert(table@[m] == prior[m]);
                    if is_layout(m as u32) {
                        lemma_layout_encodes(m as u32);
                    }
                }
            }
            rmask += 1;
        }
        proof {
            assert(trailing_settings(l0 as int, l1 as int, l2 as int, l3 as int) == limit) by {
                assert(rem == (12 - l0 - l1 - l2 - l3) as u32);
            }
            lemma_fill_progress(
                table@,
                l0 as int,
                l1 as int,
                l2 as int,
                l3 as int,
                limit as int,
                l0 as int,
                l1 as int,
                l2 as int,
                l3 as int + 1,
                0,
            );
        }
    }
}

impl<'a> LineParser<&'a [u8]> for SimdParser {
    open spec fn parsed(&self, line: &'a [u8]) -> Result<ParseResult, ParseError> {
        fast_parsed(line@)
    }

    fn parse_line(&self, line: &'a [u8]) -> (outcome: Result<ParseResult, ParseError>) {
        let len: usize = line.len();
        if len < 16 {
            return Err(ParseError::InvalidLine);
        }
        let ip: u32 = self.parse_ip_simd(line);
        let first_space: usize = match find_from(line, SPACE, 7) {
            Some(at) => at,
            None => { return Err(ParseError::InvalidLine); },
        };
        if len - first_space < 3 {
            return Err(ParseError::InvalidLine);
        }
        let second_space: usize = match find_from(line, SPACE, first_space + 3) {
            Some(at) => at,
            None => { return Err(ParseError::InvalidLine); },
        };
        let time_begin: usize = match find_from(line, COLON, second_space) {
            Some(at) => at + 1,
            None => { return Err(ParseError::InvalidLine); },
        };
        if len - time_begin < 8 {
            proof {
                lemma_index_of_bounds(line@, SPACE, first_space + 3);
            }
            return Err(ParseError::InvalidLine);
        }
        let field: &[u8] = slice_subrange(line, time_begin, time_begin + 8);
        let time: u32 = Self::parse_time_simd(field);
        assert(loaded(field@, 0, 8) =~= loaded(line@, time_begin as int, 8));
        Ok(ParseResult { ip, timestamp: time as i64 })
    }
}

} // verus!
