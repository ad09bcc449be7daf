//! Lines of the fixed format, and what the parsers make of them.

use crate::parser::automaton::{
    address_end, close_group, push_digit, scan_groups, scanned_address, scanned_clock, COLON, DOT,
    SPACE, ZERO,
};
use crate::search::index_of;
use crate::parser::lanes::{
    adjacent_sums, dword_at, loaded, pair_products, shuffled, sign_bit, sign_bits, sign_bits_upto,
    sub_each, word_bytes, word_products, saturate16, signed8, wrap32,
};
use crate::parser::simd::{
    clock_picks, clock_tens, clock_units, fast_parsed, ip_weights, is_layout, lane_address,
    lane_clock, len0, len1, len2, len3, length_of, low_bytes, shuffle_for, shuffle_lane, start_of,
    table_entry,
};
use crate::parser::{clock_seconds, quad, ParseError, ParseResult};
use vstd::prelude::*;

verus! {

/// Whether `b` is an ASCII decimal digit.
pub open spec fn is_digit(b: u8) -> bool {
    0x30 <= b <= 0x39
}

/// Whether the fast parser takes `b` for the end of a group: every byte below
/// the digit zero does, and every byte from 0xb0 on.
pub open spec fn ends_group(b: u8) -> bool {
    b < 0x30 || b >= 0xb0
}

/// The number that the `len` digits of `s` from `at` on spell.
pub open spec fn decimal(s: Seq<u8>, at: int, len: int) -> int
    decreases len,
{
    if len <= 0 {
        0
    } else {
        decimal(s, at, len - 1) * 10 + (s[at + len - 1] - 0x30)
    }
}

/// Whether `i` is where a group of the given lengths ends.
pub open spec fn separator_index(l0: int, l1: int, l2: int, l3: int, i: int) -> bool {
    i == l0 || i == l0 + l1 + 1 || i == l0 + l1 + l2 + 2 || i == l0 + l1 + l2 + l3 + 3
}

/// The number that group `g` of the address at the start of `s` spells.
pub open spec fn octet(s: Seq<u8>, l0: int, l1: int, l2: int, l3: int, g: int) -> int {
    decimal(s, start_of(l0, l1, l2, l3, g), length_of(l0, l1, l2, l3, g))
}

/// Whether `s` begins with a dotted quad whose groups have the given lengths:
/// four groups of one to three digits, each at most 255, with a dot between
/// them.
pub open spec fn dotted_quad(s: Seq<u8>, l0: int, l1: int, l2: int, l3: int) -> bool {
    &&& 1 <= l0 <= 3
    &&& 1 <= l1 <= 3
    &&& 1 <= l2 <= 3
    &&& 1 <= l3 <= 3
    &&& s.len() >= l0 + l1 + l2 + l3 + 3
    &&& forall|i: int|
        0 <= i < l0 + l1 + l2 + l3 + 3 ==> if separator_index(l0, l1, l2, l3, i) {
            #[trigger] s[i] == DOT
        } else {
            is_digit(s[i])
        }
    &&& octet(s, l0, l1, l2, l3, 0) <= 255
    &&& octet(s, l0, l1, l2, l3, 1) <= 255
    &&& octet(s, l0, l1, l2, l3, 2) <= 255
    &&& octet(s, l0, l1, l2, l3, 3) <= 255
}

/// The address that a dotted quad spells.
pub open spec fn quad_value(s: Seq<u8>, l0: int, l1: int, l2: int, l3: int) -> int {
    quad(
        octet(s, l0, l1, l2, l3, 0),
        octet(s, l0, l1, l2, l3, 1),
        octet(s, l0, l1, l2, l3, 2),
        octet(s, l0, l1, l2, l3, 3),
    )
}

/// Whether `i` is where a group of the given lengths ends.
spec fn at_separator(l0: u32, l1: u32, l2: u32, l3: u32, i: u32) -> bool {
    i == l0 || i == l0 + l1 + 1 || i == l0 + l1 + l2 + 2 || i == l0 + l1 + l2 + l3 + 3
}

/// The mask made of sixteen bits, bit `i` from `bi`.
spec fn or_bits(
    b0: u32, b1: u32, b2: u32, b3: u32, b4: u32, b5: u32, b6: u32, b7: u32, b8: u32, b9: u32,
    b10: u32, b11: u32, b12: u32, b13: u32, b14: u32, b15: u32,
) -> u32 {
    0u32 | (b0 << 0u32) | (b1 << 1u32) | (b2 << 2u32) | (b3 << 3u32) | (b4 << 4u32)
        | (b5 << 5u32) | (b6 << 6u32) | (b7 << 7u32) | (b8 << 8u32) | (b9 << 9u32)
        | (b10 << 10u32) | (b11 << 11u32) | (b12 << 12u32) | (b13 << 13u32) | (b14 << 14u32)
        | (b15 << 15u32)
}

/// A mask whose bits below the end of the address are set exactly where a
/// group ends is the layout of the group lengths.
proof fn lemma_separator_bits(
    l0: u32,
    l1: u32,
    l2: u32,
    l3: u32,
    b0: u32, b1: u32, b2: u32, b3: u32, b4: u32, b5: u32, b6: u32, b7: u32, b8: u32, b9: u32,
    b10: u32, b11: u32, b12: u32, b13: u32, b14: u32, b15: u32,
)
    by (bit_vector)
    requires
        1 <= l0 <= 3,
        1 <= l1 <= 3,
        1 <= l2 <= 3,
        1 <= l3 <= 3,
        b0 <= 1,
        0 < l0 + l1 + l2 + l3 + 4 ==> ((b0 == 1) <==> at_separator(l0, l1, l2, l3, 0)),
        b1 <= 1,
        1 < l0 + l1 + l2 + l3 + 4 ==> ((b1 == 1) <==> at_separator(l0, l1, l2, l3, 1)),
        b2 <= 1,
        2 < l0 + l1 + l2 + l3 + 4 ==> ((b2 == 1) <==> at_separator(l0, l1, l2, l3, 2)),
        b3 <= 1,
        3 < l0 + l1 + l2 + l3 + 4 ==> ((b3 == 1) <==> at_separator(l0, l1, l2, l3, 3)),
        b4 <= 1,
        4 < l0 + l1 + l2 + l3 + 4 ==> ((b4 == 1) <==> at_separator(l0, l1, l2, l3, 4)),
        b5 <= 1,
        5 < l0 + l1 + l2 + l3 + 4 ==> ((b5 == 1) <==> at_separator(l0, l1, l2, l3, 5)),
        b6 <= 1,
        6 < l0 + l1 + l2 + l3 + 4 ==> ((b6 == 1) <==> at_separator(l0, l1, l2, l3, 6)),
        b7 <= 1,
        7 < l0 + l1 + l2 + l3 + 4 ==> ((b7 == 1) <==> at_separator(l0, l1, l2, l3, 7)),
        b8 <= 1,
        8 < l0 + l1 + l2 + l3 + 4 ==> ((b8 == 1) <==> at_separator(l0, l1, l2, l3, 8)),
        b9 <= 1,
        9 < l0 + l1 + l2 + l3 + 4 ==> ((b9 == 1) <==> at_separator(l0, l1, l2, l3, 9)),
        b10 <= 1,
        10 < l0 + l1 + l2 + l3 + 4 ==> ((b10 == 1) <==> at_separator(l0, l1, l2, l3, 10)),
        b11 <= 1,
        11 < l0 + l1 + l2 + l3 + 4 ==> ((b11 == 1) <==> at_separator(l0, l1, l2, l3, 11)),
        b12 <= 1,
        12 < l0 + l1 + l2 + l3 + 4 ==> ((b12 == 1) <==> at_separator(l0, l1, l2, l3, 12)),
        b13 <= 1,
        13 < l0 + l1 + l2 + l3 + 4 ==> ((b13 == 1) <==> at_separator(l0, l1, l2, l3, 13)),
        b14 <= 1,
        14 < l0 + l1 + l2 + l3 + 4 ==> ((b14 == 1) <==> at_separator(l0, l1, l2, l3, 14)),
        b15 <= 1,
        15 < l0 + l1 + l2 + l3 + 4 ==> ((b15 == 1) <==> at_separator(l0, l1, l2, l3, 15)),
    ensures
        is_layout(
            or_bits(
                b0, b1, b2, b3, b4, b5, b6, b7, b8, b9, b10, b11, b12, b13, b14, b15,
            ),
        ),
        len0(
            or_bits(
                b0, b1, b2, b3, b4, b5, b6, b7, b8, b9, b10, b11, b12, b13, b14, b15,
            ),
        ) == l0,
        len1(
            or_bits(
                b0, b1, b2, b3, b4, b5, b6, b7, b8, b9, b10, b11, b12, b13, b14, b15,
            ),
        ) == l1,
        len2(
            or_bits(
                b0, b1, b2, b3, b4, b5, b6, b7, b8, b9, b10, b11, b12, b13, b14, b15,
            ),
        ) == l2,
        len3(
            or_bits(
                b0, b1, b2, b3, b4, b5, b6, b7, b8, b9, b10, b11, b12, b13, b14, b15,
            ),
        ) == l3,
{
}

/// The separator mask of a window that begins with a dotted quad is the
/// layout of its group lengths, and the table holds their shuffle for it.
pub proof fn lemma_window_mask(window: Seq<u8>, l0: int, l1: int, l2: int, l3: int)
    requires
        window.len() == 16,
        dotted_quad(window, l0, l1, l2, l3),
        ends_group(window[l0 + l1 + l2 + l3 + 3]),
    ensures
        is_layout(sign_bits(sub_each(window, ZERO))),
        len0(sign_bits(sub_each(window, ZERO))) == l0,
        len1(sign_bits(sub_each(window, ZERO))) == l1,
        len2(sign_bits(sub_each(window, ZERO))) == l2,
        len3(sign_bits(sub_each(window, ZERO))) == l3,
        table_entry(sign_bits(sub_each(window, ZERO))) == shuffle_for(l0, l1, l2, l3),
{
    let d = sub_each(window, ZERO);
    assert forall|i: int| 0 <= i < l0 + l1 + l2 + l3 + 4 implies (sign_bit(#[trigger] d[i]) == 1
        <==> separator_index(l0, l1, l2, l3, i)) by {
        if i < l0 + l1 + l2 + l3 + 3 {
            assert(if separator_index(l0, l1, l2, l3, i) {
                window[i] == DOT
            } else {
                is_digit(window[i])
            });
        }
    }
    assert(sign_bits(d) == or_bits(
        sign_bit(d[0]), sign_bit(d[1]), sign_bit(d[2]), sign_bit(d[3]), sign_bit(d[4]),
        sign_bit(d[5]), sign_bit(d[6]), sign_bit(d[7]), sign_bit(d[8]), sign_bit(d[9]),
        sign_bit(d[10]), sign_bit(d[11]), sign_bit(d[12]), sign_bit(d[13]), sign_bit(d[14]),
        sign_bit(d[15]),
    )) by {
        reveal_with_fuel(sign_bits_upto, 17);
    }
    lemma_separator_bits(
        l0 as u32,
        l1 as u32,
        l2 as u32,
        l3 as u32,
        sign_bit(d[0]), sign_bit(d[1]), sign_bit(d[2]), sign_bit(d[3]), sign_bit(d[4]),
        sign_bit(d[5]), sign_bit(d[6]), sign_bit(d[7]), sign_bit(d[8]), sign_bit(d[9]),
        sign_bit(d[10]), sign_bit(d[11]), sign_bit(d[12]), sign_bit(d[13]), sign_bit(d[14]),
        sign_bit(d[15]),
    );
}

/// The digits of group `g` of a dotted quad are digits, and its number is
/// their decimal value.
proof fn lemma_group_digits(s: Seq<u8>, l0: int, l1: int, l2: int, l3: int, g: int)
    requires
        dotted_quad(s, l0, l1, l2, l3),
        0 <= g < 4,
    ensures
        forall|o: int|
            0 <= o < length_of(l0, l1, l2, l3, g) ==> is_digit(
                #[trigger] s[start_of(l0, l1, l2, l3, g) + o],
            ),
        0 <= start_of(l0, l1, l2, l3, g),
        start_of(l0, l1, l2, l3, g) + length_of(l0, l1, l2, l3, g) <= l0 + l1 + l2 + l3 + 3,
        s[start_of(l0, l1, l2, l3, g) + length_of(l0, l1, l2, l3, g)] == if g < 3 {
            DOT
        } else {
            s[l0 + l1 + l2 + l3 + 3]
        },
{
    let start = start_of(l0, l1, l2, l3, g);
    let len = length_of(l0, l1, l2, l3, g);
    assert forall|o: int| 0 <= o < len implies is_digit(#[trigger] s[start + o]) by {
        assert(!separator_index(l0, l1, l2, l3, start + o));
    }
    if g < 3 {
        assert(separator_index(l0, l1, l2, l3, start + len));
        assert(s[start + len] == DOT);
    }
}

/// The number that up to three digits spell, by its places.
proof fn lemma_decimal_places(s: Seq<u8>, at: int, len: int)
    requires
        1 <= len <= 3,
    ensures
        len == 1 ==> decimal(s, at, len) == s[at] - 0x30,
        len == 2 ==> decimal(s, at, len) == (s[at] - 0x30) * 10 + (s[at + 1] - 0x30),
        len == 3 ==> decimal(s, at, len) == (s[at] - 0x30) * 100 + (s[at + 1] - 0x30) * 10 + (s[at
            + 2] - 0x30),
{
    reveal_with_fuel(decimal, 4);
}

/// What the shuffle of the given group lengths puts in lane `4 * lane + o`:
/// the digit `o` places from the end of group `3 - lane`, or zero.
proof fn lemma_shuffled_lane(
    d: Seq<u8>,
    l0: int,
    l1: int,
    l2: int,
    l3: int,
    lane: int,
    o: int,
)
    requires
        d.len() == 16,
        1 <= l0 <= 3,
        1 <= l1 <= 3,
        1 <= l2 <= 3,
        1 <= l3 <= 3,
        0 <= lane < 4,
        0 <= o < 4,
    ensures
        shuffled(d, shuffle_for(l0, l1, l2, l3))[4 * lane + o] == if o < length_of(
            l0,
            l1,
            l2,
            l3,
            3 - lane,
        ) {
            d[start_of(l0, l1, l2, l3, 3 - lane) + length_of(l0, l1, l2, l3, 3 - lane) - 1 - o]
        } else {
            0u8
        },
{
    let k = 4 * lane + o;
    assert(k / 4 == lane && k % 4 == o);
    let len = length_of(l0, l1, l2, l3, 3 - lane);
    let start = start_of(l0, l1, l2, l3, 3 - lane);
    assert(shuffle_for(l0, l1, l2, l3)[k] == shuffle_lane(l0, l1, l2, l3, k));
    if o < len {
        let at = start + len - 1 - o;
        assert(0 <= at < 16);
        assert(shuffle_lane(l0, l1, l2, l3, k) == at as i8);
        assert((at as i8) as int % 16 == at);
    }
}

/// The weighted sum of four lanes that hold the digits of a number, last
/// digit first.
proof fn lemma_weighted_sum(groups: Seq<u8>, lane: int)
    requires
        groups.len() == 16,
        0 <= lane < 4,
        groups[4 * lane] <= 9,
        groups[4 * lane + 1] <= 9,
        groups[4 * lane + 2] <= 9,
    ensures
        adjacent_sums(pair_products(ip_weights(), groups))[lane] == groups[4 * lane] + 10 * groups[4
            * lane + 1] + 100 * groups[4 * lane + 2],
{
    let prod = pair_products(ip_weights(), groups);
    let w = ip_weights();
    assert(w[4 * lane] == 1 && w[4 * lane + 1] == 10 && w[4 * lane + 2] == 100 && w[4 * lane + 3]
        == 0) by {
        if lane == 0 {
        } else if lane == 1 {
        } else if lane == 2 {
        } else {
        }
    }
    let a: int = groups[4 * lane] as int;
    let b: int = groups[4 * lane + 1] as int;
    let c: int = groups[4 * lane + 2] as int;
    let e: int = signed8(groups[4 * lane + 3]);
    assert(2 * (2 * lane) == 4 * lane && 2 * (2 * lane) + 1 == 4 * lane + 1 && 2 * (2 * lane + 1)
        == 4 * lane + 2 && 2 * (2 * lane + 1) + 1 == 4 * lane + 3);
    lemma_pair_product(w, groups, 2 * lane, 1, 10, a, b);
    lemma_pair_product(w, groups, 2 * lane + 1, 100, 0, c, e);
    assert(lane % 4 == lane);
}

/// The digit lanes of a dotted quad, shuffled by the shuffle of its group
/// lengths, weighted and summed: word lane `lane` holds the number of group
/// `3 - lane`.
proof fn lemma_lane_sum(window: Seq<u8>, l0: int, l1: int, l2: int, l3: int, lane: int)
    requires
        window.len() == 16,
        dotted_quad(window, l0, l1, l2, l3),
        0 <= lane < 4,
    ensures
        adjacent_sums(
            pair_products(
                ip_weights(),
                shuffled(sub_each(window, ZERO), shuffle_for(l0, l1, l2, l3)),
            ),
        )[lane] == octet(window, l0, l1, l2, l3, 3 - lane),
        0 <= octet(window, l0, l1, l2, l3, 3 - lane) <= 255,
{
    let d = sub_each(window, ZERO);
    let groups = shuffled(d, shuffle_for(l0, l1, l2, l3));
    let g = 3 - lane;
    let len = length_of(l0, l1, l2, l3, g);
    let start = start_of(l0, l1, l2, l3, g);
    lemma_group_digits(window, l0, l1, l2, l3, g);
    lemma_decimal_places(window, start, len);
    lemma_shuffled_lane(d, l0, l1, l2, l3, lane, 0);
    lemma_shuffled_lane(d, l0, l1, l2, l3, lane, 1);
    lemma_shuffled_lane(d, l0, l1, l2, l3, lane, 2);
    assert(is_digit(window[start + 0]));
    assert(d[start] == window[start] - 0x30);
    if len >= 2 {
        assert(is_digit(window[start + 1]));
        assert(d[start + 1] == window[start + 1] - 0x30);
    }
    if len >= 3 {
        assert(is_digit(window[start + 2]));
        assert(d[start + 2] == window[start + 2] - 0x30);
    }
    lemma_weighted_sum(groups, lane);
}

/// Round trip of the shuffle table: for a window that begins with a dotted
/// quad, the table's entry for the window's separator mask, applied to the
/// window's digits, gives back the four numbers of the quad.
pub proof fn lemma_shuffle_round_trip(window: Seq<u8>, l0: int, l1: int, l2: int, l3: int)
    requires
        window.len() == 16,
        dotted_quad(window, l0, l1, l2, l3),
        ends_group(window[l0 + l1 + l2 + l3 + 3]),
    ensures
        table_entry(sign_bits(sub_each(window, ZERO))) == shuffle_for(l0, l1, l2, l3),
        lane_address(window) == quad_value(window, l0, l1, l2, l3),
{
    lemma_window_mask(window, l0, l1, l2, l3);
    lemma_lane_sum(window, l0, l1, l2, l3, 0);
    lemma_lane_sum(window, l0, l1, l2, l3, 1);
    lemma_lane_sum(window, l0, l1, l2, l3, 2);
    lemma_lane_sum(window, l0, l1, l2, l3, 3);
    let sums = adjacent_sums(
        pair_products(
            ip_weights(),
            shuffled(sub_each(window, ZERO), shuffle_for(l0, l1, l2, l3)),
        ),
    );
    lemma_packed_sums(sums);
}

/// The low bytes of the first four word lanes, gathered into one number.
proof fn lemma_packed_sums(sums: Seq<i16>)
    requires
        sums.len() == 8,
        0 <= sums[0] <= 255,
        0 <= sums[1] <= 255,
        0 <= sums[2] <= 255,
        0 <= sums[3] <= 255,
    ensures
        dword_at(shuffled(word_bytes(sums), low_bytes()), 0) == quad(
            sums[3] as int,
            sums[2] as int,
            sums[1] as int,
            sums[0] as int,
        ),
{
    let bytes = word_bytes(sums);
    let packed = shuffled(bytes, low_bytes());
    assert(low_bytes()[0] == 0 && low_bytes()[1] == 2 && low_bytes()[2] == 4 && low_bytes()[3]
        == 6);
    assert(packed[0] == bytes[0] && packed[1] == bytes[2] && packed[2] == bytes[4] && packed[3]
        == bytes[6]);
    assert(bytes[0] == sums[0] && bytes[2] == sums[1] && bytes[4] == sums[2] && bytes[6]
        == sums[3]);
}

/// One word lane of the products of byte pairs, from the four lanes that
/// make it.
proof fn lemma_pair_product(a: Seq<u8>, b: Seq<u8>, j: int, w0: int, w1: int, x0: int, x1: int)
    requires
        0 <= j < 8,
        a[2 * j] == w0,
        a[2 * j + 1] == w1,
        signed8(b[2 * j]) == x0,
        signed8(b[2 * j + 1]) == x1,
    ensures
        pair_products(a, b)[j] == saturate16(w0 * x0 + w1 * x1),
{
}

/// One dword lane of the products of word pairs, from the four lanes that
/// make it.
proof fn lemma_word_product(p: Seq<i16>, q: Seq<i16>, j: int, x0: int, x1: int, y0: int, y1: int)
    requires
        0 <= j < 4,
        p[2 * j] == x0,
        p[2 * j + 1] == x1,
        q[2 * j] == y0,
        q[2 * j + 1] == y1,
    ensures
        word_products(p, q)[j] == wrap32(x0 * y0 + x1 * y1),
{
}

/// The clock path on a field of the form `HH:MM:SS` gives its seconds since
/// midnight. Only the six digits are looked at.
pub proof fn lemma_lane_clock(field: Seq<u8>)
    requires
        field.len() == 16,
        is_digit(field[0]),
        is_digit(field[1]),
        is_digit(field[3]),
        is_digit(field[4]),
        is_digit(field[6]),
        is_digit(field[7]),
    ensures
        lane_clock(field) == clock_seconds(
            decimal(field, 0, 2),
            decimal(field, 3, 2),
            decimal(field, 6, 2),
        ),
{
    lemma_decimal_places(field, 0, 2);
    lemma_decimal_places(field, 3, 2);
    lemma_decimal_places(field, 6, 2);
    let digits = sub_each(field, ZERO);
    let picks = shuffled(digits, clock_picks());
    let pairs = pair_products(clock_tens(), picks);
    let parts = word_products(pairs, clock_units());
    let c = clock_picks();
    assert(c[4] == -1 && c[5] == -1 && c[6] == 0 && c[7] == 1 && c[12] == 3 && c[13] == 4 && c[14]
        == 6 && c[15] == 7);
    let t = clock_tens();
    assert(t[4] == 0 && t[5] == 0 && t[6] == 10 && t[7] == 1 && t[12] == 10 && t[13] == 1 && t[14]
        == 10 && t[15] == 1);
    let u = clock_units();
    assert(u[2] == 0 && u[3] == 3600 && u[6] == 60 && u[7] == 1);
    assert(digits[0] == field[0] - 0x30 && digits[1] == field[1] - 0x30);
    assert(digits[3] == field[3] - 0x30 && digits[4] == field[4] - 0x30);
    assert(digits[6] == field[6] - 0x30 && digits[7] == field[7] - 0x30);
    assert(picks[6] == digits[0] && picks[7] == digits[1]);
    assert(picks[4] == 0 && picks[5] == 0);
    assert(picks[12] == digits[3] && picks[13] == digits[4]);
    assert(picks[14] == digits[6] && picks[15] == digits[7]);
    let h0 = digits[0] as int;
    let h1 = digits[1] as int;
    let m0 = digits[3] as int;
    let m1 = digits[4] as int;
    let s0 = digits[6] as int;
    let s1 = digits[7] as int;
    lemma_pair_product(t, picks, 2, 0, 0, 0, 0);
    lemma_pair_product(t, picks, 3, 10, 1, h0, h1);
    lemma_pair_product(t, picks, 6, 10, 1, m0, m1);
    lemma_pair_product(t, picks, 7, 10, 1, s0, s1);
    lemma_word_product(pairs, u, 1, 0, 10 * h0 + h1, 0, 3600);
    lemma_word_product(pairs, u, 3, 10 * m0 + m1, 10 * s0 + s1, 60, 1);
}

/// An index that holds `byte`, with none before it, is what `index_of` gives.
pub proof fn lemma_index_of_is(line: Seq<u8>, byte: u8, from: int, at: int)
    requires
        0 <= from <= at <= line.len(),
        at < line.len() ==> line[at] == byte,
        forall|i: int| from <= i < at ==> line[i] != byte,
    ensures
        index_of(line, byte, from) == at,
    decreases at - from,
{
    if from < at {
        lemma_index_of_is(line, byte, from + 1, at);
    }
}

/// The number that up to three digits spell is below the next power of ten.
proof fn lemma_decimal_bound(s: Seq<u8>, at: int, len: int)
    requires
        0 <= len <= 3,
        forall|j: int| 0 <= j < len ==> is_digit(#[trigger] s[at + j]),
    ensures
        0 <= decimal(s, at, len) <= 999,
        len <= 2 ==> decimal(s, at, len) <= 99,
{
    reveal_with_fuel(decimal, 4);
    if len >= 1 {
        assert(is_digit(s[at + 0]));
    }
    if len >= 2 {
        assert(is_digit(s[at + 1]));
    }
    if len >= 3 {
        assert(is_digit(s[at + 2]));
    }
}

/// The scanner over the digits of one group: it arrives behind them with the
/// group's number.
proof fn lemma_scan_run(
    line: Seq<u8>,
    from: int,
    to: int,
    sep: u8,
    base: u32,
    total: u32,
    k: int,
    len: int,
)
    requires
        0 <= from,
        0 <= k <= len <= 3,
        from + len <= to <= line.len(),
        !is_digit(sep),
        forall|j: int| 0 <= j < len ==> is_digit(#[trigger] line[from + j]),
    ensures
        scan_groups(line, from + k, to, sep, base, total, decimal(line, from, k) as u32)
            == scan_groups(line, from + len, to, sep, base, total, decimal(line, from, len) as u32),
    decreases len - k,
{
    if k < len {
        lemma_decimal_bound(line, from, k);
        lemma_decimal_bound(line, from, k + 1);
        assert(is_digit(line[from + k]));
        let group = decimal(line, from, k) as u32;
        let byte = line[from + k];
        assert(decimal(line, from, k + 1) == decimal(line, from, k) * 10 + (byte - 0x30));
        assert(group.wrapping_mul(10) == group * 10) by {
            assert(group as nat * 10 < 0x1_0000_0000);
        }
        assert(push_digit(group, byte) == decimal(line, from, k + 1) as u32);
        lemma_scan_run(line, from, to, sep, base, total, k + 1, len);
    }
}

/// The scanner at the end of a group: the group's number becomes the lowest
/// place of the total.
proof fn lemma_close_group(total: u32, group: u32, base: u32)
    requires
        total < 0x100_0000,
        base <= 256,
        group <= 255,
    ensures
        close_group(total, group, base) == total * base + group,
{
    let product = total as nat * base as nat;
    assert(product == total * base && product <= 0xff_ffff * 256) by (nonlinear_arith)
        requires
            product == total as nat * base as nat,
            total < 0x100_0000,
            base <= 256,
    ;
    assert(product % 0x1_0000_0000 == product);
}

/// The scanner over one group of a dotted quad: it leaves the group's number
/// as the lowest place of the total.
proof fn lemma_scan_group(line: Seq<u8>, from: int, to: int, total: u32, len: int)
    requires
        0 <= from,
        1 <= len <= 3,
        from + len <= to <= line.len(),
        forall|j: int| 0 <= j < len ==> is_digit(#[trigger] line[from + j]),
        from + len < to ==> line[from + len] == DOT,
        total < 0x100_0000,
        decimal(line, from, len) <= 255,
    ensures
        from + len < to ==> scan_groups(line, from, to, DOT, 256, total, 0) == scan_groups(
            line,
            from + len + 1,
            to,
            DOT,
            256,
            (total * 256 + decimal(line, from, len)) as u32,
            0,
        ),
        from + len == to ==> scan_groups(line, from, to, DOT, 256, total, 0) == total * 256
            + decimal(line, from, len),
{
    lemma_scan_run(line, from, to, DOT, 256, total, 0, len);
    lemma_decimal_bound(line, from, len);
    lemma_close_group(total, decimal(line, from, len) as u32, 256);
}

/// The scanner reads a dotted quad that a space follows as its address.
pub proof fn lemma_scanned_address(line: Seq<u8>, l0: int, l1: int, l2: int, l3: int)
    requires
        dotted_quad(line, l0, l1, l2, l3),
        line.len() > l0 + l1 + l2 + l3 + 3,
        line[l0 + l1 + l2 + l3 + 3] == SPACE,
    ensures
        address_end(line) == l0 + l1 + l2 + l3 + 3,
        scanned_address(line) == quad_value(line, l0, l1, l2, l3),
{
    let end = l0 + l1 + l2 + l3 + 3;
    assert forall|i: int| 0 <= i < end implies line[i] != SPACE by {
        assert(if separator_index(l0, l1, l2, l3, i) {
            line[i] == DOT
        } else {
            is_digit(line[i])
        });
    }
    lemma_index_of_is(line, SPACE, 0, end);
    lemma_group_digits(line, l0, l1, l2, l3, 0);
    lemma_group_digits(line, l0, l1, l2, l3, 1);
    lemma_group_digits(line, l0, l1, l2, l3, 2);
    lemma_group_digits(line, l0, l1, l2, l3, 3);
    lemma_decimal_places(line, 0, l0);
    lemma_decimal_places(line, l0 + 1, l1);
    lemma_decimal_places(line, l0 + l1 + 2, l2);
    lemma_decimal_places(line, l0 + l1 + l2 + 3, l3);
    let o0 = octet(line, l0, l1, l2, l3, 0);
    let o1 = octet(line, l0, l1, l2, l3, 1);
    let o2 = octet(line, l0, l1, l2, l3, 2);
    let o3 = octet(line, l0, l1, l2, l3, 3);
    assert(0 <= o0 && 0 <= o1 && 0 <= o2 && 0 <= o3);
    lemma_scan_group(line, 0, end, 0, l0);
    lemma_scan_group(line, l0 + 1, end, o0 as u32, l1);
    lemma_scan_group(line, l0 + l1 + 2, end, (o0 * 256 + o1) as u32, l2);
    lemma_scan_group(line, l0 + l1 + l2 + 3, end, ((o0 * 256 + o1) * 256 + o2) as u32, l3);
}

/// Whether the nine bytes of `line` from `colon` on are a colon and a clock
/// time of the form `HH:MM:SS`.
pub open spec fn clock_field(line: Seq<u8>, colon: int) -> bool {
    &&& 0 <= colon
    &&& colon + 9 <= line.len()
    &&& line[colon] == COLON
    &&& is_digit(line[colon + 1])
    &&& is_digit(line[colon + 2])
    &&& line[colon + 3] == COLON
    &&& is_digit(line[colon + 4])
    &&& is_digit(line[colon + 5])
    &&& line[colon + 6] == COLON
    &&& is_digit(line[colon + 7])
    &&& is_digit(line[colon + 8])
}

/// The seconds since midnight of the clock field behind `colon`.
pub open spec fn clock_value(line: Seq<u8>, colon: int) -> int {
    clock_seconds(
        decimal(line, colon + 1, 2),
        decimal(line, colon + 4, 2),
        decimal(line, colon + 7, 2),
    )
}

/// The scanner over two digits and what ends them: their number becomes the
/// lowest place of the total, in base 60.
proof fn lemma_scan_pair(line: Seq<u8>, from: int, to: int, total: u32)
    requires
        0 <= from,
        from + 2 <= to <= line.len(),
        is_digit(line[from]),
        is_digit(line[from + 1]),
        from + 2 < to ==> line[from + 2] == COLON,
        total < 0x1_0000,
    ensures
        from + 2 < to ==> scan_groups(line, from, to, COLON, 60, total, 0) == scan_groups(
            line,
            from + 3,
            to,
            COLON,
            60,
            (total * 60 + decimal(line, from, 2)) as u32,
            0,
        ),
        from + 2 == to ==> scan_groups(line, from, to, COLON, 60, total, 0) == total * 60
            + decimal(line, from, 2),
{
    assert forall|j: int| 0 <= j < 2 implies is_digit(#[trigger] line[from + j]) by {
        if j == 0 {
            assert(line[from + 0] == line[from]);
        }
    }
    lemma_scan_run(line, from, to, COLON, 60, total, 0, 2);
    lemma_decimal_bound(line, from, 2);
    lemma_close_group(total, decimal(line, from, 2) as u32, 60);
}

/// The scanner reads a clock field that ends the line, or that a space
/// follows, as its seconds since midnight.
pub proof fn lemma_scanned_clock_field(line: Seq<u8>, colon: int)
    requires
        clock_field(line, colon),
        colon + 9 < line.len() ==> line[colon + 9] == SPACE,
    ensures
        index_of(line, SPACE, colon) == colon + 9,
        scan_groups(line, colon, colon + 9, COLON, 60, 0, 0) == clock_value(line, colon),
{
    assert forall|i: int| colon <= i < colon + 9 implies line[i] != SPACE by {
        if i == colon {
        } else if i == colon + 1 {
        } else if i == colon + 2 {
        } else if i == colon + 3 {
        } else if i == colon + 4 {
        } else if i == colon + 5 {
        } else if i == colon + 6 {
        } else if i == colon + 7 {
        } else {
        }
    }
    lemma_index_of_is(line, SPACE, colon, colon + 9);
    let to = colon + 9;
    assert(scan_groups(line, colon, to, COLON, 60, 0, 0) == scan_groups(
        line,
        colon + 1,
        to,
        COLON,
        60,
        0,
        0,
    )) by {
        lemma_close_group(0, 0, 60);
    }
    let h = decimal(line, colon + 1, 2);
    let m = decimal(line, colon + 4, 2);
    lemma_decimal_bound_pair(line, colon + 1);
    lemma_decimal_bound_pair(line, colon + 4);
    lemma_scan_pair(line, colon + 1, to, 0);
    lemma_scan_pair(line, colon + 4, to, h as u32);
    lemma_scan_pair(line, colon + 7, to, (h * 60 + m) as u32);
}

/// Two digits spell a number below a hundred.
proof fn lemma_decimal_bound_pair(s: Seq<u8>, at: int)
    requires
        is_digit(s[at]),
        is_digit(s[at + 1]),
    ensures
        0 <= decimal(s, at, 2) <= 99,
{
    lemma_decimal_places(s, at, 2);
}

/// Whether `line` has the fixed format: a dotted quad with groups of the
/// given lengths and a space behind it; the first space that stands at least
/// four bytes behind that one at `second`; the first colon from there on at
/// `colon`, and behind it a clock time that ends the line or is followed by a
/// space. Where the third byte behind the first space is a space itself, no
/// colon stands between it and `second` either.
pub open spec fn fixed_format(
    line: Seq<u8>,
    l0: int,
    l1: int,
    l2: int,
    l3: int,
    second: int,
    colon: int,
) -> bool {
    &&& line.len() >= 16
    &&& dotted_quad(line, l0, l1, l2, l3)
    &&& line[l0 + l1 + l2 + l3 + 3] == SPACE
    &&& l0 + l1 + l2 + l3 + 7 <= second < colon
    &&& line[second] == SPACE
    &&& forall|i: int| l0 + l1 + l2 + l3 + 7 <= i < second ==> line[i] != SPACE
    &&& forall|i: int| second <= i < colon ==> line[i] != COLON
    &&& line[l0 + l1 + l2 + l3 + 6] == SPACE ==> forall|i: int|
        l0 + l1 + l2 + l3 + 6 <= i < second ==> line[i] != COLON
    &&& clock_field(line, colon)
    &&& colon + 9 < line.len() ==> line[colon + 9] == SPACE
}

/// The record that a line of the fixed format spells.
pub open spec fn fixed_record(
    line: Seq<u8>,
    l0: int,
    l1: int,
    l2: int,
    l3: int,
    colon: int,
) -> ParseResult {
    ParseResult {
        ip: quad_value(line, l0, l1, l2, l3) as u32,
        timestamp: clock_value(line, colon) as i64,
    }
}

/// The scanner reads a line of the fixed format as the record it spells.
pub proof fn lemma_scanner_reads_fixed_format(
    line: Seq<u8>,
    l0: int,
    l1: int,
    l2: int,
    l3: int,
    second: int,
    colon: int,
)
    requires
        fixed_format(line, l0, l1, l2, l3, second, colon),
    ensures
        scanned_address(line) == fixed_record(line, l0, l1, l2, l3, colon).ip,
        scanned_clock(line) as i64 == fixed_record(line, l0, l1, l2, l3, colon).timestamp,
{
    let end = l0 + l1 + l2 + l3 + 3;
    lemma_scanned_address(line, l0, l1, l2, l3);
    lemma_index_of_is(line, SPACE, end + 4, second);
    lemma_index_of_is(line, COLON, second, colon);
    lemma_scanned_clock_field(line, colon);
}

/// The address path reads the dotted quad at the start of a line that a
/// space follows.
pub proof fn lemma_fast_address(line: Seq<u8>, l0: int, l1: int, l2: int, l3: int)
    requires
        line.len() >= 16,
        dotted_quad(line, l0, l1, l2, l3),
        ends_group(line[l0 + l1 + l2 + l3 + 3]),
    ensures
        lane_address(loaded(line, 0, 16)) == quad_value(line, l0, l1, l2, l3),
{
    let window = loaded(line, 0, 16);
    lemma_same_quad(line, window, l0, l1, l2, l3);
    lemma_shuffle_round_trip(window, l0, l1, l2, l3);
}

/// The clock path reads the clock field behind `colon`.
pub proof fn lemma_fast_clock(line: Seq<u8>, colon: int)
    requires
        clock_field(line, colon),
    ensures
        lane_clock(loaded(line, colon + 1, 8)) == clock_value(line, colon),
{
    let field = loaded(line, colon + 1, 8);
    assert(field[0] == line[colon + 1 + 0] && field[1] == line[colon + 1 + 1]);
    assert(field[3] == line[colon + 1 + 3] && field[4] == line[colon + 1 + 4]);
    assert(field[6] == line[colon + 1 + 6] && field[7] == line[colon + 1 + 7]);
    lemma_lane_clock(field);
    lemma_decimal_places(field, 0, 2);
    lemma_decimal_places(field, 3, 2);
    lemma_decimal_places(field, 6, 2);
    lemma_decimal_places(line, colon + 1, 2);
    lemma_decimal_places(line, colon + 4, 2);
    lemma_decimal_places(line, colon + 7, 2);
}

/// The fast parser reads a line of the fixed format as the record it spells.
pub proof fn lemma_fast_parser_reads_fixed_format(
    line: Seq<u8>,
    l0: int,
    l1: int,
    l2: int,
    l3: int,
    second: int,
    colon: int,
)
    requires
        fixed_format(line, l0, l1, l2, l3, second, colon),
    ensures
        fast_parsed(line) == Ok::<ParseResult, ParseError>(
            fixed_record(line, l0, l1, l2, l3, colon),
        ),
{
    let end = l0 + l1 + l2 + l3 + 3;
    assert forall|i: int| 7 <= i < end implies line[i] != SPACE by {
        assert(if separator_index(l0, l1, l2, l3, i) {
            line[i] == DOT
        } else {
            is_digit(line[i])
        });
    }
    lemma_index_of_is(line, SPACE, 7, end);
    if line[end + 3] == SPACE {
        lemma_index_of_is(line, SPACE, end + 3, end + 3);
        lemma_index_of_is(line, COLON, end + 3, colon);
    } else {
        lemma_index_of_is(line, SPACE, end + 3, second);
        lemma_index_of_is(line, COLON, second, colon);
    }
    lemma_fast_address(line, l0, l1, l2, l3);
    lemma_fast_clock(line, colon);
}

/// A dotted quad is one in every text that begins with the same bytes.
pub proof fn lemma_same_quad(s: Seq<u8>, t: Seq<u8>, l0: int, l1: int, l2: int, l3: int)
    requires
        dotted_quad(s, l0, l1, l2, l3),
        t.len() >= l0 + l1 + l2 + l3 + 3,
        forall|i: int| 0 <= i < l0 + l1 + l2 + l3 + 3 ==> s[i] == t[i],
    ensures
        dotted_quad(t, l0, l1, l2, l3),
        quad_value(t, l0, l1, l2, l3) == quad_value(s, l0, l1, l2, l3),
{
    lemma_decimal_places(s, 0, l0);
    lemma_decimal_places(s, l0 + 1, l1);
    lemma_decimal_places(s, l0 + l1 + 2, l2);
    lemma_decimal_places(s, l0 + l1 + l2 + 3, l3);
    lemma_decimal_places(t, 0, l0);
    lemma_decimal_places(t, l0 + 1, l1);
    lemma_decimal_places(t, l0 + l1 + 2, l2);
    lemma_decimal_places(t, l0 + l1 + l2 + 3, l3);
    assert forall|i: int| 0 <= i < l0 + l1 + l2 + l3 + 3 implies if separator_index(
        l0,
        l1,
        l2,
        l3,
        i,
    ) {
        #[trigger] t[i] == DOT
    } else {
        is_digit(t[i])
    } by {
        assert(if separator_index(l0, l1, l2, l3, i) {
            s[i] == DOT
        } else {
            is_digit(s[i])
        });
    }
}

} // verus!
