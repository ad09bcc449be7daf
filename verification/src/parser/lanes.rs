//! Sixteen-byte vectors and the lane-wise operations of the fast parser,
//! written lane by lane so that they run on every target.

use vstd::prelude::*;

verus! {

/// Sixteen byte lanes.
pub type Bytes = [u8; 16];

/// Sixteen signed byte lanes, as a shuffle takes them for its indices.
pub type Indices = [i8; 16];

/// Eight 16-bit lanes.
pub type Words = [i16; 8];

/// Four 32-bit lanes.
pub type Dwords = [i32; 4];

/// A byte lane read as a signed number.
pub open spec fn signed8(b: u8) -> int {
    if b >= 128 {
        b - 256
    } else {
        b as int
    }
}

/// `x` held to the range of `i16`.
pub open spec fn saturate16(x: int) -> i16 {
    if x > i16::MAX {
        i16::MAX
    } else if x < i16::MIN {
        i16::MIN
    } else {
        x as i16
    }
}

/// `x` wrapped into the range of `i16`, for `x` within one range of it.
pub open spec fn wrap16(x: int) -> i16 {
    if x > i16::MAX {
        (x - 0x1_0000) as i16
    } else if x < i16::MIN {
        (x + 0x1_0000) as i16
    } else {
        x as i16
    }
}

/// `x` wrapped into the range of `i32`, for `x` within one range of it.
pub open spec fn wrap32(x: int) -> i32 {
    if x > i32::MAX {
        (x - 0x1_0000_0000) as i32
    } else if x < i32::MIN {
        (x + 0x1_0000_0000) as i32
    } else {
        x as i32
    }
}

/// The bits of a 32-bit lane read as an unsigned number.
pub open spec fn unsigned32(x: i32) -> u32 {
    if x < 0 {
        (x + 0x1_0000_0000) as u32
    } else {
        x as u32
    }
}

/// Every lane of `v` less `c`, wrapping.
pub open spec fn sub_each(v: Seq<u8>, c: u8) -> Seq<u8> {
    Seq::new(16, |i: int| v[i].wrapping_sub(c))
}

/// 1 where the lane's top bit is set.
pub open spec fn sign_bit(b: u8) -> u32 {
    if b >= 128 {
        1
    } else {
        0
    }
}

/// The top bits of the first `n` lanes of `v`, lane `i` at bit `i`.
pub open spec fn sign_bits_upto(v: Seq<u8>, n: nat) -> u32
    decreases n,
{
    if n == 0 {
        0
    } else {
        sign_bits_upto(v, (n - 1) as nat) | (sign_bit(v[n - 1]) << ((n - 1) as u32))
    }
}

/// The top bits of all sixteen lanes.
pub open spec fn sign_bits(v: Seq<u8>) -> u32 {
    sign_bits_upto(v, 16)
}

/// Lane `k` of the result is lane `idx[k] mod 16` of `v`, or zero where
/// `idx[k]` is negative.
pub open spec fn shuffled(v: Seq<u8>, idx: Seq<i8>) -> Seq<u8> {
    Seq::new(
        16,
        |k: int|
            if idx[k] < 0 {
                0u8
            } else {
                v[idx[k] as int % 16]
            },
    )
}

/// Word lane `j` is the saturated sum of the products of byte lanes `2j` and
/// `2j + 1`, those of `a` read unsigned and those of `b` signed.
pub open spec fn pair_products(a: Seq<u8>, b: Seq<u8>) -> Seq<i16> {
    Seq::new(
        8,
        |j: int|
            saturate16(a[2 * j] * signed8(b[2 * j]) + a[2 * j + 1] * signed8(b[2 * j + 1])),
    )
}

/// Word lanes 0 to 3 are the wrapped sums of neighbouring lanes of `p`, and
/// lanes 4 to 7 repeat them.
pub open spec fn adjacent_sums(p: Seq<i16>) -> Seq<i16> {
    Seq::new(8, |j: int| wrap16(p[2 * (j % 4)] + p[2 * (j % 4) + 1]))
}

/// The byte lanes that hold the word lanes of `p`, low byte first.
pub open spec fn word_bytes(p: Seq<i16>) -> Seq<u8> {
    Seq::new(
        16,
        |k: int|
            if k % 2 == 0 {
                (p[k / 2] % 256) as u8
            } else {
                ((p[k / 2] / 256) % 256) as u8
            },
    )
}

/// Dword lane `j` is the wrapped sum of the products of word lanes `2j` and
/// `2j + 1`.
pub open spec fn word_products(p: Seq<i16>, q: Seq<i16>) -> Seq<i32> {
    Seq::new(4, |j: int| wrap32(p[2 * j] * q[2 * j] + p[2 * j + 1] * q[2 * j + 1]))
}

/// The 32-bit lane `lane` of `v`, low byte first.
pub open spec fn dword_at(v: Seq<u8>, lane: int) -> u32 {
    (v[4 * lane] + v[4 * lane + 1] * 0x100 + v[4 * lane + 2] * 0x1_0000 + v[4 * lane + 3]
        * 0x100_0000) as u32
}

/// The first `count` bytes of `line[at..]`, and zero in the lanes above.
pub open spec fn loaded(line: Seq<u8>, at: int, count: int) -> Seq<u8> {
    Seq::new(
        16,
        |i: int|
            if i < count {
                line[at + i]
            } else {
                0u8
            },
    )
}

/// Copies `count` bytes of `line` from `at` on into the low lanes.
pub fn load(line: &[u8], at: usize, count: usize) -> (out: Bytes)
    requires
        count <= 16,
        at + count <= line@.len(),
    ensures
        out@ == loaded(line@, at as int, count as int),
{
    let len: usize = line.len();
    let mut out: Bytes = [0u8; 16];
    let mut i: usize = 0;
    while i < count
        invariant
            i <= count <= 16,
            at + count <= len == line@.len(),
            forall|k: int| 0 <= k < i ==> out@[k] == line@[at + k],
            forall|k: int| i <= k < 16 ==> out@[k] == 0,
        decreases count - i,
    {
        out[i] = line[at + i];
        i += 1;
    }
    assert(out@ =~= loaded(line@, at as int, count as int));
    out
}

/// Subtracts `c` from every lane, wrapping.
pub fn sub_bytes(v: &Bytes, c: u8) -> (out: Bytes)
    ensures
        out@ == sub_each(v@, c),
{
    let mut out: Bytes = [0u8; 16];
    let mut i: usize = 0;
    while i < 16
        invariant
            i <= 16,
            forall|k: int| 0 <= k < i ==> out@[k] == v@[k].wrapping_sub(c),
        decreases 16 - i,
    {
        out[i] = v[i].wrapping_sub(c);
        i += 1;
    }
    assert(out@ =~= sub_each(v@, c));
    out
}

/// Gathers the top bit of every lane, lane `i` at bit `i`.
pub fn sign_mask(v: &Bytes) -> (mask: u32)
    ensures
        mask == sign_bits(v@),
{
    let mut mask: u32 = 0;
    let mut i: u32 = 0;
    while i < 16
        invariant
            i <= 16,
            mask == sign_bits_upto(v@, i as nat),
        decreases 16 - i,
    {
        let bit: u32 = if v[i as usize] >= 128 {
            1
        } else {
            0
        };
        mask = mask | (bit << i);
        i += 1;
    }
    mask
}

/// Picks lanes of `v` by the indices in `idx`; a negative index gives zero.
pub fn shuffle(v: &Bytes, idx: &Indices) -> (out: Bytes)
    ensures
        out@ == shuffled(v@, idx@),
{
    let mut out: Bytes = [0u8; 16];
    let mut k: usize = 0;
    while k < 16
        invariant
            k <= 16,
            forall|i: int| 0 <= i < k ==> out@[i] == shuffled(v@, idx@)[i],
        decreases 16 - k,
    {
        let from: i8 = idx[k];
        if from >= 0 {
            out[k] = v[(from % 16) as usize];
        } else {
            out[k] = 0;
        }
        k += 1;
    }
    assert(out@ =~= shuffled(v@, idx@));
    out
}

/// A byte lane read as a signed number.
fn signed_lane(b: u8) -> (x: i32)
    ensures
        x == signed8(b),
{
    if b >= 128 {
        b as i32 - 256
    } else {
        b as i32
    }
}

/// Multiplies the lanes of `a`, read unsigned, by those of `b`, read signed,
/// and adds neighbouring products with saturation.
pub fn mul_add_pairs(a: &Bytes, b: &Bytes) -> (out: Words)
    ensures
        out@ == pair_products(a@, b@),
{
    let mut out: Words = [0i16; 8];
    let mut j: usize = 0;
    while j < 8
        invariant
            j <= 8,
            forall|i: int| 0 <= i < j ==> out@[i] == pair_products(a@, b@)[i],
        decreases 8 - j,
    {
        let a0: i32 = a[2 * j] as i32;
        let a1: i32 = a[2 * j + 1] as i32;
        let b0: i32 = signed_lane(b[2 * j]);
        let b1: i32 = signed_lane(b[2 * j + 1]);
        assert(-32640 <= a0 * b0 <= 32385) by (nonlinear_arith)
            requires
                0 <= a0 <= 255,
                -128 <= b0 <= 127,
        ;
        assert(-32640 <= a1 * b1 <= 32385) by (nonlinear_arith)
            requires
                0 <= a1 <= 255,
                -128 <= b1 <= 127,
        ;
        let sum: i32 = a0 * b0 + a1 * b1;
        out[j] = if sum > 32767 {
            32767
        } else if sum < -32768 {
            -32768
        } else {
            sum as i16
        };
        j += 1;
    }
    assert(out@ =~= pair_products(a@, b@));
    out
}

/// Adds neighbouring word lanes, wrapping; the upper four lanes repeat the
/// lower four.
pub fn add_adjacent(p: &Words) -> (out: Words)
    ensures
        out@ == adjacent_sums(p@),
{
    let mut out: Words = [0i16; 8];
    let mut j: usize = 0;
    while j < 8
        invariant
            j <= 8,
            forall|i: int| 0 <= i < j ==> out@[i] == adjacent_sums(p@)[i],
        decreases 8 - j,
    {
        let sum: i32 = p[2 * (j % 4)] as i32 + p[2 * (j % 4) + 1] as i32;
        out[j] = if sum > 32767 {
            (sum - 65536) as i16
        } else if sum < -32768 {
            (sum + 65536) as i16
        } else {
            sum as i16
        };
        j += 1;
    }
    assert(out@ =~= adjacent_sums(p@));
    out
}

/// The byte lanes that hold the word lanes of `p`, low byte first.
pub fn words_as_bytes(p: &Words) -> (out: Bytes)
    ensures
        out@ == word_bytes(p@),
{
    let mut out: Bytes = [0u8; 16];
    let mut j: usize = 0;
    while j < 8
        invariant
            j <= 8,
            forall|i: int| 0 <= i < 2 * j ==> out@[i] == word_bytes(p@)[i],
        decreases 8 - j,
    {
        let shifted: u32 = (p[j] as i32 + 65536) as u32;
        out[2 * j] = (shifted % 256) as u8;
        out[2 * j + 1] = ((shifted / 256) % 256) as u8;
        j += 1;
    }
    assert(out@ =~= word_bytes(p@));
    out
}

/// Multiplies word lanes and adds neighbouring products, wrapping.
pub fn mul_add_words(p: &Words, q: &Words) -> (out: Dwords)
    ensures
        out@ == word_products(p@, q@),
{
    let mut out: Dwords = [0i32; 4];
    let mut j: usize = 0;
    while j < 4
        invariant
            j <= 4,
            forall|i: int| 0 <= i < j ==> out@[i] == word_products(p@, q@)[i],
        decreases 4 - j,
    {
        let x0: i64 = p[2 * j] as i64;
        let x1: i64 = p[2 * j + 1] as i64;
        let y0: i64 = q[2 * j] as i64;
        let y1: i64 = q[2 * j + 1] as i64;
        assert(-0x4000_0000 <= x0 * y0 <= 0x4000_0000) by (nonlinear_arith)
            requires
                -32768 <= x0 <= 32767,
                -32768 <= y0 <= 32767,
        ;
        assert(-0x4000_0000 <= x1 * y1 <= 0x4000_0000) by (nonlinear_arith)
            requires
                -32768 <= x1 <= 32767,
                -32768 <= y1 <= 32767,
        ;
        let sum: i64 = x0 * y0 + x1 * y1;
        out[j] = if sum > 0x7fff_ffff {
            (sum - 0x1_0000_0000) as i32
        } else {
            sum as i32
        };
        j += 1;
    }
    assert(out@ =~= word_products(p@, q@));
    out
}

/// The 32-bit lane `lane` of `v`, low byte first.
pub fn extract_dword(v: &Bytes, lane: usize) -> (x: u32)
    requires
        lane < 4,
    ensures
        x == dword_at(v@, lane as int),
{
    v[4 * lane] as u32 + v[4 * lane + 1] as u32 * 0x100 + v[4 * lane + 2] as u32 * 0x1_0000 + v[4
        * lane + 3] as u32 * 0x100_0000
}

/// The bits of a 32-bit lane read as an unsigned number.
pub fn dword_bits(x: i32) -> (bits: u32)
    ensures
        bits == unsigned32(x),
{
    if x < 0 {
        (x as i64 + 0x1_0000_0000) as u32
    } else {
        x as u32
    }
}

} // verus!
