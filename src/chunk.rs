use vstd::prelude::*;

verus! {

/// Five bytes read as one 40-bit big-endian number.
pub open spec fn bytes_value(a: u8, b: u8, c: u8, d: u8, e: u8) -> u64 {
    ((a as u64) << 32u64) | ((b as u64) << 24u64) | ((c as u64) << 16u64) | ((d as u64) << 8u64)
        | (e as u64)
}

/// Eight 5-bit values read as one 40-bit big-endian number.
pub open spec fn groups_value(g0: u8, g1: u8, g2: u8, g3: u8, g4: u8, g5: u8, g6: u8, g7: u8) -> u64 {
    ((g0 as u64) << 35u64) | ((g1 as u64) << 30u64) | ((g2 as u64) << 25u64) | ((g3 as u64)
        << 20u64) | ((g4 as u64) << 15u64) | ((g5 as u64) << 10u64) | ((g6 as u64) << 5u64) | (
    g7 as u64)
}

/// The `k`-th 5-bit group of a 40-bit number, counted from the most significant end.
pub open spec fn group(v: u64, k: u64) -> u8 {
    ((v >> (35 - 5 * k) as u64) & 31) as u8
}

/// The `k`-th byte of a 40-bit number, counted from the most significant end.
pub open spec fn byte(v: u64, k: u64) -> u8 {
    ((v >> (32 - 8 * k) as u64) & 255) as u8
}

/// The 40-bit number held by the first five bytes of `c`.
pub open spec fn chunk_value(c: Seq<u8>) -> u64 {
    bytes_value(c[0], c[1], c[2], c[3], c[4])
}

/// The eight 5-bit groups of the first five bytes of `c`, most significant first.
pub open spec fn chunk_groups(c: Seq<u8>) -> Seq<u8> {
    let v = chunk_value(c);
    seq![
        group(v, 0),
        group(v, 1),
        group(v, 2),
        group(v, 3),
        group(v, 4),
        group(v, 5),
        group(v, 6),
        group(v, 7),
    ]
}

/// The 40-bit number held by the first eight 5-bit values of `g`.
pub open spec fn chunk_groups_value(g: Seq<u8>) -> u64 {
    groups_value(g[0], g[1], g[2], g[3], g[4], g[5], g[6], g[7])
}

/// The five bytes of the 40-bit number that the first eight 5-bit values of `g` make.
pub open spec fn groups_bytes(g: Seq<u8>) -> Seq<u8> {
    let v = chunk_groups_value(g);
    seq![byte(v, 0), byte(v, 1), byte(v, 2), byte(v, 3), byte(v, 4)]
}

/// Reading five bytes as groups and the groups as bytes gives the bytes back.
pub proof fn lemma_groups_of_bytes(a: u8, b: u8, c: u8, d: u8, e: u8)
    by (bit_vector)
    ensures
        ({
            let v = bytes_value(a, b, c, d, e);
            let w = groups_value(
                group(v, 0),
                group(v, 1),
                group(v, 2),
                group(v, 3),
                group(v, 4),
                group(v, 5),
                group(v, 6),
                group(v, 7),
            );
            &&& byte(w, 0) == a
            &&& byte(w, 1) == b
            &&& byte(w, 2) == c
            &&& byte(w, 3) == d
            &&& byte(w, 4) == e
        }),
{
}

/// The shifts and masks that take the eight groups out of five bytes.
pub proof fn lemma_group_bits(a: u8, b: u8, c: u8, d: u8, e: u8)
    by (bit_vector)
    ensures
        ({
            let v = bytes_value(a, b, c, d, e);
            &&& a >> 3u8 == group(v, 0)
            &&& ((a & 7) << 2u8) | (b >> 6u8) == group(v, 1)
            &&& (b >> 1u8) & 31 == group(v, 2)
            &&& ((b & 1) << 4u8) | (c >> 4u8) == group(v, 3)
            &&& ((c & 15) << 1u8) | (d >> 7u8) == group(v, 4)
            &&& (d >> 2u8) & 31 == group(v, 5)
            &&& ((d & 3) << 3u8) | (e >> 5u8) == group(v, 6)
            &&& e & 31 == group(v, 7)
            &&& group(v, 0) < 32 && group(v, 1) < 32 && group(v, 2) < 32 && group(v, 3) < 32
            &&& group(v, 4) < 32 && group(v, 5) < 32 && group(v, 6) < 32 && group(v, 7) < 32
        }),
{
}

/// The shifts and masks that put eight 5-bit values back together as five bytes.
pub proof fn lemma_byte_bits(g0: u8, g1: u8, g2: u8, g3: u8, g4: u8, g5: u8, g6: u8, g7: u8)
    by (bit_vector)
    requires
        g0 < 32 && g1 < 32 && g2 < 32 && g3 < 32 && g4 < 32 && g5 < 32 && g6 < 32 && g7 < 32,
    ensures
        ({
            let v = groups_value(g0, g1, g2, g3, g4, g5, g6, g7);
            &&& (g0 << 3u8) | ((g1 >> 2u8) & 7) == byte(v, 0)
            &&& ((g1 & 3) << 6u8) | (g2 << 1u8) | (g3 >> 4u8) == byte(v, 1)
            &&& ((g3 & 15) << 4u8) | (g4 >> 1u8) == byte(v, 2)
            &&& ((g4 & 1) << 7u8) | (g5 << 2u8) | (g6 >> 3u8) == byte(v, 3)
            &&& ((g6 & 7) << 5u8) | g7 == byte(v, 4)
        }),
{
}

/// In a final chunk padded with zero bytes, the groups past the last one that holds a bit of
/// the input are zero.
pub proof fn lemma_padding_groups(a: u8, b: u8, c: u8, d: u8)
    by (bit_vector)
    ensures
        ({
            let v = bytes_value(a, 0, 0, 0, 0);
            group(v, 2) == 0 && group(v, 3) == 0 && group(v, 4) == 0 && group(v, 5) == 0
                && group(v, 6) == 0 && group(v, 7) == 0
        }),
        ({
            let v = bytes_value(a, b, 0, 0, 0);
            group(v, 4) == 0 && group(v, 5) == 0 && group(v, 6) == 0 && group(v, 7) == 0
        }),
        ({
            let v = bytes_value(a, b, c, 0, 0);
            group(v, 5) == 0 && group(v, 6) == 0 && group(v, 7) == 0
        }),
        ({
            let v = bytes_value(a, b, c, d, 0);
            group(v, 7) == 0
        }),
{
}

/// Comparing five bytes one by one from the first is comparing the numbers they make.
pub proof fn lemma_bytes_order(
    a0: u8,
    a1: u8,
    a2: u8,
    a3: u8,
    a4: u8,
    b0: u8,
    b1: u8,
    b2: u8,
    b3: u8,
    b4: u8,
)
    by (bit_vector)
    ensures
        (a0 < b0 || (a0 == b0 && (a1 < b1 || (a1 == b1 && (a2 < b2 || (a2 == b2 && (a3 < b3 || (
        a3 == b3 && a4 < b4)))))))) == (bytes_value(a0, a1, a2, a3, a4) < bytes_value(
            b0,
            b1,
            b2,
            b3,
            b4,
        )),
{
}

/// Comparing the groups of two 40-bit numbers one by one from the first is comparing the
/// numbers.
pub proof fn lemma_groups_order(v: u64, w: u64)
    by (bit_vector)
    requires
        v < 0x100_0000_0000,
        w < 0x100_0000_0000,
    ensures
        (group(v, 0) < group(w, 0) || (group(v, 0) == group(w, 0) && (group(v, 1) < group(w, 1) || (
        group(v, 1) == group(w, 1) && (group(v, 2) < group(w, 2) || (group(v, 2) == group(w, 2) && (
        group(v, 3) < group(w, 3) || (group(v, 3) == group(w, 3) && (group(v, 4) < group(w, 4) || (
        group(v, 4) == group(w, 4) && (group(v, 5) < group(w, 5) || (group(v, 5) == group(w, 5) && (
        group(v, 6) < group(w, 6) || (group(v, 6) == group(w, 6) && group(v, 7) < group(w, 7))))))))))))))) == (v < w),
{
}

/// Five bytes make a number below 2 to the 40th.
pub proof fn lemma_bytes_value_bound(a: u8, b: u8, c: u8, d: u8, e: u8)
    by (bit_vector)
    ensures
        bytes_value(a, b, c, d, e) < 0x100_0000_0000,
{
}

/// A group is a 5-bit value.
pub proof fn lemma_group_small(v: u64, k: u64)
    by (bit_vector)
    ensures
        group(v, k) < 32,
{
}

} // verus!
