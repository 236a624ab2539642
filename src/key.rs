use vstd::prelude::*;
use crate::voxels::morton::{
    decode, lemma_compact_bound, lemma_decode_encode, lemma_interleave_coarse, lemma_pow2_add,
    lemma_pow2_triple, lemma_pow_positive, interleave, lemma_encode_decode, lemma_interleave_bound, lemma_pow8_mono,
    morton_of, position_of, pow2, pow8, Morton, MortonCode, AXIS_BITS,
};

verus! {

/// Largest compression level a key can carry.
pub const MAX_LEVEL: u8 = 15;

/// The key of a full-resolution cell: its Morton code above the 16 control
/// bits, level tag zero.
pub open spec fn cell_key(x: u16, y: u16, z: u16) -> u64 {
    (morton_of(x as nat, y as nat, z as nat) as u64) << 16u64
}

/// The number of low key bits that a region of the given depth leaves out.
pub open spec fn region_shift(depth: u64) -> u64 {
    (16 + 3 * depth) as u64
}

/// The key of the region of compression level `level` that holds `k`: the
/// coarse prefix of `k`, the rest cleared, tagged with `level`.
pub open spec fn ancestor_key(k: u64, level: u64) -> u64 {
    ((k >> region_shift(level)) << region_shift(level)) | level
}

/// The compression level a key carries.
pub open spec fn level_of(k: u64) -> u64 {
    k & 15
}

/// Whether `k` is a key that a store can hold: reserved bits clear, and
/// the fine triplets that its level discards all zero.
pub open spec fn valid_key(k: u64) -> bool {
    &&& k & 0xfff0 == 0
    &&& ancestor_key(k, level_of(k)) == k
}

/// Whether two keys lie in one region of the given depth. Depth 16 and more
/// is the whole space.
pub open spec fn same_region(a: u64, b: u64, depth: nat) -> bool {
    depth >= 16 || (a >> region_shift(depth as u64)) == (b >> region_shift(depth as u64))
}

/// The position and level that a key stands for.
pub open spec fn unpack_spec(k: u64) -> (u16, u16, u16, u8) {
    let p = position_of((k >> 16u64) as nat);
    (p.0 as u16, p.1 as u16, p.2 as u16, (k & 15) as u8)
}

/// The key of the region of level `level` that holds a position.
pub open spec fn pack_spec(x: u16, y: u16, z: u16, level: u8) -> u64 {
    ancestor_key(cell_key(x, y, z), level as u64)
}

proof fn lemma_small_morton(x: u16, y: u16, z: u16)
    ensures
        morton_of(x as nat, y as nat, z as nat) < 0x1_0000_0000_0000,
{
    reveal_with_fuel(pow2, 17);
    reveal_with_fuel(pow8, 17);
    lemma_interleave_bound(x as nat, y as nat, z as nat, AXIS_BITS as nat, 16);
}

/// The key of a full-resolution cell holds the cell's code above the
/// control bits and is a valid key of level zero.
pub proof fn lemma_cell_key(x: u16, y: u16, z: u16)
    ensures
        valid_key(cell_key(x, y, z)),
        level_of(cell_key(x, y, z)) == 0,
        cell_key(x, y, z) >> 16u64 == morton_of(x as nat, y as nat, z as nat),
        ancestor_key(cell_key(x, y, z), 0) == cell_key(x, y, z),
{
    lemma_small_morton(x, y, z);
    let code = morton_of(x as nat, y as nat, z as nat) as u64;
    assert(code < 0x1_0000_0000_0000 ==> {
        let k = code << 16u64;
        &&& k & 0xfff0 == 0
        &&& ((k >> 16u64) << 16u64) | 0 == k
        &&& k & 15 == 0
        &&& k >> 16u64 == code
    }) by (bit_vector);
}

/// Distinct cells have distinct keys.
pub proof fn lemma_cell_key_injective(a: (u16, u16, u16), b: (u16, u16, u16))
    requires
        a != b,
    ensures
        cell_key(a.0, a.1, a.2) != cell_key(b.0, b.1, b.2),
{
    lemma_cell_key(a.0, a.1, a.2);
    lemma_cell_key(b.0, b.1, b.2);
    reveal_with_fuel(pow2, 22);
    lemma_decode_encode(a.0 as nat, a.1 as nat, a.2 as nat);
    lemma_decode_encode(b.0 as nat, b.1 as nat, b.2 as nat);
}

/// Regions nest: keys in one region of a depth share the region of every
/// greater depth.
pub proof fn lemma_same_region_grows(a: u64, b: u64, d1: nat, d2: nat)
    requires
        d1 <= d2,
        same_region(a, b, d1),
    ensures
        same_region(a, b, d2),
    decreases d2 - d1,
{
    if d2 < 16 && d1 < d2 {
        lemma_same_region_grows(a, b, d1, (d2 - 1) as nat);
        let s = region_shift((d2 - 1) as u64);
        assert(s < 61 ==> a >> (s + 3) == (a >> s) >> 3u64 && b >> (s + 3) == (b >> s) >> 3u64)
            by (bit_vector);
    }
}

/// Shifting right by `s` divides by `2^s`.
pub proof fn lemma_shr_div(x: u64, s: u64)
    requires
        s < 64,
    ensures
        x >> s == x as nat / pow2(s as nat),
    decreases s,
{
    if s == 0 {
        assert(x >> 0u64 == x) by (bit_vector);
        assert(pow2(0) == 1);
        assert(x as nat / 1 == x as nat);
    } else {
        let t = (s - 1) as u64;
        lemma_shr_div(x, t);
        assert(t < 63 && s == t + 1 ==> x >> s == (x >> t) / 2) by (bit_vector);
        lemma_pow_positive(t as nat);
        vstd::arithmetic::div_mod::lemma_div_denominator(x as int, pow2(t as nat) as int, 2);
        assert(pow2(s as nat) == pow2(t as nat) * 2);
        assert(x >> s == (x >> t) / 2);
        assert((x >> t) / 2 == (x as nat / pow2(t as nat)) / 2);
        assert((x as nat / pow2(t as nat)) / 2 == x as nat / (pow2(t as nat) * 2));
    }
}

/// The prefix of a key above the control bits and `3 * d` more bits is its
/// code divided by `8^d`.
pub proof fn lemma_region_prefix(k: u64, d: u64)
    requires
        d < 16,
    ensures
        k >> region_shift(d) == ((k >> 16u64) as nat) / pow8(d as nat),
{
    let s = region_shift(d);
    lemma_shr_div(k, s);
    lemma_shr_div(k, 16);
    lemma_pow2_add(16, (3 * d) as nat);
    lemma_pow2_triple(d as nat);
    lemma_pow_positive(16);
    lemma_pow_positive(3 * d as nat);
    vstd::arithmetic::div_mod::lemma_div_denominator(k as int, pow2(16) as int, pow2(3 * d as nat) as int);
    assert(s as nat == 16 + 3 * d as nat);
}

/// A key whose position agrees with a cell's on every axis once the `d`
/// lowest bits are dropped lies in the cell's region of depth `d`.
pub proof fn lemma_region_by_position(k: u64, c: (u16, u16, u16), d: u64)
    requires
        d < 16,
        position_of((k >> 16u64) as nat).0 / pow2(d as nat) == c.0 as nat / pow2(d as nat),
        position_of((k >> 16u64) as nat).1 / pow2(d as nat) == c.1 as nat / pow2(d as nat),
        position_of((k >> 16u64) as nat).2 / pow2(d as nat) == c.2 as nat / pow2(d as nat),
    ensures
        k >> region_shift(d) == cell_key(c.0, c.1, c.2) >> region_shift(d),
{
    let e = (k >> 16u64) as nat;
    let u = position_of(e);
    assert(k >> 16u64 < 0x1_0000_0000_0000) by (bit_vector);
    reveal_with_fuel(pow8, 22);
    lemma_encode_decode(e);
    lemma_interleave_coarse(u.0, u.1, u.2, AXIS_BITS as nat, d as nat);
    lemma_interleave_coarse(c.0 as nat, c.1 as nat, c.2 as nat, AXIS_BITS as nat, d as nat);
    lemma_cell_key(c.0, c.1, c.2);
    lemma_region_prefix(k, d);
    lemma_region_prefix(cell_key(c.0, c.1, c.2), d);
}

/// The key of a full-resolution cell.
pub fn key_of(x: u16, y: u16, z: u16) -> (r: u64)
    ensures
        r == cell_key(x, y, z),
        valid_key(r),
        level_of(r) == 0,
        r >> 16u64 == morton_of(x as nat, y as nat, z as nat),
{
    let code: MortonCode = MortonCode::encode(x as u32, y as u32, z as u32);
    proof {
        lemma_cell_key(x, y, z);
    }
    code << 16u64
}

/// The key of the region of compression level `level` that holds a
/// position.
pub fn pack(x: u16, y: u16, z: u16, level: u8) -> (r: u64)
    requires
        level <= MAX_LEVEL,
    ensures
        r == pack_spec(x, y, z, level),
        valid_key(r),
        level_of(r) == level,
{
    let k = key_of(x, y, z);
    let s: u64 = 16 + 3 * level as u64;
    let l: u64 = level as u64;
    proof {
        lemma_ancestor_valid(k, l);
    }
    ((k >> s) << s) | l
}

/// The region key of any key is valid, carries its level and keeps the
/// key's coarse prefix.
pub proof fn lemma_ancestor_valid(k: u64, l: u64)
    requires
        l <= 15,
    ensures
        valid_key(ancestor_key(k, l)),
        level_of(ancestor_key(k, l)) == l,
        ancestor_key(k, l) >> region_shift(l) == k >> region_shift(l),
{
    let s = region_shift(l);
    assert(l <= 15 && s == 16 + 3 * l ==> {
        let a = ((k >> s) << s) | l;
        &&& a & 0xfff0 == 0
        &&& a & 15 == l
        &&& ((a >> s) << s) | l == a
        &&& a >> s == k >> s
    }) by (bit_vector);
}

/// The position (the region's lowest corner for a compressed key) and the
/// compression level that a key stands for.
pub fn unpack(k: u64) -> (r: (u16, u16, u16, u8))
    ensures
        r == unpack_spec(k),
        r.3 <= MAX_LEVEL,
        (r.0 as nat, r.1 as nat, r.2 as nat) == position_of((k >> 16u64) as nat),
{
    let e: u64 = k >> 16u64;
    let (x, y, z) = decode(e);
    proof {
        assert(k >> 16u64 < 0x1_0000_0000_0000) by (bit_vector);
        assert(k & 15 <= 15) by (bit_vector);
        reveal_with_fuel(pow2, 17);
        reveal_with_fuel(pow8, 17);
        lemma_compact_bound(e as nat, AXIS_BITS as nat, 16);
        lemma_compact_bound(e as nat / 2, AXIS_BITS as nat, 16);
        lemma_compact_bound(e as nat / 4, AXIS_BITS as nat, 16);
    }
    (x as u16, y as u16, z as u16, (k & 15) as u8)
}

/// The position that `unpack` reports is the code's position, each axis
/// below `2^16`.
pub proof fn lemma_unpack(k: u64)
    ensures
        unpack_spec(k).0 as nat == position_of((k >> 16u64) as nat).0,
        unpack_spec(k).1 as nat == position_of((k >> 16u64) as nat).1,
        unpack_spec(k).2 as nat == position_of((k >> 16u64) as nat).2,
{
    let e = (k >> 16u64) as nat;
    assert(k >> 16u64 < 0x1_0000_0000_0000) by (bit_vector);
    reveal_with_fuel(pow2, 17);
    reveal_with_fuel(pow8, 17);
    lemma_compact_bound(e, AXIS_BITS as nat, 16);
    lemma_compact_bound(e / 2, AXIS_BITS as nat, 16);
    lemma_compact_bound(e / 4, AXIS_BITS as nat, 16);
}

/// Packing the position and level of a key that a store can hold gives the
/// key back.
pub proof fn lemma_pack_unpack(k: u64)
    requires
        valid_key(k),
    ensures
        ({
            let u = unpack_spec(k);
            pack_spec(u.0, u.1, u.2, u.3) == k
        }),
{
    let e = k >> 16u64;
    assert(k >> 16u64 < 0x1_0000_0000_0000) by (bit_vector);
    assert(k & 15 <= 15) by (bit_vector);
    reveal_with_fuel(pow2, 22);
    reveal_with_fuel(pow8, 22);
    lemma_pow8_mono(16, AXIS_BITS as nat);
    lemma_encode_decode(e as nat);
    let p = position_of(e as nat);
    lemma_compact_bound(e as nat, AXIS_BITS as nat, 16);
    lemma_compact_bound(e as nat / 2, AXIS_BITS as nat, 16);
    lemma_compact_bound(e as nat / 4, AXIS_BITS as nat, 16);
    let u = unpack_spec(k);
    assert(u.0 as nat == p.0 && u.1 as nat == p.1 && u.2 as nat == p.2);
    assert(cell_key(u.0, u.1, u.2) == e << 16u64);
    let l = k & 15;
    let s = region_shift(l);
    assert(l <= 15 && s == 16 + 3 * l ==> (((k >> 16u64) << 16u64) >> s) << s == (k >> s) << s)
        by (bit_vector);
}

} // verus!
