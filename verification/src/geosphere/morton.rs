use vstd::prelude::*;
use crate::geosphere::point_cluster::{Point3, UPoint3, PointCluster};

verus! {

/// Morton code with 4 bits for each 3D axis: a chunk of 16 x 16 x 16 slots.
pub struct Morton4;

/// Number of bits of each component that a code holds.
pub const BIT_COUNT_PER_COMPONENT: u16 = 4;

/// Number of distinct values of each component inside a chunk.
pub const MAX_PER_COMPONENT: u16 = 16;

/// Mask that keeps the bits of a component that a code holds.
pub const BIT_MASK_PER_COMPONENT: u16 = 15;

/// Number of distinct codes: the number of slots in a chunk.
pub const MAX: u16 = 4096;

/// Bit `i` of `v`.
pub open spec fn bit_of(v: u16, i: u16) -> u16 {
    (v >> i) & 1u16
}

/// The three bits of `x`, `y` and `z` at position `i`, packed as `x | y << 1 | z << 2`.
pub open spec fn morton_digit(x: u16, y: u16, z: u16, i: u16) -> u16 {
    bit_of(x, i) | (bit_of(y, i) << 1u16) | (bit_of(z, i) << 2u16)
}

/// The code built from the digits `0..k`: digit `i` stands at bits `3i`, `3i + 1` and
/// `3i + 2`, so that bit `i` of x, y and z goes to those bits.
pub open spec fn morton_prefix(x: u16, y: u16, z: u16, k: nat) -> u16
    decreases k,
{
    if k == 0 {
        0
    } else {
        (morton_prefix(x, y, z, (k - 1) as nat) | (morton_digit(x, y, z, (k - 1) as u16) << (3 * (k
            - 1)) as u16))
    }
}

/// The code of a position local to a chunk.
pub open spec fn morton_code(local: UPoint3) -> u16 {
    morton_prefix(local.x as u16, local.y as u16, local.z as u16, 4)
}

/// Reads back one component of a position from its code; `c` is 0, 1 or 2 for x, y or z: bit
/// `i` of the component is bit `3i + c` of the code.
pub open spec fn morton_component(code: u16, c: u16) -> u16 {
    ((code >> c) & 1u16) | (((code >> (3u16 + c)) & 1u16) << 1u16) | (((code >> (6u16 + c))
        & 1u16) << 2u16) | (((code >> (9u16 + c)) & 1u16) << 3u16)
}

/// The local position that a code stands for.
pub open spec fn morton_decode(code: u16) -> UPoint3 {
    UPoint3 {
        x: morton_component(code, 0) as u32,
        y: morton_component(code, 1) as u32,
        z: morton_component(code, 2) as u32,
    }
}

/// The chunk that holds a slot: each component divided by 16, rounding down.
pub open spec fn chunk_origin(p: Point3) -> Point3 {
    Point3 { x: (p.x / 16) as i32, y: (p.y / 16) as i32, z: (p.z / 16) as i32 }
}

/// The position of a slot inside its chunk: each component modulo 16, in `0..16`.
pub open spec fn local_position(p: Point3) -> UPoint3 {
    UPoint3 { x: (p.x % 16) as u32, y: (p.y % 16) as u32, z: (p.z % 16) as u32 }
}

/// Whether a position lies inside a chunk.
pub open spec fn is_local(l: UPoint3) -> bool {
    l.x < 16 && l.y < 16 && l.z < 16
}

/// The slots of chunk `c`: from `16 * c` up to, and without, `16 * c + 16`.
pub open spec fn chunk_cluster(c: Point3) -> PointCluster {
    PointCluster {
        min: Point3 { x: (c.x * 16) as i32, y: (c.y * 16) as i32, z: (c.z * 16) as i32 },
        max: Point3 {
            x: (16 + c.x * 16) as i32,
            y: (16 + c.y * 16) as i32,
            z: (16 + c.z * 16) as i32,
        },
    }
}

/// Whether the slots of chunk `c` have coordinates that fit in `i32`.
pub open spec fn chunk_in_range(c: Point3) -> bool {
    &&& i32::MIN <= c.x * 16 && c.x * 16 + 16 <= i32::MAX
    &&& i32::MIN <= c.y * 16 && c.y * 16 + 16 <= i32::MAX
    &&& i32::MIN <= c.z * 16 && c.z * 16 + 16 <= i32::MAX
}

proof fn lemma_shift_step(v: u16, k: u16)
    requires
        k < 16,
    ensures
        ((v >> k) ^ ((v >> k) & 1u16)) >> 1u16 == v >> ((k + 1) as u16),
{
    assert(((v >> k) ^ ((v >> k) & 1u16)) >> 1u16 == v >> ((k + 1) as u16)) by (bit_vector)
        requires
            k < 16,
    ;
}

proof fn lemma_digit_bound(x: u16, y: u16, z: u16, i: u16)
    ensures
        morton_digit(x, y, z, i) < 8,
{
    assert(((x >> i) & 1u16) | (((y >> i) & 1u16) << 1u16) | (((z >> i) & 1u16) << 2u16) < 8)
        by (bit_vector);
}

/// The code of a position, with its digits written out.
proof fn lemma_morton_code_digits(l: UPoint3)
    ensures
        morton_code(l) == (((0u16 | (morton_digit(l.x as u16, l.y as u16, l.z as u16, 0) << 0u16))
            | (morton_digit(l.x as u16, l.y as u16, l.z as u16, 1) << 3u16)) | (morton_digit(
            l.x as u16,
            l.y as u16,
            l.z as u16,
            2,
        ) << 6u16)) | (morton_digit(l.x as u16, l.y as u16, l.z as u16, 3) << 9u16),
{
    reveal_with_fuel(morton_prefix, 5);
}

/// The code of a chunk-local position has 12 bits.
pub proof fn lemma_morton_code_bound(l: UPoint3)
    ensures
        morton_code(l) < MAX,
{
    let x = l.x as u16;
    let y = l.y as u16;
    let z = l.z as u16;
    lemma_morton_code_digits(l);
    lemma_digit_bound(x, y, z, 0);
    lemma_digit_bound(x, y, z, 1);
    lemma_digit_bound(x, y, z, 2);
    lemma_digit_bound(x, y, z, 3);
    let d0 = morton_digit(x, y, z, 0);
    let d1 = morton_digit(x, y, z, 1);
    let d2 = morton_digit(x, y, z, 2);
    let d3 = morton_digit(x, y, z, 3);
    assert((((0u16 | (d0 << 0u16)) | (d1 << 3u16)) | (d2 << 6u16)) | (d3 << 9u16) < 4096u16)
        by (bit_vector)
        requires
            d0 < 8,
            d1 < 8,
            d2 < 8,
            d3 < 8,
    ;
}

/// Decoding gives back every chunk-local position from its code: no two slots of a chunk share
/// a code.
pub proof fn lemma_morton_decode_code(l: UPoint3)
    requires
        is_local(l),
    ensures
        morton_decode(morton_code(l)) == l,
{
    let x = l.x as u16;
    let y = l.y as u16;
    let z = l.z as u16;
    lemma_morton_code_digits(l);
    let code = morton_code(l);
    assert(morton_component(code, 0) == x && morton_component(code, 1) == y
        && morton_component(code, 2) == z) by (bit_vector)
        requires
            x < 16,
            y < 16,
            z < 16,
            code == (((0u16 | ((((x >> 0u16) & 1u16) | (((y >> 0u16) & 1u16) << 1u16) | (((z
                >> 0u16) & 1u16) << 2u16)) << 0u16)) | ((((x >> 1u16) & 1u16) | (((y >> 1u16)
                & 1u16) << 1u16) | (((z >> 1u16) & 1u16) << 2u16)) << 3u16)) | ((((x >> 2u16)
                & 1u16) | (((y >> 2u16) & 1u16) << 1u16) | (((z >> 2u16) & 1u16) << 2u16))
                << 6u16)) | ((((x >> 3u16) & 1u16) | (((y >> 3u16) & 1u16) << 1u16) | (((z
                >> 3u16) & 1u16) << 2u16)) << 9u16),
    ;
}

/// Distinct positions of a chunk have distinct codes.
pub proof fn lemma_morton_code_injective(a: UPoint3, b: UPoint3)
    requires
        is_local(a),
        is_local(b),
        morton_code(a) == morton_code(b),
    ensures
        a == b,
{
    lemma_morton_decode_code(a);
    lemma_morton_decode_code(b);
}

/// The split of a slot position into chunk and local position gives the slot back.
pub proof fn lemma_coordinate_reconstructs(p: Point3)
    ensures
        chunk_origin(p).x * 16 + local_position(p).x == p.x,
        chunk_origin(p).y * 16 + local_position(p).y == p.y,
        chunk_origin(p).z * 16 + local_position(p).z == p.z,
        is_local(local_position(p)),
{
}

/// A slot lies in the cluster of chunk `c` exactly when `c` is the chunk that holds it.
pub proof fn lemma_cluster_is_chunk(c: Point3, p: Point3)
    requires
        chunk_in_range(c),
    ensures
        chunk_cluster(c).contains(p) <==> chunk_origin(p) == c,
{
}

fn div_component(v: i32) -> (r: (i32, u32))
    ensures
        r.0 == v / 16,
        r.1 == v % 16,
{
    let q: i32 = match v.checked_div_euclid(16i32) {
        Some(q) => q,
        None => 0,
    };
    let rem: i32 = v - q * 16;
    (q, rem as u32)
}

impl Morton4 {
    /// Splits a slot position into the chunk that holds it and its position inside that chunk.
    pub fn compute_coordinate(p_value: Point3) -> (r: (Point3, UPoint3))
        ensures
            r.0 == chunk_origin(p_value),
            r.1 == local_position(p_value),
            is_local(r.1),
    {
        let (ox, lx) = div_component(p_value.x);
        let (oy, ly) = div_component(p_value.y);
        let (oz, lz) = div_component(p_value.z);
        (Point3 { x: ox, y: oy, z: oz }, UPoint3 { x: lx, y: ly, z: lz })
    }

    /// The cluster of all slots of chunk `p_value`.
    pub fn compute_cluster(p_value: Point3) -> (r: PointCluster)
        requires
            chunk_in_range(p_value),
        ensures
            r == chunk_cluster(p_value),
    {
        PointCluster {
            min: Point3 { x: p_value.x * 16, y: p_value.y * 16, z: p_value.z * 16 },
            max: Point3 {
                x: 16 + p_value.x * 16,
                y: 16 + p_value.y * 16,
                z: 16 + p_value.z * 16,
            },
        }
    }

    /// The code of a slot inside its chunk, and the chunk that holds it.
    pub fn consume(p_value: Point3) -> (r: (u16, Point3))
        ensures
            r.0 == morton_code(local_position(p_value)),
            r.0 < MAX,
            r.1 == chunk_origin(p_value),
    {
        let (origin, slot_local_position) = Self::compute_coordinate(p_value);
        let ghost lx = slot_local_position.x as u16;
        let ghost ly = slot_local_position.y as u16;
        let ghost lz = slot_local_position.z as u16;
        let mut x: u16 = (slot_local_position.x as u16) & BIT_MASK_PER_COMPONENT;
        let mut y: u16 = (slot_local_position.y as u16) & BIT_MASK_PER_COMPONENT;
        let mut z: u16 = (slot_local_position.z as u16) & BIT_MASK_PER_COMPONENT;
        proof {
            assert(lx & 15u16 == lx) by (bit_vector)
                requires
                    lx < 16,
            ;
            assert(ly & 15u16 == ly) by (bit_vector)
                requires
                    ly < 16,
            ;
            assert(lz & 15u16 == lz) by (bit_vector)
                requires
                    lz < 16,
            ;
            assert(lx >> 0u16 == lx && ly >> 0u16 == ly && lz >> 0u16 == lz) by (bit_vector);
        }
        let mut result: u16 = 0;
        let mut i: u16 = 0;
        while i < BIT_COUNT_PER_COMPONENT
            invariant
                i <= 4,
                x == lx >> i,
                y == ly >> i,
                z == lz >> i,
                result == morton_prefix(lx, ly, lz, i as nat),
            decreases 4 - i,
        {
            let current_x_bit = x & 1;
            x ^= current_x_bit;
            x >>= 1;
            let current_y_bit = y & 1;
            y ^= current_y_bit;
            y >>= 1;
            let current_z_bit = z & 1;
            z ^= current_z_bit;
            z >>= 1;
            proof {
                lemma_shift_step(lx, i);
                lemma_shift_step(ly, i);
                lemma_shift_step(lz, i);
            }
            result = result | ((current_x_bit | current_y_bit << 1 | current_z_bit << 2) << (3 * i));
            i = i + 1;
        }
        proof {
            lemma_morton_code_bound(slot_local_position);
        }
        (result, origin)
    }
}

} // verus!
