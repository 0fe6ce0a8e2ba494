use vstd::prelude::*;
use std::collections::{HashMap, HashSet};
use vstd::std_specs::iter::IteratorSpec;
use crate::geosphere::chunk::{Chunk, ChunkKey};
use crate::geosphere::cube::{Cube, CubeInstanceOrientation, CubeResourceId};
use crate::geosphere::passive_geosphere::{slot_cube_of, world_slot, PassiveGeosphere};
use crate::geosphere::point_cluster::{compute_point_code, lemma_point_code_injective, point_code, Point3, PointCluster};
use crate::geosphere::slot::Slot;

verus! {

broadcast use vstd::std_specs::hash::group_hash_axioms;

/// The largest of the component-wise distances between two points.
pub open spec fn spec_chebyshev_distance(a: Point3, b: Point3) -> int {
    let dx = if a.x >= b.x { a.x - b.x } else { b.x - a.x };
    let dy = if a.y >= b.y { a.y - b.y } else { b.y - a.y };
    let dz = if a.z >= b.z { a.z - b.z } else { b.z - a.z };
    if dx >= dy && dx >= dz {
        dx
    } else if dy >= dz {
        dy
    } else {
        dz
    }
}

fn abs_diff(a: i32, b: i32) -> (r: u32)
    ensures
        r == (if a >= b { a - b } else { b - a }),
{
    if a >= b {
        ((a as i64) - (b as i64)) as u32
    } else {
        ((b as i64) - (a as i64)) as u32
    }
}

/// The Chebyshev distance is the largest component-wise distance: at least each of them, and
/// equal to one of them.
pub proof fn lemma_chebyshev_is_largest_axis(a: Point3, b: Point3)
    ensures
        spec_chebyshev_distance(a, b) >= (if a.x >= b.x { a.x - b.x } else { b.x - a.x }),
        spec_chebyshev_distance(a, b) >= (if a.y >= b.y { a.y - b.y } else { b.y - a.y }),
        spec_chebyshev_distance(a, b) >= (if a.z >= b.z { a.z - b.z } else { b.z - a.z }),
        spec_chebyshev_distance(a, b) == (if a.x >= b.x { a.x - b.x } else { b.x - a.x })
            || spec_chebyshev_distance(a, b) == (if a.y >= b.y { a.y - b.y } else { b.y - a.y })
            || spec_chebyshev_distance(a, b) == (if a.z >= b.z { a.z - b.z } else { b.z - a.z }),
{
}

/// The Chebyshev distance between two points: the largest of their component-wise distances.
pub fn chebyshev_distance(a: Point3, b: Point3) -> (r: u32)
    ensures
        r == spec_chebyshev_distance(a, b),
{
    let dx = abs_diff(a.x, b.x);
    let dy = abs_diff(a.y, b.y);
    let dz = abs_diff(a.z, b.z);
    if dx >= dy && dx >= dz {
        dx
    } else if dy >= dz {
        dy
    } else {
        dz
    }
}

/// The lump, a cube of `n` x `n` x `n` slots, that holds slot position `p`.
pub open spec fn lump_of(p: Point3, n: int) -> Point3 {
    Point3 { x: ((p.x as int) / n) as i32, y: ((p.y as int) / n) as i32, z: ((p.z as int) / n) as i32 }
}

/// Whether the slots of lump `l` have coordinates that fit in `i32`.
pub open spec fn lump_in_range(l: Point3, n: int) -> bool {
    &&& i32::MIN <= l.x * n && (l.x + 1) * n <= i32::MAX
    &&& i32::MIN <= l.y * n && (l.y + 1) * n <= i32::MAX
    &&& i32::MIN <= l.z * n && (l.z + 1) * n <= i32::MAX
}

fn axis_in_range(v: i32, n: u32) -> (r: bool)
    requires
        n <= i32::MAX,
    ensures
        r == (i32::MIN <= v * n && (v + 1) * n <= i32::MAX),
{
    proof {
        assert(-0x8000_0000 * 0x7fff_ffff <= v * n <= 0x7fff_ffff * 0x7fff_ffff) by (nonlinear_arith)
            requires
                i32::MIN <= v <= i32::MAX,
                0 <= n <= i32::MAX,
        ;
        assert((v + 1) * n == v * n + n) by (nonlinear_arith);
    }
    let low: i64 = (v as i64) * (n as i64);
    low >= i32::MIN as i64 && low + (n as i64) <= i32::MAX as i64
}

/// Whether the slots of lump `p_lump_position` of `p_lump_size` slots per axis have coordinates
/// that fit in `i32`.
pub fn lump_is_in_range(p_lump_position: Point3, p_lump_size: u32) -> (r: bool)
    requires
        p_lump_size <= i32::MAX,
    ensures
        r == lump_in_range(p_lump_position, p_lump_size as int),
{
    axis_in_range(p_lump_position.x, p_lump_size) && axis_in_range(p_lump_position.y, p_lump_size)
        && axis_in_range(p_lump_position.z, p_lump_size)
}

fn floor_div(v: i32, n: i32) -> (r: i32)
    requires
        n > 0,
    ensures
        r == (v as int) / (n as int),
{
    proof {
        assert(i32::MIN <= (v as int) / (n as int) <= i32::MAX) by (nonlinear_arith)
            requires
                n > 0,
                i32::MIN <= v <= i32::MAX,
        ;
    }
    match v.checked_div_euclid(n) {
        Some(q) => q,
        None => 0,
    }
}

/// The lump of `p_lump_size` slots per axis that holds `p_slot_position`: each component
/// divided by the lump size, rounding down.
pub fn convert_slot_position_to_lump_position(p_slot_position: Point3, p_lump_size: u32) -> (r:
    Point3)
    requires
        0 < p_lump_size <= i32::MAX,
    ensures
        r == lump_of(p_slot_position, p_lump_size as int),
{
    let n = p_lump_size as i32;
    Point3 {
        x: floor_div(p_slot_position.x, n),
        y: floor_div(p_slot_position.y, n),
        z: floor_div(p_slot_position.z, n),
    }
}

/// The first slot of a lump: each component multiplied by the lump size.
pub fn convert_lump_position_to_slot_position(p_lump_position: Point3, p_lump_size: u32) -> (r:
    Point3)
    requires
        0 < p_lump_size <= i32::MAX,
        lump_in_range(p_lump_position, p_lump_size as int),
    ensures
        r.x == p_lump_position.x * p_lump_size,
        r.y == p_lump_position.y * p_lump_size,
        r.z == p_lump_position.z * p_lump_size,
{
    let n = p_lump_size as i32;
    proof {
        assert(i32::MIN <= p_lump_position.x * n <= i32::MAX) by (nonlinear_arith)
            requires
                i32::MIN <= p_lump_position.x * n,
                (p_lump_position.x + 1) * n <= i32::MAX,
                n > 0,
        ;
        assert(i32::MIN <= p_lump_position.y * n <= i32::MAX) by (nonlinear_arith)
            requires
                i32::MIN <= p_lump_position.y * n,
                (p_lump_position.y + 1) * n <= i32::MAX,
                n > 0,
        ;
        assert(i32::MIN <= p_lump_position.z * n <= i32::MAX) by (nonlinear_arith)
            requires
                i32::MIN <= p_lump_position.z * n,
                (p_lump_position.z + 1) * n <= i32::MAX,
                n > 0,
        ;
    }
    Point3 { x: p_lump_position.x * n, y: p_lump_position.y * n, z: p_lump_position.z * n }
}

/// The slots of a lump: from its first slot up to, and without, the first slot of the next
/// lump along each axis.
pub fn compute_slot_point_cluster_from_lump_position(p_lump_position: Point3, p_lump_size: u32) -> (r:
    PointCluster)
    requires
        0 < p_lump_size <= i32::MAX,
        lump_in_range(p_lump_position, p_lump_size as int),
    ensures
        r.min.x == p_lump_position.x * p_lump_size,
        r.min.y == p_lump_position.y * p_lump_size,
        r.min.z == p_lump_position.z * p_lump_size,
        r.max.x == (p_lump_position.x + 1) * p_lump_size,
        r.max.y == (p_lump_position.y + 1) * p_lump_size,
        r.max.z == (p_lump_position.z + 1) * p_lump_size,
{
    let min = convert_lump_position_to_slot_position(p_lump_position, p_lump_size);
    let n = p_lump_size as i32;
    proof {
        assert((p_lump_position.x + 1) * n == p_lump_position.x * n + n) by (nonlinear_arith);
        assert((p_lump_position.y + 1) * n == p_lump_position.y * n + n) by (nonlinear_arith);
        assert((p_lump_position.z + 1) * n == p_lump_position.z * n + n) by (nonlinear_arith);
    }
    PointCluster { min, max: Point3 { x: min.x + n, y: min.y + n, z: min.z + n } }
}

/// Whether a cached lump stays when the spectator is at `p_slot_position`: its Chebyshev
/// distance, in lumps, from the spectator's lump is below the allowed slot distance divided by
/// the lump size, rounding down.
pub fn keeps_lump(
    p_slot_position: Point3,
    p_lump_position: Point3,
    p_max_chebyshev_slot_distance: u32,
    p_lump_size: u32,
) -> (r: bool)
    requires
        0 < p_lump_size <= i32::MAX,
    ensures
        r == (spec_chebyshev_distance(lump_of(p_slot_position, p_lump_size as int), p_lump_position)
            < p_max_chebyshev_slot_distance / p_lump_size),
{
    let lump_position = convert_slot_position_to_lump_position(p_slot_position, p_lump_size);
    let max_chebyshev_lump_distance = p_max_chebyshev_slot_distance / p_lump_size;
    chebyshev_distance(lump_position, p_lump_position) < max_chebyshev_lump_distance
}

/// The six faces of a cube, in the order in which they are drawn.
#[derive(Clone, Copy, Debug, PartialEq, Eq, Structural)]
pub enum QuadFace {
    Backward,
    Forward,
    Upward,
    Downward,
    Left,
    Right,
}

/// The faces of a slot's cube that are drawn, each with its atlas image: back, front, top,
/// bottom, left, right, each only when the slot shows it; nothing when the slot holds no cube
/// or its kind is unknown.
pub open spec fn spec_visible_faces(slot: Slot, cube: Option<Cube>) -> Seq<(QuadFace, u32)> {
    match cube {
        None => Seq::empty(),
        Some(c) => if slot.cube_instance is None {
            Seq::empty()
        } else {
            (if slot.display_back_quad { seq![(QuadFace::Backward, c.geosphere_texture_atlas_index_back)] } else { Seq::empty() })
            + (if slot.display_front_quad { seq![(QuadFace::Forward, c.geosphere_texture_atlas_index_front)] } else { Seq::empty() })
            + (if slot.display_upward_quad { seq![(QuadFace::Upward, c.geosphere_texture_atlas_index_top)] } else { Seq::empty() })
            + (if slot.display_downward_quad { seq![(QuadFace::Downward, c.geosphere_texture_atlas_index_bottom)] } else { Seq::empty() })
            + (if slot.display_left_quad { seq![(QuadFace::Left, c.geosphere_texture_atlas_index_left)] } else { Seq::empty() })
            + (if slot.display_right_quad { seq![(QuadFace::Right, c.geosphere_texture_atlas_index_right)] } else { Seq::empty() })
        },
    }
}

/// The faces of a slot's cube that are drawn, each with its atlas image.
pub fn visible_faces(p_slot: &Slot, p_cube: Option<Cube>) -> (r: Vec<(QuadFace, u32)>)
    ensures
        r@ == spec_visible_faces(*p_slot, p_cube),
{
    let mut r: Vec<(QuadFace, u32)> = Vec::new();
    let cube = match p_cube {
        None => {
            assert(r@ =~= spec_visible_faces(*p_slot, p_cube));
            return r;
        },
        Some(c) => c,
    };
    if p_slot.cube_instance.is_none() {
        assert(r@ =~= spec_visible_faces(*p_slot, p_cube));
        return r;
    }
    if p_slot.display_back_quad {
        r.push((QuadFace::Backward, cube.geosphere_texture_atlas_index_back));
    }
    if p_slot.display_front_quad {
        r.push((QuadFace::Forward, cube.geosphere_texture_atlas_index_front));
    }
    if p_slot.display_upward_quad {
        r.push((QuadFace::Upward, cube.geosphere_texture_atlas_index_top));
    }
    if p_slot.display_downward_quad {
        r.push((QuadFace::Downward, cube.geosphere_texture_atlas_index_bottom));
    }
    if p_slot.display_left_quad {
        r.push((QuadFace::Left, cube.geosphere_texture_atlas_index_left));
    }
    if p_slot.display_right_quad {
        r.push((QuadFace::Right, cube.geosphere_texture_atlas_index_right));
    }
    assert(r@ =~= spec_visible_faces(*p_slot, p_cube));
    r
}

/// The slots of lump `l` of `n` slots per axis.
pub open spec fn lump_cluster(l: Point3, n: int) -> PointCluster {
    PointCluster {
        min: Point3 { x: (l.x * n) as i32, y: (l.y * n) as i32, z: (l.z * n) as i32 },
        max: Point3 { x: ((l.x + 1) * n) as i32, y: ((l.y + 1) * n) as i32, z: ((l.z + 1) * n) as i32 },
    }
}

/// Which way the cube of a slot faces; forward when the slot holds no cube.
pub open spec fn slot_orientation(s: Slot) -> CubeInstanceOrientation {
    match s.cube_instance {
        Some(ci) => ci.orientation,
        None => CubeInstanceOrientation::FORWARD,
    }
}

fn orientation_of(p_slot: &Slot) -> (r: CubeInstanceOrientation)
    ensures
        r == slot_orientation(*p_slot),
{
    match &p_slot.cube_instance {
        Some(cube_instance) => cube_instance.orientation,
        None => CubeInstanceOrientation::FORWARD,
    }
}

/// The faces that the slot at `p` draws in the world `m`, each with the slot's position and
/// the way its cube faces.
pub open spec fn slot_faces(
    p: Point3,
    m: Map<ChunkKey, Chunk>,
    cubes: Map<CubeResourceId, Cube>,
) -> Seq<(Point3, CubeInstanceOrientation, QuadFace, u32)> {
    let s = world_slot(m, p);
    let o = slot_orientation(s);
    spec_visible_faces(s, slot_cube_of(s, cubes)).map_values(|f: (QuadFace, u32)| (p, o, f.0, f.1))
}

/// The faces that a slot draws are drawn at that slot, turned the way its cube faces: a slot
/// draws faces only when it holds a cube, and each carries that cube's orientation.
pub proof fn lemma_slot_faces_turn_with_cube(
    p: Point3,
    m: Map<ChunkKey, Chunk>,
    cubes: Map<CubeResourceId, Cube>,
)
    ensures
        forall|i: int|
            0 <= i < slot_faces(p, m, cubes).len() ==> {
                let f = #[trigger] slot_faces(p, m, cubes)[i];
                &&& f.0 == p
                &&& world_slot(m, p).cube_instance is Some
                &&& f.1 == world_slot(m, p).cube_instance->Some_0.orientation
            },
{
    let s = world_slot(m, p);
    let fs = spec_visible_faces(s, slot_cube_of(s, cubes));
    if s.cube_instance is None {
        assert(fs.len() == 0);
    }
}

/// The faces that the slots at `order` draw, slot after slot.
pub open spec fn faces_of_points(
    order: Seq<Point3>,
    m: Map<ChunkKey, Chunk>,
    cubes: Map<CubeResourceId, Cube>,
) -> Seq<(Point3, CubeInstanceOrientation, QuadFace, u32)>
    decreases order.len(),
{
    if order.len() == 0 {
        Seq::empty()
    } else {
        faces_of_points(order.drop_last(), m, cubes) + slot_faces(order.last(), m, cubes)
    }
}

/// The faces that the slots of a lump draw, each with its slot's position, slot after slot in
/// the order of the lump's cluster. Reading a slot whose chunk is not there stores an empty
/// chunk, which changes no slot.
pub fn load_lump_faces(p_geosphere: &mut PassiveGeosphere, p_lump_position: Point3, p_lump_size: u32) -> (r:
    Vec<(Point3, CubeInstanceOrientation, QuadFace, u32)>)
    requires
        old(p_geosphere).wf(),
        0 < p_lump_size <= i32::MAX,
        lump_in_range(p_lump_position, p_lump_size as int),
    ensures
        final(p_geosphere).wf(),
        final(p_geosphere).cube_registry == old(p_geosphere).cube_registry,
        forall|q: Point3| #[trigger] world_slot(final(p_geosphere).chunk_map@, q) == world_slot(old(p_geosphere).chunk_map@, q),
        r@ == faces_of_points(
            lump_cluster(p_lump_position, p_lump_size as int).ordered_points(),
            old(p_geosphere).chunk_map@,
            old(p_geosphere).cube_registry.cube_map(),
        ),
{
    let cluster = compute_slot_point_cluster_from_lump_position(p_lump_position, p_lump_size);
    let points = cluster.points();
    let ghost m0 = p_geosphere.chunk_map@;
    let ghost cubes = p_geosphere.cube_registry.cube_map();
    let mut r: Vec<(Point3, CubeInstanceOrientation, QuadFace, u32)> = Vec::new();
    let mut i: usize = 0;
    while i < points.len()
        invariant
            p_geosphere.wf(),
            p_geosphere.cube_registry == old(p_geosphere).cube_registry,
            m0 == old(p_geosphere).chunk_map@,
            cubes == old(p_geosphere).cube_registry.cube_map(),
            forall|q: Point3| #[trigger] world_slot(p_geosphere.chunk_map@, q) == world_slot(m0, q),
            i <= points@.len(),
            r@ == faces_of_points(points@.take(i as int), m0, cubes),
        decreases points@.len() - i,
    {
        let p = points[i];
        let ghost before = p_geosphere.chunk_map@;
        let (slot, cube) = p_geosphere.slot_cube(p);
        let faces = visible_faces(slot, cube);
        let orientation = orientation_of(slot);
        let ghost fs = slot_faces(p, m0, cubes);
        proof {
            assert(faces@.map_values(|f: (QuadFace, u32)| (p, orientation, f.0, f.1)) == fs);
        }
        let ghost r0 = r@;
        let mut j: usize = 0;
        while j < faces.len()
            invariant
                j <= faces@.len(),
                fs == faces@.map_values(|f: (QuadFace, u32)| (p, orientation, f.0, f.1)),
                r@ == r0 + fs.take(j as int),
            decreases faces@.len() - j,
        {
            let (face, index) = faces[j];
            r.push((p, orientation, face, index));
            proof {
                assert(r@ =~= r0 + fs.take(j + 1));
            }
            j = j + 1;
        }
        proof {
            assert(fs.take(fs.len() as int) =~= fs);
            assert(points@.take(i + 1).drop_last() =~= points@.take(i as int));
            assert(points@.take(i + 1).last() == p);
        }
        i = i + 1;
    }
    proof {
        assert(points@.take(points@.len() as int) =~= points@);
        assert(cluster == lump_cluster(p_lump_position, p_lump_size as int));
    }
    r
}

/// A face that a lump draws: the slot's position, the way its cube faces, the face and its
/// atlas image.
pub type LumpFace = (Point3, CubeInstanceOrientation, QuadFace, u32);

/// The faces of the cached lumps among `ps`, lump after lump; a lump that is not cached adds
/// nothing.
pub open spec fn cached_faces(lumps: Map<Point3, Seq<LumpFace>>, ps: Seq<Point3>) -> Seq<LumpFace>
    decreases ps.len(),
{
    if ps.len() == 0 {
        Seq::empty()
    } else if lumps.contains_key(ps.last()) {
        cached_faces(lumps, ps.drop_last()) + lumps[ps.last()]
    } else {
        cached_faces(lumps, ps.drop_last())
    }
}

/// The lumps among `ps` whose loading starts: those neither cached nor loading, each at its
/// first occurrence.
pub open spec fn requested_lumps(
    lumps: Map<Point3, Seq<LumpFace>>,
    loading: Set<Point3>,
    ps: Seq<Point3>,
) -> Seq<Point3>
    decreases ps.len(),
{
    if ps.len() == 0 {
        Seq::empty()
    } else {
        let prev = requested_lumps(lumps, loading, ps.drop_last());
        let p = ps.last();
        if lumps.contains_key(p) || loading.contains(p) || prev.contains(p) {
            prev
        } else {
            prev.push(p)
        }
    }
}

/// The lumps whose loading starts are each named once, are neither cached nor loading, and
/// are among the lumps looked at; every lump looked at that is neither cached nor loading is
/// among them.
pub proof fn lemma_requested_lumps_fresh(
    lumps: Map<Point3, Seq<LumpFace>>,
    loading: Set<Point3>,
    ps: Seq<Point3>,
)
    ensures
        requested_lumps(lumps, loading, ps).no_duplicates(),
        forall|q: Point3| #[trigger]
            requested_lumps(lumps, loading, ps).contains(q) ==> ps.contains(q) && !lumps.contains_key(q)
                && !loading.contains(q),
        forall|q: Point3|
            ps.contains(q) && !lumps.contains_key(q) && !loading.contains(q) ==> #[trigger] requested_lumps(
                lumps,
                loading,
                ps,
            ).contains(q),
    decreases ps.len(),
{
    if ps.len() > 0 {
        let prefix = ps.drop_last();
        let p = ps.last();
        let prev = requested_lumps(lumps, loading, prefix);
        lemma_requested_lumps_fresh(lumps, loading, prefix);
        assert forall|q: Point3| #[trigger] prefix.contains(q) implies ps.contains(q) by {
            let k = choose|k: int| 0 <= k < prefix.len() && prefix[k] == q;
            assert(ps[k] == q);
        }
        assert forall|q: Point3| #[trigger] ps.contains(q) implies prefix.contains(q) || q == p by {
            let k = choose|k: int| 0 <= k < ps.len() && ps[k] == q;
            if k < prefix.len() {
                assert(prefix[k] == q);
            }
        }
        assert(ps.contains(p)) by {
            assert(ps[ps.len() - 1] == p);
        }
        if !(lumps.contains_key(p) || loading.contains(p) || prev.contains(p)) {
            let r = prev.push(p);
            assert forall|q: Point3| #[trigger] r.contains(q) implies prev.contains(q) || q == p by {
                let k = choose|k: int| 0 <= k < r.len() && r[k] == q;
                if k < prev.len() {
                    assert(prev[k] == q);
                }
            }
            assert forall|q: Point3| prev.contains(q) implies #[trigger] r.contains(q) by {
                let k = choose|k: int| 0 <= k < prev.len() && prev[k] == q;
                assert(r[k] == q);
            }
            assert(r[prev.len() as int] == p);
        }
    }
}

/// Where every lump looked at is cached or loading, none starts loading.
proof fn lemma_requested_lumps_none(
    lumps: Map<Point3, Seq<LumpFace>>,
    loading: Set<Point3>,
    ps: Seq<Point3>,
)
    requires
        forall|q: Point3| #[trigger] ps.contains(q) ==> lumps.contains_key(q) || loading.contains(q),
    ensures
        requested_lumps(lumps, loading, ps) == Seq::<Point3>::empty(),
    decreases ps.len(),
{
    if ps.len() > 0 {
        let prefix = ps.drop_last();
        assert forall|q: Point3| #[trigger] prefix.contains(q) implies lumps.contains_key(q) || loading.contains(q) by {
            let k = choose|k: int| 0 <= k < prefix.len() && prefix[k] == q;
            assert(ps[k] == q);
            assert(ps.contains(q));
        }
        lemma_requested_lumps_none(lumps, loading, prefix);
        assert(ps.contains(ps.last())) by {
            assert(ps[ps.len() - 1] == ps.last());
        }
    }
}

/// Looking again at the same lumps, before any loading ends, starts no loading: every lump
/// that the first look did not find cached is then loading.
pub proof fn lemma_spectate_requests_once(
    lumps: Map<Point3, Seq<LumpFace>>,
    loading: Set<Point3>,
    ps: Seq<Point3>,
)
    ensures
        requested_lumps(lumps, loading + requested_lumps(lumps, loading, ps).to_set(), ps)
            == Seq::<Point3>::empty(),
{
    let req = requested_lumps(lumps, loading, ps);
    lemma_requested_lumps_fresh(lumps, loading, ps);
    assert forall|q: Point3| #[trigger] ps.contains(q) implies lumps.contains_key(q) || (loading
        + req.to_set()).contains(q) by {
        if !lumps.contains_key(q) && !loading.contains(q) {
            assert(req.contains(q));
            assert(req.to_set().contains(q));
        }
    }
    lemma_requested_lumps_none(lumps, loading + req.to_set(), ps);
}

/// Whether a cached lump stays when the spectator is at slot position `s`.
pub open spec fn lump_kept(s: Point3, l: Point3, max_distance: u32, n: u32) -> bool {
    spec_chebyshev_distance(lump_of(s, n as int), l) < max_distance / n
}

/// What a spectator has seen of the world: the faces of the lumps it has loaded, and the
/// lumps whose loading has started and not ended. A lump holds `N` slots along each axis.
pub struct Spectator<const N: u32> {
    lump: HashMap<i128, (Point3, Vec<LumpFace>)>,
    loading_lump: HashSet<i128>,
}

impl<const N: u32> Spectator<N> {
    /// The number of slots of a lump along each axis.
    pub fn lump_size() -> (r: u32)
        ensures
            r == N,
    {
        N
    }

    /// Every cached lump is stored under the number of its own position.
    pub closed spec fn wf(&self) -> bool {
        forall|c: i128| #[trigger]
            self.lump@.contains_key(c) ==> point_code(self.lump@[c].0) == c
    }

    /// The cached lumps, by position.
    pub closed spec fn lumps(&self) -> Map<Point3, Seq<LumpFace>> {
        Map::new(
            |p: Point3| self.lump@.contains_key(point_code(p)),
            |p: Point3| self.lump@[point_code(p)].1@,
        )
    }

    /// The lumps whose loading has started and not ended.
    pub closed spec fn loading(&self) -> Set<Point3> {
        Set::new(|p: Point3| self.loading_lump@.contains(point_code(p)))
    }

    /// The faces cached for lump `p_lump_position`, if it is cached.
    pub fn lump(&self, p_lump_position: Point3) -> (r: Option<&Vec<LumpFace>>)
        requires
            self.wf(),
        ensures
            match r {
                Some(v) => self.lumps().contains_key(p_lump_position) && v@ == self.lumps()[p_lump_position],
                None => !self.lumps().contains_key(p_lump_position),
            },
    {
        let code = compute_point_code(&p_lump_position);
        match self.lump.get(&code) {
            Some(pair) => Some(&pair.1),
            None => None,
        }
    }

    /// Whether the loading of lump `p_lump_position` has started and not ended.
    pub fn is_loading(&self, p_lump_position: Point3) -> (r: bool)
        ensures
            r == self.loading().contains(p_lump_position),
    {
        let code = compute_point_code(&p_lump_position);
        self.loading_lump.contains(&code)
    }
}

impl<const N: u32> Spectator<N> {
    /// Storing `v` under the number of `p` stores it under `p` and changes no other lump.
    proof fn lemma_lump_stored(&self, before: Self, p: Point3, v: Vec<LumpFace>)
        requires
            before.wf(),
            self.lump@ == before.lump@.insert(point_code(p), (p, v)),
        ensures
            self.wf(),
            self.lumps() == before.lumps().insert(p, v@),
    {
        assert forall|q: Point3|
            #![auto]
            self.lumps().contains_key(q) == before.lumps().insert(p, v@).contains_key(q)
                && (self.lumps().contains_key(q) ==> self.lumps()[q] == before.lumps().insert(p, v@)[q]) by {
            if point_code(q) == point_code(p) {
                lemma_point_code_injective(q, p);
            }
        }
        assert(self.lumps() =~= before.lumps().insert(p, v@));
    }

    /// The numbers under which the lumps are stored, each once.
    fn lump_codes(&self) -> (r: Vec<i128>)
        ensures
            r@.to_set() == self.lump@.dom(),
            r@.no_duplicates(),
    {
        let mut r: Vec<i128> = Vec::new();
        let ghost s = vstd::std_specs::hash::spec_keys_iter(&self.lump).remaining();
        proof {
            vstd::std_specs::hash::axiom_spec_keys_iter(&self.lump);
        }
        for code in it: self.lump.keys()
            invariant
                it.seq() == s,
                s.no_duplicates(),
                s.unref().to_set() == self.lump@.dom(),
                r@.len() == it.index(),
                forall|j: int| 0 <= j < it.index() ==> #[trigger] r@[j] == *s[j],
        {
            r.push(*code);
        }
        proof {
            assert(r@ =~= s.unref());
        }
        r
    }

    /// Computes the faces of lump `p_lump_position` from the world and caches them, in place
    /// of what was cached for it. Reading a slot whose chunk is not there stores an empty
    /// chunk, which changes no slot.
    pub fn load_to_lump(&mut self, p_geosphere: &mut PassiveGeosphere, p_lump_position: Point3)
        requires
            old(self).wf(),
            old(p_geosphere).wf(),
            0 < N <= i32::MAX,
            lump_in_range(p_lump_position, N as int),
        ensures
            final(self).wf(),
            final(self).lumps() == old(self).lumps().insert(
                p_lump_position,
                faces_of_points(
                    lump_cluster(p_lump_position, N as int).ordered_points(),
                    old(p_geosphere).chunk_map@,
                    old(p_geosphere).cube_registry.cube_map(),
                ),
            ),
            final(self).loading() == old(self).loading(),
            final(p_geosphere).wf(),
            final(p_geosphere).cube_registry == old(p_geosphere).cube_registry,
            forall|q: Point3| #[trigger] world_slot(final(p_geosphere).chunk_map@, q) == world_slot(old(p_geosphere).chunk_map@, q),
    {
        let instances = load_lump_faces(p_geosphere, p_lump_position, N);
        let code = compute_point_code(&p_lump_position);
        let ghost before = *self;
        let ghost v = instances;
        self.lump.insert(code, (p_lump_position, instances));
        proof {
            self.lemma_lump_stored(before, p_lump_position, v);
        }
    }

    /// Loads a lump whose loading started, and ends its loading: the faces are cached and the
    /// lump is no longer loading.
    pub fn load_requested_lump(&mut self, p_geosphere: &mut PassiveGeosphere, p_lump_position: Point3)
        requires
            old(self).wf(),
            old(p_geosphere).wf(),
            0 < N <= i32::MAX,
            lump_in_range(p_lump_position, N as int),
        ensures
            final(self).wf(),
            final(self).lumps() == old(self).lumps().insert(
                p_lump_position,
                faces_of_points(
                    lump_cluster(p_lump_position, N as int).ordered_points(),
                    old(p_geosphere).chunk_map@,
                    old(p_geosphere).cube_registry.cube_map(),
                ),
            ),
            final(self).loading() == old(self).loading().remove(p_lump_position),
            final(p_geosphere).wf(),
            final(p_geosphere).cube_registry == old(p_geosphere).cube_registry,
            forall|q: Point3| #[trigger] world_slot(final(p_geosphere).chunk_map@, q) == world_slot(old(p_geosphere).chunk_map@, q),
    {
        self.load_to_lump(p_geosphere, p_lump_position);
        let code = compute_point_code(&p_lump_position);
        let ghost mid = self.loading();
        self.loading_lump.remove(&code);
        proof {
            assert forall|q: Point3| #[trigger] self.loading().contains(q) == mid.remove(p_lump_position).contains(q) by {
                if point_code(q) == code {
                    lemma_point_code_injective(q, p_lump_position);
                }
            }
            assert(self.loading() =~= mid.remove(p_lump_position));
        }
    }

    /// Looks at the lumps `p_lump_positions`, in order: gives the faces of those that are
    /// cached, lump after lump, and the lumps whose loading starts now, those neither cached
    /// nor loading, each once. The started lumps are then loading.
    pub fn spectate(&mut self, p_lump_positions: &Vec<Point3>) -> (r: (Vec<LumpFace>, Vec<Point3>))
        requires
            old(self).wf(),
        ensures
            final(self).wf(),
            final(self).lumps() == old(self).lumps(),
            r.0@ == cached_faces(old(self).lumps(), p_lump_positions@),
            r.1@ == requested_lumps(old(self).lumps(), old(self).loading(), p_lump_positions@),
            r.1@.no_duplicates(),
            forall|q: Point3| #[trigger]
                r.1@.contains(q) ==> !old(self).lumps().contains_key(q) && !old(self).loading().contains(q),
            final(self).loading() == old(self).loading() + r.1@.to_set(),
    {
        let ghost lumps0 = self.lumps();
        let ghost loading0 = self.loading();
        let mut faces: Vec<LumpFace> = Vec::new();
        let mut requested: Vec<Point3> = Vec::new();
        let mut i: usize = 0;
        proof {
            assert(p_lump_positions@.take(0) =~= Seq::<Point3>::empty());
            assert(requested@.to_set() =~= Set::<Point3>::empty());
            assert(loading0 + requested@.to_set() =~= loading0);
        }
        while i < p_lump_positions.len()
            invariant
                self.wf(),
                self.lump@ == old(self).lump@,
                lumps0 == old(self).lumps(),
                loading0 == old(self).loading(),
                i <= p_lump_positions@.len(),
                faces@ == cached_faces(lumps0, p_lump_positions@.take(i as int)),
                requested@ == requested_lumps(lumps0, loading0, p_lump_positions@.take(i as int)),
                self.loading() == loading0 + requested@.to_set(),
            decreases p_lump_positions@.len() - i,
        {
            let p = p_lump_positions[i];
            let code = compute_point_code(&p);
            proof {
                assert(p_lump_positions@.take(i + 1).drop_last() =~= p_lump_positions@.take(i as int));
                assert(p_lump_positions@.take(i + 1).last() == p);
            }
            match self.lump.get(&code) {
                Some(pair) => {
                    proof {
                        assert(lumps0.contains_key(p));
                        assert(lumps0[p] == pair.1@);
                    }
                    let ghost f0 = faces@;
                    let mut j: usize = 0;
                    while j < pair.1.len()
                        invariant
                            j <= pair.1@.len(),
                            faces@ == f0 + pair.1@.take(j as int),
                        decreases pair.1@.len() - j,
                    {
                        faces.push(pair.1[j]);
                        proof {
                            assert(faces@ =~= f0 + pair.1@.take(j + 1));
                        }
                        j = j + 1;
                    }
                    proof {
                        assert(pair.1@.take(pair.1@.len() as int) =~= pair.1@);
                    }
                },
                None => {
                    proof {
                        assert(!lumps0.contains_key(p));
                    }
                    let ghost before = self.loading();
                    if !self.loading_lump.contains(&code) {
                        proof {
                            assert(!self.loading_lump@.contains(code));
                            assert(!self.loading().contains(p));
                            assert(!loading0.contains(p));
                            assert(!requested@.contains(p)) by {
                                if requested@.contains(p) {
                                    assert(requested@.to_set().contains(p));
                                }
                            }
                        }
                        let ghost old_ll = self.loading_lump@;
                        let ghost old_req = requested@;
                        self.loading_lump.insert(code);
                        requested.push(p);
                        proof {
                            assert forall|q: Point3| #[trigger] self.loading().contains(q) == (loading0 + requested@.to_set()).contains(q) by {
                                assert(self.loading().contains(q) == self.loading_lump@.contains(point_code(q)));
                                assert(before.contains(q) == old_ll.contains(point_code(q)));
                                assert(before.contains(q) == (loading0.contains(q) || old_req.to_set().contains(q)));
                                if point_code(q) == code {
                                    lemma_point_code_injective(q, p);
                                }
                                if requested@.contains(q) && q != p {
                                    let k = choose|k: int| 0 <= k < requested@.len() && requested@[k] == q;
                                    assert(old_req[k] == q);
                                }
                                if old_req.contains(q) {
                                    let k = choose|k: int| 0 <= k < old_req.len() && old_req[k] == q;
                                    assert(requested@[k] == q);
                                }
                                if q == p {
                                    assert(requested@[old_req.len() as int] == q);
                                }
                            }
                            assert(self.loading() =~= loading0 + requested@.to_set());
                        }
                    } else {
                        proof {
                            assert(before.contains(p));
                            assert(loading0.contains(p) || requested@.contains(p));
                        }
                    }
                },
            }
            i = i + 1;
        }
        proof {
            assert(p_lump_positions@.take(p_lump_positions@.len() as int) =~= p_lump_positions@);
            lemma_requested_lumps_fresh(lumps0, loading0, p_lump_positions@);
        }
        (faces, requested)
    }

    /// Drops from the cache every lump that is too far from slot position `p_slot_position`:
    /// a lump stays when its Chebyshev distance, in lumps, from the lump of that slot is below
    /// `p_max_chebyshev_slot_distance` divided by the lump size, rounding down.
    pub fn purge_cache_beyond(&mut self, p_slot_position: Point3, p_max_chebyshev_slot_distance: u32)
        requires
            old(self).wf(),
            0 < N <= i32::MAX,
        ensures
            final(self).wf(),
            final(self).loading() == old(self).loading(),
            forall|q: Point3| #[trigger]
                final(self).lumps().contains_key(q) <==> old(self).lumps().contains_key(q) && lump_kept(
                    p_slot_position,
                    q,
                    p_max_chebyshev_slot_distance,
                    N,
                ),
            forall|q: Point3| #[trigger] final(self).lumps().contains_key(q) ==> final(self).lumps()[q] == old(self).lumps()[q],
    {
        let codes = self.lump_codes();
        let mut i: usize = 0;
        while i < codes.len()
            invariant
                self.wf(),
                self.loading_lump@ == old(self).loading_lump@,
                0 < N <= i32::MAX,
                i <= codes@.len(),
                codes@.no_duplicates(),
                codes@.to_set() == old(self).lump@.dom(),
                forall|q: Point3| #[trigger]
                    self.lumps().contains_key(q) <==> old(self).lumps().contains_key(q) && (lump_kept(
                        p_slot_position,
                        q,
                        p_max_chebyshev_slot_distance,
                        N,
                    ) || !codes@.take(i as int).contains(point_code(q))),
                forall|q: Point3| #[trigger] self.lumps().contains_key(q) ==> self.lumps()[q] == old(self).lumps()[q],
            decreases codes@.len() - i,
        {
            let code = codes[i];
            proof {
                assert(codes@.to_set().contains(code));
                assert(!codes@.take(i as int).contains(code)) by {
                    if codes@.take(i as int).contains(code) {
                        let j = choose|j: int| 0 <= j < i && #[trigger] codes@.take(i as int)[j] == code;
                        assert(codes@[j] == codes@[i as int]);
                    }
                }
                assert forall|c: i128| #[trigger] codes@.take(i + 1).contains(c) == (codes@.take(i as int).contains(c) || c == code) by {
                    if codes@.take(i + 1).contains(c) {
                        let j = choose|j: int| 0 <= j < i + 1 && #[trigger] codes@.take(i + 1)[j] == c;
                        if j < i {
                            assert(codes@.take(i as int)[j] == c);
                        }
                    }
                    if codes@.take(i as int).contains(c) {
                        let j = choose|j: int| 0 <= j < i && #[trigger] codes@.take(i as int)[j] == c;
                        assert(codes@.take(i + 1)[j] == c);
                    }
                    if c == code {
                        assert(codes@.take(i + 1)[i as int] == c);
                    }
                }
            }
            let keep = match self.lump.get(&code) {
                Some(pair) => keeps_lump(p_slot_position, pair.0, p_max_chebyshev_slot_distance, N),
                None => true,
            };
            let ghost before = *self;
            proof {
                assert(before.lump@.contains_key(code) ==> keep == lump_kept(
                    p_slot_position,
                    before.lump@[code].0,
                    p_max_chebyshev_slot_distance,
                    N,
                ));
            }
            if !keep {
                self.lump.remove(&code);
            }
            proof {
                assert forall|q: Point3| #[trigger]
                    self.lumps().contains_key(q) <==> old(self).lumps().contains_key(q) && (lump_kept(
                        p_slot_position,
                        q,
                        p_max_chebyshev_slot_distance,
                        N,
                    ) || !codes@.take(i + 1).contains(point_code(q))) by {
                    assert(self.lumps().contains_key(q) == self.lump@.contains_key(point_code(q)));
                    assert(before.lumps().contains_key(q) == before.lump@.contains_key(point_code(q)));
                    assert(codes@.take(i + 1).contains(point_code(q)) == (codes@.take(i as int).contains(
                        point_code(q),
                    ) || point_code(q) == code));
                    if point_code(q) == code {
                        if before.lump@.contains_key(code) {
                            lemma_point_code_injective(q, before.lump@[code].0);
                        }
                    } else {
                        assert(self.lump@.contains_key(point_code(q)) == before.lump@.contains_key(
                            point_code(q),
                        ));
                    }
                }
                assert forall|q: Point3| #[trigger] self.lumps().contains_key(q) implies self.lumps()[q] == old(self).lumps()[q] by {
                    assert(before.lumps().contains_key(q));
                }
            }
            i = i + 1;
        }
        proof {
            assert(codes@.take(codes@.len() as int) =~= codes@);
            assert forall|q: Point3| #[trigger] self.lumps().contains_key(q) implies lump_kept(
                p_slot_position,
                q,
                p_max_chebyshev_slot_distance,
                N,
            ) by {
                assert(old(self).lump@.dom().contains(point_code(q)));
                assert(codes@.to_set().contains(point_code(q)));
            }
        }
    }
}

impl<const N: u32> Default for Spectator<N> {
    /// A spectator that has seen nothing.
    fn default() -> (r: Self)
        ensures
            r.wf(),
            r.lumps() == Map::<Point3, Seq<LumpFace>>::empty(),
            r.loading() == Set::<Point3>::empty(),
    {
        let r = Spectator::<N> { lump: HashMap::new(), loading_lump: HashSet::new() };
        assert(r.lumps() =~= Map::<Point3, Seq<LumpFace>>::empty());
        assert(r.loading() =~= Set::<Point3>::empty());
        r
    }
}

} // verus!
