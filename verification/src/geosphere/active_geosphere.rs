use vstd::prelude::*;
use crate::geosphere::chunk::{ChunkLoadData, 
    Chunk, ChunkKey, ChunkLoader, ChunkSaver, SampleChunkLoader, SampleChunkSaver,
};
use crate::viewport::serializable_texture_image::decoded_rgba8;
use crate::geosphere::chunk_map::ChunkMap;
use crate::geosphere::cube::{
    builder_images, built_cubes, built_images, Cube, CubeRegistry, CubeRegistryBuilder,
};
use crate::geosphere::passive_geosphere::slot_cube_of;
use crate::spectator::{chebyshev_distance, spec_chebyshev_distance};
use crate::geosphere::morton::{
    chunk_cluster, chunk_origin, local_position, morton_code, lemma_morton_code_bound, Morton4,
};
use crate::geosphere::passive_geosphere::lemma_same_slot_position;
use crate::geosphere::point_cluster::{Point3, PointCluster};
use crate::geosphere::slot::Slot;

verus! {

/// The lowest chunk coordinate whose slots, and the slots next to them, have `i32` coordinates.
pub const CHUNK_BAKE_MIN: i32 = -134217727;

/// The highest chunk coordinate whose slots, and the slots next to them, have `i32` coordinates.
pub const CHUNK_BAKE_MAX: i32 = 134217726;

/// The number of chunk coordinates from `CHUNK_BAKE_MIN` to `CHUNK_BAKE_MAX`.
pub open spec fn bake_span() -> int {
    CHUNK_BAKE_MAX - CHUNK_BAKE_MIN + 1
}

/// The number of chunk keys whose coordinates all lie from `CHUNK_BAKE_MIN` to `CHUNK_BAKE_MAX`.
pub open spec fn bake_volume() -> int {
    bake_span() * bake_span() * bake_span()
}

/// Whether chunk `c` and the slots around it can be addressed without overflow.
pub open spec fn chunk_bakeable(c: Point3) -> bool {
    &&& CHUNK_BAKE_MIN <= c.x <= CHUNK_BAKE_MAX
    &&& CHUNK_BAKE_MIN <= c.y <= CHUNK_BAKE_MAX
    &&& CHUNK_BAKE_MIN <= c.z <= CHUNK_BAKE_MAX
}

/// The key of the chunk that holds slot `p`.
pub open spec fn chunk_key_of(p: Point3) -> ChunkKey {
    ChunkKey(chunk_origin(p))
}

/// The index of slot `p` in its chunk.
pub open spec fn slot_code(p: Point3) -> int {
    morton_code(local_position(p)) as int
}

/// The slots of each chunk in a map of chunks.
pub open spec fn chunk_views(m: Map<ChunkKey, Chunk>) -> Map<ChunkKey, Seq<Slot>> {
    m.map_values(|c: Chunk| c@)
}

/// Whether the chunk that holds slot `p` is in `v`.
pub open spec fn loaded(v: Map<ChunkKey, Seq<Slot>>, p: Point3) -> bool {
    v.contains_key(chunk_key_of(p))
}

/// The slot at `p` in `v`; a slot of a chunk that is not there is empty.
pub open spec fn world_at(v: Map<ChunkKey, Seq<Slot>>, p: Point3) -> Slot {
    if loaded(v, p) {
        v[chunk_key_of(p)][slot_code(p)]
    } else {
        Slot::spec_default()
    }
}

/// `v` with the slot at `p` replaced by `s`; the chunk of `p` is meant to be there.
pub open spec fn with_slot(v: Map<ChunkKey, Seq<Slot>>, p: Point3, s: Slot) -> Map<
    ChunkKey,
    Seq<Slot>,
> {
    v.insert(chunk_key_of(p), v[chunk_key_of(p)].update(slot_code(p), s))
}

/// The slot next to `p` in direction `d`: up, down, left, right, front, back for `d` from 0 to 5.
pub open spec fn neighbor(p: Point3, d: int) -> Point3 {
    if d == 0 {
        Point3 { x: p.x, y: (p.y + 1) as i32, z: p.z }
    } else if d == 1 {
        Point3 { x: p.x, y: (p.y - 1) as i32, z: p.z }
    } else if d == 2 {
        Point3 { x: (p.x - 1) as i32, y: p.y, z: p.z }
    } else if d == 3 {
        Point3 { x: (p.x + 1) as i32, y: p.y, z: p.z }
    } else if d == 4 {
        Point3 { x: p.x, y: p.y, z: (p.z - 1) as i32 }
    } else {
        Point3 { x: p.x, y: p.y, z: (p.z + 1) as i32 }
    }
}

/// Whether slot `s` draws its face in direction `d`.
pub open spec fn face_shown(s: Slot, d: int) -> bool {
    if d == 0 {
        s.display_upward_quad
    } else if d == 1 {
        s.display_downward_quad
    } else if d == 2 {
        s.display_left_quad
    } else if d == 3 {
        s.display_right_quad
    } else if d == 4 {
        s.display_front_quad
    } else {
        s.display_back_quad
    }
}

/// The face of `p` in direction `d` is drawn exactly when the slot next to it holds no cube, and
/// the chunk of that slot is there.
pub open spec fn face_baked(v: Map<ChunkKey, Seq<Slot>>, p: Point3, d: int) -> bool {
    &&& loaded(v, neighbor(p, d))
    &&& face_shown(world_at(v, p), d) == (world_at(v, neighbor(p, d)).cube_instance is None)
}

/// The chunk of `p` is there and each of the six faces of `p` is baked.
pub open spec fn hidden_faces_baked(v: Map<ChunkKey, Seq<Slot>>, p: Point3) -> bool {
    &&& loaded(v, p)
    &&& face_baked(v, p, 0)
    &&& face_baked(v, p, 1)
    &&& face_baked(v, p, 2)
    &&& face_baked(v, p, 3)
    &&& face_baked(v, p, 4)
    &&& face_baked(v, p, 5)
}

/// The face of `p` in direction `d` is drawn in `c` as in `a`, or it is baked in `c`.
pub open spec fn face_kept_or_baked(
    a: Map<ChunkKey, Seq<Slot>>,
    c: Map<ChunkKey, Seq<Slot>>,
    p: Point3,
    d: int,
) -> bool {
    face_shown(world_at(c, p), d) == face_shown(world_at(a, p), d) || face_baked(c, p, d)
}

/// Slot `p` holds the same cube in `c` as in `a`, and each of its faces is kept or baked.
pub open spec fn slot_evolves(a: Map<ChunkKey, Seq<Slot>>, c: Map<ChunkKey, Seq<Slot>>, p: Point3) -> bool {
    &&& world_at(c, p).cube_instance == world_at(a, p).cube_instance
    &&& face_kept_or_baked(a, c, p, 0)
    &&& face_kept_or_baked(a, c, p, 1)
    &&& face_kept_or_baked(a, c, p, 2)
    &&& face_kept_or_baked(a, c, p, 3)
    &&& face_kept_or_baked(a, c, p, 4)
    &&& face_kept_or_baked(a, c, p, 5)
}

/// What loading and baking may do to the chunks in memory: no chunk leaves, no placed cube
/// changes, and a face of a slot that was there changes only to its baked value.
pub open spec fn evolves(a: Map<ChunkKey, Seq<Slot>>, c: Map<ChunkKey, Seq<Slot>>) -> bool {
    &&& a.dom().subset_of(c.dom())
    &&& forall|p: Point3| #![trigger world_at(c, p)] loaded(a, p) ==> slot_evolves(a, c, p)
}

/// A baked face stays baked while the chunks evolve.
proof fn lemma_face_baked_kept(b: Map<ChunkKey, Seq<Slot>>, c: Map<ChunkKey, Seq<Slot>>, p: Point3, d: int)
    requires
        evolves(b, c),
        loaded(b, p),
        face_baked(b, p, d),
        face_shown(world_at(c, p), d) == face_shown(world_at(b, p), d),
    ensures
        face_baked(c, p, d),
{
    let q = neighbor(p, d);
    assert(loaded(b, q));
    assert(slot_evolves(b, c, q));
}

proof fn lemma_face_trans(
    a: Map<ChunkKey, Seq<Slot>>,
    b: Map<ChunkKey, Seq<Slot>>,
    c: Map<ChunkKey, Seq<Slot>>,
    p: Point3,
    d: int,
)
    requires
        loaded(a, p),
        loaded(b, p),
        face_kept_or_baked(a, b, p, d),
        face_kept_or_baked(b, c, p, d),
        evolves(b, c),
    ensures
        face_kept_or_baked(a, c, p, d),
{
    if !face_baked(c, p, d) && !(face_shown(world_at(b, p), d) == face_shown(world_at(a, p), d)) {
        lemma_face_baked_kept(b, c, p, d);
    }
}

/// Evolutions compose.
pub proof fn lemma_evolves_trans(
    a: Map<ChunkKey, Seq<Slot>>,
    b: Map<ChunkKey, Seq<Slot>>,
    c: Map<ChunkKey, Seq<Slot>>,
)
    requires
        evolves(a, b),
        evolves(b, c),
    ensures
        evolves(a, c),
{
    assert forall|p: Point3| #![trigger world_at(c, p)] loaded(a, p) implies slot_evolves(a, c, p) by {
        assert(slot_evolves(a, b, p));
        assert(loaded(b, p));
        assert(slot_evolves(b, c, p));
        lemma_face_trans(a, b, c, p, 0);
        lemma_face_trans(a, b, c, p, 1);
        lemma_face_trans(a, b, c, p, 2);
        lemma_face_trans(a, b, c, p, 3);
        lemma_face_trans(a, b, c, p, 4);
        lemma_face_trans(a, b, c, p, 5);
    }
}

proof fn lemma_face_baked_kept_any(b: Map<ChunkKey, Seq<Slot>>, c: Map<ChunkKey, Seq<Slot>>, p: Point3, d: int)
    requires
        evolves(b, c),
        loaded(b, p),
        face_baked(b, p, d),
        face_kept_or_baked(b, c, p, d),
    ensures
        face_baked(c, p, d),
{
    if !face_baked(c, p, d) {
        lemma_face_baked_kept(b, c, p, d);
    }
}

/// A slot whose faces are all baked stays so while the chunks evolve.
pub proof fn lemma_hidden_faces_baked_kept(
    b: Map<ChunkKey, Seq<Slot>>,
    c: Map<ChunkKey, Seq<Slot>>,
    p: Point3,
)
    requires
        evolves(b, c),
        hidden_faces_baked(b, p),
    ensures
        hidden_faces_baked(c, p),
{
    assert(slot_evolves(b, c, p));
    lemma_face_baked_kept_any(b, c, p, 0);
    lemma_face_baked_kept_any(b, c, p, 1);
    lemma_face_baked_kept_any(b, c, p, 2);
    lemma_face_baked_kept_any(b, c, p, 3);
    lemma_face_baked_kept_any(b, c, p, 4);
    lemma_face_baked_kept_any(b, c, p, 5);
}

/// The position of a bakeable chunk key in an enumeration of all of them.
spec fn bake_index(k: ChunkKey) -> int {
    (k.0.x - CHUNK_BAKE_MIN) * (bake_span() * bake_span()) + (k.0.y - CHUNK_BAKE_MIN) * bake_span()
        + (k.0.z - CHUNK_BAKE_MIN)
}

proof fn lemma_bake_index(a: ChunkKey, b: ChunkKey)
    requires
        chunk_bakeable(a.0),
        chunk_bakeable(b.0),
    ensures
        0 <= bake_index(a) < bake_volume(),
        bake_index(a) == bake_index(b) ==> a == b,
{
    let n = bake_span();
    assert(n == 268435454);
    let ax = a.0.x - CHUNK_BAKE_MIN;
    let ay = a.0.y - CHUNK_BAKE_MIN;
    let az = a.0.z - CHUNK_BAKE_MIN;
    let bx = b.0.x - CHUNK_BAKE_MIN;
    let by = b.0.y - CHUNK_BAKE_MIN;
    let bz = b.0.z - CHUNK_BAKE_MIN;
    assert(0 <= ax * (n * n) + ay * n + az < n * n * n) by (nonlinear_arith)
        requires
            0 <= ax < n,
            0 <= ay < n,
            0 <= az < n,
    ;
    assert(ax * (n * n) + ay * n + az == bx * (n * n) + by * n + bz ==> ax == bx && ay == by
        && az == bz) by (nonlinear_arith)
        requires
            0 <= ax < n,
            0 <= ay < n,
            0 <= az < n,
            0 <= bx < n,
            0 <= by < n,
            0 <= bz < n,
    ;
}

/// At most `bake_volume()` bakeable chunks can be in memory at once.
pub proof fn lemma_bakeable_count(keys: Set<ChunkKey>)
    requires
        keys.finite(),
        forall|k: ChunkKey| #[trigger] keys.contains(k) ==> chunk_bakeable(k.0),
    ensures
        keys.len() <= bake_volume(),
{
    let f = |k: ChunkKey| bake_index(k);
    assert forall|a: ChunkKey, b: ChunkKey|
        keys.contains(a) && keys.contains(b) && #[trigger] f(a) == #[trigger] f(b) implies a == b by {
        lemma_bake_index(a, b);
    }
    assert(vstd::relations::injective_on(f, keys));
    vstd::set_lib::lemma_map_size(keys, keys.map(f), f);
    assert forall|i: int| #[trigger] keys.map(f).contains(i) implies vstd::set_lib::set_int_range(
        0,
        bake_volume(),
    ).contains(i) by {
        let k = choose|k: ChunkKey| keys.contains(k) && f(k) == i;
        lemma_bake_index(k, k);
    }
    vstd::set_lib::lemma_int_range(0, bake_volume());
    vstd::set_lib::lemma_len_subset(keys.map(f), vstd::set_lib::set_int_range(0, bake_volume()));
}

/// Whether slot `p` and its six neighbours lie in bakeable chunks.
pub open spec fn point_bakeable(p: Point3) -> bool {
    &&& chunk_bakeable(chunk_origin(p))
    &&& chunk_bakeable(chunk_origin(neighbor(p, 0)))
    &&& chunk_bakeable(chunk_origin(neighbor(p, 1)))
    &&& chunk_bakeable(chunk_origin(neighbor(p, 2)))
    &&& chunk_bakeable(chunk_origin(neighbor(p, 3)))
    &&& chunk_bakeable(chunk_origin(neighbor(p, 4)))
    &&& chunk_bakeable(chunk_origin(neighbor(p, 5)))
}

/// Whether every slot of the cluster and its neighbours lie in bakeable chunks.
pub open spec fn cluster_bakeable(c: PointCluster) -> bool {
    forall|p: Point3| c.contains(p) ==> #[trigger] point_bakeable(p)
}

/// How many bakeable chunks are not in `v`, when every chunk in `v` is bakeable.
pub open spec fn unloaded_count(v: Map<ChunkKey, Seq<Slot>>) -> int {
    bake_volume() - v.dom().len()
}

/// Slot `s` with its face in direction `d` drawn or not as `v` says.
pub open spec fn with_face(s: Slot, d: int, v: bool) -> Slot {
    if d == 0 {
        Slot { display_upward_quad: v, ..s }
    } else if d == 1 {
        Slot { display_downward_quad: v, ..s }
    } else if d == 2 {
        Slot { display_left_quad: v, ..s }
    } else if d == 3 {
        Slot { display_right_quad: v, ..s }
    } else if d == 4 {
        Slot { display_front_quad: v, ..s }
    } else {
        Slot { display_back_quad: v, ..s }
    }
}

fn neighbor_of(p: Point3, d: u8) -> (r: Point3)
    requires
        chunk_bakeable(chunk_origin(p)),
        d < 6,
    ensures
        r == neighbor(p, d as int),
{
    if d == 0 {
        Point3 { x: p.x, y: p.y + 1, z: p.z }
    } else if d == 1 {
        Point3 { x: p.x, y: p.y - 1, z: p.z }
    } else if d == 2 {
        Point3 { x: p.x - 1, y: p.y, z: p.z }
    } else if d == 3 {
        Point3 { x: p.x + 1, y: p.y, z: p.z }
    } else if d == 4 {
        Point3 { x: p.x, y: p.y, z: p.z - 1 }
    } else {
        Point3 { x: p.x, y: p.y, z: p.z + 1 }
    }
}

fn set_face(s: &mut Slot, d: u8, v: bool)
    requires
        d < 6,
    ensures
        *final(s) == with_face(*old(s), d as int, v),
{
    if d == 0 {
        s.display_upward_quad = v;
    } else if d == 1 {
        s.display_downward_quad = v;
    } else if d == 2 {
        s.display_left_quad = v;
    } else if d == 3 {
        s.display_right_quad = v;
    } else if d == 4 {
        s.display_front_quad = v;
    } else {
        s.display_back_quad = v;
    }
}

/// Replacing one slot changes the world at that slot and nowhere else.
pub proof fn lemma_with_slot_world(v: Map<ChunkKey, Seq<Slot>>, p: Point3, s: Slot, q: Point3)
    requires
        loaded(v, p),
        v[chunk_key_of(p)].len() == crate::geosphere::morton::MAX,
    ensures
        world_at(with_slot(v, p, s), q) == (if q == p {
            s
        } else {
            world_at(v, q)
        }),
        with_slot(v, p, s).dom() == v.dom(),
{
    lemma_morton_code_bound(local_position(p));
    lemma_morton_code_bound(local_position(q));
    if q != p && chunk_key_of(q) == chunk_key_of(p) && slot_code(q) == slot_code(p) {
        lemma_same_slot_position(p, q);
    }
    assert(with_slot(v, p, s).dom() =~= v.dom());
}

/// Putting back the slot that is there changes nothing.
proof fn lemma_with_slot_same(v: Map<ChunkKey, Seq<Slot>>, p: Point3)
    requires
        loaded(v, p),
        v[chunk_key_of(p)].len() == crate::geosphere::morton::MAX,
    ensures
        with_slot(v, p, world_at(v, p)) == v,
{
    lemma_morton_code_bound(local_position(p));
    assert(v[chunk_key_of(p)].update(slot_code(p), world_at(v, p)) =~= v[chunk_key_of(p)]);
    assert(with_slot(v, p, world_at(v, p)) =~= v);
}

/// Adding a chunk is an evolution.
proof fn lemma_insert_evolves(v: Map<ChunkKey, Seq<Slot>>, k: ChunkKey, c: Seq<Slot>)
    requires
        !v.contains_key(k),
    ensures
        evolves(v, v.insert(k, c)),
{
    let w = v.insert(k, c);
    assert forall|p: Point3| #![trigger world_at(w, p)] loaded(v, p) implies slot_evolves(v, w, p) by {
        assert(chunk_key_of(p) != k);
        assert(world_at(w, p) == world_at(v, p));
    }
}

/// Changing one face of a slot to its baked value is an evolution, and bakes that face.
proof fn lemma_set_face_evolves(v: Map<ChunkKey, Seq<Slot>>, p: Point3, d: int, shown: bool)
    requires
        0 <= d < 6,
        loaded(v, p),
        v[chunk_key_of(p)].len() == crate::geosphere::morton::MAX,
        loaded(v, neighbor(p, d)),
        neighbor(p, d) != p,
        shown == (world_at(v, neighbor(p, d)).cube_instance is None),
    ensures
        evolves(v, with_slot(v, p, with_face(world_at(v, p), d, shown))),
        face_baked(with_slot(v, p, with_face(world_at(v, p), d, shown)), p, d),
        loaded(with_slot(v, p, with_face(world_at(v, p), d, shown)), p),
{
    let s = with_face(world_at(v, p), d, shown);
    let w = with_slot(v, p, s);
    lemma_with_slot_world(v, p, s, p);
    lemma_with_slot_world(v, p, s, neighbor(p, d));
    assert(face_baked(w, p, d));
    assert forall|q: Point3| #![trigger world_at(w, q)] loaded(v, q) implies slot_evolves(v, w, q) by {
        lemma_with_slot_world(v, p, s, q);
        if q == p {
            assert(face_kept_or_baked(v, w, q, d));
        }
    }
}

proof fn lemma_axis(c: int, lo: bool, hi: bool, v: int)
    requires
        CHUNK_BAKE_MIN <= c <= CHUNK_BAKE_MAX,
        lo ==> CHUNK_BAKE_MIN <= c - 1,
        hi ==> c + 1 <= CHUNK_BAKE_MAX,
        16 * c + (if lo {
            -1int
        } else {
            1int
        }) <= v,
        v < 16 * c + 16 + (if hi {
            1int
        } else {
            -1int
        }),
    ensures
        CHUNK_BAKE_MIN <= v / 16 <= CHUNK_BAKE_MAX,
        CHUNK_BAKE_MIN <= (v - 1) / 16 <= CHUNK_BAKE_MAX,
        CHUNK_BAKE_MIN <= (v + 1) / 16 <= CHUNK_BAKE_MAX,
        i32::MIN < v - 1,
        v + 1 < i32::MAX,
{
}

/// The cluster that loading chunk `c` bakes: its slots, one slot less on each side whose
/// neighbour chunk is not in memory, one slot more on each side whose neighbour chunk is.
pub open spec fn baking_cluster(
    c: Point3,
    lower_x: bool,
    lower_y: bool,
    lower_z: bool,
    upper_x: bool,
    upper_y: bool,
    upper_z: bool,
) -> PointCluster {
    PointCluster {
        min: Point3 {
            x: (16 * c.x + if lower_x { -1int } else { 1int }) as i32,
            y: (16 * c.y + if lower_y { -1int } else { 1int }) as i32,
            z: (16 * c.z + if lower_z { -1int } else { 1int }) as i32,
        },
        max: Point3 {
            x: (16 * c.x + 16 + if upper_x { 1int } else { -1int }) as i32,
            y: (16 * c.y + 16 + if upper_y { 1int } else { -1int }) as i32,
            z: (16 * c.z + 16 + if upper_z { 1int } else { -1int }) as i32,
        },
    }
}

/// The test of being `p`.
pub open spec fn at_point(p: Point3) -> spec_fn(Point3) -> bool {
    |q: Point3| q == p
}

/// The test of lying in cluster `c`.
pub open spec fn in_cluster(c: PointCluster) -> spec_fn(Point3) -> bool {
    |q: Point3| c.contains(q)
}

/// Staying the same outside a region is transitive.
proof fn lemma_same_outside_trans(
    a: Map<ChunkKey, Seq<Slot>>,
    b: Map<ChunkKey, Seq<Slot>>,
    c: Map<ChunkKey, Seq<Slot>>,
    f: spec_fn(Point3) -> bool,
)
    requires
        same_outside(a, b, f),
        same_outside(b, c, f),
    ensures
        same_outside(a, c, f),
{
    assert forall|q: Point3| !f(q) implies #[trigger] world_at(c, q) == world_at(a, q) by {
        assert(world_at(c, q) == world_at(b, q));
    }
}

/// Staying the same outside a region stays so outside a larger one.
proof fn lemma_same_outside_wider(
    a: Map<ChunkKey, Seq<Slot>>,
    c: Map<ChunkKey, Seq<Slot>>,
    f: spec_fn(Point3) -> bool,
    g: spec_fn(Point3) -> bool,
)
    requires
        same_outside(a, c, f),
        forall|q: Point3| #[trigger] f(q) ==> g(q),
    ensures
        same_outside(a, c, g),
{
    assert forall|q: Point3| !g(q) implies #[trigger] world_at(c, q) == world_at(a, q) by {
        assert(!f(q));
    }
}

/// One read of the chunk `k` from the chunks `a`, giving `b`: reading may load chunks and bake
/// faces, ends with `k` in memory, and changes nothing when `k` was in memory already.
pub open spec fn read_step(a: Map<ChunkKey, Seq<Slot>>, b: Map<ChunkKey, Seq<Slot>>, k: ChunkKey) -> bool {
    &&& evolves(a, b)
    &&& b.contains_key(k)
    &&& a.contains_key(k) ==> b == a
}

/// The chunks `vs[i + 1]` after reading the keys `keys`, one after the other, from `vs[0]`.
pub open spec fn read_chain(vs: Seq<Map<ChunkKey, Seq<Slot>>>, keys: Seq<ChunkKey>) -> bool {
    &&& vs.len() == keys.len() + 1
    &&& forall|i: int| #![trigger keys[i]] 0 <= i < keys.len() ==> read_step(vs[i], vs[i + 1], keys[i])
}

/// Reading a chunk a second time, right after the first, changes nothing: the first read left
/// it in memory.
pub proof fn lemma_read_twice(
    a: Map<ChunkKey, Seq<Slot>>,
    b: Map<ChunkKey, Seq<Slot>>,
    c: Map<ChunkKey, Seq<Slot>>,
    k: ChunkKey,
)
    requires
        read_step(a, b, k),
        read_step(b, c, k),
    ensures
        c == b,
{
}

/// Reading keys that are all in memory changes nothing at any step.
pub proof fn lemma_read_chain_in_memory(vs: Seq<Map<ChunkKey, Seq<Slot>>>, keys: Seq<ChunkKey>)
    requires
        read_chain(vs, keys),
        forall|i: int| 0 <= i < keys.len() ==> vs[0].contains_key(#[trigger] keys[i]),
    ensures
        forall|i: int| 0 <= i < vs.len() ==> #[trigger] vs[i] == vs[0],
{
    assert forall|i: int| 0 <= i < vs.len() implies #[trigger] vs[i] == vs[0] by {
        lemma_read_chain_prefix(vs, keys, i);
    }
}

proof fn lemma_read_chain_prefix(vs: Seq<Map<ChunkKey, Seq<Slot>>>, keys: Seq<ChunkKey>, i: int)
    requires
        read_chain(vs, keys),
        forall|j: int| 0 <= j < keys.len() ==> vs[0].contains_key(#[trigger] keys[j]),
        0 <= i < vs.len(),
    ensures
        vs[i] == vs[0],
    decreases i,
{
    if i > 0 {
        lemma_read_chain_prefix(vs, keys, i - 1);
        assert(read_step(vs[i - 1], vs[i], keys[i - 1]));
        assert(vs[0].contains_key(keys[i - 1]));
    }
}

/// What loading `k` into `a`, giving `b`, does with the loader's answer: the loader is asked
/// for `k` first; its failure fails the load and leaves the chunks as they were; its chunk is
/// stored as `store_loaded_chunk` says.
pub open spec fn loaded_as_answered(
    a: Map<ChunkKey, Seq<Slot>>,
    b: Map<ChunkKey, Seq<Slot>>,
    k: ChunkKey,
    before: Seq<(ChunkKey, Result<ChunkLoadData, anyhow::Error>)>,
    after: Seq<(ChunkKey, Result<ChunkLoadData, anyhow::Error>)>,
    ok: bool,
) -> bool {
    &&& after.len() > before.len()
    &&& after[before.len() as int].0 == k
    &&& match after[before.len() as int].1 {
        Err(_) => !ok && b == a,
        Ok(d) => {
            let stored = a.insert(k, d.chunk@);
            let cluster = load_baking_cluster(a, k.0);
            &&& b.contains_key(k)
            &&& evolves(stored, b)
            &&& !d.require_hidden_face_baking ==> ok && b == stored
            &&& d.require_hidden_face_baking && ok ==> forall|p: Point3|
                cluster.contains(p) ==> #[trigger] hidden_faces_baked(b, p)
            &&& d.require_hidden_face_baking && cluster_loaded(stored, cluster) ==> ok && same_outside(
                stored,
                b,
                in_cluster(cluster),
            )
        },
    }
}

/// `b` is `a` with more entries after it.
pub open spec fn answers_extend(
    a: Seq<(ChunkKey, Result<ChunkLoadData, anyhow::Error>)>,
    b: Seq<(ChunkKey, Result<ChunkLoadData, anyhow::Error>)>,
) -> bool {
    &&& a.len() <= b.len()
    &&& forall|i: int| 0 <= i < a.len() ==> #[trigger] b[i] == a[i]
}

/// `c` holds the same chunks as `a`, and the same slot at every position outside `inside`.
pub open spec fn same_outside(
    a: Map<ChunkKey, Seq<Slot>>,
    c: Map<ChunkKey, Seq<Slot>>,
    inside: spec_fn(Point3) -> bool,
) -> bool {
    &&& c.dom() == a.dom()
    &&& forall|q: Point3| !inside(q) ==> #[trigger] world_at(c, q) == world_at(a, q)
}

/// The cluster that loading chunk `c` into `v` bakes: that of `baking_cluster`, where a side
/// grows when the neighbour chunk on that side is in `v`.
pub open spec fn load_baking_cluster(v: Map<ChunkKey, Seq<Slot>>, c: Point3) -> PointCluster {
    baking_cluster(
        c,
        v.contains_key(ChunkKey(Point3 { x: (c.x - 1) as i32, y: c.y, z: c.z })),
        v.contains_key(ChunkKey(Point3 { x: c.x, y: (c.y - 1) as i32, z: c.z })),
        v.contains_key(ChunkKey(Point3 { x: c.x, y: c.y, z: (c.z - 1) as i32 })),
        v.contains_key(ChunkKey(Point3 { x: (c.x + 1) as i32, y: c.y, z: c.z })),
        v.contains_key(ChunkKey(Point3 { x: c.x, y: (c.y + 1) as i32, z: c.z })),
        v.contains_key(ChunkKey(Point3 { x: c.x, y: c.y, z: (c.z + 1) as i32 })),
    )
}

/// Whether coordinate `v` lies inside the chunk at chunk coordinate `c`, one slot away from
/// both of its borders.
pub open spec fn inner_coordinate(v: i32, c: i32) -> bool {
    16 * c + 1 <= v && v < 16 * c + 15
}

/// Loading chunk `c` into `v` bakes the slots inside it, away from its borders, and, for each
/// neighbour chunk across a face that is in `v`, the two layers that touch across that face:
/// a slot just outside one face of `c`, across from its inside, is baked exactly when its own
/// chunk is in memory, and a slot of `c` on that face exactly when the chunk of the slot next
/// to it across the face is.
pub proof fn lemma_load_baking_cluster_covers(v: Map<ChunkKey, Seq<Slot>>, c: Point3)
    requires
        chunk_bakeable(c),
    ensures
        forall|q: Point3|
            inner_coordinate(q.x, c.x) && inner_coordinate(q.y, c.y) && inner_coordinate(q.z, c.z)
                ==> #[trigger] load_baking_cluster(v, c).contains(q),
        forall|q: Point3|
            q.x == 16 * c.x - 1 && inner_coordinate(q.y, c.y) && inner_coordinate(q.z, c.z) ==> (
            #[trigger] load_baking_cluster(v, c).contains(q) <==> v.contains_key(chunk_key_of(q))),
        forall|q: Point3|
            q.x == 16 * c.x + 16 && inner_coordinate(q.y, c.y) && inner_coordinate(q.z, c.z) ==> (
            #[trigger] load_baking_cluster(v, c).contains(q) <==> v.contains_key(chunk_key_of(q))),
        forall|q: Point3|
            q.y == 16 * c.y - 1 && inner_coordinate(q.x, c.x) && inner_coordinate(q.z, c.z) ==> (
            #[trigger] load_baking_cluster(v, c).contains(q) <==> v.contains_key(chunk_key_of(q))),
        forall|q: Point3|
            q.y == 16 * c.y + 16 && inner_coordinate(q.x, c.x) && inner_coordinate(q.z, c.z) ==> (
            #[trigger] load_baking_cluster(v, c).contains(q) <==> v.contains_key(chunk_key_of(q))),
        forall|q: Point3|
            q.z == 16 * c.z - 1 && inner_coordinate(q.x, c.x) && inner_coordinate(q.y, c.y) ==> (
            #[trigger] load_baking_cluster(v, c).contains(q) <==> v.contains_key(chunk_key_of(q))),
        forall|q: Point3|
            q.z == 16 * c.z + 16 && inner_coordinate(q.x, c.x) && inner_coordinate(q.y, c.y) ==> (
            #[trigger] load_baking_cluster(v, c).contains(q) <==> v.contains_key(chunk_key_of(q))),
        forall|q: Point3|
            q.x == 16 * c.x && inner_coordinate(q.y, c.y) && inner_coordinate(q.z, c.z) ==> (
            #[trigger] load_baking_cluster(v, c).contains(q) <==> v.contains_key(chunk_key_of(neighbor(q, 2)))),
        forall|q: Point3|
            q.x == 16 * c.x + 15 && inner_coordinate(q.y, c.y) && inner_coordinate(q.z, c.z) ==> (
            #[trigger] load_baking_cluster(v, c).contains(q) <==> v.contains_key(chunk_key_of(neighbor(q, 3)))),
        forall|q: Point3|
            q.y == 16 * c.y && inner_coordinate(q.x, c.x) && inner_coordinate(q.z, c.z) ==> (
            #[trigger] load_baking_cluster(v, c).contains(q) <==> v.contains_key(chunk_key_of(neighbor(q, 1)))),
        forall|q: Point3|
            q.y == 16 * c.y + 15 && inner_coordinate(q.x, c.x) && inner_coordinate(q.z, c.z) ==> (
            #[trigger] load_baking_cluster(v, c).contains(q) <==> v.contains_key(chunk_key_of(neighbor(q, 0)))),
        forall|q: Point3|
            q.z == 16 * c.z && inner_coordinate(q.x, c.x) && inner_coordinate(q.y, c.y) ==> (
            #[trigger] load_baking_cluster(v, c).contains(q) <==> v.contains_key(chunk_key_of(neighbor(q, 4)))),
        forall|q: Point3|
            q.z == 16 * c.z + 15 && inner_coordinate(q.x, c.x) && inner_coordinate(q.y, c.y) ==> (
            #[trigger] load_baking_cluster(v, c).contains(q) <==> v.contains_key(chunk_key_of(neighbor(q, 5)))),
{
    assert forall|q: Point3|
        q.x == 16 * c.x - 1 && inner_coordinate(q.y, c.y) && inner_coordinate(q.z, c.z) implies
        chunk_key_of(q) == ChunkKey(Point3 { x: (c.x - 1) as i32, y: c.y, z: c.z }) by {}
    assert forall|q: Point3|
        q.x == 16 * c.x + 16 && inner_coordinate(q.y, c.y) && inner_coordinate(q.z, c.z) implies
        chunk_key_of(q) == ChunkKey(Point3 { x: (c.x + 1) as i32, y: c.y, z: c.z }) by {}
    assert forall|q: Point3|
        q.y == 16 * c.y - 1 && inner_coordinate(q.x, c.x) && inner_coordinate(q.z, c.z) implies
        chunk_key_of(q) == ChunkKey(Point3 { x: c.x, y: (c.y - 1) as i32, z: c.z }) by {}
    assert forall|q: Point3|
        q.y == 16 * c.y + 16 && inner_coordinate(q.x, c.x) && inner_coordinate(q.z, c.z) implies
        chunk_key_of(q) == ChunkKey(Point3 { x: c.x, y: (c.y + 1) as i32, z: c.z }) by {}
    assert forall|q: Point3|
        q.z == 16 * c.z - 1 && inner_coordinate(q.x, c.x) && inner_coordinate(q.y, c.y) implies
        chunk_key_of(q) == ChunkKey(Point3 { x: c.x, y: c.y, z: (c.z - 1) as i32 }) by {}
    assert forall|q: Point3|
        q.z == 16 * c.z + 16 && inner_coordinate(q.x, c.x) && inner_coordinate(q.y, c.y) implies
        chunk_key_of(q) == ChunkKey(Point3 { x: c.x, y: c.y, z: (c.z + 1) as i32 }) by {}
}

proof fn lemma_baking_cluster_bakeable(
    c: Point3,
    lower_x: bool,
    lower_y: bool,
    lower_z: bool,
    upper_x: bool,
    upper_y: bool,
    upper_z: bool,
)
    requires
        chunk_bakeable(c),
        lower_x ==> CHUNK_BAKE_MIN <= c.x - 1,
        lower_y ==> CHUNK_BAKE_MIN <= c.y - 1,
        lower_z ==> CHUNK_BAKE_MIN <= c.z - 1,
        upper_x ==> c.x + 1 <= CHUNK_BAKE_MAX,
        upper_y ==> c.y + 1 <= CHUNK_BAKE_MAX,
        upper_z ==> c.z + 1 <= CHUNK_BAKE_MAX,
    ensures
        cluster_bakeable(baking_cluster(c, lower_x, lower_y, lower_z, upper_x, upper_y, upper_z)),
{
    let cl = baking_cluster(c, lower_x, lower_y, lower_z, upper_x, upper_y, upper_z);
    assert forall|p: Point3| cl.contains(p) implies #[trigger] point_bakeable(p) by {
        lemma_axis(c.x as int, lower_x, upper_x, p.x as int);
        lemma_axis(c.y as int, lower_y, upper_y, p.y as int);
        lemma_axis(c.z as int, lower_z, upper_z, p.z as int);
    }
}

/// A face baked in `b` is still baked after the chunks evolve through `c1` to `c4` and on to `c`.
proof fn lemma_face_baked_later(
    b: Map<ChunkKey, Seq<Slot>>,
    c: Map<ChunkKey, Seq<Slot>>,
    p: Point3,
    d: int,
    c1: Map<ChunkKey, Seq<Slot>>,
    c2: Map<ChunkKey, Seq<Slot>>,
    c3: Map<ChunkKey, Seq<Slot>>,
    c4: Map<ChunkKey, Seq<Slot>>,
)
    requires
        loaded(b, p),
        face_baked(b, p, d),
        evolves(b, c1),
        evolves(c1, c2),
        evolves(c2, c3),
        evolves(c3, c4),
        evolves(c4, c),
    ensures
        face_baked(c, p, d),
        loaded(c, p),
{
    lemma_evolves_trans(b, c1, c2);
    lemma_evolves_trans(b, c2, c3);
    lemma_evolves_trans(b, c3, c4);
    lemma_evolves_trans(b, c4, c);
    assert(slot_evolves(b, c, p));
    if 0 <= d < 6 {
        lemma_face_baked_kept_any(b, c, p, d);
    } else {
        assert(face_kept_or_baked(b, c, p, 5));
        lemma_face_baked_kept_any(b, c, p, 5);
    }
}

proof fn lemma_views_insert(m: Map<ChunkKey, Chunk>, k: ChunkKey)
    ensures
        forall|c: Chunk| #[trigger] chunk_views(m.insert(k, c)) == chunk_views(m).insert(k, c@),
{
    assert forall|c: Chunk| #[trigger] chunk_views(m.insert(k, c)) == chunk_views(m).insert(k, c@) by {
        assert(chunk_views(m.insert(k, c)) =~= chunk_views(m).insert(k, c@));
    }
}

proof fn lemma_update_back(s: Seq<Slot>, i: int)
    requires
        0 <= i < s.len(),
    ensures
        forall|x: Slot| #[trigger] s.update(i, x).update(i, s[i]) == s,
{
    assert forall|x: Slot| #[trigger] s.update(i, x).update(i, s[i]) == s by {
        assert(s.update(i, x).update(i, s[i]) =~= s);
    }
}

proof fn lemma_insert_back(v: Map<ChunkKey, Seq<Slot>>, k: ChunkKey)
    requires
        v.contains_key(k),
    ensures
        forall|x: Seq<Slot>| #[trigger] v.insert(k, x).insert(k, v[k]) == v,
{
    assert forall|x: Seq<Slot>| #[trigger] v.insert(k, x).insert(k, v[k]) == v by {
        assert(v.insert(k, x).insert(k, v[k]) =~= v);
    }
}

/// The number of chunks not in memory only goes down while the chunks evolve.
proof fn lemma_count_shrinks(a: Map<ChunkKey, Seq<Slot>>, b: Map<ChunkKey, Seq<Slot>>)
    requires
        evolves(a, b),
        b.dom().finite(),
    ensures
        unloaded_count(b) <= unloaded_count(a),
{
    vstd::set_lib::lemma_len_subset(a.dom(), b.dom());
}

/// Whether the chunks of slot `p` and of its six neighbours are in `v`.
pub open spec fn neighborhood_loaded(v: Map<ChunkKey, Seq<Slot>>, p: Point3) -> bool {
    &&& loaded(v, p)
    &&& loaded(v, neighbor(p, 0))
    &&& loaded(v, neighbor(p, 1))
    &&& loaded(v, neighbor(p, 2))
    &&& loaded(v, neighbor(p, 3))
    &&& loaded(v, neighbor(p, 4))
    &&& loaded(v, neighbor(p, 5))
}

/// Whether the chunks of every slot of the cluster and of their neighbours are in `v`.
pub open spec fn cluster_loaded(v: Map<ChunkKey, Seq<Slot>>, c: PointCluster) -> bool {
    forall|p: Point3| c.contains(p) ==> #[trigger] neighborhood_loaded(v, p)
}

/// Whether chunk `p_chunk_position` and the slots around it can be addressed without overflow.
pub fn chunk_is_bakeable(p_chunk_position: Point3) -> (r: bool)
    ensures
        r == chunk_bakeable(p_chunk_position),
{
    CHUNK_BAKE_MIN <= p_chunk_position.x && p_chunk_position.x <= CHUNK_BAKE_MAX && CHUNK_BAKE_MIN
        <= p_chunk_position.y && p_chunk_position.y <= CHUNK_BAKE_MAX && CHUNK_BAKE_MIN
        <= p_chunk_position.z && p_chunk_position.z <= CHUNK_BAKE_MAX
}

/// The chunks in memory, where reading a slot of a chunk that is not there first loads it, and
/// loading a chunk bakes the hidden faces around it.
pub struct ActiveGeosphere {
    chunk_map: ChunkMap,
    loader: Box<dyn ChunkLoader>,
    saver: Box<dyn ChunkSaver>,
    cube_registry: CubeRegistry,
}

impl View for ActiveGeosphere {
    type V = Map<ChunkKey, Seq<Slot>>;

    /// The slots of each chunk in memory.
    closed spec fn view(&self) -> Map<ChunkKey, Seq<Slot>> {
        chunk_views(self.chunk_map@)
    }
}

impl ActiveGeosphere {
    /// The map is well formed, and every chunk in memory is bakeable.
    pub closed spec fn wf(&self) -> bool {
        &&& self.chunk_map.wf()
        &&& self.cube_registry.wf()
        &&& forall|k: ChunkKey| #[trigger] self.chunk_map@.contains_key(k) ==> chunk_bakeable(k.0)
    }

    /// The kinds of cubes.
    pub closed spec fn registry(&self) -> CubeRegistry {
        self.cube_registry
    }

    /// The chunks handed to the saver so far, with their keys, in order.
    pub closed spec fn saved_chunks(&self) -> Seq<(ChunkKey, Chunk)> {
        self.saver.saved()
    }

    /// The keys asked of the loader so far, each with its answer, in order.
    pub closed spec fn loader_answers(&self) -> Seq<(ChunkKey, Result<ChunkLoadData, anyhow::Error>)> {
        self.loader.answered()
    }

    /// Putting back the slot that a loaded position holds changes nothing.
    pub proof fn lemma_slot_read_back(&self, p: Point3, s: Slot)
        requires
            self.wf(),
            loaded(self@, p),
            world_at(self@, p) == s,
        ensures
            with_slot(self@, p, s) == self@,
    {
        self.lemma_view_facts();
        lemma_with_slot_same(self@, p);
    }

    proof fn lemma_view_facts(&self)
        requires
            self.wf(),
        ensures
            self@.dom() == self.chunk_map@.dom(),
            self@.dom().finite(),
            self@.dom().len() <= bake_volume(),
            forall|k: ChunkKey| #[trigger] self@.contains_key(k) ==> self@[k] == self.chunk_map@[k]@
                && self@[k].len() == crate::geosphere::morton::MAX,
    {
        self.chunk_map.lemma_dom_finite();
        assert(self@.dom() =~= self.chunk_map@.dom());
        lemma_bakeable_count(self.chunk_map@.dom());
        assert forall|k: ChunkKey| #[trigger] self@.contains_key(k) implies self@[k] == self.chunk_map@[k]@
            && self@[k].len() == crate::geosphere::morton::MAX by {
            self.chunk_map@[k].lemma_len();
        }
    }
}

impl ActiveGeosphere {
    /// Loads the chunk at `p_key`, which is not in memory, from the loader, and stores it as
    /// `store_loaded_chunk` says. Fails when the loader fails, leaving the chunks as they were,
    /// or when baking fails.
    fn load(&mut self, p_key: ChunkKey) -> (r: Result<(), anyhow::Error>)
        requires
            old(self).wf(),
            chunk_bakeable(p_key.0),
            !old(self)@.contains_key(p_key),
        ensures
            answers_extend(old(self).loader_answers(), final(self).loader_answers()),
            final(self).wf(),
            final(self).registry() == old(self).registry(),
            evolves(old(self)@, final(self)@),
            r is Ok ==> final(self)@.contains_key(p_key),
            loaded_as_answered(
                old(self)@,
                final(self)@,
                p_key,
                old(self).loader_answers(),
                final(self).loader_answers(),
                r is Ok,
            ),
        decreases unloaded_count(old(self)@), 0nat,
    {
        proof {
            self.lemma_view_facts();
            lemma_bakeable_count(self@.dom().insert(p_key));
        }
        let data = match self.loader.load_chunk(p_key) {
            Ok(data) => data,
            Err(e) => return Err(e),
        };
        let ghost before = self@;
        let r = self.store_loaded_chunk(p_key, data);
        proof {
            lemma_insert_evolves(before, p_key, data.chunk@);
            lemma_evolves_trans(before, before.insert(p_key, data.chunk@), self@);
        }
        r
    }

    /// Stores the chunk `p_data.chunk` that the loader gave for `p_key`, which is not in memory.
    /// When the loader asks for it, the hidden faces of the cluster that
    /// `load_baking_cluster` gives are then baked, which may load more chunks; baking fails
    /// only when one of those loads fails. When the chunks of that cluster and of the slots
    /// around it are all in memory with the new one, baking loads nothing and changes no slot
    /// outside the cluster.
    pub fn store_loaded_chunk(&mut self, p_key: ChunkKey, p_data: ChunkLoadData) -> (r: Result<(), anyhow::Error>)
        requires
            old(self).wf(),
            chunk_bakeable(p_key.0),
            !old(self)@.contains_key(p_key),
        ensures
            answers_extend(old(self).loader_answers(), final(self).loader_answers()),
            final(self).wf(),
            final(self).registry() == old(self).registry(),
            final(self)@.contains_key(p_key),
            evolves(old(self)@.insert(p_key, p_data.chunk@), final(self)@),
            !p_data.require_hidden_face_baking ==> r is Ok && final(self)@ == old(self)@.insert(
                p_key,
                p_data.chunk@,
            ),
            p_data.require_hidden_face_baking && r is Ok ==> forall|p: Point3|
                load_baking_cluster(old(self)@, p_key.0).contains(p) ==> #[trigger] hidden_faces_baked(
                    final(self)@,
                    p,
                ),
            p_data.require_hidden_face_baking && cluster_loaded(
                old(self)@.insert(p_key, p_data.chunk@),
                load_baking_cluster(old(self)@, p_key.0),
            ) ==> r is Ok && same_outside(
                old(self)@.insert(p_key, p_data.chunk@),
                final(self)@,
                in_cluster(load_baking_cluster(old(self)@, p_key.0)),
            ),
        decreases unloaded_count(old(self)@) - 1, 6nat,
    {
        proof {
            self.lemma_view_facts();
            lemma_bakeable_count(self@.dom().insert(p_key));
        }
        let data = p_data;
        let ghost before = self@;
        self.chunk_map.insert(p_key, data.chunk);
        proof {
            assert(self@ =~= before.insert(p_key, self.chunk_map@[p_key]@));
            lemma_insert_evolves(before, p_key, self.chunk_map@[p_key]@);
            self.lemma_view_facts();
        }
        if !data.require_hidden_face_baking {
            return Ok(());
        }
        let chunk_index = p_key.0;
        let mut point_cluster = Morton4::compute_cluster(chunk_index);
        let lower_x = self.chunk_map.contains_key(
            &ChunkKey(Point3 { x: chunk_index.x - 1, y: chunk_index.y, z: chunk_index.z }),
        );
        point_cluster.min.x = point_cluster.min.x + if lower_x {
            -1i32
        } else {
            1i32
        };
        let lower_y = self.chunk_map.contains_key(
            &ChunkKey(Point3 { x: chunk_index.x, y: chunk_index.y - 1, z: chunk_index.z }),
        );
        point_cluster.min.y = point_cluster.min.y + if lower_y {
            -1i32
        } else {
            1i32
        };
        let lower_z = self.chunk_map.contains_key(
            &ChunkKey(Point3 { x: chunk_index.x, y: chunk_index.y, z: chunk_index.z - 1 }),
        );
        point_cluster.min.z = point_cluster.min.z + if lower_z {
            -1i32
        } else {
            1i32
        };
        let upper_x = self.chunk_map.contains_key(
            &ChunkKey(Point3 { x: chunk_index.x + 1, y: chunk_index.y, z: chunk_index.z }),
        );
        point_cluster.max.x = point_cluster.max.x + if upper_x {
            1i32
        } else {
            -1i32
        };
        let upper_y = self.chunk_map.contains_key(
            &ChunkKey(Point3 { x: chunk_index.x, y: chunk_index.y + 1, z: chunk_index.z }),
        );
        point_cluster.max.y = point_cluster.max.y + if upper_y {
            1i32
        } else {
            -1i32
        };
        let upper_z = self.chunk_map.contains_key(
            &ChunkKey(Point3 { x: chunk_index.x, y: chunk_index.y, z: chunk_index.z + 1 }),
        );
        point_cluster.max.z = point_cluster.max.z + if upper_z {
            1i32
        } else {
            -1i32
        };
        proof {
            assert(point_cluster == baking_cluster(
                chunk_index,
                lower_x,
                lower_y,
                lower_z,
                upper_x,
                upper_y,
                upper_z,
            ));
            lemma_baking_cluster_bakeable(
                chunk_index,
                lower_x,
                lower_y,
                lower_z,
                upper_x,
                upper_y,
                upper_z,
            );
        }
        let ghost mid = self@;
        proof {
            assert(mid == old(self)@.insert(p_key, p_data.chunk@));
            assert(point_cluster == load_baking_cluster(old(self)@, p_key.0));
        }
        let r = self.bake_multiple_hidden_face(point_cluster);
        match r {
            Ok(()) => Ok(()),
            Err(e) => Err(e),
        }
    }

    /// The chunk at `p_key`, to change; it is loaded first when it is not in memory.
    pub fn chunk(&mut self, p_key: &ChunkKey) -> (r: Result<&mut Chunk, anyhow::Error>)
        requires
            old(self).wf(),
            chunk_bakeable(p_key.0),
        ensures
            answers_extend(old(self).loader_answers(), final(self).loader_answers()),
            final(self).wf(),
            final(self).registry() == old(self).registry(),
            r is Err ==> evolves(old(self)@, final(self)@),
            r is Ok ==> final(self)@.contains_key(*p_key) && final(self)@[*p_key] == (*final(r->Ok_0))@
                && evolves(old(self)@, final(self)@.insert(*p_key, (*r->Ok_0)@)),
            old(self)@.contains_key(*p_key) ==> r is Ok && (*r->Ok_0)@ == old(self)@[*p_key]
                && final(self)@ == old(self)@.insert(*p_key, (*final(r->Ok_0))@)
                && final(self).loader_answers() == old(self).loader_answers(),
            !old(self)@.contains_key(*p_key) ==> ({
                let i = old(self).loader_answers().len() as int;
                &&& final(self).loader_answers().len() > i
                &&& final(self).loader_answers()[i].0 == *p_key
                &&& final(self).loader_answers()[i].1 is Err ==> r is Err && final(self)@ == old(self)@
                &&& final(self).loader_answers()[i].1 matches Ok(d) ==> (!d.require_hidden_face_baking
                    ==> r is Ok && (*r->Ok_0)@ == d.chunk@)
            }),
        decreases unloaded_count(old(self)@), 1nat,
    {
        proof {
            self.lemma_view_facts();
        }
        if !self.chunk_map.contains_key(p_key) {
            match self.load(*p_key) {
                Ok(()) => {},
                Err(e) => return Err(e),
            }
        }
        let ghost mid = self@;
        proof {
            self.lemma_view_facts();
            lemma_views_insert(self.chunk_map@, *p_key);
        }
        let chunk = self.chunk_map.get_or_insert_default(*p_key);
        proof {
            lemma_insert_back(mid, *p_key);
        }
        Ok(chunk)
    }
}

impl ActiveGeosphere {
    /// The slot at `p_position`, to change; its chunk is loaded first when it is not in memory.
    pub fn slot(&mut self, p_position: Point3) -> (r: Result<&mut Slot, anyhow::Error>)
        requires
            old(self).wf(),
            chunk_bakeable(chunk_origin(p_position)),
        ensures
            answers_extend(old(self).loader_answers(), final(self).loader_answers()),
            final(self).wf(),
            final(self).registry() == old(self).registry(),
            r is Err ==> evolves(old(self)@, final(self)@),
            r is Ok ==> loaded(final(self)@, p_position) && world_at(final(self)@, p_position)
                == *final(r->Ok_0) && evolves(
                old(self)@,
                with_slot(final(self)@, p_position, *r->Ok_0),
            ),
            loaded(old(self)@, p_position) ==> r is Ok && *r->Ok_0 == world_at(
                old(self)@,
                p_position,
            ) && final(self)@ == with_slot(old(self)@, p_position, *final(r->Ok_0)),
        decreases unloaded_count(old(self)@), 2nat,
    {
        let (code, remained) = Morton4::consume(p_position);
        let key = ChunkKey::from(remained);
        let chunk = match self.chunk(&key) {
            Ok(chunk) => chunk,
            Err(e) => return Err(e),
        };
        proof {
            chunk.lemma_len();
            lemma_morton_code_bound(local_position(p_position));
            lemma_update_back(chunk@, code as int);
        }
        Ok(chunk.get_mut(code))
    }

    /// Draws the face of `p_position` in direction `p_direction` exactly when the slot next to it
    /// holds no cube, loading the chunks of both slots when they are not in memory.
    #[verifier::rlimit(40)]
    fn bake_face(&mut self, p_position: Point3, p_direction: u8) -> (r: Result<(), anyhow::Error>)
        requires
            old(self).wf(),
            point_bakeable(p_position),
            p_direction < 6,
        ensures
            answers_extend(old(self).loader_answers(), final(self).loader_answers()),
            final(self).wf(),
            final(self).registry() == old(self).registry(),
            evolves(old(self)@, final(self)@),
            r is Ok ==> loaded(final(self)@, p_position) && face_baked(
                final(self)@,
                p_position,
                p_direction as int,
            ),
            loaded(old(self)@, p_position) && loaded(old(self)@, neighbor(p_position, p_direction as int))
                ==> r is Ok && same_outside(old(self)@, final(self)@, at_point(p_position)),
        decreases unloaded_count(old(self)@), 3nat,
    {
        let neighbor_position = neighbor_of(p_position, p_direction);
        let ghost mut read_neighbor = Slot::spec_default();
        let shown = match self.slot(neighbor_position) {
            Ok(s) => {
                proof {
                    read_neighbor = *s;
                }
                s.cube_instance.is_none()
            },
            Err(e) => return Err(e),
        };
        let ghost mid = self@;
        proof {
            self.lemma_view_facts();
            lemma_with_slot_same(mid, neighbor_position);
            lemma_count_shrinks(old(self)@, mid);
        }
        let ghost mut before_write = Slot::spec_default();
        match self.slot(p_position) {
            Ok(s) => {
                proof {
                    before_write = *s;
                }
                set_face(s, p_direction, shown);
            },
            Err(e) => return Err(e),
        }
        proof {
            let d = p_direction as int;
            let m2 = with_slot(self@, p_position, before_write);
            self.lemma_view_facts();
            assert(evolves(mid, m2));
            lemma_with_slot_world(self@, p_position, before_write, p_position);
            lemma_with_slot_world(self@, p_position, before_write, neighbor_position);
            lemma_morton_code_bound(local_position(p_position));
            assert(m2[chunk_key_of(p_position)].len() == crate::geosphere::morton::MAX);
            assert(slot_evolves(mid, m2, neighbor_position));
            let written = with_face(before_write, d, shown);
            assert(world_at(m2, p_position) == before_write);
            assert(m2[chunk_key_of(p_position)].update(slot_code(p_position), written)
                =~= self@[chunk_key_of(p_position)].update(slot_code(p_position), written));
            assert(with_slot(m2, p_position, written) =~= with_slot(self@, p_position, written));
            lemma_with_slot_same(self@, p_position);
            lemma_set_face_evolves(m2, p_position, d, shown);
            lemma_evolves_trans(mid, m2, self@);
            lemma_evolves_trans(old(self)@, mid, self@);
            if loaded(old(self)@, p_position) && loaded(old(self)@, neighbor_position) {
                assert(mid == with_slot(old(self)@, neighbor_position, read_neighbor));
                assert(read_neighbor == world_at(old(self)@, neighbor_position));
                old(self).lemma_view_facts();
                lemma_with_slot_same(old(self)@, neighbor_position);
                assert(mid == old(self)@);
                assert(self@ == with_slot(mid, p_position, world_at(self@, p_position)));
                assert forall|q: Point3| !at_point(p_position)(q) implies #[trigger] world_at(self@, q) == world_at(old(self)@, q) by {
                    lemma_with_slot_world(mid, p_position, world_at(self@, p_position), q);
                }
                lemma_with_slot_world(mid, p_position, world_at(self@, p_position), p_position);
            }
        }
        Ok(())
    }
}

impl ActiveGeosphere {
    /// Bakes the six faces of `p_position`: up, down, left, right, front, back, in this order.
    fn bake_hidden_face(&mut self, p_position: Point3) -> (r: Result<(), anyhow::Error>)
        requires
            old(self).wf(),
            point_bakeable(p_position),
        ensures
            answers_extend(old(self).loader_answers(), final(self).loader_answers()),
            final(self).wf(),
            final(self).registry() == old(self).registry(),
            evolves(old(self)@, final(self)@),
            r is Ok ==> hidden_faces_baked(final(self)@, p_position),
            neighborhood_loaded(old(self)@, p_position) ==> r is Ok && same_outside(
                old(self)@,
                final(self)@,
                at_point(p_position),
            ),
        decreases unloaded_count(old(self)@), 4nat,
    {
        let ghost s0 = self@;
        match self.bake_face(p_position, 0) {
            Ok(()) => {},
            Err(e) => return Err(e),
        }
        let ghost s1 = self@;
        proof {
            self.lemma_view_facts();
            lemma_count_shrinks(s0, self@);
        }
        match self.bake_face(p_position, 1) {
            Ok(()) => {},
            Err(e) => {
                proof {
                    lemma_evolves_trans(s0, s1, self@);
                }
                return Err(e);
            },
        }
        let ghost s2 = self@;
        proof {
            lemma_evolves_trans(s0, s1, s2);
            self.lemma_view_facts();
            lemma_count_shrinks(s0, self@);
        }
        match self.bake_face(p_position, 2) {
            Ok(()) => {},
            Err(e) => {
                proof {
                    lemma_evolves_trans(s0, s2, self@);
                }
                return Err(e);
            },
        }
        let ghost s3 = self@;
        proof {
            lemma_evolves_trans(s0, s2, s3);
            self.lemma_view_facts();
            lemma_count_shrinks(s0, self@);
        }
        match self.bake_face(p_position, 3) {
            Ok(()) => {},
            Err(e) => {
                proof {
                    lemma_evolves_trans(s0, s3, self@);
                }
                return Err(e);
            },
        }
        let ghost s4 = self@;
        proof {
            lemma_evolves_trans(s0, s3, s4);
            self.lemma_view_facts();
            lemma_count_shrinks(s0, self@);
        }
        match self.bake_face(p_position, 4) {
            Ok(()) => {},
            Err(e) => {
                proof {
                    lemma_evolves_trans(s0, s4, self@);
                }
                return Err(e);
            },
        }
        let ghost s5 = self@;
        proof {
            lemma_evolves_trans(s0, s4, s5);
            self.lemma_view_facts();
            lemma_count_shrinks(s0, self@);
        }
        match self.bake_face(p_position, 5) {
            Ok(()) => {},
            Err(e) => {
                proof {
                    lemma_evolves_trans(s0, s5, self@);
                }
                return Err(e);
            },
        }
        let ghost s6 = self@;
        proof {
            lemma_evolves_trans(s0, s5, s6);
            lemma_face_baked_later(s1, s6, p_position, 0, s2, s3, s4, s5);
            lemma_face_baked_later(s2, s6, p_position, 1, s3, s4, s5, s6);
            lemma_face_baked_later(s3, s6, p_position, 2, s4, s5, s6, s6);
            lemma_face_baked_later(s4, s6, p_position, 3, s5, s6, s6, s6);
            lemma_face_baked_later(s5, s6, p_position, 4, s6, s6, s6, s6);
            if neighborhood_loaded(s0, p_position) {
                let f = at_point(p_position);
                lemma_same_outside_trans(s0, s1, s2, f);
                lemma_same_outside_trans(s0, s2, s3, f);
                lemma_same_outside_trans(s0, s3, s4, f);
                lemma_same_outside_trans(s0, s4, s5, f);
                lemma_same_outside_trans(s0, s5, s6, f);
            }
        }
        Ok(())
    }

    /// Bakes the hidden faces of every slot of the cluster, loading the chunks that it reaches.
    pub fn bake_multiple_hidden_face(&mut self, p_point_cluster: PointCluster) -> (r: Result<
        (),
        anyhow::Error,
    >)
        requires
            old(self).wf(),
            cluster_bakeable(p_point_cluster),
        ensures
            answers_extend(old(self).loader_answers(), final(self).loader_answers()),
            final(self).wf(),
            final(self).registry() == old(self).registry(),
            evolves(old(self)@, final(self)@),
            r is Ok ==> forall|p: Point3|
                p_point_cluster.contains(p) ==> #[trigger] hidden_faces_baked(final(self)@, p),
            cluster_loaded(old(self)@, p_point_cluster) ==> r is Ok && same_outside(
                old(self)@,
                final(self)@,
                in_cluster(p_point_cluster),
            ),
        decreases unloaded_count(old(self)@), 5nat,
    {
        let points = p_point_cluster.points();
        let mut i: usize = 0;
        proof {
            self.lemma_view_facts();
        }
        while i < points.len()
            invariant
                self.wf(),
                self.registry() == old(self).registry(),
                evolves(old(self)@, self@),
                unloaded_count(self@) <= unloaded_count(old(self)@),
                0 <= i <= points@.len(),
                cluster_bakeable(p_point_cluster),
                forall|p: Point3| #[trigger] points@.contains(p) <==> p_point_cluster.contains(p),
                forall|j: int| 0 <= j < i ==> #[trigger] hidden_faces_baked(self@, points@[j]),
                answers_extend(old(self).loader_answers(), self.loader_answers()),
                cluster_loaded(old(self)@, p_point_cluster) ==> same_outside(
                    old(self)@,
                    self@,
                    in_cluster(p_point_cluster),
                ),
            decreases points@.len() - i,
        {
            let ghost before = self@;
            proof {
                assert(points@.contains(points@[i as int]));
                assert(point_bakeable(points@[i as int]));
                self.lemma_view_facts();
                lemma_count_shrinks(old(self)@, self@);
                if cluster_loaded(old(self)@, p_point_cluster) {
                    assert(neighborhood_loaded(old(self)@, points@[i as int]));
                    assert(neighborhood_loaded(self@, points@[i as int]));
                }
            }
            let baked = self.bake_hidden_face(points[i]);
            proof {
                lemma_evolves_trans(old(self)@, before, self@);
                self.lemma_view_facts();
                vstd::set_lib::lemma_len_subset(before.dom(), self@.dom());
                assert forall|j: int| 0 <= j < i implies #[trigger] hidden_faces_baked(self@, points@[j]) by {
                    lemma_hidden_faces_baked_kept(before, self@, points@[j]);
                }
                if cluster_loaded(old(self)@, p_point_cluster) {
                    let pi = points@[i as int];
                    assert(neighborhood_loaded(before, pi));
                    assert forall|q: Point3| #[trigger] at_point(pi)(q) implies in_cluster(p_point_cluster)(q) by {
                        assert(points@.contains(pi));
                    }
                    lemma_same_outside_wider(before, self@, at_point(pi), in_cluster(p_point_cluster));
                    lemma_same_outside_trans(old(self)@, before, self@, in_cluster(p_point_cluster));
                }
            }
            match baked {
                Ok(()) => {},
                Err(e) => return Err(e),
            }
            i = i + 1;
        }
        proof {
            assert forall|p: Point3| p_point_cluster.contains(p) implies #[trigger] hidden_faces_baked(self@, p) by {
                assert(points@.contains(p));
                let j = choose|j: int| 0 <= j < points@.len() && points@[j] == p;
                assert(hidden_faces_baked(self@, points@[j]));
            }
        }
        Ok(())
    }
}

/// The slot position at which chunk `k` begins.
pub open spec fn chunk_slot_origin(k: ChunkKey) -> Point3 {
    Point3 { x: (k.0.x * 16) as i32, y: (k.0.y * 16) as i32, z: (k.0.z * 16) as i32 }
}

/// Whether chunk `k` stays in memory when purging beyond `max` slots of `center`.
pub open spec fn kept_by_purge(k: ChunkKey, center: Point3, max: u32) -> bool {
    spec_chebyshev_distance(center, chunk_slot_origin(k)) < max
}

/// What a purge hands to the saver: after what it had before, each chunk that leaves memory,
/// once, with its key and its slots as they were; no chunk that stays.
pub open spec fn purge_saved(
    v: Map<ChunkKey, Seq<Slot>>,
    before: Seq<(ChunkKey, Chunk)>,
    after: Seq<(ChunkKey, Chunk)>,
    center: Point3,
    max: u32,
) -> bool {
    &&& after.len() >= before.len()
    &&& after.take(before.len() as int) == before
    &&& forall|j: int|
        before.len() <= j < after.len() ==> v.contains_key((#[trigger] after[j]).0) && !kept_by_purge(
            after[j].0,
            center,
            max,
        ) && after[j].1@ == v[after[j].0]
    &&& forall|k: ChunkKey|
        v.contains_key(k) && !kept_by_purge(k, center, max) ==> exists|j: int|
            before.len() <= j < after.len() && #[trigger] after[j].0 == k
    &&& forall|a: int, b: int|
        before.len() <= a < b < after.len() ==> (#[trigger] after[a]).0 != (#[trigger] after[b]).0
}

impl ActiveGeosphere {
    /// The kinds of cubes.
    pub fn cube_registry(&self) -> (r: &CubeRegistry)
        ensures
            *r == self.registry(),
    {
        &self.cube_registry
    }

    /// The slot at `p_position`, to change, and the cube it holds, looked up in the registry; its
    /// chunk is loaded first when it is not in memory.
    pub fn slot_cube(&mut self, p_position: Point3) -> (r: Result<
        (&mut Slot, Option<Cube>),
        anyhow::Error,
    >)
        requires
            old(self).wf(),
            chunk_bakeable(chunk_origin(p_position)),
        ensures
            answers_extend(old(self).loader_answers(), final(self).loader_answers()),
            final(self).wf(),
            final(self).registry() == old(self).registry(),
            r is Err ==> evolves(old(self)@, final(self)@),
            r is Ok ==> loaded(final(self)@, p_position) && world_at(final(self)@, p_position)
                == *final(r->Ok_0.0) && evolves(
                old(self)@,
                with_slot(final(self)@, p_position, *r->Ok_0.0),
            ) && r->Ok_0.1 == slot_cube_of(*r->Ok_0.0, old(self).registry().cube_map()),
            loaded(old(self)@, p_position) ==> r is Ok && *r->Ok_0.0 == world_at(
                old(self)@,
                p_position,
            ) && final(self)@ == with_slot(old(self)@, p_position, *final(r->Ok_0.0)),
    {
        proof {
            self.lemma_view_facts();
        }
        let (code, remained) = Morton4::consume(p_position);
        let key = ChunkKey::from(remained);
        if !self.chunk_map.contains_key(&key) {
            match self.load(key) {
                Ok(()) => {},
                Err(e) => return Err(e),
            }
        }
        let ghost mid = self@;
        proof {
            self.lemma_view_facts();
            lemma_views_insert(self.chunk_map@, key);
            lemma_insert_back(mid, key);
        }
        let chunk = self.chunk_map.get_or_insert_default(key);
        let cube = match &chunk.get(code).cube_instance {
            Some(cube_instance) => self.cube_registry.get(&cube_instance.id),
            None => None,
        };
        proof {
            chunk.lemma_len();
            lemma_morton_code_bound(local_position(p_position));
            lemma_update_back(chunk@, code as int);
        }
        let slot = chunk.get_mut(code);
        Ok((slot, cube))
    }

    /// Saves and drops every chunk whose first slot lies `p_max_chebyshev_slot_distance` or more
    /// slots from `p_slot_position`, along the axis where it lies farthest; keeps the others.
    /// What the saver answers is not looked at.
    pub fn purge_beyond(&mut self, p_slot_position: Point3, p_max_chebyshev_slot_distance: u32)
        requires
            old(self).wf(),
        ensures
            final(self).loader_answers() == old(self).loader_answers(),
            final(self).wf(),
            final(self).registry() == old(self).registry(),
            forall|k: ChunkKey| #[trigger]
                final(self)@.contains_key(k) <==> old(self)@.contains_key(k) && kept_by_purge(
                    k,
                    p_slot_position,
                    p_max_chebyshev_slot_distance,
                ),
            forall|k: ChunkKey| #[trigger] final(self)@.contains_key(k) ==> final(self)@[k] == old(self)@[k],
            purge_saved(
                old(self)@,
                old(self).saved_chunks(),
                final(self).saved_chunks(),
                p_slot_position,
                p_max_chebyshev_slot_distance,
            ),
    {
        let ghost s0 = self.saved_chunks();
        let ghost n0 = s0.len() as int;
        let keys = self.chunk_map.keys();
        proof {
            self.lemma_view_facts();
        }
        let mut i: usize = 0;
        while i < keys.len()
            invariant
                self.wf(),
                self.registry() == old(self).registry(),
                0 <= i <= keys@.len(),
                keys@.no_duplicates(),
                keys@.to_set() == old(self)@.dom(),
                forall|k: ChunkKey| #[trigger]
                    self@.contains_key(k) <==> old(self)@.contains_key(k) && (kept_by_purge(
                        k,
                        p_slot_position,
                        p_max_chebyshev_slot_distance,
                    ) || !keys@.subrange(0, i as int).contains(k)),
                forall|k: ChunkKey| #[trigger] self@.contains_key(k) ==> self@[k] == old(self)@[k],
                s0 == old(self).saved_chunks(),
                self.loader_answers() == old(self).loader_answers(),
                n0 == s0.len(),
                self.saved_chunks().len() >= n0,
                self.saved_chunks().take(n0) == s0,
                forall|j: int|
                    n0 <= j < self.saved_chunks().len() ==> keys@.subrange(0, i as int).contains(
                        (#[trigger] self.saved_chunks()[j]).0,
                    ) && old(self)@.contains_key(self.saved_chunks()[j].0) && !kept_by_purge(
                        self.saved_chunks()[j].0,
                        p_slot_position,
                        p_max_chebyshev_slot_distance,
                    ) && self.saved_chunks()[j].1@ == old(self)@[self.saved_chunks()[j].0],
                forall|k: ChunkKey|
                    #[trigger] keys@.subrange(0, i as int).contains(k) && old(self)@.contains_key(k)
                        && !kept_by_purge(k, p_slot_position, p_max_chebyshev_slot_distance) ==> exists|j: int|
                        n0 <= j < self.saved_chunks().len() && #[trigger] self.saved_chunks()[j].0 == k,
                forall|a: int, b: int|
                    n0 <= a < b < self.saved_chunks().len() ==> (#[trigger] self.saved_chunks()[a]).0
                        != (#[trigger] self.saved_chunks()[b]).0,
            decreases keys@.len() - i,
        {
            let key = keys[i];
            proof {
                assert(keys@.to_set().contains(key));
                assert(keys@.subrange(0, i as int).contains(key) == false) by {
                    if keys@.subrange(0, i as int).contains(key) {
                        let j = choose|j: int| 0 <= j < i && #[trigger] keys@.subrange(0, i as int)[j] == key;
                        assert(keys@[j] == keys@[i as int]);
                    }
                }
                self.lemma_view_facts();
                assert(keys@.contains(key));
                assert(old(self)@.contains_key(key));
                assert(self.chunk_map@.contains_key(key));
                assert(chunk_bakeable(key.0));
            }
            let current_chunk_position: Point3 = key.0;
            let current_slot_position = Point3 {
                x: current_chunk_position.x * 16,
                y: current_chunk_position.y * 16,
                z: current_chunk_position.z * 16,
            };
            let distance = chebyshev_distance(p_slot_position, current_slot_position);
            let ghost before = self@;
            let ghost before_map = self.chunk_map@;
            let ghost saved_before = self.saved_chunks();
            proof {
                assert(kept_by_purge(key, p_slot_position, p_max_chebyshev_slot_distance) == (distance
                    < p_max_chebyshev_slot_distance));
                assert forall|c: ChunkKey| #[trigger] keys@.subrange(0, i + 1).contains(c) <==> (keys@.subrange(
                    0,
                    i as int,
                ).contains(c) || c == key) by {
                    if keys@.subrange(0, i + 1).contains(c) {
                        let j = choose|j: int| 0 <= j < i + 1 && #[trigger] keys@.subrange(0, i + 1)[j] == c;
                        if j < i {
                            assert(keys@.subrange(0, i as int)[j] == c);
                        }
                    }
                    if keys@.subrange(0, i as int).contains(c) {
                        let j = choose|j: int| 0 <= j < i && #[trigger] keys@.subrange(0, i as int)[j] == c;
                        assert(keys@.subrange(0, i + 1)[j] == c);
                    }
                    if c == key {
                        assert(keys@.subrange(0, i + 1)[i as int] == c);
                    }
                }
            }
            if distance >= p_max_chebyshev_slot_distance {
                match self.chunk_map.get(&key) {
                    Some(chunk) => {
                        let _ = self.saver.save_chunk(key, chunk);
                        proof {
                            assert(self.saved_chunks() == saved_before.push((key, *chunk)));
                            assert(chunk@ == old(self)@[key]);
                            assert(self.saved_chunks().take(n0) =~= s0);
                            let nb = saved_before.len() as int;
                            assert forall|a: int, b: int|
                                n0 <= a < b < self.saved_chunks().len() implies (#[trigger] self.saved_chunks()[a]).0
                                    != (#[trigger] self.saved_chunks()[b]).0 by {
                                if b == nb {
                                    assert(saved_before[a] == self.saved_chunks()[a]);
                                    assert(keys@.subrange(0, i as int).contains(saved_before[a].0));
                                } else {
                                    assert(saved_before[a] == self.saved_chunks()[a]);
                                    assert(saved_before[b] == self.saved_chunks()[b]);
                                }
                            }
                            assert forall|j: int|
                                n0 <= j < self.saved_chunks().len() implies keys@.subrange(0, i + 1).contains(
                                    (#[trigger] self.saved_chunks()[j]).0,
                                ) && old(self)@.contains_key(self.saved_chunks()[j].0) && !kept_by_purge(
                                    self.saved_chunks()[j].0,
                                    p_slot_position,
                                    p_max_chebyshev_slot_distance,
                                ) && self.saved_chunks()[j].1@ == old(self)@[self.saved_chunks()[j].0] by {
                                if j < nb {
                                    assert(saved_before[j] == self.saved_chunks()[j]);
                                }
                            }
                            assert forall|k: ChunkKey|
                                #[trigger] keys@.subrange(0, i + 1).contains(k) && old(self)@.contains_key(k)
                                    && !kept_by_purge(k, p_slot_position, p_max_chebyshev_slot_distance) implies exists|j: int|
                                    n0 <= j < self.saved_chunks().len() && #[trigger] self.saved_chunks()[j].0 == k by {
                                if k == key {
                                    assert(self.saved_chunks()[nb].0 == k);
                                } else {
                                    assert(keys@.subrange(0, i as int).contains(k));
                                    let j = choose|j: int| n0 <= j < saved_before.len() && #[trigger] saved_before[j].0 == k;
                                    assert(self.saved_chunks()[j] == saved_before[j]);
                                }
                            }
                        }
                    },
                    None => {},
                }
                self.chunk_map.remove(&key);
                proof {
                    assert(self@ =~= before.remove(key));
                }
            } else {
                assert(self@ =~= before);
                proof {
                    assert forall|k: ChunkKey|
                        #[trigger] keys@.subrange(0, i + 1).contains(k) && old(self)@.contains_key(k)
                            && !kept_by_purge(k, p_slot_position, p_max_chebyshev_slot_distance) implies exists|j: int|
                            n0 <= j < self.saved_chunks().len() && #[trigger] self.saved_chunks()[j].0 == k by {
                        assert(keys@.subrange(0, i as int).contains(k));
                    }
                    assert forall|j: int|
                        n0 <= j < self.saved_chunks().len() implies keys@.subrange(0, i + 1).contains(
                            (#[trigger] self.saved_chunks()[j]).0,
                        ) by {
                        assert(keys@.subrange(0, i as int).contains(self.saved_chunks()[j].0));
                    }
                }
            }
            proof {
                assert forall|k: ChunkKey| #[trigger] self@.contains_key(k) <==> old(self)@.contains_key(k)
                    && (kept_by_purge(k, p_slot_position, p_max_chebyshev_slot_distance)
                    || !keys@.subrange(0, i + 1).contains(k)) by {
                    if k == key {
                        assert(keys@.subrange(0, i + 1)[i as int] == key);
                    } else {
                        if keys@.subrange(0, i + 1).contains(k) {
                            let j = choose|j: int| 0 <= j < i + 1 && #[trigger] keys@.subrange(0, i + 1)[j] == k;
                            assert(j < i);
                            assert(keys@.subrange(0, i as int)[j] == k);
                        }
                        if keys@.subrange(0, i as int).contains(k) {
                            let j = choose|j: int| 0 <= j < i && #[trigger] keys@.subrange(0, i as int)[j] == k;
                            assert(keys@.subrange(0, i + 1)[j] == k);
                        }
                    }
                }
            }
            i = i + 1;
        }
        proof {
            assert(keys@.subrange(0, keys@.len() as int) =~= keys@);
            assert forall|k: ChunkKey| #[trigger] old(self)@.contains_key(k) implies keys@.contains(k) by {
                assert(keys@.to_set().contains(k));
            }
        }
    }
}

/// What an active geosphere is made from: where chunks come from and go to, and the kinds of
/// cubes.
pub struct ActiveGeosphereBuilder {
    pub loader: Box<dyn ChunkLoader>,
    pub saver: Box<dyn ChunkSaver>,
    pub cube_registry_builder: CubeRegistryBuilder,
}

impl ActiveGeosphereBuilder {
    /// The sample loader and saver, and the sample kind of cube with the decoded `p_top`,
    /// `p_side` and `p_bottom` images; fails when an image does not decode.
    pub fn try_with_sample(p_top: &[u8], p_side: &[u8], p_bottom: &[u8]) -> (r: Result<
        ActiveGeosphereBuilder,
        anyhow::Error,
    >)
        ensures
            r is Ok <==> (decoded_rgba8(p_top@) is Some && decoded_rgba8(p_side@) is Some
                && decoded_rgba8(p_bottom@) is Some),
            r is Ok ==> r->Ok_0.cube_registry_builder.cube_builders@.len() == 1 && builder_images(
                r->Ok_0.cube_registry_builder.cube_builders@[0],
            ) == seq![
                decoded_rgba8(p_top@)->Some_0,
                decoded_rgba8(p_bottom@)->Some_0,
                decoded_rgba8(p_side@)->Some_0,
                decoded_rgba8(p_side@)->Some_0,
                decoded_rgba8(p_side@)->Some_0,
                decoded_rgba8(p_side@)->Some_0,
            ],
    {
        let cube_registry_builder = match CubeRegistryBuilder::try_with_sample(p_top, p_side, p_bottom) {
            Ok(builder) => builder,
            Err(e) => return Err(e),
        };
        Ok(
            ActiveGeosphereBuilder {
                loader: Box::new(SampleChunkLoader::default()),
                saver: Box::new(SampleChunkSaver::default()),
                cube_registry_builder,
            },
        )
    }

    /// An active geosphere with no chunk in memory and the kinds of cubes registered in order.
    pub fn build(self) -> (r: ActiveGeosphere)
        ensures
            r.wf(),
            r@ == Map::<ChunkKey, Seq<Slot>>::empty(),
            r.registry().wf(),
            r.registry().cube_map() == built_cubes(self.cube_registry_builder.cube_builders@),
            r.registry().image_views() == built_images(self.cube_registry_builder.cube_builders@),
    {
        let r = ActiveGeosphere {
            chunk_map: ChunkMap::new(),
            loader: self.loader,
            saver: self.saver,
            cube_registry: self.cube_registry_builder.build(),
        };
        assert(r@ =~= Map::<ChunkKey, Seq<Slot>>::empty());
        r
    }
}

} // verus!
