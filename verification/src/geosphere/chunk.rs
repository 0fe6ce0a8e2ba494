use vstd::prelude::*;
use std::cmp::Ordering;
use crate::geosphere::cube::{CubeInstance, CubeInstanceOrientation};
use crate::geosphere::morton::{morton_code, local_position, Morton4, MAX};
use crate::geosphere::point_cluster::Point3;
use crate::geosphere::slot::Slot;

verus! {

#[verifier::external_type_specification]
#[verifier::external_body]
pub struct ExAnyhowError(anyhow::Error);

/// The position of a chunk in chunk units.
#[derive(Clone, Copy, Debug, PartialEq, Eq, Hash, Structural)]
pub struct ChunkKey(pub Point3);

impl From<Point3> for ChunkKey {
    fn from(p_value: Point3) -> (r: ChunkKey) {
        ChunkKey(p_value)
    }
}

impl vstd::std_specs::convert::FromSpecImpl<Point3> for ChunkKey {
    open spec fn obeys_from_spec() -> bool {
        true
    }

    open spec fn from_spec(v: Point3) -> ChunkKey {
        ChunkKey(v)
    }
}

impl From<ChunkKey> for Point3 {
    fn from(p_value: ChunkKey) -> (r: Point3) {
        p_value.0
    }
}

impl vstd::std_specs::convert::FromSpecImpl<ChunkKey> for Point3 {
    open spec fn obeys_from_spec() -> bool {
        true
    }

    open spec fn from_spec(v: ChunkKey) -> Point3 {
        v.0
    }
}

/// Lexicographic order of chunk keys: by x, then y, then z.
pub open spec fn key_less(a: ChunkKey, b: ChunkKey) -> bool {
    ||| a.0.x < b.0.x
    ||| (a.0.x == b.0.x && a.0.y < b.0.y)
    ||| (a.0.x == b.0.x && a.0.y == b.0.y && a.0.z < b.0.z)
}

/// Whether the component-wise differences of two keys fit in `i32`.
pub open spec fn key_differences_fit(a: ChunkKey, b: ChunkKey) -> bool {
    &&& i32::MIN <= a.0.x - b.0.x <= i32::MAX
    &&& i32::MIN <= a.0.y - b.0.y <= i32::MAX
    &&& i32::MIN <= a.0.z - b.0.z <= i32::MAX
}

impl ChunkKey {
    /// Orders two keys by x, then y, then z, from the signs of their differences.
    pub fn cmp(&self, other: &Self) -> (r: Ordering)
        requires
            key_differences_fit(*self, *other),
        ensures
            (r == Ordering::Less) <==> key_less(*self, *other),
            (r == Ordering::Equal) <==> *self == *other,
            (r == Ordering::Greater) <==> key_less(*other, *self),
    {
        let x_diff = self.0.x - other.0.x;
        let y_diff = self.0.y - other.0.y;
        let z_diff = self.0.z - other.0.z;

        if x_diff != 0 {
            return if x_diff < 0 {
                Ordering::Less
            } else {
                Ordering::Greater
            };
        }
        if y_diff != 0 {
            return if y_diff < 0 {
                Ordering::Less
            } else {
                Ordering::Greater
            };
        }
        if z_diff != 0 {
            return if z_diff < 0 {
                Ordering::Less
            } else {
                Ordering::Greater
            };
        }
        Ordering::Equal
    }
}

/// The key order is a strict total order: irreflexive, transitive, and any two distinct keys
/// are ordered one way or the other.
pub proof fn lemma_key_order_total(a: ChunkKey, b: ChunkKey, c: ChunkKey)
    ensures
        !key_less(a, a),
        key_less(a, b) && key_less(b, c) ==> key_less(a, c),
        a != b ==> (key_less(a, b) || key_less(b, a)),
        !(key_less(a, b) && key_less(b, a)),
{
}

/// The slots of one chunk, stored in the order of their Morton codes.
#[derive(Clone, Copy, Debug)]
pub struct Chunk {
    slots: [Slot; 4096],
}

impl View for Chunk {
    type V = Seq<Slot>;

    closed spec fn view(&self) -> Seq<Slot> {
        self.slots@
    }
}

impl Chunk {
    /// A chunk holds one slot per Morton code.
    pub proof fn lemma_len(&self)
        ensures
            self@.len() == MAX,
    {
    }

    /// The slot of the chunk at `p_code`.
    pub fn get(&self, p_code: u16) -> (r: &Slot)
        requires
            p_code < MAX,
        ensures
            self@.len() == MAX,
            *r == self@[p_code as int],
    {
        &self.slots[p_code as usize]
    }

    /// The slot of the chunk at `p_code`, to change.
    pub fn get_mut(&mut self, p_code: u16) -> (r: &mut Slot)
        requires
            p_code < MAX,
        ensures
            old(self)@.len() == MAX,
            final(self)@.len() == MAX,
            *r == old(self)@[p_code as int],
            final(self)@ == old(self)@.update(p_code as int, *final(r)),
    {
        &mut self.slots[p_code as usize]
    }

    /// The slot of the chunk at the local position of the slot position `p_position`.
    pub fn get_from_position(&self, p_position: Point3) -> (r: &Slot)
        ensures
            morton_code(local_position(p_position)) < MAX,
            self@.len() == MAX,
            *r == self@[morton_code(local_position(p_position)) as int],
    {
        let (code, _) = Morton4::consume(p_position);
        &self.slots[code as usize]
    }

    /// The slot of the chunk at the local position of the slot position `p_position`, to change.
    pub fn get_from_position_mut(&mut self, p_position: Point3) -> (r: &mut Slot)
        ensures
            morton_code(local_position(p_position)) < MAX,
            old(self)@.len() == MAX,
            final(self)@.len() == MAX,
            *r == old(self)@[morton_code(local_position(p_position)) as int],
            final(self)@ == old(self)@.update(
                morton_code(local_position(p_position)) as int,
                *final(r),
            ),
    {
        let (code, _) = Morton4::consume(p_position);
        &mut self.slots[code as usize]
    }
}

/// The slots of a chunk in which nothing was placed.
pub open spec fn empty_chunk_view() -> Seq<Slot> {
    Seq::new(MAX as nat, |i: int| Slot::spec_default())
}

impl Default for Chunk {
    /// A chunk of empty slots.
    fn default() -> (r: Chunk)
        ensures
            r@ == empty_chunk_view(),
    {
        let chunk = Chunk { slots: [Slot::default(); 4096] };
        assert(chunk@ =~= empty_chunk_view());
        chunk
    }
}

/// A chunk handed out by a loader, and whether its hidden faces still have to be baked.
pub struct ChunkLoadData {
    pub chunk: Chunk,
    pub require_hidden_face_baking: bool,
}

/// A source of chunks that are not in memory yet.
pub trait ChunkLoader: Send + Sync {
    /// The keys asked of the loader so far, each with what it answered, in order.
    closed spec fn answered(&self) -> Seq<(ChunkKey, Result<ChunkLoadData, anyhow::Error>)> {
        Seq::empty()
    }

    /// The chunk of key `p_key`, after the keys asked before.
    fn load_chunk(&mut self, p_key: ChunkKey) -> (r: Result<ChunkLoadData, anyhow::Error>)
        ensures
            final(self).answered() == old(self).answered().push((p_key, r)),
    ;
}

/// A sink for chunks that leave memory.
pub trait ChunkSaver: Send + Sync {
    /// The chunks handed to the saver so far, with their keys, in order.
    closed spec fn saved(&self) -> Seq<(ChunkKey, Chunk)> {
        Seq::empty()
    }

    /// Takes the chunk `p_chunk` of key `p_key`, which leaves memory, after those taken before;
    /// whether keeping it succeeded is the saver's own matter.
    fn save_chunk(&mut self, p_key: ChunkKey, p_chunk: &Chunk) -> (r: Result<(), anyhow::Error>)
        ensures
            final(self).saved() == old(self).saved().push((p_key, *p_chunk)),
    ;
}

/// A loader that hands out the same small sample chunk for every key.
pub struct SampleChunkLoader {
    answered: Ghost<Seq<(ChunkKey, Result<ChunkLoadData, anyhow::Error>)>>,
}

impl Default for SampleChunkLoader {
    fn default() -> (r: SampleChunkLoader)
        ensures
            r.answered() == Seq::<(ChunkKey, Result<ChunkLoadData, anyhow::Error>)>::empty(),
    {
        SampleChunkLoader { answered: Ghost(Seq::empty()) }
    }
}

/// The local positions that hold a cube in the sample chunk.
pub open spec fn is_sample_cube_position(code: int) -> bool {
    ||| code == morton_code(local_position(Point3 { x: 0, y: 0, z: 0 }))
    ||| code == morton_code(local_position(Point3 { x: 1, y: 0, z: 1 }))
    ||| code == morton_code(local_position(Point3 { x: 1, y: 0, z: 0 }))
    ||| code == morton_code(local_position(Point3 { x: 0, y: 0, z: 1 }))
    ||| code == morton_code(local_position(Point3 { x: 2, y: 0, z: 1 }))
}

/// Whether a slot draws all six of its faces.
pub open spec fn all_faces_shown(s: Slot) -> bool {
    s.display_upward_quad && s.display_downward_quad && s.display_left_quad
        && s.display_right_quad && s.display_front_quad && s.display_back_quad
}

fn sample_cube_slot() -> (r: Slot)
    ensures
        r.cube_instance is Some,
        r.cube_instance->Some_0.orientation == CubeInstanceOrientation::FORWARD,
        r.display_upward_quad && r.display_downward_quad && r.display_left_quad
            && r.display_right_quad && r.display_front_quad && r.display_back_quad,
{
    Slot { cube_instance: Some(CubeInstance::default()), ..Default::default() }
}

impl ChunkLoader for SampleChunkLoader {
    closed spec fn answered(&self) -> Seq<(ChunkKey, Result<ChunkLoadData, anyhow::Error>)> {
        self.answered@
    }

    /// Five cubes on the ground layer, every face drawn, hidden faces to be baked.
    fn load_chunk(&mut self, _p_key: ChunkKey) -> (r: Result<ChunkLoadData, anyhow::Error>)
        ensures
            r is Ok,
            r->Ok_0.require_hidden_face_baking,
            r->Ok_0.chunk@.len() == MAX,
            forall|i: int|
                0 <= i < MAX ==> (r->Ok_0.chunk@[i].cube_instance is Some
                    <==> #[trigger] is_sample_cube_position(i)),
            forall|i: int| 0 <= i < MAX ==> #[trigger] all_faces_shown(r->Ok_0.chunk@[i]),
            forall|i: int|
                0 <= i < MAX && (#[trigger] r->Ok_0.chunk@[i]).cube_instance is Some ==> r->Ok_0.chunk@[i].cube_instance->Some_0.orientation
                    == CubeInstanceOrientation::FORWARD,
    {
        let mut chunk = Chunk::default();
        let ghost c0 = chunk@;
        *chunk.get_from_position_mut(Point3 { x: 0, y: 0, z: 0 }) = sample_cube_slot();
        let ghost c1 = chunk@;
        *chunk.get_from_position_mut(Point3 { x: 1, y: 0, z: 1 }) = sample_cube_slot();
        let ghost c2 = chunk@;
        *chunk.get_from_position_mut(Point3 { x: 1, y: 0, z: 0 }) = sample_cube_slot();
        let ghost c3 = chunk@;
        *chunk.get_from_position_mut(Point3 { x: 0, y: 0, z: 1 }) = sample_cube_slot();
        let ghost c4 = chunk@;
        *chunk.get_from_position_mut(Point3 { x: 2, y: 0, z: 1 }) = sample_cube_slot();
        proof {
            assert forall|i: int|
                0 <= i < MAX implies (chunk@[i].cube_instance is Some
                    <==> #[trigger] is_sample_cube_position(i)) by {
                assert(c0[i].cube_instance is None);
                assert(c1[i].cube_instance is Some <==> (c0[i].cube_instance is Some || i
                    == morton_code(local_position(Point3 { x: 0, y: 0, z: 0 }))));
                assert(c2[i].cube_instance is Some <==> (c1[i].cube_instance is Some || i
                    == morton_code(local_position(Point3 { x: 1, y: 0, z: 1 }))));
                assert(c3[i].cube_instance is Some <==> (c2[i].cube_instance is Some || i
                    == morton_code(local_position(Point3 { x: 1, y: 0, z: 0 }))));
                assert(c4[i].cube_instance is Some <==> (c3[i].cube_instance is Some || i
                    == morton_code(local_position(Point3 { x: 0, y: 0, z: 1 }))));
            }
            assert forall|i: int|
                0 <= i < MAX && (#[trigger] chunk@[i]).cube_instance is Some implies chunk@[i].cube_instance->Some_0.orientation
                    == CubeInstanceOrientation::FORWARD by {
                assert(c0[i].cube_instance is None);
                assert(c1[i].cube_instance is Some ==> c1[i].cube_instance->Some_0.orientation == CubeInstanceOrientation::FORWARD);
                assert(c2[i].cube_instance is Some ==> c2[i].cube_instance->Some_0.orientation == CubeInstanceOrientation::FORWARD);
                assert(c3[i].cube_instance is Some ==> c3[i].cube_instance->Some_0.orientation == CubeInstanceOrientation::FORWARD);
                assert(c4[i].cube_instance is Some ==> c4[i].cube_instance->Some_0.orientation == CubeInstanceOrientation::FORWARD);
            }
            assert forall|i: int| 0 <= i < MAX implies #[trigger] all_faces_shown(chunk@[i]) by {
                assert(all_faces_shown(c0[i]));
                assert(all_faces_shown(c1[i]));
                assert(all_faces_shown(c2[i]));
                assert(all_faces_shown(c3[i]));
                assert(all_faces_shown(c4[i]));
            }
        }
        let r = Ok(ChunkLoadData { chunk, require_hidden_face_baking: true });
        self.answered = Ghost(self.answered@.push((_p_key, r)));
        r
    }
}

/// A saver that keeps nothing but its record of what it was handed.
pub struct SampleChunkSaver {
    saved: Ghost<Seq<(ChunkKey, Chunk)>>,
}

impl Default for SampleChunkSaver {
    fn default() -> (r: SampleChunkSaver)
        ensures
            r.saved() == Seq::<(ChunkKey, Chunk)>::empty(),
    {
        SampleChunkSaver { saved: Ghost(Seq::empty()) }
    }
}

impl ChunkSaver for SampleChunkSaver {
    closed spec fn saved(&self) -> Seq<(ChunkKey, Chunk)> {
        self.saved@
    }

    fn save_chunk(&mut self, p_key: ChunkKey, p_chunk: &Chunk) -> (r: Result<(), anyhow::Error>)
        ensures
            r is Ok,
    {
        self.saved = Ghost(self.saved@.push((p_key, *p_chunk)));
        Ok(())
    }
}

} // verus!
