use vstd::prelude::*;
use crate::geosphere::chunk::{Chunk, ChunkKey, empty_chunk_view};
use crate::geosphere::chunk_map::ChunkMap;
use crate::geosphere::cube::{Cube, CubeRegistry};
use crate::geosphere::morton::{
    chunk_origin, local_position, morton_code, is_local, lemma_coordinate_reconstructs,
    lemma_morton_code_injective, lemma_morton_code_bound, Morton4, MAX,
};
use crate::geosphere::point_cluster::Point3;
use crate::geosphere::slot::Slot;

verus! {

/// The slot at slot position `p` in a world made of the chunks of `m`: a slot of a chunk that is
/// not there is empty.
pub open spec fn world_slot(m: Map<ChunkKey, Chunk>, p: Point3) -> Slot {
    let key = ChunkKey(chunk_origin(p));
    if m.contains_key(key) {
        m[key]@[morton_code(local_position(p)) as int]
    } else {
        Slot::spec_default()
    }
}

/// The cube that a slot holds, looked up in a registry.
pub open spec fn slot_cube_of(s: Slot, cubes: Map<crate::geosphere::cube::CubeResourceId, Cube>) -> Option<Cube> {
    match s.cube_instance {
        Some(ci) => if cubes.contains_key(ci.id) {
            Some(cubes[ci.id])
        } else {
            None
        },
        None => None,
    }
}

/// Two slot positions that share chunk and local position are the same position.
pub proof fn lemma_same_slot_position(p: Point3, q: Point3)
    requires
        chunk_origin(p) == chunk_origin(q),
        morton_code(local_position(p)) == morton_code(local_position(q)),
    ensures
        p == q,
{
    lemma_coordinate_reconstructs(p);
    lemma_coordinate_reconstructs(q);
    lemma_morton_code_injective(local_position(p), local_position(q));
}

/// Replacing the slot at `p` in its chunk changes the world at `p` and nowhere else.
pub proof fn lemma_world_update(
    old_m: Map<ChunkKey, Chunk>,
    new_m: Map<ChunkKey, Chunk>,
    p: Point3,
    s: Slot,
)
    requires
        new_m.remove(ChunkKey(chunk_origin(p))) == old_m.remove(ChunkKey(chunk_origin(p))),
        new_m.contains_key(ChunkKey(chunk_origin(p))),
        new_m[ChunkKey(chunk_origin(p))]@ == (if old_m.contains_key(ChunkKey(chunk_origin(p))) {
            old_m[ChunkKey(chunk_origin(p))]@
        } else {
            empty_chunk_view()
        }).update(morton_code(local_position(p)) as int, s),
    ensures
        forall|q: Point3|
            #[trigger] world_slot(new_m, q) == (if q == p {
                s
            } else {
                world_slot(old_m, q)
            }),
{
    let key = ChunkKey(chunk_origin(p));
    assert forall|q: Point3|
        #[trigger] world_slot(new_m, q) == (if q == p {
            s
        } else {
            world_slot(old_m, q)
        }) by {
        let kq = ChunkKey(chunk_origin(q));
        lemma_morton_code_bound(local_position(p));
        lemma_morton_code_bound(local_position(q));
        if kq == key {
            if old_m.contains_key(key) {
                old_m[key].lemma_len();
            }
            if q != p {
                if morton_code(local_position(p)) == morton_code(local_position(q)) {
                    lemma_same_slot_position(p, q);
                }
            }
        } else {
            assert(new_m.remove(key).contains_key(kq) == new_m.contains_key(kq));
            assert(old_m.remove(key).contains_key(kq) == old_m.contains_key(kq));
            if new_m.contains_key(kq) {
                assert(new_m.remove(key)[kq] == new_m[kq]);
                assert(old_m.remove(key)[kq] == old_m[kq]);
            }
        }
    }
}

proof fn lemma_world_update_all(old_m: Map<ChunkKey, Chunk>, p: Point3)
    ensures
        forall|c: Chunk|
            #![trigger old_m.insert(ChunkKey(chunk_origin(p)), c)]
            c@ == (if old_m.contains_key(ChunkKey(chunk_origin(p))) {
                old_m[ChunkKey(chunk_origin(p))]@
            } else {
                empty_chunk_view()
            }).update(morton_code(local_position(p)) as int, c@[morton_code(local_position(p)) as int])
                ==> (forall|q: Point3|
                #[trigger] world_slot(old_m.insert(ChunkKey(chunk_origin(p)), c), q) == (if q == p {
                    c@[morton_code(local_position(p)) as int]
                } else {
                    world_slot(old_m, q)
                })) && old_m.insert(ChunkKey(chunk_origin(p)), c).dom() == old_m.dom().insert(
                ChunkKey(chunk_origin(p)),
            ),
{
    let key = ChunkKey(chunk_origin(p));
    let code = morton_code(local_position(p)) as int;
    assert forall|c: Chunk|
        #![trigger old_m.insert(key, c)]
        c@ == (if old_m.contains_key(key) {
            old_m[key]@
        } else {
            empty_chunk_view()
        }).update(code, c@[code]) implies (forall|q: Point3|
            #[trigger] world_slot(old_m.insert(key, c), q) == (if q == p {
                c@[code]
            } else {
                world_slot(old_m, q)
            })) && old_m.insert(key, c).dom() == old_m.dom().insert(key) by {
        let new_m = old_m.insert(key, c);
        assert(new_m.remove(key) =~= old_m.remove(key));
        lemma_world_update(old_m, new_m, p, c@[code]);
        assert(new_m.dom() =~= old_m.dom().insert(key));
    }
}

/// A copy of the world kept by a client: the chunks it was sent, and the kinds of cubes.
pub struct PassiveGeosphere {
    pub chunk_map: ChunkMap,
    pub cube_registry: CubeRegistry,
}

impl Default for PassiveGeosphere {
    fn default() -> (r: PassiveGeosphere)
        ensures
            r.wf(),
            r.chunk_map@ == Map::<ChunkKey, Chunk>::empty(),
            r.cube_registry.cube_map() == Map::<crate::geosphere::cube::CubeResourceId, Cube>::empty(),
    {
        PassiveGeosphere { chunk_map: ChunkMap::new(), cube_registry: CubeRegistry::new() }
    }
}

impl PassiveGeosphere {
    pub open spec fn wf(&self) -> bool {
        self.chunk_map.wf() && self.cube_registry.wf()
    }

    /// The slot at `p_position`, to change; its chunk is created empty when it is not there.
    pub fn slot(&mut self, p_position: Point3) -> (r: &mut Slot)
        requires
            old(self).wf(),
        ensures
            final(self).wf(),
            *r == world_slot(old(self).chunk_map@, p_position),
            final(self).chunk_map@.contains_key(ChunkKey(chunk_origin(p_position))),
            forall|q: Point3|
                #[trigger] world_slot(final(self).chunk_map@, q) == (if q == p_position {
                    *final(r)
                } else {
                    world_slot(old(self).chunk_map@, q)
                }),
            final(self).chunk_map@.dom() == old(self).chunk_map@.dom().insert(
                ChunkKey(chunk_origin(p_position)),
            ),
            final(self).cube_registry == old(self).cube_registry,
    {
        let (code, remained) = Morton4::consume(p_position);
        let key = ChunkKey::from(remained);
        let ghost old_map = self.chunk_map@;
        proof {
            lemma_world_update_all(old_map, p_position);
        }
        let chunk = self.chunk_map.get_or_insert_default(key);
        proof {
            lemma_morton_code_bound(local_position(p_position));
            chunk.lemma_len();
        }
        let slot = chunk.get_mut(code);
        slot
    }

    /// The slot at `p_position`, to change, and the cube it holds, looked up in the registry;
    /// its chunk is created empty when it is not there.
    pub fn slot_cube(&mut self, p_position: Point3) -> (r: (&mut Slot, Option<Cube>))
        requires
            old(self).wf(),
        ensures
            final(self).wf(),
            *r.0 == world_slot(old(self).chunk_map@, p_position),
            r.1 == slot_cube_of(world_slot(old(self).chunk_map@, p_position), old(self).cube_registry.cube_map()),
            forall|q: Point3|
                #[trigger] world_slot(final(self).chunk_map@, q) == (if q == p_position {
                    *final(r.0)
                } else {
                    world_slot(old(self).chunk_map@, q)
                }),
            final(self).chunk_map@.dom() == old(self).chunk_map@.dom().insert(
                ChunkKey(chunk_origin(p_position)),
            ),
            final(self).cube_registry == old(self).cube_registry,
    {
        let (code, remained) = Morton4::consume(p_position);
        let key = ChunkKey::from(remained);
        let ghost old_map = self.chunk_map@;
        proof {
            lemma_world_update_all(old_map, p_position);
        }
        let chunk = self.chunk_map.get_or_insert_default(key);
        proof {
            lemma_morton_code_bound(local_position(p_position));
            chunk.lemma_len();
        }
        let slot = chunk.get_mut(code);
        let cube = match &slot.cube_instance {
            Some(cube_instance) => self.cube_registry.get(&cube_instance.id),
            None => None,
        };
        (slot, cube)
    }
}

} // verus!
