use vstd::prelude::*;
use std::collections::HashMap;
use std::collections::hash_map::Entry;
use vstd::std_specs::iter::IteratorSpec;
use crate::geosphere::chunk::{Chunk, ChunkKey, empty_chunk_view};
use crate::geosphere::point_cluster::{compute_point_code, lemma_point_code_injective, point_code};

verus! {

broadcast use vstd::std_specs::hash::group_hash_axioms;

/// The number under which a chunk key is stored: that of its chunk position.
pub open spec fn key_code(k: ChunkKey) -> i128 {
    point_code(k.0)
}

/// Different keys are stored under different numbers.
pub proof fn lemma_key_code_injective(a: ChunkKey, b: ChunkKey)
    requires
        key_code(a) == key_code(b),
    ensures
        a == b,
{
    lemma_point_code_injective(a.0, b.0);
}

fn compute_key_code(k: &ChunkKey) -> (r: i128)
    ensures
        r == key_code(*k),
{
    compute_point_code(&k.0)
}

/// The chunks in memory, by key.
pub struct ChunkMap {
    entries: HashMap<i128, (ChunkKey, Chunk)>,
}

impl View for ChunkMap {
    type V = Map<ChunkKey, Chunk>;

    closed spec fn view(&self) -> Map<ChunkKey, Chunk> {
        Map::new(
            |k: ChunkKey| self.entries@.contains_key(key_code(k)),
            |k: ChunkKey| self.entries@[key_code(k)].1,
        )
    }
}

impl ChunkMap {
    /// Every entry is stored under the number of its own key.
    pub closed spec fn wf(&self) -> bool {
        forall|c: i128| #[trigger]
            self.entries@.contains_key(c) ==> key_code(self.entries@[c].0) == c
    }

    /// Only finitely many chunks are stored.
    pub proof fn lemma_dom_finite(&self)
        requires
            self.wf(),
        ensures
            self@.dom().finite(),
    {
        let codes = self.entries@.dom();
        let f = |c: i128| self.entries@[c].0;
        codes.lemma_map_finite(f);
        assert forall|k: ChunkKey| #[trigger] self@.dom().contains(k) <==> codes.map(f).contains(k) by {
            if self@.dom().contains(k) {
                let c = key_code(k);
                assert(codes.contains(c));
                lemma_key_code_injective(self.entries@[c].0, k);
                assert(f(c) == k);
            }
            if codes.map(f).contains(k) {
                let c = choose|c: i128| codes.contains(c) && f(c) == k;
                assert(key_code(k) == c);
            }
        }
        assert(self@.dom() =~= codes.map(f));
    }

    /// The keys of the stored chunks, each once, in no particular order.
    pub fn keys(&self) -> (r: Vec<ChunkKey>)
        requires
            self.wf(),
        ensures
            r@.to_set() == self@.dom(),
            r@.no_duplicates(),
    {
        let mut r: Vec<ChunkKey> = Vec::new();
        let ghost s = vstd::std_specs::hash::spec_keys_iter(&self.entries).remaining();
        proof {
            vstd::std_specs::hash::axiom_spec_keys_iter(&self.entries);
        }
        for code in it: self.entries.keys()
            invariant
                self.wf(),
                it.seq() == s,
                s.no_duplicates(),
                s.unref().to_set() == self.entries@.dom(),
                r@.len() == it.index(),
                forall|j: int| 0 <= j < it.index() ==> key_code(#[trigger] r@[j]) == *s[j],
                forall|j: int| 0 <= j < it.index() ==> self@.dom().contains(#[trigger] r@[j]),
        {
            let ghost i = it.index() as int;
            assert(s.unref()[i] == *code);
            assert(s.unref().to_set().contains(*code));
            let pair = self.entries.get(code).unwrap();
            r.push(pair.0);
        }
        proof {
            assert(r@.len() == s.len());
            assert forall|j: int, l: int| 0 <= j < r@.len() && 0 <= l < r@.len() && j != l implies r@[j] != r@[l] by {
                assert(key_code(r@[j]) == *s[j]);
                assert(key_code(r@[l]) == *s[l]);
                assert(s.unref()[j] == *s[j]);
                assert(s.unref()[l] == *s[l]);
            }
            assert forall|k: ChunkKey| #[trigger] r@.to_set().contains(k) <==> self@.dom().contains(k) by {
                if self@.dom().contains(k) {
                    assert(s.unref().to_set().contains(key_code(k)));
                    let j = choose|j: int| 0 <= j < s.unref().len() && s.unref()[j] == key_code(k);
                    assert(key_code(r@[j]) == key_code(k));
                    lemma_key_code_injective(r@[j], k);
                    assert(r@.contains(k));
                }
                if r@.contains(k) {
                    let j = choose|j: int| 0 <= j < r@.len() && r@[j] == k;
                    assert(self@.dom().contains(r@[j]));
                }
            }
            assert(r@.to_set() =~= self@.dom());
        }
        r
    }

    /// An empty map.
    pub fn new() -> (r: ChunkMap)
        ensures
            r.wf(),
            r@ == Map::<ChunkKey, Chunk>::empty(),
    {
        let r = ChunkMap { entries: HashMap::new() };
        assert(r@ =~= Map::<ChunkKey, Chunk>::empty());
        r
    }

    /// Whether a chunk is stored under `p_key`.
    pub fn contains_key(&self, p_key: &ChunkKey) -> (r: bool)
        requires
            self.wf(),
        ensures
            r == self@.contains_key(*p_key),
    {
        let code = compute_key_code(p_key);
        self.entries.contains_key(&code)
    }

    /// The chunk stored under `p_key`, if any.
    pub fn get(&self, p_key: &ChunkKey) -> (r: Option<&Chunk>)
        requires
            self.wf(),
        ensures
            r == (if self@.contains_key(*p_key) {
                Some(&self@[*p_key])
            } else {
                None
            }),
    {
        let code = compute_key_code(p_key);
        match self.entries.get(&code) {
            Some(pair) => Some(&pair.1),
            None => None,
        }
    }

    /// Stores `p_chunk` under `p_key`, replacing what was there; gives back the replaced chunk.
    pub fn insert(&mut self, p_key: ChunkKey, p_chunk: Chunk) -> (r: Option<Chunk>)
        requires
            old(self).wf(),
        ensures
            final(self).wf(),
            final(self)@ == old(self)@.insert(p_key, p_chunk),
            r == (if old(self)@.contains_key(p_key) {
                Some(old(self)@[p_key])
            } else {
                None
            }),
    {
        let code = compute_key_code(&p_key);
        let r = self.entries.insert(code, (p_key, p_chunk));
        proof {
            assert forall|k: ChunkKey|
                #![auto]
                final(self)@.contains_key(k) == old(self)@.insert(p_key, p_chunk).contains_key(k)
                    && (final(self)@.contains_key(k) ==> final(self)@[k] == old(self)@.insert(
                    p_key,
                    p_chunk,
                )[k]) by {
                if key_code(k) == code {
                    lemma_key_code_injective(k, p_key);
                }
            }
            assert(final(self)@ =~= old(self)@.insert(p_key, p_chunk));
        }
        match r {
            Some(pair) => Some(pair.1),
            None => None,
        }
    }

    /// Removes the chunk stored under `p_key`, if any, and gives it back.
    pub fn remove(&mut self, p_key: &ChunkKey) -> (r: Option<Chunk>)
        requires
            old(self).wf(),
        ensures
            final(self).wf(),
            final(self)@ == old(self)@.remove(*p_key),
            r == (if old(self)@.contains_key(*p_key) {
                Some(old(self)@[*p_key])
            } else {
                None
            }),
    {
        let code = compute_key_code(p_key);
        let r = self.entries.remove(&code);
        proof {
            assert forall|k: ChunkKey|
                #![auto]
                final(self)@.contains_key(k) == old(self)@.remove(*p_key).contains_key(k)
                    && (final(self)@.contains_key(k) ==> final(self)@[k] == old(self)@[k]) by {
                if key_code(k) == code {
                    lemma_key_code_injective(k, *p_key);
                }
            }
            assert(final(self)@ =~= old(self)@.remove(*p_key));
        }
        match r {
            Some(pair) => Some(pair.1),
            None => None,
        }
    }

    /// The chunk stored under `p_key`, to change; an empty chunk is stored there first when
    /// there is none.
    pub fn get_or_insert_default(&mut self, p_key: ChunkKey) -> (r: &mut Chunk)
        requires
            old(self).wf(),
        ensures
            old(self)@.contains_key(p_key) ==> *r == old(self)@[p_key],
            !old(self)@.contains_key(p_key) ==> (*r)@ == empty_chunk_view(),
            final(self).wf(),
            final(self)@ == old(self)@.insert(p_key, *final(r)),
    {
        let code = compute_key_code(&p_key);
        let ghost old_entries = self.entries@;
        match self.entries.entry(code) {
            Entry::Occupied(o) => {
                let pair = o.into_mut();
                &mut pair.1
            },
            Entry::Vacant(v) => {
                let pair = v.insert((p_key, Chunk::default()));
                &mut pair.1
            },
        }
    }
}

} // verus!
