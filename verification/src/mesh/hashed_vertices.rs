use bevy_platform::collections::HashMap;
use vstd::prelude::*;

use crate::mesh::edge_maps::{
    edge_index_contents, edge_index_map_get, edge_index_map_insert, edge_index_map_new, edge_key, no_edge_indices,
};
use crate::mesh::vertices::{VertexArray, VertexIndex};

verus! {

/// Vertices generated on demand, one per edge key, on top of an existing vertex array:
/// asking twice for the same edge yields the same index.
pub struct HashedVertexArray<'a, V, Gen> {
    existing_data: &'a VertexArray<V>,
    generated_data: VertexArray<V>,
    map: HashMap<(usize, usize), usize>,
    pub generator: Gen,
}

impl<'a, V, Gen> HashedVertexArray<'a, V, Gen> {
    /// The vertices this array extends.
    pub closed spec fn existing(&self) -> Seq<V> {
        self.existing_data@
    }

    /// The vertices generated so far, in order of generation.
    pub closed spec fn generated(&self) -> Seq<V> {
        self.generated_data@
    }

    /// The function that makes the vertex of a new key.
    pub closed spec fn generator_fn(&self) -> Gen {
        self.generator
    }

    /// The index handed out for each edge key so far.
    pub closed spec fn key_map(&self) -> Map<(usize, usize), usize> {
        edge_index_contents(self.map)
    }
}

/// The edge named by a plain index pair.
pub open spec fn edge_of_key(k: (usize, usize)) -> (VertexIndex, VertexIndex) {
    (VertexIndex(k.0), VertexIndex(k.1))
}

impl<'a, V: Copy, Gen: Fn(&(VertexIndex, VertexIndex)) -> V> HashedVertexArray<'a, V, Gen> {
    /// The bookkeeping across calls: every key handed out so far has its own index, at or
    /// above the existing vertices and below all vertices, and the vertex there is one the
    /// generator made for that key.
    pub open spec fn keys_consistent(&self) -> bool {
        let e = self.existing().len() as int;
        let g = self.generated().len() as int;
        &&& forall|k: (usize, usize)|
            #[trigger] self.key_map().dom().contains(k) ==> e <= self.key_map()[k] < e + g
        &&& forall|k1: (usize, usize), k2: (usize, usize)|
            #[trigger] self.key_map().dom().contains(k1) && #[trigger] self.key_map().dom().contains(k2) && k1 != k2
                ==> self.key_map()[k1] != self.key_map()[k2]
        &&& forall|k: (usize, usize)|
            #[trigger] self.key_map().dom().contains(k) ==> call_ensures(
                self.generator_fn(),
                (&edge_of_key(k),),
                (self.existing() + self.generated())[self.key_map()[k] as int],
            )
    }

    /// An empty extension of `vertex_array`.
    pub fn new(vertex_array: &'a VertexArray<V>, generator: Gen) -> (res: Self)
        ensures
            res.existing() == vertex_array@,
            res.generated() == Seq::<V>::empty(),
            res.key_map() == no_edge_indices(),
            res.generator_fn() == generator,
            res.keys_consistent(),
    {
        HashedVertexArray {
            existing_data: vertex_array,
            generated_data: VertexArray::default(),
            map: edge_index_map_new(),
            generator: generator,
        }
    }

    /// The index of the vertex for `key`: the one handed out before for this key, or a
    /// fresh vertex made by the generator and numbered after all existing and generated ones.
    pub fn get_idx(&mut self, key: &(VertexIndex, VertexIndex)) -> (res: VertexIndex)
        requires
            old(self).existing().len() + old(self).generated().len() <= usize::MAX,
            call_requires(old(self).generator_fn(), (key,)),
        ensures
            final(self).existing() == old(self).existing(),
            final(self).generator_fn() == old(self).generator_fn(),
            final(self).key_map().dom().contains(edge_key(*key)),
            final(self).key_map()[edge_key(*key)] == res.0,
            old(self).keys_consistent() ==> final(self).keys_consistent(),
            old(self).key_map().dom().contains(edge_key(*key)) ==> {
                &&& res.0 == old(self).key_map()[edge_key(*key)]
                &&& final(self).generated() == old(self).generated()
                &&& final(self).key_map() == old(self).key_map()
            },
            !old(self).key_map().dom().contains(edge_key(*key)) ==> {
                &&& res.0 == old(self).existing().len() + old(self).generated().len()
                &&& final(self).generated() == old(self).generated().push(final(self).generated().last())
                &&& call_ensures(old(self).generator_fn(), (key,), final(self).generated().last())
                &&& final(self).key_map() == old(self).key_map().insert(edge_key(*key), res.0)
            },
    {
        let k = (key.0.0, key.1.0);
        if let Some(idx) = edge_index_map_get(&self.map, &k) {
            return VertexIndex(idx);
        }
        let ghost before = *self;
        let v = (self.generator)(key);
        let idx = self.generated_data.add(v).0 + self.existing_data.count();
        edge_index_map_insert(&mut self.map, k, idx);
        proof {
            if before.keys_consistent() {
                let e = self.existing().len() as int;
                let g0 = before.generated().len() as int;
                assert(edge_of_key(k) == *key);
                assert(!before.key_map().dom().contains(k));
                assert(idx == e + g0);
                assert(self.key_map() == before.key_map().insert(k, idx));
                assert(self.generated().len() == g0 + 1);
                assert forall|k1: (usize, usize)| #[trigger] self.key_map().dom().contains(k1) implies e <= self.key_map()[k1]
                    < e + g0 + 1 by {
                    if k1 != k {
                        assert(before.key_map().dom().contains(k1));
                    }
                }
                assert forall|k1: (usize, usize), k2: (usize, usize)|
                    #[trigger] self.key_map().dom().contains(k1) && #[trigger] self.key_map().dom().contains(k2) && k1 != k2
                        implies self.key_map()[k1] != self.key_map()[k2] by {
                    if k1 != k {
                        assert(before.key_map().dom().contains(k1));
                    }
                    if k2 != k {
                        assert(before.key_map().dom().contains(k2));
                    }
                }
                assert forall|j: int| 0 <= j < e + before.generated().len() implies
                    #[trigger] (self.existing() + self.generated())[j] == (before.existing() + before.generated())[j] by {
                    if j >= e {
                        assert(self.generated()[j - e] == before.generated()[j - e]);
                    }
                }
                assert((self.existing() + self.generated())[idx as int] == v);
                assert forall|k1: (usize, usize)| #[trigger] self.key_map().dom().contains(k1) implies call_ensures(
                    self.generator_fn(),
                    (&edge_of_key(k1),),
                    (self.existing() + self.generated())[self.key_map()[k1] as int],
                ) by {
                    if k1 != k {
                        assert(before.key_map().dom().contains(k1));
                    }
                }
            }
        }
        VertexIndex(idx)
    }

    /// The vertex at `idx`, counting the existing vertices first.
    pub fn get_vertex(&self, idx: &VertexIndex) -> (res: &V)
        requires
            idx.0 < self.existing().len() + self.generated().len(),
        ensures
            *res == (self.existing() + self.generated())[idx.0 as int],
    {
        if idx.0 < self.existing_data.count() {
            self.existing_data.get(idx)
        } else {
            let local = VertexIndex(idx.0 - self.existing_data.count());
            self.generated_data.get(&local)
        }
    }

    /// Adds `vertex` without a key and returns its index.
    pub fn insert_unmapped(&mut self, vertex: &V) -> (res: VertexIndex)
        requires
            old(self).existing().len() + old(self).generated().len() <= usize::MAX,
        ensures
            res.0 == old(self).existing().len() + old(self).generated().len(),
            final(self).generated() == old(self).generated().push(*vertex),
            final(self).existing() == old(self).existing(),
            final(self).key_map() == old(self).key_map(),
            final(self).generator_fn() == old(self).generator_fn(),
            old(self).keys_consistent() ==> final(self).keys_consistent(),
    {
        let ghost before = *self;
        let local_idx = self.generated_data.add(*vertex);
        proof {
            if before.keys_consistent() {
                let e = self.existing().len() as int;
                assert forall|j: int| 0 <= j < e + before.generated().len() implies
                    #[trigger] (self.existing() + self.generated())[j] == (before.existing() + before.generated())[j] by {
                    if j >= e {
                        assert(self.generated()[j - e] == before.generated()[j - e]);
                    }
                }
            }
        }
        VertexIndex(local_idx.0 + self.existing_data.count())
    }

    /// The generated vertices, in order of generation.
    pub fn retrieve_data(self) -> (res: VertexArray<V>)
        ensures
            res@ == self.generated(),
    {
        self.generated_data
    }
}

/// Across any sequence of `new`, `get_idx` and `insert_unmapped` calls (each keeps
/// `keys_consistent`): equal keys were given equal indices and distinct keys distinct ones,
/// every key's index lies at or above the existing vertices and below all vertices, and
/// `get_vertex` at a key's index returns the vertex the generator made for that key.
pub proof fn law_hashed_indices<'a, V: Copy, Gen: Fn(&(VertexIndex, VertexIndex)) -> V>(
    h: HashedVertexArray<'a, V, Gen>,
    k1: (usize, usize),
    k2: (usize, usize),
)
    requires
        h.keys_consistent(),
        h.key_map().dom().contains(k1),
        h.key_map().dom().contains(k2),
    ensures
        k1 == k2 <==> h.key_map()[k1] == h.key_map()[k2],
        h.existing().len() <= h.key_map()[k1] < h.existing().len() + h.generated().len(),
        call_ensures(h.generator_fn(), (&edge_of_key(k1),), (h.existing() + h.generated())[h.key_map()[k1] as int]),
{
}

} // verus!
