//! Edge-keyed hash maps of `bevy_platform`, seen through their contents.
use bevy_platform::collections::HashMap;
use vstd::prelude::*;

use crate::mesh::vertices::VertexIndex;

verus! {

/// `bevy_platform`'s hash map (a `hashbrown` map with a fixed hasher).
#[verifier::external_type_specification]
#[verifier::external_body]
#[verifier::reject_recursive_types(K)]
#[verifier::reject_recursive_types(V)]
#[verifier::reject_recursive_types(S)]
pub struct ExHashMap<K, V, S>(HashMap<K, V, S>);

/// `bevy_platform`'s fixed-seed hasher, the default hasher of its maps.
#[verifier::external_type_specification]
#[verifier::external_body]
pub struct ExFixedHasher(bevy_platform::hash::FixedHasher);

/// A sorted edge as a pair of plain indices.
pub open spec fn edge_key(e: (VertexIndex, VertexIndex)) -> (usize, usize) {
    (e.0.0, e.1.0)
}

/// A map from sorted edges, written as their plain index pairs, to vertex indices.
pub type EdgeIndexMap = HashMap<(usize, usize), usize>;

/// The empty assignment of vertex indices to edges.
pub open spec fn no_edge_indices() -> Map<(usize, usize), usize> {
    Map::empty()
}

/// What a map from edge keys to vertex indices holds.
pub uninterp spec fn edge_index_contents(m: HashMap<(usize, usize), usize>) -> Map<(usize, usize), usize>;

/// `HashMap::new`: the new map holds nothing.
#[verifier::external_body]
pub(crate) fn edge_index_map_new() -> (res: EdgeIndexMap)
    ensures
        edge_index_contents(res) == no_edge_indices(),
{
    HashMap::new()
}

/// `HashMap::get` (value copied out): the value stored under `key`, if any.
#[verifier::external_body]
pub(crate) fn edge_index_map_get(m: &EdgeIndexMap, key: &(usize, usize)) -> (res: Option<usize>)
    ensures
        res == (if edge_index_contents(*m).dom().contains(*key) {
            Some(edge_index_contents(*m)[*key])
        } else {
            None
        }),
{
    m.get(key).copied()
}

/// `HashMap::insert` (old value dropped): afterwards `key` maps to `value`, nothing else changes.
#[verifier::external_body]
pub(crate) fn edge_index_map_insert(m: &mut EdgeIndexMap, key: (usize, usize), value: usize)
    ensures
        edge_index_contents(*final(m)) == edge_index_contents(*old(m)).insert(key, value),
{
    m.insert(key, value);
}

/// A map from sorted edges to the triangles that have them.
pub type EdgeTriangleMap = HashMap<(VertexIndex, VertexIndex), Vec<usize>>;

/// The empty assignment of triangle lists to edges.
pub open spec fn no_edge_triangles() -> Map<(usize, usize), Seq<usize>> {
    Map::empty()
}

/// What a map from edges to triangle lists holds, keyed by the plain index pairs.
pub uninterp spec fn edge_triangle_contents(m: HashMap<(VertexIndex, VertexIndex), Vec<usize>>) -> Map<(usize, usize), Seq<usize>>;

/// The list stored under `k`, or the empty list.
pub open spec fn list_or_empty(m: Map<(usize, usize), Seq<usize>>, k: (usize, usize)) -> Seq<usize> {
    if m.dom().contains(k) {
        m[k]
    } else {
        Seq::empty()
    }
}

/// `HashMap::new`: the new map holds nothing.
#[verifier::external_body]
pub(crate) fn edge_triangle_map_new() -> (res: EdgeTriangleMap)
    ensures
        edge_triangle_contents(res) == no_edge_triangles(),
{
    HashMap::new()
}

/// `HashMap::entry(key).or_default().push(value)`: `value` is appended to the list under
/// `key`, which starts empty when the key is new; nothing else changes.
#[verifier::external_body]
pub(crate) fn edge_triangle_map_push(m: &mut EdgeTriangleMap, key: (VertexIndex, VertexIndex), value: usize)
    ensures
        edge_triangle_contents(*final(m)) == edge_triangle_contents(*old(m)).insert(
            edge_key(key),
            list_or_empty(edge_triangle_contents(*old(m)), edge_key(key)).push(value),
        ),
{
    m.entry(key).or_default().push(value);
}

/// `HashMap::into_iter` collected: every entry exactly once, in the map's own order.
#[verifier::external_body]
pub(crate) fn edge_triangle_map_entries(m: EdgeTriangleMap) -> (res: Vec<((VertexIndex, VertexIndex), Vec<usize>)>)
    ensures
        forall|i: int|
            0 <= i < res@.len() ==> edge_triangle_contents(m).dom().contains(edge_key(#[trigger] res@[i].0))
                && edge_triangle_contents(m)[edge_key(res@[i].0)] == res@[i].1@,
        forall|i: int, j: int|
            0 <= i < res@.len() && 0 <= j < res@.len() && i != j ==> edge_key(#[trigger] res@[i].0) != edge_key(
                #[trigger] res@[j].0,
            ),
        forall|k: (usize, usize)|
            edge_triangle_contents(m).dom().contains(k) ==> exists|i: int|
                0 <= i < res@.len() && edge_key(#[trigger] res@[i].0) == k,
{
    m.into_iter().collect()
}

} // verus!
