//! Topological steps of planet mesh generation.
use vstd::prelude::*;

use crate::mesh::edge_maps::{edge_key, edge_triangle_contents, edge_triangle_map_entries};
use crate::mesh::mesh_data::{MeshData, edge_triangles, triangle};
use crate::mesh::mesh_data::add_triangle_edges;
use crate::mesh::edge_maps::list_or_empty;
use crate::mesh::vertices::{
    Polygon, PolygonArray, Quad, Triangle, VertexIndex, cycle_edge, edge_at, edges_upto, first_edge_at, indices_below,
};
use crate::mesh::face_laws::{inserted_between, made_from_candidate};
use rand::seq::SliceRandom;

verus! {

/// How a planet mesh is drawn.
#[derive(Clone, Copy, Debug, PartialEq, Eq, Structural)]
pub enum RenderMode {
    Flat,
    Smooth,
    Frame,
}

impl Default for RenderMode {
    /// Wireframe.
    fn default() -> (res: RenderMode)
        ensures
            res == RenderMode::Frame,
    {
        RenderMode::Frame
    }
}

/// Two triangles sharing `edge` that may be merged into a quad: `opposite_b` is the corner
/// of triangle `tr_b` off the edge.
#[derive(Clone, Copy, Debug)]
pub struct MergeCandidate {
    pub edge: (VertexIndex, VertexIndex),
    pub tr_a: usize,
    pub tr_b: usize,
    pub opposite_b: VertexIndex,
}

/// The quad made from triangle `t` by inserting `c.opposite_b` between the two ends of
/// `c.edge` on `t`.
pub open spec fn merged_quad(t: Triangle, c: MergeCandidate) -> Quad {
    let pos = first_edge_at(t.verts@, c.edge, 0).unwrap().0;
    let s = t.verts@.insert(pos + 1, c.opposite_b);
    Polygon { verts: [s[0], s[1], s[2], s[3]] }
}

/// `c` names two triangles of `ts`, and `c.edge` lies on the first.
pub open spec fn candidate_applies(ts: Seq<Triangle>, c: MergeCandidate) -> bool {
    &&& c.tr_a < ts.len()
    &&& c.tr_b < ts.len()
    &&& first_edge_at(ts[c.tr_a as int].verts@, c.edge, 0) is Some
}

/// Merges greedily, taking candidates from the last to the first and skipping those with
/// a triangle already used: the final use flags and the quads in order of creation.
pub open spec fn greedy_merge(ts: Seq<Triangle>, cands: Seq<MergeCandidate>, used: Seq<bool>) -> (Seq<bool>, Seq<Quad>)
    decreases cands.len(),
{
    if cands.len() == 0 {
        (used, Seq::empty())
    } else {
        let c = cands.last();
        if used[c.tr_a as int] || used[c.tr_b as int] {
            greedy_merge(ts, cands.drop_last(), used)
        } else {
            let r = greedy_merge(ts, cands.drop_last(), used.update(c.tr_a as int, true).update(c.tr_b as int, true));
            (r.0, seq![merged_quad(ts[c.tr_a as int], c)] + r.1)
        }
    }
}

/// The triangles whose flag is not set, in order.
pub open spec fn unused_triangles(ts: Seq<Triangle>, used: Seq<bool>) -> Seq<Triangle>
    decreases ts.len(),
{
    if ts.len() == 0 {
        Seq::empty()
    } else if used[ts.len() - 1] {
        unused_triangles(ts.drop_last(), used)
    } else {
        unused_triangles(ts.drop_last(), used).push(ts.last())
    }
}

/// No flag set for `n` triangles.
pub open spec fn all_unused(n: nat) -> Seq<bool> {
    Seq::new(n, |i: int| false)
}

impl<V> MeshData<V> {
    /// Merges triangle pairs into quads, taking `candidates` from the last to the first and
    /// skipping any whose triangles are already merged; the quads replace the mesh's quads
    /// and only the unmerged triangles remain.
    pub fn merge_triangle_pairs(&mut self, candidates: Vec<MergeCandidate>)
        requires
            forall|i: int| 0 <= i < candidates@.len() ==> candidate_applies(old(self).triangles.data@, #[trigger] candidates@[i]),
        ensures
            ({
                let ts = old(self).triangles.data@;
                let r = greedy_merge(ts, candidates@, all_unused(ts.len()));
                &&& final(self).quads.data@ == r.1
                &&& final(self).triangles.data@ == unused_triangles(ts, r.0)
            }),
            final(self).vertices@ == old(self).vertices@,
            final(self).boundary_indices@ == old(self).boundary_indices@,
            final(self).lines.data@ == old(self).lines.data@,
            final(self).hex.data@ == old(self).hex.data@,
            old(self).well_formed() && (forall|i: int|
                0 <= i < candidates@.len() ==> (#[trigger] candidates@[i]).opposite_b.0 < old(self).vertices@.len())
                ==> final(self).well_formed(),
            forall|k: int|
                0 <= k < final(self).quads.data@.len() ==> made_from_candidate(
                    #[trigger] final(self).quads.data@[k],
                    old(self).triangles.data@,
                    candidates@,
                ),
    {
        let ghost ts = self.triangles.data@;
        let ghost cands0 = candidates@;
        let mut candidates = candidates;
        let mut used: Vec<bool> = Vec::new();
        let mut i: usize = 0;
        while i < self.triangles.data.len()
            invariant
                i <= ts.len(),
                ts == self.triangles.data@,
                used@ == all_unused(i as nat),
            decreases ts.len() - i,
        {
            used.push(false);
            i += 1;
            assert(used@ =~= all_unused(i as nat));
        }
        let mut generated_quads: Vec<Quad> = Vec::new();
        while candidates.len() > 0
            invariant
                ts == self.triangles.data@,
                used@.len() == ts.len(),
                forall|j: int| 0 <= j < candidates@.len() ==> candidate_applies(ts, #[trigger] candidates@[j]),
                greedy_merge(ts, cands0, all_unused(ts.len())) == ({
                    let r = greedy_merge(ts, candidates@, used@);
                    (r.0, generated_quads@ + r.1)
                }),
                self.vertices@ == old(self).vertices@,
                self.boundary_indices@ == old(self).boundary_indices@,
                self.lines.data@ == old(self).lines.data@,
                self.hex.data@ == old(self).hex.data@,
            decreases candidates@.len(),
        {
            let ghost cs = candidates@;
            let candidate = candidates.pop().unwrap();
            assert(candidate == cs.last());
            assert(candidates@ == cs.drop_last());
            assert(candidate_applies(ts, cs[cs.len() - 1]));
            if used[candidate.tr_a] || used[candidate.tr_b] {
                continue;
            }
            let tri = self.triangles.data[candidate.tr_a];
            let edge_pos = tri.find_edge_positions(&candidate.edge).unwrap();
            let mut verts: Vec<VertexIndex> = Vec::new();
            verts.push(tri.verts[0]);
            verts.push(tri.verts[1]);
            verts.push(tri.verts[2]);
            assert(verts@ =~= tri.verts@);
            assert(edge_pos.0 < 3) by {
                lemma_first_edge_at_range(tri.verts@, candidate.edge, 0);
            }
            verts.insert(edge_pos.0 + 1, candidate.opposite_b);
            let quad = Polygon { verts: [verts[0], verts[1], verts[2], verts[3]] };
            assert(quad == merged_quad(tri, candidate));
            let ghost gq = generated_quads@;
            generated_quads.push(quad);
            assert(generated_quads@ + greedy_merge(ts, candidates@, used@.update(candidate.tr_a as int, true).update(candidate.tr_b as int, true)).1
                =~= gq + (seq![quad] + greedy_merge(ts, candidates@, used@.update(candidate.tr_a as int, true).update(candidate.tr_b as int, true)).1));
            used.set(candidate.tr_a, true);
            used.set(candidate.tr_b, true);
        }
        let ghost final_used = used@;
        assert(greedy_merge(ts, cands0, all_unused(ts.len())).0 == final_used);
        let mut remaining: Vec<Triangle> = Vec::new();
        let mut k: usize = 0;
        while k < used.len()
            invariant
                k <= ts.len(),
                used@.len() == ts.len(),
                ts == self.triangles.data@,
                remaining@ == unused_triangles(ts.take(k as int), used@),
            decreases ts.len() - k,
        {
            if !used[k] {
                remaining.push(self.triangles.data[k]);
            }
            k += 1;
            assert(ts.take(k as int).drop_last() =~= ts.take(k - 1));
        }
        assert(ts.take(k as int) =~= ts);
        self.triangles = PolygonArray { data: remaining };
        self.quads = PolygonArray { data: generated_quads };
        proof {
            crate::mesh::face_laws::law_merged_quads(ts, cands0, all_unused(ts.len()));
        }
        proof {
            let n = self.vertices@.len() as int;
            if old(self).well_formed() && (forall|i: int|
                0 <= i < cands0.len() ==> (#[trigger] cands0[i]).opposite_b.0 < n) {
                assert forall|i: int| 0 <= i < cands0.len() implies crate::mesh::laws::sound_candidate(
                    ts,
                    #[trigger] cands0[i],
                    n,
                ) by {
                    assert(candidate_applies(ts, cands0[i]));
                }
                crate::mesh::laws::lemma_greedy_quads_below(ts, cands0, all_unused(ts.len()), n);
                crate::mesh::laws::lemma_unused_below(ts, final_used, n);
            }
        }
    }
}

/// The edge named by a plain index pair.
pub open spec fn edge_of_key(k: (usize, usize)) -> (VertexIndex, VertexIndex) {
    (VertexIndex(k.0), VertexIndex(k.1))
}

/// The first corner of `t` that is not an end of `e`.
pub open spec fn first_off_edge(t: Triangle, e: (VertexIndex, VertexIndex)) -> Option<VertexIndex> {
    if t.verts[0] != e.0 && t.verts[0] != e.1 {
        Some(t.verts[0])
    } else if t.verts[1] != e.0 && t.verts[1] != e.1 {
        Some(t.verts[1])
    } else if t.verts[2] != e.0 && t.verts[2] != e.1 {
        Some(t.verts[2])
    } else {
        None
    }
}

/// `c` describes an edge shared by exactly two triangles of `ts` (in the order they
/// appear) and the corner of the second one off that edge.
pub open spec fn is_merge_candidate(ts: Seq<Triangle>, c: MergeCandidate) -> bool {
    let m = edge_triangles(ts);
    let k = edge_key(c.edge);
    &&& m.dom().contains(k)
    &&& m[k].len() == 2
    &&& c.tr_a == m[k][0]
    &&& c.tr_b == m[k][1]
    &&& first_off_edge(ts[c.tr_b as int], c.edge) == Some(c.opposite_b)
}

/// `q` is a triangle of `ts` merged with its partner across a shared edge: the partner's
/// corner off the edge put between the edge's two ends.
pub open spec fn made_by_merging(q: Quad, ts: Seq<Triangle>) -> bool {
    exists|c: MergeCandidate| is_merge_candidate(ts, c) && #[trigger] inserted_between(q, ts[c.tr_a as int], c)
}

/// `quads` and `rest` are what merging the triangles `ts` yields when the merge candidates
/// of `ts`, each once, are visited in the order `order` (from its end).
pub open spec fn merge_outcome(ts: Seq<Triangle>, order: Seq<MergeCandidate>, quads: Seq<Quad>, rest: Seq<Triangle>) -> bool {
    let r = greedy_merge(ts, order, all_unused(ts.len()));
    &&& order.no_duplicates()
    &&& forall|c: MergeCandidate| #[trigger] order.contains(c) <==> is_merge_candidate(ts, c)
    &&& quads == r.1
    &&& rest == unused_triangles(ts, r.0)
}

/// Every edge shared by exactly two triangles has a corner of the second one off it.
pub open spec fn mergeable(ts: Seq<Triangle>) -> bool {
    let m = edge_triangles(ts);
    forall|k: (usize, usize)|
        #![trigger m[k]]
        m.dom().contains(k) && m[k].len() == 2 ==> first_off_edge(ts[m[k][1] as int], edge_of_key(k)) is Some
}

/// `rand`'s `SliceRandom::shuffle` with the thread-local generator of `rand::rng()`: the
/// candidates come back in some order, each exactly as often as before.
#[verifier::external_body]
fn shuffle_candidates(candidates: &mut Vec<MergeCandidate>)
    ensures
        final(candidates)@.to_multiset() == old(candidates)@.to_multiset(),
{
    candidates.shuffle(&mut rand::rng());
}

/// The first corner of `t` off the edge `e`, if any.
fn find_off_edge(t: &Triangle, e: &(VertexIndex, VertexIndex)) -> (res: Option<VertexIndex>)
    ensures
        res == first_off_edge(*t, *e),
{
    let mut k: usize = 0;
    while k < 3
        invariant
            k <= 3,
            forall|j: int| 0 <= j < k ==> t.verts@[j] == e.0 || t.verts@[j] == e.1,
        decreases 3 - k,
    {
        let v = t.verts[k];
        if v.0 != e.0.0 && v.0 != e.1.0 {
            return Some(v);
        }
        k += 1;
    }
    None
}

/// The lists of the edge-to-triangle map hold triangle positions, each triangle of the
/// list having the edge, in strictly increasing order.
pub proof fn lemma_edge_triangles(ts: Seq<Triangle>)
    requires
        ts.len() <= usize::MAX,
    ensures
        forall|k: (usize, usize), i: int|
            #![trigger edge_triangles(ts)[k][i]]
            edge_triangles(ts).dom().contains(k) && 0 <= i < edge_triangles(ts)[k].len() ==> {
                &&& edge_triangles(ts)[k][i] < ts.len()
                &&& edges_upto(ts[edge_triangles(ts)[k][i] as int].verts@, 3).contains(edge_of_key(k))
                &&& forall|j: int| 0 <= j < i ==> edge_triangles(ts)[k][j] < edge_triangles(ts)[k][i]
            },
    decreases ts.len(),
{
    if ts.len() > 0 {
        let p = ts.drop_last();
        lemma_edge_triangles(p);
        let t = (ts.len() - 1) as usize;
        let last = ts.last();
        assert(ts[t as int] == last);
        let es = edges_upto(last.verts@, 3);
        lemma_edges_upto(last.verts@, 3);
        lemma_add_triangle_edges(edge_triangles(p), es, t);
        let m = edge_triangles(ts);
        let m0 = edge_triangles(p);
        assert(m == add_triangle_edges(m0, es, t));
        assert forall|k: (usize, usize), i: int|
            #![trigger edge_triangles(ts)[k][i]]
            edge_triangles(ts).dom().contains(k) && 0 <= i < edge_triangles(ts)[k].len() implies {
                &&& edge_triangles(ts)[k][i] < ts.len()
                &&& edges_upto(ts[edge_triangles(ts)[k][i] as int].verts@, 3).contains(edge_of_key(k))
                &&& forall|j: int| 0 <= j < i ==> edge_triangles(ts)[k][j] < edge_triangles(ts)[k][i]
            } by {
            if es.contains(edge_of_key(k)) {
                let l0 = list_or_empty(m0, k);
                assert(m[k] == l0.push(t));
                if i < l0.len() {
                    assert(m0.dom().contains(k));
                    assert(m[k][i] == m0[k][i]);
                    assert(m0[k][i] < p.len());
                    assert(ts[m0[k][i] as int] == p[m0[k][i] as int]);
                    assert forall|j: int| 0 <= j < i implies m[k][j] < m[k][i] by {
                        assert(m[k][j] == m0[k][j]);
                        assert(m0[k][j] < m0[k][i]);
                    }
                } else {
                    assert(m[k][i] == t);
                    assert forall|j: int| 0 <= j < i implies m[k][j] < m[k][i] by {
                        assert(m0.dom().contains(k));
                        assert(m[k][j] == m0[k][j]);
                        assert(m0[k][j] < p.len());
                    }
                }
            } else {
                assert(m0.dom().contains(k));
                assert(m[k] == m0[k]);
                assert(m0[k][i] < p.len());
                assert(ts[m0[k][i] as int] == p[m0[k][i] as int]);
                assert forall|j: int| 0 <= j < i implies m[k][j] < m[k][i] by {
                    assert(m0[k][j] < m0[k][i]);
                }
            }
        }
    }
}

/// Adding one triangle's distinct edges appends the triangle once to each of their lists
/// and leaves the other lists alone.
pub proof fn lemma_add_triangle_edges(m: Map<(usize, usize), Seq<usize>>, es: Seq<(VertexIndex, VertexIndex)>, t: usize)
    requires
        es.no_duplicates(),
    ensures
        forall|k: (usize, usize)|
            #![trigger add_triangle_edges(m, es, t)[k]]
            #![trigger add_triangle_edges(m, es, t).dom().contains(k)]
            add_triangle_edges(m, es, t).dom().contains(k) ==> {
                if es.contains(edge_of_key(k)) {
                    &&& add_triangle_edges(m, es, t)[k] == list_or_empty(m, k).push(t)
                } else {
                    &&& m.dom().contains(k)
                    &&& add_triangle_edges(m, es, t)[k] == m[k]
                }
            },
        forall|k: (usize, usize)|
            #![trigger add_triangle_edges(m, es, t).dom().contains(k)]
            es.contains(edge_of_key(k)) || m.dom().contains(k) ==> add_triangle_edges(m, es, t).dom().contains(k),
    decreases es.len(),
{
    if es.len() > 0 {
        let q = es.drop_last();
        assert(q.no_duplicates());
        lemma_add_triangle_edges(m, q, t);
        let prev = add_triangle_edges(m, q, t);
        let kl = edge_key(es.last());
        let res = add_triangle_edges(m, es, t);
        assert(res == prev.insert(kl, list_or_empty(prev, kl).push(t)));
        assert(edge_of_key(kl) == es.last());
        assert(es[es.len() - 1] == es.last());
        assert(!q.contains(es.last())) by {
            if q.contains(es.last()) {
                let i = choose|i: int| 0 <= i < q.len() && q[i] == es.last();
                assert(es[i] == es[es.len() - 1]);
            }
        }
        assert(list_or_empty(prev, kl) == list_or_empty(m, kl)) by {
            if prev.dom().contains(kl) {
                assert(prev[kl] == m[kl]);
            }
            if m.dom().contains(kl) {
                assert(prev.dom().contains(kl));
            }
        }
        assert forall|k: (usize, usize)|
            #![trigger res.dom().contains(k)]
            es.contains(edge_of_key(k)) || m.dom().contains(k) implies res.dom().contains(k) by {
            if k != kl {
                if es.contains(edge_of_key(k)) {
                    let i = choose|i: int| 0 <= i < es.len() && es[i] == edge_of_key(k);
                    if i == es.len() - 1 {
                        assert(edge_key(es.last()) == k);
                    }
                    assert(q[i] == edge_of_key(k));
                    assert(q.contains(edge_of_key(k)));
                }
                assert(prev.dom().contains(k));
            }
        }
        assert forall|k: (usize, usize)|
            #![trigger res[k]]
            #![trigger res.dom().contains(k)]
            res.dom().contains(k) implies {
                if es.contains(edge_of_key(k)) {
                    &&& res[k] == list_or_empty(m, k).push(t)
                } else {
                    &&& m.dom().contains(k)
                    &&& res[k] == m[k]
                }
            } by {
            if k != kl {
                assert(prev.dom().contains(k));
                assert(res[k] == prev[k]);
                if es.contains(edge_of_key(k)) {
                    let i = choose|i: int| 0 <= i < es.len() && es[i] == edge_of_key(k);
                    if i == es.len() - 1 {
                        assert(edge_key(es.last()) == k);
                    }
                    assert(q[i] == edge_of_key(k));
                    assert(q.contains(edge_of_key(k)));
                } else {
                    if q.contains(edge_of_key(k)) {
                        let i = choose|i: int| 0 <= i < q.len() && q[i] == edge_of_key(k);
                        assert(es[i] == edge_of_key(k));
                    }
                    assert(!q.contains(edge_of_key(k)));
                    assert(m.dom().contains(k));
                }
            } else {
                assert(es.contains(edge_of_key(k)));
            }
        }
    } else {
        assert(add_triangle_edges(m, es, t) == m);
        assert forall|k: (usize, usize)|
            #![trigger add_triangle_edges(m, es, t)[k]]
            add_triangle_edges(m, es, t).dom().contains(k) implies !es.contains(edge_of_key(k)) && m.dom().contains(k) by {}
    }
}

/// The distinct edges of a cycle hold no repeats, and each is the edge leaving some corner.
pub proof fn lemma_edges_upto(verts: Seq<VertexIndex>, k: int)
    requires
        0 <= k <= verts.len(),
    ensures
        edges_upto(verts, k).no_duplicates(),
        forall|e: (VertexIndex, VertexIndex)|
            #[trigger] edges_upto(verts, k).contains(e) ==> exists|i: int| 0 <= i < k && #[trigger] cycle_edge(verts, i) == e,
    decreases k,
{
    if k > 0 {
        lemma_edges_upto(verts, k - 1);
        let p = edges_upto(verts, k - 1);
        let x = cycle_edge(verts, k - 1);
        assert forall|e: (VertexIndex, VertexIndex)| edges_upto(verts, k).contains(e) implies exists|i: int|
            0 <= i < k && #[trigger] cycle_edge(verts, i) == e by {
            if e == x {
                assert(cycle_edge(verts, k - 1) == e);
            } else {
                let j = choose|j: int| 0 <= j < edges_upto(verts, k).len() && edges_upto(verts, k)[j] == e;
                if !p.contains(x) {
                    assert(j < p.len());
                }
                assert(p[j] == e);
                assert(p.contains(e));
            }
        }
        if !p.contains(x) {
            assert forall|a: int, b: int|
                0 <= a < edges_upto(verts, k).len() && 0 <= b < edges_upto(verts, k).len() && a != b implies edges_upto(verts, k)[a]
                != edges_upto(verts, k)[b] by {
                if a == p.len() {
                    assert(p[b] != x);
                } else if b == p.len() {
                    assert(p[a] != x);
                }
            }
        }
    }
}

/// Some matching corner at or after `from` makes `first_edge_at` succeed.
pub proof fn lemma_first_edge_at_some(verts: Seq<VertexIndex>, e: (VertexIndex, VertexIndex), from: int, j: int)
    requires
        0 <= from <= j < verts.len(),
        edge_at(verts, e, j) is Some,
    ensures
        first_edge_at(verts, e, from) is Some,
    decreases j - from,
{
    if edge_at(verts, e, from) is None {
        lemma_first_edge_at_some(verts, e, from + 1, j);
    }
}

/// An edge of a triangle is found on it.
pub proof fn lemma_edge_found(t: Triangle, e: (VertexIndex, VertexIndex))
    requires
        edges_upto(t.verts@, 3).contains(e),
    ensures
        first_edge_at(t.verts@, e, 0) is Some,
{
    lemma_edges_upto(t.verts@, 3);
    let v = t.verts@;
    let i = choose|i: int| 0 <= i < 3 && #[trigger] cycle_edge(v, i) == e;
    let nx = (i + 1) % 3;
    assert(0 <= nx < 3);
    if v[i].0 < v[nx].0 {
        assert(edge_at(v, e, i) is Some);
        lemma_first_edge_at_some(v, e, 0, i);
    } else {
        assert(e == (v[nx], v[i]));
        assert(crate::mesh::vertices::prev_pos(nx, 3) == i) by {
            if i == 2 {
                assert(nx == 0);
            }
        }
        assert(edge_at(v, e, nx) is Some);
        lemma_first_edge_at_some(v, e, 0, nx);
    }
}

/// Merges triangles of `mesh` pairwise into quads along shared edges, visiting the
/// candidate pairs in random order; every candidate pair whose triangles are both still
/// free is merged, the merged quads replace the mesh's quads and the unmerged triangles
/// stay.
pub fn combine_triangles_to_quads_randomly<V>(mesh: &mut MeshData<V>)
    requires
        mergeable(old(mesh).triangles.data@),
    ensures
        exists|order: Seq<MergeCandidate>|
            #[trigger] merge_outcome(old(mesh).triangles.data@, order, final(mesh).quads.data@, final(mesh).triangles.data@),
        final(mesh).vertices@ == old(mesh).vertices@,
        final(mesh).boundary_indices@ == old(mesh).boundary_indices@,
        final(mesh).lines.data@ == old(mesh).lines.data@,
        final(mesh).hex.data@ == old(mesh).hex.data@,
        old(mesh).well_formed() ==> final(mesh).well_formed(),
        forall|k: int|
            0 <= k < final(mesh).quads.data@.len() ==> made_by_merging(
                #[trigger] final(mesh).quads.data@[k],
                old(mesh).triangles.data@,
            ),
{
    let ghost ts = mesh.triangles.data@;
    let ghost m = edge_triangles(ts);
    proof {
        assert(ts.len() == mesh.triangles.data.len());
        lemma_edge_triangles(ts);
    }
    let edge_map = mesh.get_edges_of_triangles();
    let entries = edge_triangle_map_entries(edge_map);
    let mut candidates: Vec<MergeCandidate> = Vec::new();
    let mut p: usize = 0;
    while p < entries.len()
        invariant
            p <= entries@.len(),
            ts == mesh.triangles.data@,
            m == edge_triangles(ts),
            mergeable(ts),
            forall|i: int| 0 <= i < entries@.len() ==> m.dom().contains(edge_key(#[trigger] entries@[i].0))
                && m[edge_key(entries@[i].0)] == entries@[i].1@,
            forall|i: int, j: int|
                0 <= i < entries@.len() && 0 <= j < entries@.len() && i != j ==> edge_key(#[trigger] entries@[i].0)
                    != edge_key(#[trigger] entries@[j].0),
            forall|j: int| 0 <= j < candidates@.len() ==> is_merge_candidate(ts, #[trigger] candidates@[j]),
            forall|j: int|
                #![trigger candidates@[j]]
                0 <= j < candidates@.len() ==> exists|i: int|
                    0 <= i < p && edge_key(#[trigger] entries@[i].0) == edge_key(candidates@[j].edge),
            candidates@.no_duplicates(),
            forall|c: MergeCandidate|
                is_merge_candidate(ts, c) && (exists|i: int| 0 <= i < p && edge_key(#[trigger] entries@[i].0) == edge_key(c.edge))
                    ==> candidates@.contains(c),
        decreases entries@.len() - p,
    {
        let e = entries[p].0;
        let ghost k = edge_key(e);
        proof {
            assert(ts.len() == mesh.triangles.data.len());
            lemma_edge_triangles(ts);
        }
        assert(edge_of_key(k) == e);
        if entries[p].1.len() == 2 {
            let tr_a = entries[p].1[0];
            let tr_b = entries[p].1[1];
            assert(m.dom().contains(k));
            assert(m[k] == entries@[p as int].1@);
            assert(m[k].len() == 2);
            assert(m[k][1] == tr_b);
            assert(edge_triangles(ts)[k][1] < ts.len());
            let opposite = find_off_edge(&mesh.triangles.data[tr_b], &e);
            let c = MergeCandidate { edge: e, tr_a: tr_a, tr_b: tr_b, opposite_b: opposite.unwrap() };
            assert(is_merge_candidate(ts, c));
            let ghost before = candidates@;
            proof {
                assert(!before.contains(c)) by {
                    if before.contains(c) {
                        let j = choose|j: int| 0 <= j < before.len() && before[j] == c;
                        let i = choose|i: int| 0 <= i < p && edge_key(#[trigger] entries@[i].0) == edge_key(before[j].edge);
                        assert(edge_key(entries@[i].0) == edge_key(entries@[p as int].0));
                    }
                }
            }
            candidates.push(c);
            proof {
                assert forall|j: int| #![trigger candidates@[j]] 0 <= j < candidates@.len() implies exists|i: int|
                    0 <= i < p + 1 && edge_key(#[trigger] entries@[i].0) == edge_key(candidates@[j].edge) by {
                    if j < before.len() {
                        let i = choose|i: int| 0 <= i < p && edge_key(#[trigger] entries@[i].0) == edge_key(before[j].edge);
                        assert(0 <= i < p + 1);
                    } else {
                        assert(edge_key(entries@[p as int].0) == edge_key(candidates@[j].edge));
                    }
                }
                assert forall|a: int, b: int|
                    0 <= a < candidates@.len() && 0 <= b < candidates@.len() && a != b implies candidates@[a] != candidates@[b] by {
                    if a == before.len() {
                        assert(before[b] != c);
                    } else if b == before.len() {
                        assert(before[a] != c);
                    }
                }
                assert forall|c2: MergeCandidate|
                    is_merge_candidate(ts, c2) && (exists|i: int| 0 <= i < p + 1 && edge_key(#[trigger] entries@[i].0) == edge_key(c2.edge))
                        implies candidates@.contains(c2) by {
                    let i = choose|i: int| 0 <= i < p + 1 && edge_key(#[trigger] entries@[i].0) == edge_key(c2.edge);
                    if i == p {
                        assert(c2.edge == e);
                        assert(c2 == c);
                        assert(candidates@[before.len() as int] == c2);
                    } else {
                        assert(before.contains(c2));
                        let j = choose|j: int| 0 <= j < before.len() && before[j] == c2;
                        assert(candidates@[j] == c2);
                    }
                }
            }
        } else {
            proof {
                assert forall|c2: MergeCandidate|
                    is_merge_candidate(ts, c2) && (exists|i: int| 0 <= i < p + 1 && edge_key(#[trigger] entries@[i].0) == edge_key(c2.edge))
                        implies candidates@.contains(c2) by {
                    let i = choose|i: int| 0 <= i < p + 1 && edge_key(#[trigger] entries@[i].0) == edge_key(c2.edge);
                    if i == p {
                        assert(m[edge_key(c2.edge)].len() == 2);
                        assert(false);
                    }
                }
                assert forall|j: int| #![trigger candidates@[j]] 0 <= j < candidates@.len() implies exists|i: int|
                    0 <= i < p + 1 && edge_key(#[trigger] entries@[i].0) == edge_key(candidates@[j].edge) by {
                    let i = choose|i: int| 0 <= i < p && edge_key(#[trigger] entries@[i].0) == edge_key(candidates@[j].edge);
                    assert(0 <= i < p + 1);
                }
            }
        }
        p += 1;
    }
    proof {
        assert forall|c: MergeCandidate| is_merge_candidate(ts, c) implies #[trigger] candidates@.contains(c) by {
            let k = edge_key(c.edge);
            assert(m.dom().contains(k));
            let i = choose|i: int| 0 <= i < entries@.len() && edge_key(#[trigger] entries@[i].0) == k;
        }
    }
    let ghost built = candidates@;
    shuffle_candidates(&mut candidates);
    proof {
        broadcast use vstd::seq_lib::group_to_multiset_ensures;
        built.lemma_multiset_has_no_duplicates();
        candidates@.lemma_multiset_has_no_duplicates_conv();
        assert forall|c: MergeCandidate| #[trigger] candidates@.contains(c) <==> is_merge_candidate(ts, c) by {
            assert(candidates@.contains(c) <==> candidates@.to_multiset().count(c) > 0);
            assert(built.contains(c) <==> built.to_multiset().count(c) > 0);
        }
        assert forall|j: int| 0 <= j < candidates@.len() implies candidate_applies(ts, #[trigger] candidates@[j]) by {
            let c = candidates@[j];
            assert(candidates@.contains(c));
            let k = edge_key(c.edge);
            assert(m[k][0] == c.tr_a);
            assert(m[k][1] == c.tr_b);
            assert(edge_of_key(k) == c.edge);
            lemma_edge_found(ts[c.tr_a as int], c.edge);
        }
    }
    let ghost order = candidates@;
    mesh.merge_triangle_pairs(candidates);
    assert(merge_outcome(ts, order, mesh.quads.data@, mesh.triangles.data@));
    assert forall|k: int| 0 <= k < mesh.quads.data@.len() implies made_by_merging(#[trigger] mesh.quads.data@[k], ts) by {
        assert(made_from_candidate(mesh.quads.data@[k], ts, order));
        let i = choose|i: int| 0 <= i < order.len() && #[trigger] inserted_between(mesh.quads.data@[k], ts[order[i].tr_a as int], order[i]);
        assert(order.contains(order[i]));
        assert(is_merge_candidate(ts, order[i]));
    }
    proof {
        if old(mesh).well_formed() {
            crate::mesh::laws::law_merge_keeps_indices(
                ts,
                order,
                mesh.quads.data@,
                mesh.triangles.data@,
                mesh.vertices@.len() as int,
            );
        }
    }
}

/// A match found by `first_edge_at` lies within the cycle.
pub proof fn lemma_first_edge_at_range(verts: Seq<VertexIndex>, e: (VertexIndex, VertexIndex), from: int)
    requires
        0 <= from,
        verts.len() > 0,
        first_edge_at(verts, e, from) is Some,
    ensures
        first_edge_at(verts, e, from).unwrap().0 < verts.len(),
        first_edge_at(verts, e, from).unwrap().1 < verts.len(),
    decreases verts.len() - from,
{
    let n = verts.len() as int;
    if from < n {
        if crate::mesh::vertices::edge_at(verts, e, from) is None {
            lemma_first_edge_at_range(verts, e, from + 1);
        } else {
            assert(0 <= (from + 1) % n < n);
        }
    }
}

/// The twenty faces of the icosahedron over its twelve vertices.
pub open spec fn icosahedron_faces() -> Seq<Triangle> {
    seq![
        triangle(VertexIndex(9), VertexIndex(6), VertexIndex(3)),
        triangle(VertexIndex(9), VertexIndex(3), VertexIndex(11)),
        triangle(VertexIndex(9), VertexIndex(11), VertexIndex(2)),
        triangle(VertexIndex(9), VertexIndex(2), VertexIndex(4)),
        triangle(VertexIndex(9), VertexIndex(4), VertexIndex(6)),
        triangle(VertexIndex(11), VertexIndex(3), VertexIndex(7)),
        triangle(VertexIndex(3), VertexIndex(6), VertexIndex(1)),
        triangle(VertexIndex(6), VertexIndex(4), VertexIndex(8)),
        triangle(VertexIndex(4), VertexIndex(2), VertexIndex(0)),
        triangle(VertexIndex(2), VertexIndex(11), VertexIndex(5)),
        triangle(VertexIndex(10), VertexIndex(7), VertexIndex(1)),
        triangle(VertexIndex(10), VertexIndex(1), VertexIndex(8)),
        triangle(VertexIndex(10), VertexIndex(8), VertexIndex(0)),
        triangle(VertexIndex(10), VertexIndex(0), VertexIndex(5)),
        triangle(VertexIndex(10), VertexIndex(5), VertexIndex(7)),
        triangle(VertexIndex(1), VertexIndex(7), VertexIndex(3)),
        triangle(VertexIndex(8), VertexIndex(1), VertexIndex(6)),
        triangle(VertexIndex(0), VertexIndex(8), VertexIndex(4)),
        triangle(VertexIndex(5), VertexIndex(0), VertexIndex(2)),
        triangle(VertexIndex(7), VertexIndex(5), VertexIndex(11)),
    ]
}

/// The faces of the unit icosahedron, as triangles over its twelve vertices.
pub fn icosahedron_indices() -> (res: [Triangle; 20])
    ensures
        res@ == icosahedron_faces(),
{
    let faces = [
        Polygon { verts: [VertexIndex(9), VertexIndex(6), VertexIndex(3)] },
        Polygon { verts: [VertexIndex(9), VertexIndex(3), VertexIndex(11)] },
        Polygon { verts: [VertexIndex(9), VertexIndex(11), VertexIndex(2)] },
        Polygon { verts: [VertexIndex(9), VertexIndex(2), VertexIndex(4)] },
        Polygon { verts: [VertexIndex(9), VertexIndex(4), VertexIndex(6)] },
        Polygon { verts: [VertexIndex(11), VertexIndex(3), VertexIndex(7)] },
        Polygon { verts: [VertexIndex(3), VertexIndex(6), VertexIndex(1)] },
        Polygon { verts: [VertexIndex(6), VertexIndex(4), VertexIndex(8)] },
        Polygon { verts: [VertexIndex(4), VertexIndex(2), VertexIndex(0)] },
        Polygon { verts: [VertexIndex(2), VertexIndex(11), VertexIndex(5)] },
        Polygon { verts: [VertexIndex(10), VertexIndex(7), VertexIndex(1)] },
        Polygon { verts: [VertexIndex(10), VertexIndex(1), VertexIndex(8)] },
        Polygon { verts: [VertexIndex(10), VertexIndex(8), VertexIndex(0)] },
        Polygon { verts: [VertexIndex(10), VertexIndex(0), VertexIndex(5)] },
        Polygon { verts: [VertexIndex(10), VertexIndex(5), VertexIndex(7)] },
        Polygon { verts: [VertexIndex(1), VertexIndex(7), VertexIndex(3)] },
        Polygon { verts: [VertexIndex(8), VertexIndex(1), VertexIndex(6)] },
        Polygon { verts: [VertexIndex(0), VertexIndex(8), VertexIndex(4)] },
        Polygon { verts: [VertexIndex(5), VertexIndex(0), VertexIndex(2)] },
        Polygon { verts: [VertexIndex(7), VertexIndex(5), VertexIndex(11)] },
    ];
    assert(faces@ =~= icosahedron_faces());
    faces
}

/// For each of `n` vertices, the positions of the triangles with a corner there, once per
/// such corner, in triangle order.
pub open spec fn corner_lists(n: nat, ts: Seq<Triangle>) -> Seq<Seq<usize>>
    decreases ts.len(),
{
    if ts.len() == 0 {
        Seq::new(n, |i: int| Seq::<usize>::empty())
    } else {
        let prev = corner_lists(n, ts.drop_last());
        let t = ts.last();
        let k = (ts.len() - 1) as usize;
        let p1 = prev.update(t.verts[0].0 as int, prev[t.verts[0].0 as int].push(k));
        let p2 = p1.update(t.verts[1].0 as int, p1[t.verts[1].0 as int].push(k));
        p2.update(t.verts[2].0 as int, p2[t.verts[2].0 as int].push(k))
    }
}

/// The views of a list of position lists.
pub open spec fn position_list_views(v: Seq<Vec<usize>>) -> Seq<Seq<usize>> {
    v.map_values(|l: Vec<usize>| l@)
}

impl<V> MeshData<V> {
    /// For every vertex, the triangles that have it as a corner (once per corner), in order.
    pub fn adjacent_triangles(&self) -> (res: Vec<Vec<usize>>)
        requires
            indices_below(self.triangles.data@, self.vertices@.len() as int),
        ensures
            position_list_views(res@) == corner_lists(self.vertices@.len(), self.triangles.data@),
    {
        let n = self.vertices.count();
        let mut lists: Vec<Vec<usize>> = Vec::new();
        let mut i: usize = 0;
        while i < n
            invariant
                i <= n,
                position_list_views(lists@) == Seq::new(i as nat, |j: int| Seq::<usize>::empty()),
            decreases n - i,
        {
            let ghost prev = lists@;
            let fresh: Vec<usize> = Vec::new();
            lists.push(fresh);
            assert(position_list_views(lists@) =~= position_list_views(prev).push(fresh@));
            i += 1;
            assert(position_list_views(lists@) =~= Seq::new(i as nat, |j: int| Seq::<usize>::empty()));
        }
        let ghost ts = self.triangles.data@;
        let mut t: usize = 0;
        assert(ts.take(0) =~= Seq::<Triangle>::empty());
        while t < self.triangles.data.len()
            invariant
                t <= ts.len(),
                ts == self.triangles.data@,
                n == self.vertices@.len(),
                indices_below(ts, n as int),
                lists@.len() == n,
                position_list_views(lists@) == corner_lists(n as nat, ts.take(t as int)),
            decreases ts.len() - t,
        {
            let tri = self.triangles.data[t];
            let mut k: usize = 0;
            let ghost start = position_list_views(lists@);
            while k < 3
                invariant
                    k <= 3,
                    tri == ts[t as int],
                    t < ts.len(),
                    indices_below(ts, n as int),
                    lists@.len() == n,
                    position_list_views(lists@) == corner_steps(start, tri, t, k as int),
                decreases 3 - k,
            {
                let v = tri.verts[k].0;
                assert(ts[t as int].verts@[k as int].0 < n);
                let ghost before = position_list_views(lists@);
                lists[v].push(t);
                assert(position_list_views(lists@) =~= before.update(v as int, before[v as int].push(t)));
                k += 1;
            }
            assert(ts.take(t + 1).drop_last() =~= ts.take(t as int));
            assert(ts.take(t + 1).last() == tri);
            assert(corner_steps(start, tri, t, 3) == corner_lists(n as nat, ts.take(t + 1))) by {
                reveal_with_fuel(corner_steps, 4);
            }
            t += 1;
        }
        assert(ts.take(t as int) =~= ts);
        lists
    }
}

/// The lists `start` after recording triangle `t` at its first `k` corners.
pub open spec fn corner_steps(start: Seq<Seq<usize>>, tri: Triangle, t: usize, k: int) -> Seq<Seq<usize>>
    decreases k,
{
    if k <= 0 {
        start
    } else {
        let prev = corner_steps(start, tri, t, k - 1);
        let v = tri.verts[k - 1].0 as int;
        prev.update(v, prev[v].push(t))
    }
}

impl<V> MeshData<V> {
    /// Whether the triangles can be merged into quads: every edge shared by exactly two
    /// triangles has a corner of the second one off it.
    pub fn is_mergeable(&self) -> (res: bool)
        ensures
            res == mergeable(self.triangles.data@),
    {
        let ghost ts = self.triangles.data@;
        let ghost m = edge_triangles(ts);
        proof {
            assert(ts.len() == self.triangles.data.len());
            lemma_edge_triangles(ts);
        }
        let edge_map = self.get_edges_of_triangles();
        let entries = edge_triangle_map_entries(edge_map);
        let mut p: usize = 0;
        while p < entries.len()
            invariant
                p <= entries@.len(),
                ts == self.triangles.data@,
                m == edge_triangles(ts),
                forall|i: int| 0 <= i < entries@.len() ==> m.dom().contains(edge_key(#[trigger] entries@[i].0))
                    && m[edge_key(entries@[i].0)] == entries@[i].1@,
                forall|i: int|
                    #![trigger entries@[i]]
                    0 <= i < p && entries@[i].1@.len() == 2 ==> first_off_edge(
                        ts[entries@[i].1@[1] as int],
                        entries@[i].0,
                    ) is Some,
            decreases entries@.len() - p,
        {
            if entries[p].1.len() == 2 {
                let ghost k = edge_key(entries@[p as int].0);
                proof {
                    assert(ts.len() == self.triangles.data.len());
                    lemma_edge_triangles(ts);
                }
                assert(m[k] == entries@[p as int].1@);
                assert(m[k][1] < ts.len());
                let tr_b = entries[p].1[1];
                let off = find_off_edge(&self.triangles.data[tr_b], &entries[p].0);
                if off.is_none() {
                    proof {
                        assert(edge_of_key(k) == entries@[p as int].0);
                        assert(m.dom().contains(k) && m[k].len() == 2);
                        assert(first_off_edge(ts[m[k][1] as int], edge_of_key(k)) is None);
                    }
                    return false;
                }
            }
            p += 1;
        }
        proof {
            assert forall|k: (usize, usize)|
                #![trigger m[k]]
                m.dom().contains(k) && m[k].len() == 2 implies first_off_edge(ts[m[k][1] as int], edge_of_key(k)) is Some by {
                let i = choose|i: int| 0 <= i < entries@.len() && edge_key(#[trigger] entries@[i].0) == k;
                assert(m[edge_key(entries@[i].0)] == entries@[i].1@);
                assert(edge_of_key(k) == entries@[i].0);
            }
        }
        true
    }
}

/// A face of the dual mesh: around the twelve corners of the icosahedron a pentagon,
/// elsewhere a hexagon.
#[derive(Clone, Copy, Debug, PartialEq, Eq)]
pub enum DualFace {
    Pentagon(Polygon<5>),
    Hexagon(Polygon<6>),
}

/// The dual face with the given corners in order: a pentagon for five corners, a hexagon
/// for six, `None` for any other count.
pub fn dual_face(corners: &Vec<VertexIndex>) -> (res: Option<DualFace>)
    ensures
        corners@.len() == 5 ==> (res matches Some(DualFace::Pentagon(p)) && p.verts@ == corners@),
        corners@.len() == 6 ==> (res matches Some(DualFace::Hexagon(h)) && h.verts@ == corners@),
        corners@.len() != 5 && corners@.len() != 6 ==> res is None,
{
    if corners.len() == 5 {
        let p = Polygon { verts: [corners[0], corners[1], corners[2], corners[3], corners[4]] };
        assert(p.verts@ =~= corners@);
        Some(DualFace::Pentagon(p))
    } else if corners.len() == 6 {
        let h = Polygon { verts: [corners[0], corners[1], corners[2], corners[3], corners[4], corners[5]] };
        assert(h.verts@ =~= corners@);
        Some(DualFace::Hexagon(h))
    } else {
        None
    }
}

} // verus!
