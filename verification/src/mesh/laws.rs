//! Properties of the mesh operations that hold for every input.
use vstd::prelude::*;

use crate::mesh::generation::{
    MergeCandidate, all_unused, edge_of_key, first_off_edge, greedy_merge, is_merge_candidate, lemma_add_triangle_edges,
    icosahedron_faces, lemma_edge_found, lemma_edge_triangles, lemma_edges_upto, lemma_first_edge_at_range, merge_outcome, merged_quad, mergeable,
    unused_triangles,
};
use crate::mesh::mesh_data::{
    add_neighbours, edge_triangles, empty_lists, hex_fan, hexes_to_triangles, lemma_pairs_below, neighbour_lists, quad_lines,
    quad_pairs, quad_triangles, quads_to_lines, quads_to_triangles, triangle_lines, triangles_to_lines,
};
use crate::mesh::subdivision::{
    boundary_midpoints, distinct_edges, edge_sequence, lemma_distinct_edges, lemma_midpoint_stable, lemma_edge_sequence_concat, lemma_edge_sequence_len,
    midpoint, polygon_edges, quad_quads, quads_to_quads, subdivided_corner, subdivided_rest, subdivided_rests,
    triangle_quads, triangles_to_quads,
};
use crate::mesh::vertices::{
    Hexagon, Polygon, Quad, Triangle, VertexIndex, cycle_edge, edge_at, edges_upto, first_edge_at, indices_below,
    lemma_below_concat, lemma_below_drop_last, next_pos, pairs_upto, push_new,
};

verus! {

/// The edges reported for a polygon are distinct, each has its smaller index first, every
/// side of the polygon is among them, and nothing else is.
pub proof fn law_polygon_edges<const N: usize>(p: Polygon<N>)
    ensures
        edges_upto(p.verts@, N as int).no_duplicates(),
        forall|i: int|
            0 <= i < edges_upto(p.verts@, N as int).len() ==> (#[trigger] edges_upto(p.verts@, N as int)[i]).0.0
                <= edges_upto(p.verts@, N as int)[i].1.0,
        forall|i: int| 0 <= i < N ==> edges_upto(p.verts@, N as int).contains(#[trigger] cycle_edge(p.verts@, i)),
        forall|e: (VertexIndex, VertexIndex)|
            #[trigger] edges_upto(p.verts@, N as int).contains(e) ==> exists|i: int|
                0 <= i < N && #[trigger] cycle_edge(p.verts@, i) == e,
{
    lemma_edges_upto(p.verts@, N as int);
    lemma_edges_upto_contains(p.verts@, N as int);
    assert forall|i: int|
        0 <= i < edges_upto(p.verts@, N as int).len() implies (#[trigger] edges_upto(p.verts@, N as int)[i]).0.0
        <= edges_upto(p.verts@, N as int)[i].1.0 by {
        let e = edges_upto(p.verts@, N as int)[i];
        assert(edges_upto(p.verts@, N as int).contains(e));
        let j = choose|j: int| 0 <= j < N && #[trigger] cycle_edge(p.verts@, j) == e;
    }
}

/// Every side leaving the first `k` corners is among the edges collected so far.
proof fn lemma_edges_upto_contains(verts: Seq<VertexIndex>, k: int)
    requires
        0 <= k <= verts.len(),
    ensures
        forall|i: int| 0 <= i < k ==> edges_upto(verts, k).contains(#[trigger] cycle_edge(verts, i)),
    decreases k,
{
    if k > 0 {
        lemma_edges_upto_contains(verts, k - 1);
        let p = edges_upto(verts, k - 1);
        assert forall|i: int| 0 <= i < k implies edges_upto(verts, k).contains(#[trigger] cycle_edge(verts, i)) by {
            if i < k - 1 {
                assert(p.contains(cycle_edge(verts, i)));
                let j = choose|j: int| 0 <= j < p.len() && p[j] == cycle_edge(verts, i);
                if !p.contains(cycle_edge(verts, k - 1)) {
                    assert(edges_upto(verts, k)[j] == cycle_edge(verts, i));
                }
            } else {
                if !p.contains(cycle_edge(verts, k - 1)) {
                    assert(edges_upto(verts, k)[p.len() as int] == cycle_edge(verts, i));
                }
            }
        }
    }
}

/// When an edge is found on a polygon, the two positions are neighbours in cyclic order
/// and hold the edge's two ends, in one direction or the other.
pub proof fn law_found_edge_is_a_side(verts: Seq<VertexIndex>, e: (VertexIndex, VertexIndex), from: int)
    requires
        0 <= from,
        0 < verts.len() <= usize::MAX,
        first_edge_at(verts, e, from) is Some,
    ensures
        ({
            let (i, j) = first_edge_at(verts, e, from).unwrap();
            &&& i < verts.len()
            &&& j == next_pos(i as int, verts.len() as int)
            &&& (verts[i as int] == e.0 && verts[j as int] == e.1) || (verts[i as int] == e.1 && verts[j as int] == e.0)
        }),
    decreases verts.len() - from,
{
    let n = verts.len() as int;
    if from < n {
        if edge_at(verts, e, from) is None {
            law_found_edge_is_a_side(verts, e, from + 1);
        } else {
            assert(0 <= (from + 1) % n < n);
            if verts[next_pos(from, n)] != e.1 {
                let p = if from == 0 {
                    n - 1
                } else {
                    from - 1
                };
                assert(next_pos(p, n) == from) by {
                    if from == 0 {
                        vstd::arithmetic::div_mod::lemma_mod_self_0(n);
                    } else {
                        vstd::arithmetic::div_mod::lemma_small_mod(from as nat, n as nat);
                    }
                }
            }
        }
    }
}

/// Reducing to lines yields three lines per triangle and four per quad.
pub proof fn law_line_counts(ts: Seq<Triangle>, qs: Seq<Quad>)
    ensures
        triangles_to_lines(ts).len() == 3 * ts.len(),
        quads_to_lines(qs).len() == 4 * qs.len(),
    decreases ts.len() + qs.len(),
{
    if ts.len() > 0 {
        law_line_counts(ts.drop_last(), qs);
    } else if qs.len() > 0 {
        law_line_counts(ts, qs.drop_last());
    }
}

/// Reducing to triangles yields two triangles per quad and six per hexagon.
pub proof fn law_triangle_counts(qs: Seq<Quad>, hs: Seq<Hexagon>, base: int)
    ensures
        quads_to_triangles(qs).len() == 2 * qs.len(),
        hexes_to_triangles(hs, base).len() == 6 * hs.len(),
    decreases qs.len() + hs.len(),
{
    if qs.len() > 0 {
        law_triangle_counts(qs.drop_last(), hs, base);
    } else if hs.len() > 0 {
        law_triangle_counts(qs, hs.drop_last(), base + 1);
    }
}

/// The two directions of each side are recorded together.
proof fn lemma_pairs_symmetric(verts: Seq<VertexIndex>, k: int)
    requires
        0 <= k <= verts.len(),
    ensures
        forall|a: VertexIndex, b: VertexIndex| #[trigger] pairs_upto(verts, k).contains((a, b)) ==> pairs_upto(verts, k).contains((b, a)),
    decreases k,
{
    if k > 0 {
        lemma_pairs_symmetric(verts, k - 1);
        let p = pairs_upto(verts, k - 1);
        let r = pairs_upto(verts, k);
        assert forall|a: VertexIndex, b: VertexIndex| #[trigger] r.contains((a, b)) implies r.contains((b, a)) by {
            let i = choose|i: int| 0 <= i < r.len() && r[i] == (a, b);
            if i < p.len() {
                assert(p[i] == (a, b));
                assert(p.contains((a, b)));
                let j = choose|j: int| 0 <= j < p.len() && p[j] == (b, a);
                assert(r[j] == (b, a));
            } else if i == p.len() {
                assert(r[i + 1] == (b, a));
            } else {
                assert(r[i - 1] == (b, a));
            }
        }
    }
}

/// The sides of all quads are recorded in both directions, and name vertices below `n`.
proof fn lemma_quad_pairs(qs: Seq<Quad>, n: int)
    requires
        indices_below(qs, n),
    ensures
        forall|a: VertexIndex, b: VertexIndex| #[trigger] quad_pairs(qs).contains((a, b)) ==> quad_pairs(qs).contains((b, a)),
        forall|i: int| 0 <= i < quad_pairs(qs).len() ==> (#[trigger] quad_pairs(qs)[i]).0.0 < n && quad_pairs(qs)[i].1.0 < n,
    decreases qs.len(),
{
    if qs.len() > 0 {
        let p = qs.drop_last();
        assert(indices_below(p, n)) by {
            assert forall|a: int, k: int| 0 <= a < p.len() && 0 <= k < 4 implies #[trigger] p[a].verts@[k].0 < n by {
                assert(p[a] == qs[a]);
            }
        }
        lemma_quad_pairs(p, n);
        let last = qs.last();
        assert(last == qs[qs.len() - 1]);
        lemma_pairs_symmetric(last.verts@, 4);
        lemma_pairs_below(last.verts@, 4, n);
        let a0 = quad_pairs(p);
        let b0 = pairs_upto(last.verts@, 4);
        let r = quad_pairs(qs);
        assert(r == a0 + b0);
        assert forall|a: VertexIndex, b: VertexIndex| #[trigger] r.contains((a, b)) implies r.contains((b, a)) by {
            let i = choose|i: int| 0 <= i < r.len() && r[i] == (a, b);
            if i < a0.len() {
                assert(a0[i] == (a, b));
                assert(a0.contains((a, b)));
                let j = choose|j: int| 0 <= j < a0.len() && a0[j] == (b, a);
                assert(r[j] == (b, a));
            } else {
                assert(b0[i - a0.len()] == (a, b));
                assert(b0.contains((a, b)));
                let j = choose|j: int| 0 <= j < b0.len() && b0[j] == (b, a);
                assert(r[a0.len() + j] == (b, a));
            }
        }
        assert forall|i: int| 0 <= i < r.len() implies (#[trigger] r[i]).0.0 < n && r[i].1.0 < n by {
            if i < a0.len() {
                assert(r[i] == a0[i]);
            } else {
                assert(r[i] == b0[i - a0.len()]);
            }
        }
    }
}

/// Vertex `v` lists `w` exactly when the pair `(v, w)` was recorded.
proof fn lemma_add_neighbours(n: nat, pairs: Seq<(VertexIndex, VertexIndex)>)
    requires
        n <= usize::MAX,
        forall|i: int| 0 <= i < pairs.len() ==> (#[trigger] pairs[i]).0.0 < n,
    ensures
        add_neighbours(empty_lists(n), pairs).len() == n,
        forall|v: int, w: VertexIndex|
            0 <= v < n ==> (#[trigger] add_neighbours(empty_lists(n), pairs)[v].contains(w)
                <==> pairs.contains((VertexIndex(v as usize), w))),
    decreases pairs.len(),
{
    let init = empty_lists(n);
    if pairs.len() > 0 {
        let q = pairs.drop_last();
        assert forall|i: int| 0 <= i < q.len() implies (#[trigger] q[i]).0.0 < n by {
            assert(q[i] == pairs[i]);
        }
        lemma_add_neighbours(n, q);
        let prev = add_neighbours(init, q);
        let e = pairs.last();
        assert(e == pairs[pairs.len() - 1]);
        let r = add_neighbours(init, pairs);
        assert(r == prev.update(e.0.0 as int, push_new(prev[e.0.0 as int], e.1)));
        assert forall|v: int, w: VertexIndex|
            0 <= v < n implies (#[trigger] r[v].contains(w) <==> pairs.contains((VertexIndex(v as usize), w))) by {
            let key = (VertexIndex(v as usize), w);
            assert(pairs.contains(key) <==> q.contains(key) || e == key) by {
                if pairs.contains(key) {
                    let i = choose|i: int| 0 <= i < pairs.len() && pairs[i] == key;
                    if i < q.len() {
                        assert(q[i] == key);
                    }
                }
                if q.contains(key) {
                    let i = choose|i: int| 0 <= i < q.len() && q[i] == key;
                    assert(pairs[i] == key);
                }
            }
            if v == e.0.0 as int {
                let old_list = prev[v];
                if !old_list.contains(e.1) {
                    assert(r[v] == old_list.push(e.1));
                    if r[v].contains(w) && w != e.1 {
                        let i = choose|i: int| 0 <= i < r[v].len() && r[v][i] == w;
                        assert(old_list[i] == w);
                    }
                    if old_list.contains(w) {
                        let i = choose|i: int| 0 <= i < old_list.len() && old_list[i] == w;
                        assert(r[v][i] == w);
                    }
                    if w == e.1 {
                        assert(r[v][old_list.len() as int] == w);
                    }
                }
            }
        }
    }
}

/// Neighbourhood is mutual: `w` is a neighbour of `v` exactly when `v` is one of `w`.
pub proof fn law_neighbours_symmetric(n: nat, qs: Seq<Quad>)
    requires
        n <= usize::MAX,
        indices_below(qs, n as int),
    ensures
        forall|v: int, w: int|
            0 <= v < n && 0 <= w < n ==> (#[trigger] neighbour_lists(n, qs)[v].contains(VertexIndex(w as usize))
                <==> #[trigger] neighbour_lists(n, qs)[w].contains(VertexIndex(v as usize))),
{
    lemma_quad_pairs(qs, n as int);
    lemma_add_neighbours(n, quad_pairs(qs));
    assert forall|v: int, w: int|
        0 <= v < n && 0 <= w < n implies (#[trigger] neighbour_lists(n, qs)[v].contains(VertexIndex(w as usize))
        <==> #[trigger] neighbour_lists(n, qs)[w].contains(VertexIndex(v as usize))) by {
        let a = VertexIndex(v as usize);
        let b = VertexIndex(w as usize);
        assert(neighbour_lists(n, qs)[v].contains(b) <==> quad_pairs(qs).contains((a, b)));
        assert(neighbour_lists(n, qs)[w].contains(a) <==> quad_pairs(qs).contains((b, a)));
    }
}

/// Every side of the `i`-th polygon occurs in the edge walk over all polygons.
pub proof fn lemma_side_in_walk<const N: usize>(ps: Seq<Polygon<N>>, i: int, j: int)
    requires
        0 <= i < ps.len(),
        0 <= j < N,
    ensures
        edge_sequence(ps).contains(polygon_edges(ps[i])[j]),
{
    lemma_edge_sequence_concat(ps.take(i), ps.skip(i));
    assert(ps.take(i) + ps.skip(i) =~= ps);
    assert(ps.skip(i) =~= seq![ps[i]] + ps.skip(i + 1));
    lemma_edge_sequence_concat(seq![ps[i]], ps.skip(i + 1));
    assert(seq![ps[i]].drop_last() =~= Seq::<Polygon<N>>::empty());
    assert(seq![ps[i]].last() == ps[i]);
    assert(edge_sequence(Seq::<Polygon<N>>::empty()) =~= Seq::<(VertexIndex, VertexIndex)>::empty());
    assert(edge_sequence(seq![ps[i]]) =~= polygon_edges(ps[i]));
    let pre = edge_sequence(ps.take(i));
    assert(edge_sequence(ps)[pre.len() + j] == polygon_edges(ps[i])[j]);
}

/// The vertex of an edge of the walk is numbered below `base` plus the number of distinct
/// edges.
pub proof fn lemma_midpoint_below(all: Seq<(VertexIndex, VertexIndex)>, base: int, e: (VertexIndex, VertexIndex))
    requires
        all.contains(e),
        0 <= base,
        base + all.len() <= usize::MAX,
    ensures
        base <= midpoint(all, base, e).0 < base + distinct_edges(all).len(),
{
    lemma_distinct_edges(all);
    let d = distinct_edges(all);
    assert(d.contains(e));
    let k = d.index_of(e);
    assert(0 <= k < d.len());
}

/// Subdividing turns `t` triangles into `4t`, all of whose corners are existing vertices or
/// new edge vertices.
pub proof fn law_subdivided_triangles(ts: Seq<Triangle>, n: int)
    requires
        0 <= n,
        indices_below(ts, n),
        n + 3 * ts.len() <= usize::MAX,
    ensures
        ({
            let all = edge_sequence(ts);
            let result = ts.map_values(|t: Triangle| subdivided_corner(t, all, n)) + subdivided_rests(ts, all, n);
            &&& result.len() == 4 * ts.len()
            &&& indices_below(result, n + distinct_edges(all).len())
        }),
{
    let all = edge_sequence(ts);
    let m = n + distinct_edges(all).len();
    lemma_edge_sequence_len(ts);
    assert forall|i: int, j: int| 0 <= i < ts.len() && 0 <= j < 3 implies #[trigger] midpoint(all, n, polygon_edges(ts[i])[j]).0 < m by {
        lemma_side_in_walk(ts, i, j);
        lemma_midpoint_below(all, n, polygon_edges(ts[i])[j]);
    }
    lemma_rests_below(ts, all, n, m);
    let corners = ts.map_values(|t: Triangle| subdivided_corner(t, all, n));
    let rests = subdivided_rests(ts, all, n);
    let result = corners + rests;
    assert forall|a: int, k: int| 0 <= a < result.len() && 0 <= k < 3 implies #[trigger] result[a].verts@[k].0 < m by {
        if a < corners.len() {
            assert(result[a] == subdivided_corner(ts[a], all, n));
            assert(midpoint(all, n, polygon_edges(ts[a])[0]).0 < m);
            assert(midpoint(all, n, polygon_edges(ts[a])[2]).0 < m);
            assert(ts[a].verts@[0].0 < n);
        } else {
            assert(result[a] == rests[a - corners.len()]);
        }
    }
}

/// The non-corner triangles of a subdivision have `3` per triangle, all corners below `m`.
proof fn lemma_rests_below(ts: Seq<Triangle>, all: Seq<(VertexIndex, VertexIndex)>, n: int, m: int)
    requires
        n <= m,
        indices_below(ts, n),
        forall|i: int, j: int| 0 <= i < ts.len() && 0 <= j < 3 ==> #[trigger] midpoint(all, n, polygon_edges(ts[i])[j]).0 < m,
    ensures
        subdivided_rests(ts, all, n).len() == 3 * ts.len(),
        indices_below(subdivided_rests(ts, all, n), m),
    decreases ts.len(),
{
    if ts.len() > 0 {
        let p = ts.drop_last();
        assert(indices_below(p, n)) by {
            assert forall|a: int, k: int| 0 <= a < p.len() && 0 <= k < 3 implies #[trigger] p[a].verts@[k].0 < n by {
                assert(p[a] == ts[a]);
            }
        }
        assert forall|i: int, j: int| 0 <= i < p.len() && 0 <= j < 3 implies #[trigger] midpoint(all, n, polygon_edges(p[i])[j]).0 < m by {
            assert(p[i] == ts[i]);
        }
        lemma_rests_below(p, all, n, m);
        let t = ts.last();
        assert(t == ts[ts.len() - 1]);
        let r0 = subdivided_rests(p, all, n);
        let r1 = subdivided_rest(t, all, n);
        let r = subdivided_rests(ts, all, n);
        assert(r == r0 + r1);
        assert(midpoint(all, n, polygon_edges(ts[ts.len() - 1])[0]).0 < m);
        assert(midpoint(all, n, polygon_edges(ts[ts.len() - 1])[1]).0 < m);
        assert(midpoint(all, n, polygon_edges(ts[ts.len() - 1])[2]).0 < m);
        assert(t.verts@[1].0 < n && t.verts@[2].0 < n);
        assert forall|a: int, k: int| 0 <= a < r.len() && 0 <= k < 3 implies #[trigger] r[a].verts@[k].0 < m by {
            if a < r0.len() {
                assert(r[a] == r0[a]);
            } else {
                assert(r[a] == r1[a - r0.len()]);
            }
        }
    }
}

/// How many of the first `k` flags are set.
pub open spec fn set_flags(u: Seq<bool>, k: int) -> int
    decreases k,
{
    if k <= 0 {
        0
    } else {
        set_flags(u, k - 1) + if u[k - 1] {
            1int
        } else {
            0int
        }
    }
}

/// Setting a clear flag below `k` adds one to the count; flags at or above `k` do not count.
proof fn lemma_set_flag(u: Seq<bool>, a: int, k: int)
    requires
        0 <= a < u.len(),
        0 <= k <= u.len(),
        !u[a],
    ensures
        set_flags(u.update(a, true), k) == set_flags(u, k) + if a < k {
            1int
        } else {
            0int
        },
    decreases k,
{
    if k > 0 {
        lemma_set_flag(u, a, k - 1);
    }
}

/// The count of set flags lies between 0 and `k`.
proof fn lemma_set_flags_range(u: Seq<bool>, k: int)
    requires
        0 <= k,
    ensures
        0 <= set_flags(u, k) <= k,
    decreases k,
{
    if k > 0 {
        lemma_set_flags_range(u, k - 1);
    }
}

/// The unmerged triangles are those whose flag is clear.
proof fn lemma_unused_count(ts: Seq<Triangle>, u: Seq<bool>)
    requires
        u.len() >= ts.len(),
    ensures
        unused_triangles(ts, u).len() == ts.len() - set_flags(u, ts.len() as int),
    decreases ts.len(),
{
    if ts.len() > 0 {
        lemma_unused_count(ts.drop_last(), u);
    }
}

/// Each merge sets the flags of two triangles that were clear.
proof fn lemma_greedy_counts(ts: Seq<Triangle>, cands: Seq<MergeCandidate>, u: Seq<bool>)
    requires
        forall|i: int|
            0 <= i < cands.len() ==> (#[trigger] cands[i]).tr_a != cands[i].tr_b && cands[i].tr_a < u.len()
                && cands[i].tr_b < u.len(),
    ensures
        greedy_merge(ts, cands, u).0.len() == u.len(),
        set_flags(greedy_merge(ts, cands, u).0, u.len() as int) == set_flags(u, u.len() as int) + 2
            * greedy_merge(ts, cands, u).1.len(),
    decreases cands.len(),
{
    if cands.len() > 0 {
        let c = cands.last();
        assert(c == cands[cands.len() - 1]);
        let p = cands.drop_last();
        assert forall|i: int|
            0 <= i < p.len() implies (#[trigger] p[i]).tr_a != p[i].tr_b && p[i].tr_a < u.len() && p[i].tr_b < u.len() by {
            assert(p[i] == cands[i]);
        }
        if u[c.tr_a as int] || u[c.tr_b as int] {
            lemma_greedy_counts(ts, p, u);
        } else {
            let u1 = u.update(c.tr_a as int, true);
            let u2 = u1.update(c.tr_b as int, true);
            lemma_set_flag(u, c.tr_a as int, u.len() as int);
            lemma_set_flag(u1, c.tr_b as int, u.len() as int);
            lemma_greedy_counts(ts, p, u2);
        }
    }
}

/// Merging conserves triangles: each quad uses up two of them and the rest stay, as long
/// as every candidate names two different triangles.
pub proof fn law_merge_counts(ts: Seq<Triangle>, order: Seq<MergeCandidate>)
    requires
        forall|i: int|
            0 <= i < order.len() ==> (#[trigger] order[i]).tr_a != order[i].tr_b && order[i].tr_a < ts.len()
                && order[i].tr_b < ts.len(),
    ensures
        ({
            let r = greedy_merge(ts, order, all_unused(ts.len()));
            2 * r.1.len() + unused_triangles(ts, r.0).len() == ts.len()
        }),
{
    let u = all_unused(ts.len());
    lemma_greedy_counts(ts, order, u);
    assert(set_flags(u, ts.len() as int) == 0) by {
        lemma_no_flags(ts.len() as int, ts.len() as int);
    }
    let r = greedy_merge(ts, order, u);
    lemma_unused_count(ts, r.0);
}

/// No flag is set initially.
proof fn lemma_no_flags(n: int, k: int)
    requires
        0 <= k <= n,
    ensures
        set_flags(all_unused(n as nat), k) == 0,
    decreases k,
{
    if k > 0 {
        lemma_no_flags(n, k - 1);
    }
}

/// The random merge of a mesh's triangles conserves them: two per quad, the rest unmerged.
pub proof fn law_random_merge_counts(ts: Seq<Triangle>, order: Seq<MergeCandidate>, quads: Seq<Quad>, rest: Seq<Triangle>)
    requires
        ts.len() <= usize::MAX,
        merge_outcome(ts, order, quads, rest),
    ensures
        2 * quads.len() + rest.len() == ts.len(),
{
    lemma_edge_triangles(ts);
    assert forall|i: int|
        0 <= i < order.len() implies (#[trigger] order[i]).tr_a != order[i].tr_b && order[i].tr_a < ts.len()
            && order[i].tr_b < ts.len() by {
        let c = order[i];
        assert(order.contains(c));
        assert(is_merge_candidate(ts, c));
        let k = crate::mesh::edge_maps::edge_key(c.edge);
        assert(edge_triangles(ts)[k][0] < edge_triangles(ts)[k][1]);
        assert(edge_triangles(ts)[k][1] < ts.len());
    }
    law_merge_counts(ts, order);
}

/// Triangles with three different corners can always be merged: the second triangle on a
/// shared edge has a corner off that edge.
pub proof fn law_mergeable(ts: Seq<Triangle>)
    requires
        ts.len() <= usize::MAX,
        forall|i: int|
            0 <= i < ts.len() ==> (#[trigger] ts[i]).verts[0] != ts[i].verts[1] && ts[i].verts[1] != ts[i].verts[2]
                && ts[i].verts[0] != ts[i].verts[2],
    ensures
        mergeable(ts),
{
    lemma_edge_triangles(ts);
    let m = edge_triangles(ts);
    assert forall|k: (usize, usize)|
        #![trigger m[k]]
        m.dom().contains(k) && m[k].len() == 2 implies first_off_edge(ts[m[k][1] as int], edge_of_key(k)) is Some by {
        let t = ts[m[k][1] as int];
        let e = edge_of_key(k);
        assert(edges_upto(t.verts@, 3).contains(e));
        lemma_edges_upto(t.verts@, 3);
        let i = choose|i: int| 0 <= i < 3 && #[trigger] cycle_edge(t.verts@, i) == e;
        assert(t.verts@[0] == t.verts[0] && t.verts@[1] == t.verts[1] && t.verts@[2] == t.verts[2]);
    }
}

/// Subdividing into quads turns `t` triangles and `q` quads into `3t + 4q` quads, all of
/// whose corners are existing vertices, face centres or new edge vertices.
pub proof fn law_subdivided_quads(ts: Seq<Triangle>, qs: Seq<Quad>, n: int)
    requires
        0 <= n,
        indices_below(ts, n),
        indices_below(qs, n),
        n + 4 * ts.len() + 5 * qs.len() <= usize::MAX,
    ensures
        ({
            let all = edge_sequence(ts) + edge_sequence(qs);
            let base = n + ts.len() + qs.len();
            let result = triangles_to_quads(ts, all, base, n) + quads_to_quads(qs, all, base, n + ts.len());
            &&& result.len() == 3 * ts.len() + 4 * qs.len()
            &&& indices_below(result, base + distinct_edges(all).len())
        }),
{
    let all = edge_sequence(ts) + edge_sequence(qs);
    let base = n + ts.len() + qs.len();
    lemma_edge_sequence_len(ts);
    lemma_edge_sequence_len(qs);
    lemma_distinct_edges(all);
    let m = base + distinct_edges(all).len();
    assert(distinct_edges(all).len() <= all.len()) by {
        lemma_distinct_len(all);
    }
    assert forall|i: int, j: int| 0 <= i < ts.len() && 0 <= j < 3 implies #[trigger] midpoint(all, base, polygon_edges(ts[i])[j]).0 < m by {
        lemma_side_in_walk(ts, i, j);
        let e = polygon_edges(ts[i])[j];
        let k = choose|k: int| 0 <= k < edge_sequence(ts).len() && edge_sequence(ts)[k] == e;
        assert(all[k] == e);
        lemma_midpoint_below(all, base, e);
    }
    assert forall|i: int, j: int| 0 <= i < qs.len() && 0 <= j < 4 implies #[trigger] midpoint(all, base, polygon_edges(qs[i])[j]).0 < m by {
        lemma_side_in_walk(qs, i, j);
        let e = polygon_edges(qs[i])[j];
        let k = choose|k: int| 0 <= k < edge_sequence(qs).len() && edge_sequence(qs)[k] == e;
        assert(all[edge_sequence(ts).len() + k] == e);
        lemma_midpoint_below(all, base, e);
    }
    lemma_triangle_quads_below(ts, all, base, n, n, m);
    lemma_quad_quads_below(qs, all, base, n + ts.len(), n, m);
    let a = triangles_to_quads(ts, all, base, n);
    let b = quads_to_quads(qs, all, base, n + ts.len());
    let result = a + b;
    assert forall|p: int, k: int| 0 <= p < result.len() && 0 <= k < 4 implies #[trigger] result[p].verts@[k].0 < m by {
        if p < a.len() {
            assert(result[p] == a[p]);
        } else {
            assert(result[p] == b[p - a.len()]);
        }
    }
}

/// A walk has at least as many edges as it has distinct ones.
proof fn lemma_distinct_len(es: Seq<(VertexIndex, VertexIndex)>)
    ensures
        distinct_edges(es).len() <= es.len(),
    decreases es.len(),
{
    if es.len() > 0 {
        lemma_distinct_len(es.drop_last());
    }
}

/// The quads of split triangles number three per triangle and name vertices below `m`.
proof fn lemma_triangle_quads_below(ts: Seq<Triangle>, all: Seq<(VertexIndex, VertexIndex)>, base: int, cbase: int, n: int, m: int)
    requires
        0 <= n,
        0 <= cbase,
        cbase + ts.len() <= m,
        n <= m <= usize::MAX,
        indices_below(ts, n),
        forall|i: int, j: int| 0 <= i < ts.len() && 0 <= j < 3 ==> #[trigger] midpoint(all, base, polygon_edges(ts[i])[j]).0 < m,
    ensures
        triangles_to_quads(ts, all, base, cbase).len() == 3 * ts.len(),
        indices_below(triangles_to_quads(ts, all, base, cbase), m),
    decreases ts.len(),
{
    if ts.len() > 0 {
        let p = ts.drop_last();
        assert(indices_below(p, n)) by {
            assert forall|a: int, k: int| 0 <= a < p.len() && 0 <= k < 3 implies #[trigger] p[a].verts@[k].0 < n by {
                assert(p[a] == ts[a]);
            }
        }
        assert forall|i: int, j: int| 0 <= i < p.len() && 0 <= j < 3 implies #[trigger] midpoint(all, base, polygon_edges(p[i])[j]).0 < m by {
            assert(p[i] == ts[i]);
        }
        lemma_triangle_quads_below(p, all, base, cbase, n, m);
        let t = ts.last();
        assert(t == ts[ts.len() - 1]);
        let c = VertexIndex((cbase + ts.len() - 1) as usize);
        let r0 = triangles_to_quads(p, all, base, cbase);
        let r1 = triangle_quads(t, all, base, c);
        let r = triangles_to_quads(ts, all, base, cbase);
        assert(r == r0 + r1);
        assert(c.0 < m);
        assert(midpoint(all, base, polygon_edges(ts[ts.len() - 1])[0]).0 < m);
        assert(midpoint(all, base, polygon_edges(ts[ts.len() - 1])[1]).0 < m);
        assert(midpoint(all, base, polygon_edges(ts[ts.len() - 1])[2]).0 < m);
        assert(t.verts@[0].0 < n && t.verts@[1].0 < n && t.verts@[2].0 < n);
        assert forall|a: int, k: int| 0 <= a < r.len() && 0 <= k < 4 implies #[trigger] r[a].verts@[k].0 < m by {
            if a < r0.len() {
                assert(r[a] == r0[a]);
            } else {
                assert(r[a] == r1[a - r0.len()]);
            }
        }
    }
}

/// The quads of split quads number four per quad and name vertices below `m`.
proof fn lemma_quad_quads_below(qs: Seq<Quad>, all: Seq<(VertexIndex, VertexIndex)>, base: int, cbase: int, n: int, m: int)
    requires
        0 <= n,
        0 <= cbase,
        cbase + qs.len() <= m,
        n <= m <= usize::MAX,
        indices_below(qs, n),
        forall|i: int, j: int| 0 <= i < qs.len() && 0 <= j < 4 ==> #[trigger] midpoint(all, base, polygon_edges(qs[i])[j]).0 < m,
    ensures
        quads_to_quads(qs, all, base, cbase).len() == 4 * qs.len(),
        indices_below(quads_to_quads(qs, all, base, cbase), m),
    decreases qs.len(),
{
    if qs.len() > 0 {
        let p = qs.drop_last();
        assert(indices_below(p, n)) by {
            assert forall|a: int, k: int| 0 <= a < p.len() && 0 <= k < 4 implies #[trigger] p[a].verts@[k].0 < n by {
                assert(p[a] == qs[a]);
            }
        }
        assert forall|i: int, j: int| 0 <= i < p.len() && 0 <= j < 4 implies #[trigger] midpoint(all, base, polygon_edges(p[i])[j]).0 < m by {
            assert(p[i] == qs[i]);
        }
        lemma_quad_quads_below(p, all, base, cbase, n, m);
        let q = qs.last();
        assert(q == qs[qs.len() - 1]);
        let c = VertexIndex((cbase + qs.len() - 1) as usize);
        let r0 = quads_to_quads(p, all, base, cbase);
        let r1 = quad_quads(q, all, base, c);
        let r = quads_to_quads(qs, all, base, cbase);
        assert(r == r0 + r1);
        assert(c.0 < m);
        assert(midpoint(all, base, polygon_edges(qs[qs.len() - 1])[0]).0 < m);
        assert(midpoint(all, base, polygon_edges(qs[qs.len() - 1])[1]).0 < m);
        assert(midpoint(all, base, polygon_edges(qs[qs.len() - 1])[2]).0 < m);
        assert(midpoint(all, base, polygon_edges(qs[qs.len() - 1])[3]).0 < m);
        assert(q.verts@[0].0 < n && q.verts@[1].0 < n && q.verts@[2].0 < n && q.verts@[3].0 < n);
        assert forall|a: int, k: int| 0 <= a < r.len() && 0 <= k < 4 implies #[trigger] r[a].verts@[k].0 < m by {
            if a < r0.len() {
                assert(r[a] == r0[a]);
            } else {
                assert(r[a] == r1[a - r0.len()]);
            }
        }
    }
}

/// Reducing to lines keeps the mesh well formed: the sides of faces whose corners lie
/// below `n` have their ends below `n`.
pub proof fn law_lines_keep_indices(ts: Seq<Triangle>, qs: Seq<Quad>, n: int)
    requires
        indices_below(ts, n),
        indices_below(qs, n),
    ensures
        indices_below(triangles_to_lines(ts), n),
        indices_below(quads_to_lines(qs), n),
    decreases ts.len() + qs.len(),
{
    if ts.len() > 0 {
        lemma_below_drop_last(ts, n);
        law_lines_keep_indices(ts.drop_last(), qs, n);
        let t = ts.last();
        let r1 = triangle_lines(t);
        assert(t.verts@[0].0 < n && t.verts@[1].0 < n && t.verts@[2].0 < n);
        assert forall|a: int, k: int| 0 <= a < r1.len() && 0 <= k < 2 implies #[trigger] r1[a].verts@[k].0 < n by {}
        lemma_below_concat(r1, triangles_to_lines(ts.drop_last()), n);
    } else if qs.len() > 0 {
        lemma_below_drop_last(qs, n);
        law_lines_keep_indices(ts, qs.drop_last(), n);
        let q = qs.last();
        let r1 = quad_lines(q);
        assert(q.verts@[0].0 < n && q.verts@[1].0 < n && q.verts@[2].0 < n && q.verts@[3].0 < n);
        assert forall|a: int, k: int| 0 <= a < r1.len() && 0 <= k < 2 implies #[trigger] r1[a].verts@[k].0 < n by {}
        lemma_below_concat(r1, quads_to_lines(qs.drop_last()), n);
    } else {
        assert(triangles_to_lines(ts) =~= Seq::<Polygon<2>>::empty());
        assert(quads_to_lines(qs) =~= Seq::<Polygon<2>>::empty());
    }
}

/// Reducing to triangles keeps the mesh well formed: the halves of quads over vertices
/// below `n` stay below `n`, and the fans of the hexagons use only their corners and the
/// new centre vertices numbered from `n`.
pub proof fn law_triangles_keep_indices(qs: Seq<Quad>, hs: Seq<Hexagon>, n: int)
    requires
        0 <= n,
        n + hs.len() <= usize::MAX,
        indices_below(qs, n),
        indices_below(hs, n),
    ensures
        indices_below(quads_to_triangles(qs), n),
        indices_below(hexes_to_triangles(hs, n), n + hs.len()),
{
    lemma_quad_halves_below(qs, n);
    lemma_fans_below(hs, n, n, n + hs.len());
}

/// The halves of quads over vertices below `n` stay below `n`.
proof fn lemma_quad_halves_below(qs: Seq<Quad>, n: int)
    requires
        indices_below(qs, n),
    ensures
        indices_below(quads_to_triangles(qs), n),
    decreases qs.len(),
{
    if qs.len() > 0 {
        lemma_below_drop_last(qs, n);
        lemma_quad_halves_below(qs.drop_last(), n);
        let q = qs.last();
        let r1 = quad_triangles(q);
        assert(q.verts@[0].0 < n && q.verts@[1].0 < n && q.verts@[2].0 < n && q.verts@[3].0 < n);
        assert forall|a: int, k: int| 0 <= a < r1.len() && 0 <= k < 3 implies #[trigger] r1[a].verts@[k].0 < n by {}
        lemma_below_concat(r1, quads_to_triangles(qs.drop_last()), n);
    } else {
        assert(quads_to_triangles(qs) =~= Seq::<Triangle>::empty());
    }
}

/// The fans of hexagons over vertices below `n`, centred on vertices numbered from `base`,
/// name vertices below `m`.
proof fn lemma_fans_below(hs: Seq<Hexagon>, base: int, n: int, m: int)
    requires
        0 <= n <= base,
        n <= m,
        base + hs.len() <= m,
        m <= usize::MAX,
        indices_below(hs, n),
    ensures
        indices_below(hexes_to_triangles(hs, base), m),
    decreases hs.len(),
{
    if hs.len() > 0 {
        lemma_below_drop_last(hs, n);
        lemma_fans_below(hs.drop_last(), base + 1, n, m);
        let h = hs.last();
        let c = VertexIndex(base as usize);
        let r1 = hex_fan(h, c);
        assert(c.0 < m);
        assert(h.verts@[0].0 < n && h.verts@[1].0 < n && h.verts@[2].0 < n);
        assert(h.verts@[3].0 < n && h.verts@[4].0 < n && h.verts@[5].0 < n);
        assert forall|a: int, k: int| 0 <= a < r1.len() && 0 <= k < 3 implies #[trigger] r1[a].verts@[k].0 < m by {}
        lemma_below_concat(r1, hexes_to_triangles(hs.drop_last(), base + 1), m);
    } else {
        assert(hexes_to_triangles(hs, base) =~= Seq::<Triangle>::empty());
    }
}

/// `c` merges two triangles of `ts` along an edge of the first, bringing in a vertex
/// below `n`.
pub open spec fn sound_candidate(ts: Seq<Triangle>, c: MergeCandidate, n: int) -> bool {
    &&& c.tr_a < ts.len()
    &&& c.tr_b < ts.len()
    &&& first_edge_at(ts[c.tr_a as int].verts@, c.edge, 0) is Some
    &&& c.opposite_b.0 < n
}

/// A merged quad uses the corners of its triangle and the candidate's vertex.
proof fn lemma_merged_quad_below(ts: Seq<Triangle>, c: MergeCandidate, n: int)
    requires
        indices_below(ts, n),
        sound_candidate(ts, c, n),
    ensures
        forall|k: int| 0 <= k < 4 ==> #[trigger] merged_quad(ts[c.tr_a as int], c).verts@[k].0 < n,
{
    let t = ts[c.tr_a as int];
    let v = t.verts@;
    lemma_first_edge_at_range(v, c.edge, 0);
    let pos = first_edge_at(v, c.edge, 0).unwrap().0 as int;
    v.insert_ensures(pos + 1, c.opposite_b);
    let s = v.insert(pos + 1, c.opposite_b);
    assert forall|i: int| 0 <= i < 4 implies #[trigger] s[i].0 < n by {
        if i < pos + 1 {
            assert(s[i] == v[i]);
            assert(ts[c.tr_a as int].verts@[i].0 < n);
        } else if i > pos + 1 {
            assert(s[(i - 1) + 1] == v[i - 1]);
            assert(ts[c.tr_a as int].verts@[i - 1].0 < n);
        }
    }
    let q = merged_quad(t, c);
    assert(q.verts@[0] == s[0] && q.verts@[1] == s[1] && q.verts@[2] == s[2] && q.verts@[3] == s[3]);
}

/// The quads of a greedy merge over sound candidates name vertices below `n`.
pub proof fn lemma_greedy_quads_below(ts: Seq<Triangle>, cands: Seq<MergeCandidate>, used: Seq<bool>, n: int)
    requires
        indices_below(ts, n),
        forall|i: int| 0 <= i < cands.len() ==> sound_candidate(ts, #[trigger] cands[i], n),
    ensures
        indices_below(greedy_merge(ts, cands, used).1, n),
    decreases cands.len(),
{
    if cands.len() > 0 {
        let c = cands.last();
        let p = cands.drop_last();
        assert(sound_candidate(ts, cands[cands.len() - 1], n));
        assert forall|i: int| 0 <= i < p.len() implies sound_candidate(ts, #[trigger] p[i], n) by {
            assert(p[i] == cands[i]);
        }
        if used[c.tr_a as int] || used[c.tr_b as int] {
            lemma_greedy_quads_below(ts, p, used, n);
        } else {
            let u2 = used.update(c.tr_a as int, true).update(c.tr_b as int, true);
            lemma_greedy_quads_below(ts, p, u2, n);
            lemma_merged_quad_below(ts, c, n);
            let q = seq![merged_quad(ts[c.tr_a as int], c)];
            assert forall|a: int, k: int| 0 <= a < q.len() && 0 <= k < 4 implies #[trigger] q[a].verts@[k].0 < n by {
                assert(q[a] == merged_quad(ts[c.tr_a as int], c));
            }
            lemma_below_concat(q, greedy_merge(ts, p, u2).1, n);
        }
    } else {
        assert(greedy_merge(ts, cands, used).1 =~= Seq::<Quad>::empty());
    }
}

/// The unmerged triangles are triangles of `ts`.
pub proof fn lemma_unused_below(ts: Seq<Triangle>, used: Seq<bool>, n: int)
    requires
        indices_below(ts, n),
    ensures
        indices_below(unused_triangles(ts, used), n),
    decreases ts.len(),
{
    if ts.len() > 0 {
        lemma_below_drop_last(ts, n);
        lemma_unused_below(ts.drop_last(), used, n);
        let prev = unused_triangles(ts.drop_last(), used);
        if !used[ts.len() - 1] {
            let r = prev.push(ts.last());
            assert forall|a: int, k: int| 0 <= a < r.len() && 0 <= k < 3 implies #[trigger] r[a].verts@[k].0 < n by {
                if a < prev.len() {
                    assert(r[a] == prev[a]);
                }
            }
        }
    } else {
        assert(unused_triangles(ts, used) =~= Seq::<Triangle>::empty());
    }
}

/// Merging keeps the mesh well formed: the quads and the remaining triangles of a random
/// merge only name vertices the triangles named.
pub proof fn law_merge_keeps_indices(ts: Seq<Triangle>, order: Seq<MergeCandidate>, quads: Seq<Quad>, rest: Seq<Triangle>, n: int)
    requires
        ts.len() <= usize::MAX,
        indices_below(ts, n),
        merge_outcome(ts, order, quads, rest),
    ensures
        indices_below(quads, n),
        indices_below(rest, n),
{
    lemma_edge_triangles(ts);
    assert forall|i: int| 0 <= i < order.len() implies sound_candidate(ts, #[trigger] order[i], n) by {
        let c = order[i];
        assert(order.contains(c));
        assert(is_merge_candidate(ts, c));
        let m = edge_triangles(ts);
        let k = crate::mesh::edge_maps::edge_key(c.edge);
        assert(m[k][0] < ts.len());
        assert(m[k][1] < ts.len());
        assert(edges_upto(ts[m[k][0] as int].verts@, 3).contains(edge_of_key(k)));
        assert(edge_of_key(k) == c.edge);
        lemma_edge_found(ts[c.tr_a as int], c.edge);
        let t = ts[c.tr_b as int];
        assert(t.verts@[0] == t.verts[0] && t.verts@[1] == t.verts[1] && t.verts@[2] == t.verts[2]);
        assert(t.verts@[0].0 < n && t.verts@[1].0 < n && t.verts@[2].0 < n);
    }
    let r = greedy_merge(ts, order, all_unused(ts.len()));
    lemma_greedy_quads_below(ts, order, all_unused(ts.len()), n);
    lemma_unused_below(ts, r.0, n);
}

/// The edge map misses no triangle: every triangle is listed under each of its edges.
/// (`lemma_edge_triangles` gives the converse: every listed triangle has the edge.)
pub proof fn law_edge_map_complete(ts: Seq<Triangle>, i: int, e: (VertexIndex, VertexIndex))
    requires
        ts.len() <= usize::MAX,
        0 <= i < ts.len(),
        edges_upto(ts[i].verts@, 3).contains(e),
    ensures
        edge_triangles(ts).dom().contains(crate::mesh::edge_maps::edge_key(e)),
        edge_triangles(ts)[crate::mesh::edge_maps::edge_key(e)].contains(i as usize),
    decreases ts.len(),
{
    let k = crate::mesh::edge_maps::edge_key(e);
    let p = ts.drop_last();
    let t = (ts.len() - 1) as usize;
    let es = edges_upto(ts.last().verts@, 3);
    lemma_edges_upto(ts.last().verts@, 3);
    lemma_add_triangle_edges(edge_triangles(p), es, t);
    let m0 = edge_triangles(p);
    let m = edge_triangles(ts);
    assert(m == crate::mesh::mesh_data::add_triangle_edges(m0, es, t));
    assert(edge_of_key(k) == e);
    if i == t {
        assert(ts[i] == ts.last());
        assert(m.dom().contains(k));
        let l0 = crate::mesh::edge_maps::list_or_empty(m0, k);
        assert(m[k] == l0.push(t));
        assert(m[k][l0.len() as int] == t);
    } else {
        assert(ts[i] == p[i]);
        law_edge_map_complete(p, i, e);
        assert(m.dom().contains(k));
        let j = choose|j: int| 0 <= j < m0[k].len() && m0[k][j] == i as usize;
        if es.contains(edge_of_key(k)) {
            assert(crate::mesh::edge_maps::list_or_empty(m0, k) == m0[k]);
            assert(m[k] == m0[k].push(t));
            assert(m[k][j] == i as usize);
        } else {
            assert(m[k] == m0[k]);
            assert(m[k][j] == i as usize);
        }
    }
}

/// The neighbours of a vertex are exactly the vertices it shares a quad side with.
pub proof fn law_neighbours_are_quad_sides(n: nat, qs: Seq<Quad>)
    requires
        n <= usize::MAX,
        indices_below(qs, n as int),
    ensures
        neighbour_lists(n, qs).len() == n,
        forall|v: int, w: VertexIndex|
            0 <= v < n ==> (#[trigger] neighbour_lists(n, qs)[v].contains(w) <==> quad_pairs(qs).contains(
                (VertexIndex(v as usize), w),
            )),
{
    lemma_quad_pairs(qs, n as int);
    lemma_add_neighbours(n, quad_pairs(qs));
}

/// The icosahedron is a well-formed mesh over its twelve vertices, and its faces have
/// three different corners each (so they can be merged into quads).
pub proof fn law_icosahedron_faces()
    ensures
        icosahedron_faces().len() == 20,
        indices_below(icosahedron_faces(), 12),
        forall|i: int|
            0 <= i < 20 ==> (#[trigger] icosahedron_faces()[i]).verts[0] != icosahedron_faces()[i].verts[1]
                && icosahedron_faces()[i].verts[1] != icosahedron_faces()[i].verts[2]
                && icosahedron_faces()[i].verts[0] != icosahedron_faces()[i].verts[2],
        mergeable(icosahedron_faces()),
{
    let f = icosahedron_faces();
    assert(f.len() == 20);
    assert forall|i: int| 0 <= i < 20 implies {
        &&& forall|k: int| 0 <= k < 3 ==> #[trigger] f[i].verts@[k].0 < 12
        &&& f[i].verts[0] != f[i].verts[1] && f[i].verts[1] != f[i].verts[2] && f[i].verts[0] != f[i].verts[2]
    } by {
        assert(f[i].verts@[0] == f[i].verts[0] && f[i].verts@[1] == f[i].verts[1] && f[i].verts@[2] == f[i].verts[2]);
    }
    law_mergeable(f);
}

/// Subdividing grows the boundary by exactly the new vertices of the edges whose two ends
/// were both on the boundary before: a vertex is added to the boundary (after the old
/// boundary, which stays in front) if and only if it is the vertex of such an edge.
pub proof fn law_boundary_midpoints(es: Seq<(VertexIndex, VertexIndex)>, b0: Seq<VertexIndex>, base: int)
    ensures
        forall|x: VertexIndex|
            #[trigger] boundary_midpoints(es, b0, base).contains(x) <==> exists|e: (VertexIndex, VertexIndex)|
                #[trigger] es.contains(e) && b0.contains(e.0) && b0.contains(e.1) && x == midpoint(es, base, e),
    decreases es.len(),
{
    if es.len() == 0 {
        assert forall|x: VertexIndex| !(#[trigger] boundary_midpoints(es, b0, base).contains(x)) by {}
    } else {
        let p = es.drop_last();
        let l = es.last();
        law_boundary_midpoints(p, b0, base);
        assert(es =~= p + seq![l]);
        let prev = boundary_midpoints(p, b0, base);
        let cur = boundary_midpoints(es, b0, base);
        let both = b0.contains(l.0) && b0.contains(l.1);
        assert(es[es.len() - 1] == l);
        assert(es.contains(l));
        assert forall|x: VertexIndex| #[trigger] cur.contains(x) <==> exists|e: (VertexIndex, VertexIndex)|
            #[trigger] es.contains(e) && b0.contains(e.0) && b0.contains(e.1) && x == midpoint(es, base, e) by {
            if cur.contains(x) {
                let i = choose|i: int| 0 <= i < cur.len() && cur[i] == x;
                if i < prev.len() {
                    assert(prev[i] == x);
                    assert(prev.contains(x));
                    let e = choose|e: (VertexIndex, VertexIndex)|
                        #[trigger] p.contains(e) && b0.contains(e.0) && b0.contains(e.1) && x == midpoint(p, base, e);
                    lemma_midpoint_stable(p, seq![l], e);
                    let j = choose|j: int| 0 <= j < p.len() && p[j] == e;
                    assert(es[j] == e);
                    assert(es.contains(e));
                } else {
                    assert(both);
                    assert(x == midpoint(es, base, l));
                }
            }
            if exists|e: (VertexIndex, VertexIndex)|
                #[trigger] es.contains(e) && b0.contains(e.0) && b0.contains(e.1) && x == midpoint(es, base, e) {
                let e = choose|e: (VertexIndex, VertexIndex)|
                    #[trigger] es.contains(e) && b0.contains(e.0) && b0.contains(e.1) && x == midpoint(es, base, e);
                let j = choose|j: int| 0 <= j < es.len() && es[j] == e;
                if j < p.len() {
                    assert(p[j] == e);
                    assert(p.contains(e));
                    lemma_midpoint_stable(p, seq![l], e);
                    assert(prev.contains(x));
                    let i = choose|i: int| 0 <= i < prev.len() && prev[i] == x;
                    if both {
                        assert(cur == prev.push(midpoint(es, base, l)));
                        assert(cur[i] == x);
                    }
                } else {
                    assert(e == l);
                    assert(cur == prev.push(midpoint(es, base, l)));
                    assert(cur[prev.len() as int] == x);
                }
            }
        }
    }
}

} // verus!
