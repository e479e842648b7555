//! Subdivision of triangle and quad meshes, sharing one new vertex per edge.
use vstd::prelude::*;

use crate::mesh::edge_maps::edge_key;
use crate::mesh::hashed_vertices::HashedVertexArray;
use crate::mesh::mesh_data::{MeshData, is_center_of, returns_center, total_center, triangle};
use crate::mesh::face_laws::{law_quads_of_faces, law_subdivided_triangle_shapes, split_in_four, split_into_quads};
use crate::mesh::laws::{law_boundary_midpoints, law_subdivided_quads, law_subdivided_triangles};
use crate::mesh::vertices::{
    Polygon, PolygonArray, Quad, Triangle, VertexIndex, corner_positions, cycle_edge, indices_below,
    lemma_indices_below_mono, push_new,
};

verus! {

/// The sorted edges of a polygon, corner `i` to corner `i + 1`.
pub open spec fn polygon_edges<const N: usize>(p: Polygon<N>) -> Seq<(VertexIndex, VertexIndex)> {
    Seq::new(N as nat, |i: int| cycle_edge(p.verts@, i))
}

/// The sorted edges of all polygons, polygon after polygon.
pub open spec fn edge_sequence<const N: usize>(ps: Seq<Polygon<N>>) -> Seq<(VertexIndex, VertexIndex)>
    decreases ps.len(),
{
    if ps.len() == 0 {
        Seq::empty()
    } else {
        edge_sequence(ps.drop_last()) + polygon_edges(ps.last())
    }
}

/// The distinct elements of `es` in order of first occurrence.
pub open spec fn distinct_edges(es: Seq<(VertexIndex, VertexIndex)>) -> Seq<(VertexIndex, VertexIndex)>
    decreases es.len(),
{
    if es.len() == 0 {
        Seq::empty()
    } else {
        push_new(distinct_edges(es.drop_last()), es.last())
    }
}

/// The vertex made for edge `e` when the distinct edges of `all` are numbered from `base`.
pub open spec fn midpoint(all: Seq<(VertexIndex, VertexIndex)>, base: int, e: (VertexIndex, VertexIndex)) -> VertexIndex {
    VertexIndex((base + distinct_edges(all).index_of(e)) as usize)
}

/// The vertices recorded as boundary while walking `es`: the vertex of each edge whose two
/// ends are both in `b0`, once per occurrence of the edge.
pub open spec fn boundary_midpoints(es: Seq<(VertexIndex, VertexIndex)>, b0: Seq<VertexIndex>, base: int) -> Seq<VertexIndex>
    decreases es.len(),
{
    if es.len() == 0 {
        Seq::empty()
    } else {
        let rest = boundary_midpoints(es.drop_last(), b0, base);
        let e = es.last();
        if b0.contains(e.0) && b0.contains(e.1) {
            rest.push(midpoint(es, base, e))
        } else {
            rest
        }
    }
}

/// The numbering of the distinct edges `d` from `base`, keyed by plain index pairs.
pub open spec fn index_map(d: Seq<(VertexIndex, VertexIndex)>, base: int) -> Map<(usize, usize), usize>
    decreases d.len(),
{
    if d.len() == 0 {
        Map::empty()
    } else {
        index_map(d.drop_last(), base).insert(edge_key(d.last()), (base + d.len() - 1) as usize)
    }
}

/// The distinct edges hold no repeats and the same elements as the walk.
pub proof fn lemma_distinct_edges(es: Seq<(VertexIndex, VertexIndex)>)
    ensures
        distinct_edges(es).no_duplicates(),
        forall|x: (VertexIndex, VertexIndex)| distinct_edges(es).contains(x) <==> es.contains(x),
        distinct_edges(es).len() <= es.len(),
    decreases es.len(),
{
    if es.len() > 0 {
        lemma_distinct_edges(es.drop_last());
        let d = distinct_edges(es.drop_last());
        let p = es.drop_last();
        let last = es.last();
        assert(es[es.len() - 1] == last);
        assert forall|x: (VertexIndex, VertexIndex)| distinct_edges(es).contains(x) <==> es.contains(x) by {
            if distinct_edges(es).contains(x) {
                if x == last {
                    assert(es.contains(x));
                } else {
                    let i = choose|i: int| 0 <= i < distinct_edges(es).len() && distinct_edges(es)[i] == x;
                    if !d.contains(last) {
                        assert(distinct_edges(es) == d.push(last));
                        assert(i < d.len());
                    }
                    assert(d[i] == x);
                    assert(d.contains(x));
                    assert(p.contains(x));
                    let j = choose|j: int| 0 <= j < p.len() && p[j] == x;
                    assert(es[j] == x);
                }
            }
            if es.contains(x) {
                let i = choose|i: int| 0 <= i < es.len() && es[i] == x;
                if i < es.len() - 1 {
                    assert(p[i] == x);
                    assert(p.contains(x));
                    assert(d.contains(x));
                    let k = choose|k: int| 0 <= k < d.len() && d[k] == x;
                    if !d.contains(last) {
                        assert(d.push(last)[k] == x);
                    }
                    assert(distinct_edges(es)[k] == x);
                } else {
                    assert(x == last);
                    if d.contains(last) {
                        let k = choose|k: int| 0 <= k < d.len() && d[k] == x;
                        assert(distinct_edges(es)[k] == x);
                    } else {
                        assert(d.push(last)[d.len() as int] == x);
                    }
                }
            }
        }
        if !d.contains(last) {
            assert forall|i: int, j: int|
                0 <= i < distinct_edges(es).len() && 0 <= j < distinct_edges(es).len() && i != j implies distinct_edges(es)[i]
                != distinct_edges(es)[j] by {
                if i == d.len() {
                    assert(d[j] != last);
                } else if j == d.len() {
                    assert(d[i] != last);
                }
            }
        }
    }
}

/// Walking further only extends the distinct edges found so far.
pub proof fn lemma_distinct_prefix(s: Seq<(VertexIndex, VertexIndex)>, t: Seq<(VertexIndex, VertexIndex)>)
    ensures
        distinct_edges(s).len() <= distinct_edges(s + t).len(),
        distinct_edges(s + t).take(distinct_edges(s).len() as int) == distinct_edges(s),
    decreases t.len(),
{
    if t.len() == 0 {
        assert(s + t =~= s);
        assert(distinct_edges(s).take(distinct_edges(s).len() as int) =~= distinct_edges(s));
    } else {
        lemma_distinct_prefix(s, t.drop_last());
        assert((s + t).drop_last() =~= s + t.drop_last());
        let a = distinct_edges(s + t.drop_last());
        assert(a.push(t.last()).take(a.len() as int) =~= a);
        assert(distinct_edges(s + t).take(distinct_edges(s).len() as int) =~= a.take(distinct_edges(s).len() as int));
    }
}

/// In a sequence without repeats, the position of the element at `k` is `k`.
pub proof fn lemma_index_of_unique(s: Seq<(VertexIndex, VertexIndex)>, k: int)
    requires
        s.no_duplicates(),
        0 <= k < s.len(),
    ensures
        s.index_of(s[k]) == k,
{
    assert(s.contains(s[k]));
}

/// The number of an edge does not change as the walk goes on.
pub proof fn lemma_midpoint_stable(s: Seq<(VertexIndex, VertexIndex)>, t: Seq<(VertexIndex, VertexIndex)>, e: (VertexIndex, VertexIndex))
    requires
        s.contains(e),
    ensures
        distinct_edges(s + t).index_of(e) == distinct_edges(s).index_of(e),
        0 <= distinct_edges(s).index_of(e) < distinct_edges(s).len(),
{
    lemma_distinct_edges(s);
    lemma_distinct_edges(s + t);
    lemma_distinct_prefix(s, t);
    let d = distinct_edges(s);
    let k = d.index_of(e);
    assert(d.contains(e));
    assert(0 <= k < d.len() && d[k] == e);
    assert(distinct_edges(s + t)[k] == d[k]);
    lemma_index_of_unique(distinct_edges(s + t), k);
}

/// The numbering map holds exactly the distinct edges, each with its number.
pub proof fn lemma_index_map(d: Seq<(VertexIndex, VertexIndex)>, base: int)
    requires
        d.no_duplicates(),
        0 <= base,
        base + d.len() <= usize::MAX,
    ensures
        forall|e: (VertexIndex, VertexIndex)| index_map(d, base).dom().contains(edge_key(e)) <==> d.contains(e),
        forall|k: int| 0 <= k < d.len() ==> index_map(d, base)[edge_key(#[trigger] d[k])] == base + k,
    decreases d.len(),
{
    if d.len() > 0 {
        let p = d.drop_last();
        assert(p.no_duplicates());
        lemma_index_map(p, base);
        assert forall|e: (VertexIndex, VertexIndex)| index_map(d, base).dom().contains(edge_key(e)) <==> d.contains(e) by {
            if d.contains(e) && e != d.last() {
                let i = choose|i: int| 0 <= i < d.len() && d[i] == e;
                assert(p[i] == e);
            }
            if p.contains(e) {
                let i = choose|i: int| 0 <= i < p.len() && p[i] == e;
                assert(d[i] == e);
            }
            if edge_key(e) == edge_key(d.last()) {
                assert(e == d.last());
                assert(d[d.len() - 1] == e);
            }
        }
        assert forall|k: int| 0 <= k < d.len() implies index_map(d, base)[edge_key(#[trigger] d[k])] == base + k by {
            if k < d.len() - 1 {
                assert(p[k] == d[k]);
                assert(d[k] != d[d.len() - 1]);
                assert(edge_key(d[k]) != edge_key(d.last()));
            }
        }
    }
}

/// The recorded boundary vertices all lie at or above `base`.
pub proof fn lemma_boundary_midpoints_above(es: Seq<(VertexIndex, VertexIndex)>, b0: Seq<VertexIndex>, base: int)
    requires
        0 <= base,
        base + es.len() <= usize::MAX,
    ensures
        forall|i: int| 0 <= i < boundary_midpoints(es, b0, base).len() ==> #[trigger] boundary_midpoints(es, b0, base)[i].0 >= base,
    decreases es.len(),
{
    if es.len() > 0 {
        lemma_boundary_midpoints_above(es.drop_last(), b0, base);
        lemma_distinct_edges(es);
        assert(es[es.len() - 1] == es.last());
        assert(es.contains(es.last()));
        assert(distinct_edges(es).contains(es.last()));
        let k = distinct_edges(es).index_of(es.last());
        assert(0 <= k < distinct_edges(es).len());
        let rest = boundary_midpoints(es.drop_last(), b0, base);
        assert(midpoint(es, base, es.last()).0 == base + k);
        assert forall|i: int| 0 <= i < boundary_midpoints(es, b0, base).len() implies #[trigger] boundary_midpoints(es, b0, base)[i].0 >= base by {
            if i < rest.len() {
                assert(boundary_midpoints(es, b0, base)[i] == rest[i]);
            }
        }
    }
}

/// The bookkeeping of a walk over the edges `done`: one generated vertex per distinct edge,
/// numbered from the end of the existing vertices, and the boundary grown accordingly.
pub open spec fn walk_state<'a, V, Gen: Fn(&(VertexIndex, VertexIndex)) -> V>(
    h: HashedVertexArray<'a, V, Gen>,
    boundary: Seq<VertexIndex>,
    b0: Seq<VertexIndex>,
    done: Seq<(VertexIndex, VertexIndex)>,
) -> bool {
    let d = distinct_edges(done);
    let base = h.existing().len() as int;
    &&& h.generated().len() == d.len()
    &&& h.key_map() == index_map(d, base)
    &&& forall|k: int| 0 <= k < d.len() ==> call_ensures(h.generator_fn(), (&d[k],), #[trigger] h.generated()[k])
    &&& boundary == b0 + boundary_midpoints(done, b0, base)
}

/// Fetches (or makes) the vertices of the edges of `poly`, records the boundary ones, and
/// returns them in edge order.
pub(crate) fn polygon_midpoints<'a, V: Copy, Gen: Fn(&(VertexIndex, VertexIndex)) -> V, const N: usize>(
    hashed: &mut HashedVertexArray<'a, V, Gen>,
    boundary: &mut Vec<VertexIndex>,
    poly: &Polygon<N>,
    Ghost(b0): Ghost<Seq<VertexIndex>>,
    Ghost(done): Ghost<Seq<(VertexIndex, VertexIndex)>>,
    Ghost(n0): Ghost<int>,
) -> (mids: Vec<VertexIndex>)
    requires
        walk_state(*old(hashed), old(boundary)@, b0, done),
        n0 <= old(hashed).existing().len(),
        forall|k: int| 0 <= k < N ==> #[trigger] poly.verts@[k].0 < n0,
        forall|e: &(VertexIndex, VertexIndex)|
            e.0.0 < n0 && e.1.0 < n0 ==> #[trigger] call_requires(old(hashed).generator_fn(), (e,)),
        old(hashed).existing().len() + done.len() + N <= usize::MAX,
    ensures
        walk_state(*final(hashed), final(boundary)@, b0, done + polygon_edges(*poly)),
        final(hashed).existing() == old(hashed).existing(),
        final(hashed).generator_fn() == old(hashed).generator_fn(),
        mids@.len() == N,
        forall|j: int|
            0 <= j < N ==> #[trigger] mids@[j] == midpoint(
                done + polygon_edges(*poly),
                old(hashed).existing().len() as int,
                polygon_edges(*poly)[j],
            ),
{
    let ghost base = hashed.existing().len() as int;
    let ghost pe = polygon_edges(*poly);
    let mut mids: Vec<VertexIndex> = Vec::new();
    let mut j: usize = 0;
    while j < N
        invariant
            j <= N,
            poly.verts@.len() == N,
            pe == polygon_edges(*poly),
            base == hashed.existing().len(),
            base == old(hashed).existing().len(),
            hashed.existing() == old(hashed).existing(),
            n0 <= base,
            hashed.generator_fn() == old(hashed).generator_fn(),
            forall|k: int| 0 <= k < N ==> #[trigger] poly.verts@[k].0 < n0,
            forall|e: &(VertexIndex, VertexIndex)|
                e.0.0 < n0 && e.1.0 < n0 ==> #[trigger] call_requires(hashed.generator_fn(), (e,)),
            base + done.len() + N <= usize::MAX,
            walk_state(*hashed, boundary@, b0, done + pe.take(j as int)),
            mids@.len() == j,
            forall|i: int| 0 <= i < j ==> #[trigger] mids@[i] == midpoint(done + pe.take(i + 1), base, pe[i]),
        decreases N - j,
    {
        let ghost es = done + pe.take(j as int);
        let ghost es2 = done + pe.take(j + 1);
        assert(es2 =~= es.push(pe[j as int]));
        assert(es2.drop_last() =~= es);
        let v = poly.verts[j];
        let next = poly.verts[(j + 1) % N];
        let e = if v.0 < next.0 {
            (v, next)
        } else {
            (next, v)
        };
        assert(e == pe[j as int]);
        assert(es2.last() == e);
        assert(0 <= (j + 1) % (N as int) < N);
        assert(poly.verts@[(j + 1) % (N as int)].0 < n0);
        proof {
            lemma_distinct_edges(es);
            lemma_distinct_edges(es2);
            lemma_index_map(distinct_edges(es), base);
            lemma_boundary_midpoints_above(es, b0, base);
        }
        let ghost d = distinct_edges(es);
        let ghost hold = *hashed;
        let ghost bold = boundary@;
        let m = hashed.get_idx(&e);
        proof {
            if d.contains(e) {
                assert(distinct_edges(es2) == d);
                let k = d.index_of(e);
                assert(0 <= k < d.len() && d[k] == e);
                assert(m.0 == base + k);
            } else {
                assert(distinct_edges(es2) == d.push(e));
                assert(distinct_edges(es2)[d.len() as int] == e);
                lemma_index_of_unique(distinct_edges(es2), d.len() as int);
                assert(d.push(e).drop_last() =~= d);
                assert(index_map(distinct_edges(es2), base) == index_map(d, base).insert(edge_key(e), (base + d.len()) as usize));
                assert forall|k: int| 0 <= k < distinct_edges(es2).len() implies call_ensures(
                    hashed.generator_fn(),
                    (&distinct_edges(es2)[k],),
                    #[trigger] hashed.generated()[k],
                ) by {
                    if k < d.len() {
                        assert(distinct_edges(es2)[k] == d[k]);
                        assert(hashed.generated()[k] == hold.generated()[k]);
                    }
                }
            }
            assert(m == midpoint(es2, base, e));
        }
        let in_a = contains_vertex(boundary, e.0);
        let in_b = contains_vertex(boundary, e.1);
        proof {
            assert(e.0.0 < n0 && e.1.0 < n0);
            assert(bold.contains(e.0) == b0.contains(e.0)) by {
                if bold.contains(e.0) && !b0.contains(e.0) {
                    let i = choose|i: int| 0 <= i < bold.len() && bold[i] == e.0;
                    assert(bold[i] == boundary_midpoints(es, b0, base)[i - b0.len()]);
                }
                if b0.contains(e.0) {
                    let i = choose|i: int| 0 <= i < b0.len() && b0[i] == e.0;
                    assert(bold[i] == e.0);
                }
            }
            assert(bold.contains(e.1) == b0.contains(e.1)) by {
                if bold.contains(e.1) && !b0.contains(e.1) {
                    let i = choose|i: int| 0 <= i < bold.len() && bold[i] == e.1;
                    assert(bold[i] == boundary_midpoints(es, b0, base)[i - b0.len()]);
                }
                if b0.contains(e.1) {
                    let i = choose|i: int| 0 <= i < b0.len() && b0[i] == e.1;
                    assert(bold[i] == e.1);
                }
            }
            assert(es2.drop_last() =~= es);
            assert(es2.last() == e);
        }
        if in_a && in_b {
            boundary.push(m);
            assert(boundary@ =~= b0 + boundary_midpoints(es2, b0, base));
        } else {
            assert(boundary@ =~= b0 + boundary_midpoints(es2, b0, base));
        }
        mids.push(m);
        j += 1;
    }
    assert(pe.take(N as int) =~= pe);
    assert forall|i: int| 0 <= i < N implies #[trigger] mids@[i] == midpoint(done + pe, base, pe[i]) by {
        let pre = done + pe.take(i + 1);
        assert(pre[pre.len() - 1] == pe[i]);
        assert(pre.contains(pe[i]));
        assert(done + pe =~= pre + pe.skip(i + 1));
        lemma_midpoint_stable(pre, pe.skip(i + 1), pe[i]);
    }
    mids
}

/// The corner triangle that keeps corner 0 of `t` after subdivision.
pub open spec fn subdivided_corner(t: Triangle, all: Seq<(VertexIndex, VertexIndex)>, base: int) -> Triangle {
    let pe = polygon_edges(t);
    triangle(t.verts[0], midpoint(all, base, pe[0]), midpoint(all, base, pe[2]))
}

/// The other three triangles of `t` after subdivision.
pub open spec fn subdivided_rest(t: Triangle, all: Seq<(VertexIndex, VertexIndex)>, base: int) -> Seq<Triangle> {
    let pe = polygon_edges(t);
    let m0 = midpoint(all, base, pe[0]);
    let m1 = midpoint(all, base, pe[1]);
    let m2 = midpoint(all, base, pe[2]);
    seq![triangle(m0, t.verts[1], m1), triangle(m1, t.verts[2], m2), triangle(m0, m1, m2)]
}

/// The non-corner triangles of all subdivided triangles, triangle after triangle.
pub open spec fn subdivided_rests(ts: Seq<Triangle>, all: Seq<(VertexIndex, VertexIndex)>, base: int) -> Seq<Triangle>
    decreases ts.len(),
{
    if ts.len() == 0 {
        Seq::empty()
    } else {
        subdivided_rests(ts.drop_last(), all, base) + subdivided_rest(ts.last(), all, base)
    }
}

/// A quad with the given corners.
pub open spec fn quad(a: VertexIndex, b: VertexIndex, c: VertexIndex, d: VertexIndex) -> Quad {
    Polygon { verts: [a, b, c, d] }
}

/// The three quads a triangle `t` with centre vertex `c` is split into.
pub open spec fn triangle_quads(t: Triangle, all: Seq<(VertexIndex, VertexIndex)>, base: int, c: VertexIndex) -> Seq<Quad> {
    let pe = polygon_edges(t);
    let m0 = midpoint(all, base, pe[0]);
    let m1 = midpoint(all, base, pe[1]);
    let m2 = midpoint(all, base, pe[2]);
    seq![quad(t.verts[0], m0, c, m2), quad(m0, t.verts[1], m1, c), quad(m1, t.verts[2], m2, c)]
}

/// The four quads a quad `q` with centre vertex `c` is split into.
pub open spec fn quad_quads(q: Quad, all: Seq<(VertexIndex, VertexIndex)>, base: int, c: VertexIndex) -> Seq<Quad> {
    let pe = polygon_edges(q);
    let m0 = midpoint(all, base, pe[0]);
    let m1 = midpoint(all, base, pe[1]);
    let m2 = midpoint(all, base, pe[2]);
    let m3 = midpoint(all, base, pe[3]);
    seq![quad(m3, q.verts[0], m0, c), quad(m0, q.verts[1], m1, c), quad(m1, q.verts[2], m2, c), quad(m2, q.verts[3], m3, c)]
}

/// The quads of all split triangles; the centre of the `i`-th triangle is vertex `cbase + i`.
pub open spec fn triangles_to_quads(ts: Seq<Triangle>, all: Seq<(VertexIndex, VertexIndex)>, base: int, cbase: int) -> Seq<Quad>
    decreases ts.len(),
{
    if ts.len() == 0 {
        Seq::empty()
    } else {
        triangles_to_quads(ts.drop_last(), all, base, cbase) + triangle_quads(
            ts.last(),
            all,
            base,
            VertexIndex((cbase + ts.len() - 1) as usize),
        )
    }
}

/// The quads of all split quads; the centre of the `i`-th quad is vertex `cbase + i`.
pub open spec fn quads_to_quads(qs: Seq<Quad>, all: Seq<(VertexIndex, VertexIndex)>, base: int, cbase: int) -> Seq<Quad>
    decreases qs.len(),
{
    if qs.len() == 0 {
        Seq::empty()
    } else {
        quads_to_quads(qs.drop_last(), all, base, cbase) + quad_quads(
            qs.last(),
            all,
            base,
            VertexIndex((cbase + qs.len() - 1) as usize),
        )
    }
}

/// `g` holds, for each edge of `d`, a value `center` returns for its two end positions.
pub open spec fn edge_centers_made<V, F: Fn(&Vec<V>) -> V>(
    center: &F,
    verts: Seq<V>,
    d: Seq<(VertexIndex, VertexIndex)>,
    g: Seq<V>,
) -> bool {
    &&& g.len() == d.len()
    &&& forall|k: int|
        0 <= k < d.len() ==> is_center_of(center, seq![verts[d[k].0.0 as int], verts[d[k].1.0 as int]], #[trigger] g[k])
}

/// The edges of consecutive runs of polygons concatenate.
pub proof fn lemma_edge_sequence_concat<const N: usize>(s: Seq<Polygon<N>>, t: Seq<Polygon<N>>)
    ensures
        edge_sequence(s + t) == edge_sequence(s) + edge_sequence(t),
    decreases t.len(),
{
    if t.len() == 0 {
        assert(s + t =~= s);
        assert(edge_sequence(s) + edge_sequence(t) =~= edge_sequence(s));
    } else {
        lemma_edge_sequence_concat(s, t.drop_last());
        assert((s + t).drop_last() =~= s + t.drop_last());
        assert((s + t).last() == t.last());
        assert(edge_sequence(s + t) =~= edge_sequence(s) + edge_sequence(t));
    }
}

/// Every polygon contributes `N` edges.
pub proof fn lemma_edge_sequence_len<const N: usize>(s: Seq<Polygon<N>>)
    ensures
        edge_sequence(s).len() == N * s.len(),
    decreases s.len(),
{
    if s.len() > 0 {
        lemma_edge_sequence_len(s.drop_last());
        assert(N * (s.len() - 1) + N == N * s.len()) by (nonlinear_arith);
    }
}

/// The edges of all polygons of `ps` name vertices below `n` when the polygons do.
pub proof fn lemma_edge_sequence_below<const N: usize>(ps: Seq<Polygon<N>>, n: int)
    requires
        indices_below(ps, n),
    ensures
        forall|i: int| 0 <= i < edge_sequence(ps).len() ==> (#[trigger] edge_sequence(ps)[i]).0.0 < n
            && edge_sequence(ps)[i].1.0 < n,
    decreases ps.len(),
{
    if ps.len() > 0 {
        let p = ps.drop_last();
        assert(indices_below(p, n)) by {
            assert forall|a: int, k: int| 0 <= a < p.len() && 0 <= k < N implies #[trigger] p[a].verts@[k].0 < n by {
                assert(p[a] == ps[a]);
            }
        }
        lemma_edge_sequence_below(p, n);
        let last = ps.last();
        assert(last == ps[ps.len() - 1]);
        assert forall|i: int| 0 <= i < edge_sequence(ps).len() implies (#[trigger] edge_sequence(ps)[i]).0.0 < n
            && edge_sequence(ps)[i].1.0 < n by {
            if i >= edge_sequence(p).len() {
                let j = i - edge_sequence(p).len();
                assert(edge_sequence(ps)[i] == polygon_edges(last)[j]);
                assert(0 <= (j + 1) % (N as int) < N);
                assert(last.verts@[j].0 < n);
                assert(last.verts@[(j + 1) % (N as int)].0 < n);
            } else {
                assert(edge_sequence(ps)[i] == edge_sequence(p)[i]);
            }
        }
    }
}

impl<V: Copy> MeshData<V> {
    /// Splits every triangle into four: the corner triangle takes the place of the triangle it comes from
    /// and the other three are appended. Each edge gets one new vertex placed by `center`
    /// (shared by the triangles on both sides), numbered after the existing vertices in
    /// order of first occurrence; new vertices on edges with both ends on the boundary
    /// join the boundary.
    pub fn subdivide_triangles<F: Fn(&Vec<V>) -> V>(&mut self, center: &F)
        requires
            total_center(center),
            indices_below(old(self).triangles.data@, old(self).vertices@.len() as int),
            old(self).vertices@.len() + 3 * old(self).triangles.data@.len() <= usize::MAX,
        ensures
            ({
                let n = old(self).vertices@.len() as int;
                let ts = old(self).triangles.data@;
                let all = edge_sequence(ts);
                &&& final(self).vertices@.take(n) == old(self).vertices@
                &&& final(self).vertices@.len() == n + distinct_edges(all).len()
                &&& edge_centers_made(center, old(self).vertices@, distinct_edges(all), final(self).vertices@.skip(n))
                &&& final(self).triangles.data@ == ts.map_values(|t: Triangle| subdivided_corner(t, all, n))
                    + subdivided_rests(ts, all, n)
                &&& final(self).boundary_indices@ == old(self).boundary_indices@ + boundary_midpoints(
                    all,
                    old(self).boundary_indices@,
                    n,
                )
            }),
            ({
                let n = old(self).vertices@.len() as int;
                let b0 = old(self).boundary_indices@;
                let all = edge_sequence(old(self).triangles.data@);
                &&& final(self).boundary_indices@.take(b0.len() as int) == b0
                &&& forall|x: VertexIndex|
                    #[trigger] final(self).boundary_indices@.skip(b0.len() as int).contains(x) <==> exists|
                        e: (VertexIndex, VertexIndex),
                    | #[trigger] all.contains(e) && b0.contains(e.0) && b0.contains(e.1) && x == midpoint(all, n, e)
            }),
            final(self).lines.data@ == old(self).lines.data@,
            final(self).quads.data@ == old(self).quads.data@,
            final(self).hex.data@ == old(self).hex.data@,
            old(self).well_formed() ==> final(self).well_formed(),
            split_in_four(
                final(self).triangles.data@,
                old(self).triangles.data@,
                edge_sequence(old(self).triangles.data@),
                old(self).vertices@.len() as int,
            ),
    {
        let ghost n = self.vertices@.len() as int;
        let ghost ts = self.triangles.data@;
        let ghost all = edge_sequence(ts);
        let ghost b0 = self.boundary_indices@;
        let ghost verts0 = self.vertices@;
        proof {
            lemma_edge_sequence_len(ts);
        }
        let vertices = &self.vertices;
        let generator = |id: &(VertexIndex, VertexIndex)| -> (c: V)
            requires
                id.0.0 < vertices@.len(),
                id.1.0 < vertices@.len(),
                total_center(center),
            ensures
                is_center_of(center, seq![vertices@[id.0.0 as int], vertices@[id.1.0 as int]], c),
            {
                let mut pts: Vec<V> = Vec::new();
                pts.push(*vertices.get(&id.0));
                pts.push(*vertices.get(&id.1));
                let c = center(&pts);
                assert(pts@ =~= seq![vertices@[id.0.0 as int], vertices@[id.1.0 as int]]);
                assert(returns_center(center, &pts, c));
                c
            };
        assert forall|e: &(VertexIndex, VertexIndex)| e.0.0 < n && e.1.0 < n implies #[trigger] call_requires(
            generator,
            (e,),
        ) by {}
        let mut edge_centers = HashedVertexArray::new(vertices, generator);
        let mut boundary: Vec<VertexIndex> = Vec::new();
        std::mem::swap(&mut boundary, &mut self.boundary_indices);
        let mut corners: Vec<Triangle> = Vec::new();
        let mut new_triangles: PolygonArray<3> = PolygonArray::default();
        let mut t: usize = 0;
        while t < self.triangles.data.len()
            invariant
                ts == self.triangles.data@,
                verts0 == vertices@,
                n == verts0.len(),
                all == edge_sequence(ts),
                all.len() == 3 * ts.len(),
                n + 3 * ts.len() <= usize::MAX,
                t <= ts.len(),
                total_center(center),
                indices_below(ts, n),
                edge_centers.existing() == verts0,
                edge_centers.generator_fn() == generator,
                forall|e: &(VertexIndex, VertexIndex)| e.0.0 < n && e.1.0 < n ==> #[trigger] call_requires(generator, (e,)),
                walk_state(edge_centers, boundary@, b0, edge_sequence(ts.take(t as int))),
                corners@ == ts.take(t as int).map_values(|x: Triangle| subdivided_corner(x, all, n)),
                new_triangles.data@ == subdivided_rests(ts.take(t as int), all, n),
            decreases ts.len() - t,
        {
            let triangle = self.triangles.data[t];
            let ghost done = edge_sequence(ts.take(t as int));
            proof {
                assert(ts.take(t + 1) =~= ts.take(t as int).push(triangle));
                assert(ts.take(t + 1).drop_last() =~= ts.take(t as int));
                lemma_edge_sequence_len(ts.take(t as int));
                assert(3 * t + 3 <= 3 * ts.len()) by (nonlinear_arith)
                    requires t < ts.len();
                assert forall|k: int| 0 <= k < 3 implies #[trigger] triangle.verts@[k].0 < n by {
                    assert(ts[t as int].verts@[k].0 < n);
                }
            }
            let mids = polygon_midpoints(&mut edge_centers, &mut boundary, &triangle, Ghost(b0), Ghost(done), Ghost(n));
            let ghost pe = polygon_edges(triangle);
            proof {
                let pre = done + pe;
                assert(pre == edge_sequence(ts.take(t + 1)));
                lemma_edge_sequence_concat(ts.take(t + 1), ts.skip(t + 1));
                assert(ts.take(t + 1) + ts.skip(t + 1) =~= ts);
                assert forall|j: int| 0 <= j < 3 implies #[trigger] mids@[j] == midpoint(all, n, pe[j]) by {
                    assert(pre[done.len() + j] == pe[j]);
                    assert(pre.contains(pe[j]));
                    lemma_midpoint_stable(pre, edge_sequence(ts.skip(t + 1)), pe[j]);
                }
            }
            corners.push(Polygon { verts: [triangle.verts[0], mids[0], mids[2]] });
            new_triangles.add(Polygon { verts: [mids[0], triangle.verts[1], mids[1]] });
            new_triangles.add(Polygon { verts: [mids[1], triangle.verts[2], mids[2]] });
            new_triangles.add(Polygon { verts: [mids[0], mids[1], mids[2]] });
            proof {
                assert(corners@ =~= ts.take(t + 1).map_values(|x: Triangle| subdivided_corner(x, all, n)));
            }
            t += 1;
        }
        proof {
            assert(ts.take(t as int) =~= ts);
        }
        let generated = edge_centers.retrieve_data();
        proof {
            let d = distinct_edges(all);
            assert forall|k: int| 0 <= k < d.len() implies is_center_of(
                center,
                seq![verts0[d[k].0.0 as int], verts0[d[k].1.0 as int]],
                #[trigger] generated@[k],
            ) by {
                assert(call_ensures(generator, (&d[k],), generated@[k]));
            }
        }
        self.vertices.append(generated);
        self.boundary_indices = boundary;
        self.triangles = PolygonArray { data: corners };
        self.triangles.append(new_triangles);
        proof {
            assert(self.vertices@.take(n) =~= verts0);
            assert(self.vertices@.skip(n) =~= generated@);
            law_boundary_midpoints(all, b0, n);
            law_subdivided_triangle_shapes(ts, all, n);
            assert(self.boundary_indices@.take(b0.len() as int) =~= b0);
            assert(self.boundary_indices@.skip(b0.len() as int) =~= boundary_midpoints(all, b0, n));
            if old(self).well_formed() {
                let m = self.vertices@.len() as int;
                law_subdivided_triangles(ts, n);
                lemma_indices_below_mono(self.lines.data@, n, m);
                lemma_indices_below_mono(self.quads.data@, n, m);
                lemma_indices_below_mono(self.hex.data@, n, m);
            }
        }
    }
}

impl<V: Copy> MeshData<V> {
    /// Appends, for each polygon of `ps` in order, a new vertex placed by `center` at its corners.
    fn add_face_centers<F: Fn(&Vec<V>) -> V, const N: usize>(&mut self, ps: &Vec<Polygon<N>>, center: &F)
        requires
            total_center(center),
            indices_below(ps@, old(self).vertices@.len() as int),
        ensures
            final(self).vertices@.len() == old(self).vertices@.len() + ps@.len(),
            final(self).vertices@.take(old(self).vertices@.len() as int) == old(self).vertices@,
            forall|i: int|
                0 <= i < ps@.len() ==> is_center_of(
                    center,
                    corner_positions(old(self).vertices@, ps@[i]),
                    #[trigger] final(self).vertices@[old(self).vertices@.len() + i],
                ),
            final(self).triangles == old(self).triangles,
            final(self).quads == old(self).quads,
            final(self).lines == old(self).lines,
            final(self).hex == old(self).hex,
            final(self).boundary_indices == old(self).boundary_indices,
    {
        let ghost verts0 = self.vertices@;
        let ghost n = verts0.len() as int;
        let mut i: usize = 0;
        while i < ps.len()
            invariant
                i <= ps@.len(),
                total_center(center),
                n == verts0.len(),
                indices_below(ps@, n),
                self.vertices@.len() == n + i,
                self.vertices@.take(n) == verts0,
                forall|j: int|
                    0 <= j < i ==> is_center_of(
                        center,
                        corner_positions(verts0, ps@[j]),
                        #[trigger] self.vertices@[n + j],
                    ),
                self.triangles == old(self).triangles,
                self.quads == old(self).quads,
                self.lines == old(self).lines,
                self.hex == old(self).hex,
                self.boundary_indices == old(self).boundary_indices,
            decreases ps@.len() - i,
        {
            let p = ps[i];
            assert forall|k: int| 0 <= k < N implies #[trigger] p.verts@[k].0 < self.vertices@.len() by {
                assert(ps@[i as int].verts@[k].0 < n);
            }
            let pts = self.vertices.gather(&p);
            assert(corner_positions(self.vertices@, p) =~= corner_positions(verts0, p)) by {
                assert forall|k: int| 0 <= k < N implies #[trigger] self.vertices@[p.verts@[k].0 as int] == verts0[p.verts@[k].0 as int] by {
                    assert(ps@[i as int].verts@[k].0 < n);
                    assert(self.vertices@.take(n)[p.verts@[k].0 as int] == verts0[p.verts@[k].0 as int]);
                }
            }
            let c = center(&pts);
            assert(returns_center(center, &pts, c));
            let ghost vs = self.vertices@;
            let _ = self.vertices.add(c);
            assert(self.vertices@.take(n) =~= verts0) by {
                assert(self.vertices@.take(n) =~= vs.take(n));
            }
            assert forall|j: int|
                0 <= j < i + 1 implies is_center_of(
                    center,
                    corner_positions(verts0, ps@[j]),
                    #[trigger] self.vertices@[n + j],
                ) by {
                if j < i {
                    assert(self.vertices@[n + j] == vs[n + j]);
                }
            }
            i += 1;
        }
    }

    /// Splits every triangle into three quads and every quad into four, meeting at a new
    /// centre vertex per face (triangle centres first, then quad centres) and at one new
    /// vertex per edge (after the centres, in order of first occurrence, shared by the
    /// faces on both sides). New edge vertices with both edge ends on the boundary join
    /// the boundary. All triangles are consumed.
    #[verifier::rlimit(60)]
    pub fn subdivide_to_quads<F: Fn(&Vec<V>) -> V>(&mut self, center: &F)
        requires
            total_center(center),
            indices_below(old(self).triangles.data@, old(self).vertices@.len() as int),
            indices_below(old(self).quads.data@, old(self).vertices@.len() as int),
            old(self).vertices@.len() + 4 * old(self).triangles.data@.len() + 5 * old(self).quads.data@.len()
                <= usize::MAX,
        ensures
            ({
                let n = old(self).vertices@.len() as int;
                let ts = old(self).triangles.data@;
                let qs = old(self).quads.data@;
                let base = n + ts.len() + qs.len();
                let all = edge_sequence(ts) + edge_sequence(qs);
                &&& final(self).vertices@.take(n) == old(self).vertices@
                &&& final(self).vertices@.len() == base + distinct_edges(all).len()
                &&& forall|i: int|
                    0 <= i < ts.len() ==> is_center_of(
                        center,
                        corner_positions(old(self).vertices@, ts[i]),
                        #[trigger] final(self).vertices@[n + i],
                    )
                &&& forall|i: int|
                    0 <= i < qs.len() ==> is_center_of(
                        center,
                        corner_positions(old(self).vertices@, qs[i]),
                        #[trigger] final(self).vertices@[n + ts.len() + i],
                    )
                &&& edge_centers_made(center, old(self).vertices@, distinct_edges(all), final(self).vertices@.skip(base))
                &&& final(self).quads.data@ == triangles_to_quads(ts, all, base, n) + quads_to_quads(
                    qs,
                    all,
                    base,
                    n + ts.len(),
                )
                &&& final(self).boundary_indices@ == old(self).boundary_indices@ + boundary_midpoints(
                    all,
                    old(self).boundary_indices@,
                    base,
                )
            }),
            ({
                let ts = old(self).triangles.data@;
                let qs = old(self).quads.data@;
                let base = (old(self).vertices@.len() + ts.len() + qs.len()) as int;
                let b0 = old(self).boundary_indices@;
                let all = edge_sequence(ts) + edge_sequence(qs);
                &&& final(self).boundary_indices@.take(b0.len() as int) == b0
                &&& forall|x: VertexIndex|
                    #[trigger] final(self).boundary_indices@.skip(b0.len() as int).contains(x) <==> exists|
                        e: (VertexIndex, VertexIndex),
                    | #[trigger] all.contains(e) && b0.contains(e.0) && b0.contains(e.1) && x == midpoint(all, base, e)
            }),
            final(self).triangles.data@ == Seq::<Triangle>::empty(),
            final(self).lines.data@ == old(self).lines.data@,
            final(self).hex.data@ == old(self).hex.data@,
            old(self).well_formed() ==> final(self).well_formed(),
            split_into_quads(
                final(self).quads.data@,
                old(self).triangles.data@,
                old(self).quads.data@,
                edge_sequence(old(self).triangles.data@) + edge_sequence(old(self).quads.data@),
                (old(self).vertices@.len() + old(self).triangles.data@.len() + old(self).quads.data@.len()) as int,
                old(self).vertices@.len() as int,
                (old(self).vertices@.len() + old(self).triangles.data@.len()) as int,
            ),
    {
        let ghost verts0 = self.vertices@;
        let ghost n = verts0.len() as int;
        let ghost ts = self.triangles.data@;
        let ghost qs = self.quads.data@;
        let ghost b0 = self.boundary_indices@;
        let ghost all = edge_sequence(ts) + edge_sequence(qs);
        let ghost base = n + ts.len() + qs.len();
        proof {
            lemma_edge_sequence_len(ts);
            lemma_edge_sequence_len(qs);
        }
        let triangle_center_start_index = self.vertices.count();
        let mut triangles: Vec<Triangle> = Vec::new();
        std::mem::swap(&mut triangles, &mut self.triangles.data);
        let mut quads: Vec<Quad> = Vec::new();
        std::mem::swap(&mut quads, &mut self.quads.data);
        self.add_face_centers(&triangles, center);
        let ghost verts1 = self.vertices@;
        assert(indices_below(quads@, verts1.len() as int)) by {
            assert forall|a: int, k: int| 0 <= a < quads@.len() && 0 <= k < 4 implies #[trigger] quads@[a].verts@[k].0
                < verts1.len() by {
                assert(qs[a].verts@[k].0 < n);
            }
        }
        let quad_center_start_index = self.vertices.count();
        self.add_face_centers(&quads, center);
        proof {
            assert forall|i: int| 0 <= i < qs.len() implies corner_positions(verts1, qs[i]) =~= corner_positions(verts0, qs[i]) by {
                assert forall|k: int| 0 <= k < 4 implies #[trigger] verts1[qs[i].verts@[k].0 as int] == verts0[qs[i].verts@[k].0 as int] by {
                    assert(qs[i].verts@[k].0 < n);
                    assert(verts1.take(n)[qs[i].verts@[k].0 as int] == verts0[qs[i].verts@[k].0 as int]);
                }
            }
        }
        let ghost verts2 = self.vertices@;
        assert(verts2.take(n) =~= verts0) by {
            assert(verts2.take(n) =~= verts2.take(verts1.len() as int).take(n));
        }
        let vertices = &self.vertices;
        let generator = |id: &(VertexIndex, VertexIndex)| -> (c: V)
            requires
                id.0.0 < vertices@.len(),
                id.1.0 < vertices@.len(),
                total_center(center),
            ensures
                is_center_of(center, seq![vertices@[id.0.0 as int], vertices@[id.1.0 as int]], c),
            {
                let mut pts: Vec<V> = Vec::new();
                pts.push(*vertices.get(&id.0));
                pts.push(*vertices.get(&id.1));
                let c = center(&pts);
                assert(pts@ =~= seq![vertices@[id.0.0 as int], vertices@[id.1.0 as int]]);
                assert(returns_center(center, &pts, c));
                c
            };
        assert forall|e: &(VertexIndex, VertexIndex)| e.0.0 < base && e.1.0 < base implies #[trigger] call_requires(
            generator,
            (e,),
        ) by {}
        let mut edge_centers = HashedVertexArray::new(vertices, generator);
        let mut boundary: Vec<VertexIndex> = Vec::new();
        std::mem::swap(&mut boundary, &mut self.boundary_indices);
        let mut resulting_quads: PolygonArray<4> = PolygonArray::default();
        proof {
            assert(edge_sequence(ts.take(0)) =~= Seq::<(VertexIndex, VertexIndex)>::empty());
            assert(boundary_midpoints(edge_sequence(ts.take(0)), b0, base) =~= Seq::<VertexIndex>::empty());
            assert(boundary@ =~= b0 + boundary_midpoints(edge_sequence(ts.take(0)), b0, base));
            assert(index_map(distinct_edges(edge_sequence(ts.take(0))), base) =~= index_map(Seq::empty(), base));
        }
        let mut t: usize = 0;
        while t < triangles.len()
            invariant
                ts == triangles@,
                qs == quads@,
                verts2 == vertices@,
                verts2.len() == base,
                verts2.take(n) == verts0,
                n == verts0.len(),
                base == n + ts.len() + qs.len(),
                all == edge_sequence(ts) + edge_sequence(qs),
                all.len() == 3 * ts.len() + 4 * qs.len(),
                edge_sequence(ts).len() == 3 * ts.len(),
                base + 3 * ts.len() + 4 * qs.len() <= usize::MAX,
                t <= ts.len(),
                total_center(center),
                indices_below(ts, n),
                indices_below(qs, n),
                edge_centers.existing() == verts2,
                edge_centers.generator_fn() == generator,
                forall|e: &(VertexIndex, VertexIndex)| e.0.0 < base && e.1.0 < base ==> #[trigger] call_requires(generator, (e,)),
                walk_state(edge_centers, boundary@, b0, edge_sequence(ts.take(t as int))),
                resulting_quads.data@ == triangles_to_quads(ts.take(t as int), all, base, n),
                triangle_center_start_index == n,
            decreases ts.len() - t,
        {
            let triangle = triangles[t];
            let ghost done = edge_sequence(ts.take(t as int));
            proof {
                assert(ts.take(t + 1) =~= ts.take(t as int).push(triangle));
                assert(ts.take(t + 1).drop_last() =~= ts.take(t as int));
                lemma_edge_sequence_len(ts.take(t as int));
                assert(3 * t + 3 <= 3 * ts.len()) by (nonlinear_arith)
                    requires t < ts.len();
                assert forall|k: int| 0 <= k < 3 implies #[trigger] triangle.verts@[k].0 < base by {
                    assert(ts[t as int].verts@[k].0 < n);
                }
            }
            let mids = polygon_midpoints(&mut edge_centers, &mut boundary, &triangle, Ghost(b0), Ghost(done), Ghost(base));
            let ghost pe = polygon_edges(triangle);
            proof {
                let pre = done + pe;
                assert(pre == edge_sequence(ts.take(t + 1)));
                lemma_edge_sequence_concat(ts.take(t + 1), ts.skip(t + 1));
                assert(ts.take(t + 1) + ts.skip(t + 1) =~= ts);
                let rest = edge_sequence(ts.skip(t + 1)) + edge_sequence(qs);
                assert(all =~= pre + rest);
                assert forall|j: int| 0 <= j < 3 implies #[trigger] mids@[j] == midpoint(all, base, pe[j]) by {
                    assert(pre[done.len() + j] == pe[j]);
                    assert(pre.contains(pe[j]));
                    lemma_midpoint_stable(pre, rest, pe[j]);
                }
            }
            let c = VertexIndex(triangle_center_start_index + t);
            resulting_quads.add(Polygon { verts: [triangle.verts[0], mids[0], c, mids[2]] });
            resulting_quads.add(Polygon { verts: [mids[0], triangle.verts[1], mids[1], c] });
            resulting_quads.add(Polygon { verts: [mids[1], triangle.verts[2], mids[2], c] });
            proof {
                assert(resulting_quads.data@ =~= triangles_to_quads(ts.take(t + 1), all, base, n));
            }
            t += 1;
        }
        proof {
            assert(ts.take(t as int) =~= ts);
            assert(edge_sequence(qs.take(0)) =~= Seq::<(VertexIndex, VertexIndex)>::empty());
            assert(edge_sequence(ts) + edge_sequence(qs.take(0)) =~= edge_sequence(ts));
        }
        let mut q: usize = 0;
        while q < quads.len()
            invariant
                ts == triangles@,
                qs == quads@,
                verts2 == vertices@,
                verts2.len() == base,
                n == verts0.len(),
                base == n + ts.len() + qs.len(),
                all == edge_sequence(ts) + edge_sequence(qs),
                edge_sequence(ts).len() == 3 * ts.len(),
                edge_sequence(qs).len() == 4 * qs.len(),
                base + 3 * ts.len() + 4 * qs.len() <= usize::MAX,
                q <= qs.len(),
                total_center(center),
                indices_below(qs, n),
                edge_centers.existing() == verts2,
                edge_centers.generator_fn() == generator,
                forall|e: &(VertexIndex, VertexIndex)| e.0.0 < base && e.1.0 < base ==> #[trigger] call_requires(generator, (e,)),
                walk_state(edge_centers, boundary@, b0, edge_sequence(ts) + edge_sequence(qs.take(q as int))),
                resulting_quads.data@ == triangles_to_quads(ts, all, base, n) + quads_to_quads(
                    qs.take(q as int),
                    all,
                    base,
                    n + ts.len(),
                ),
                quad_center_start_index == n + ts.len(),
            decreases qs.len() - q,
        {
            let qd = quads[q];
            let ghost done = edge_sequence(ts) + edge_sequence(qs.take(q as int));
            proof {
                assert(qs.take(q + 1) =~= qs.take(q as int).push(qd));
                assert(qs.take(q + 1).drop_last() =~= qs.take(q as int));
                lemma_edge_sequence_len(qs.take(q as int));
                assert(4 * q + 4 <= 4 * qs.len()) by (nonlinear_arith)
                    requires q < qs.len();
                assert forall|k: int| 0 <= k < 4 implies #[trigger] qd.verts@[k].0 < base by {
                    assert(qs[q as int].verts@[k].0 < n);
                }
            }
            let mids = polygon_midpoints(&mut edge_centers, &mut boundary, &qd, Ghost(b0), Ghost(done), Ghost(base));
            let ghost pe = polygon_edges(qd);
            proof {
                let pre = done + pe;
                assert(pre =~= edge_sequence(ts) + edge_sequence(qs.take(q + 1)));
                lemma_edge_sequence_concat(qs.take(q + 1), qs.skip(q + 1));
                assert(qs.take(q + 1) + qs.skip(q + 1) =~= qs);
                let rest = edge_sequence(qs.skip(q + 1));
                assert(all =~= pre + rest);
                assert forall|j: int| 0 <= j < 4 implies #[trigger] mids@[j] == midpoint(all, base, pe[j]) by {
                    assert(pre[done.len() + j] == pe[j]);
                    assert(pre.contains(pe[j]));
                    lemma_midpoint_stable(pre, rest, pe[j]);
                }
            }
            let c = VertexIndex(quad_center_start_index + q);
            resulting_quads.add(Polygon { verts: [mids[3], qd.verts[0], mids[0], c] });
            resulting_quads.add(Polygon { verts: [mids[0], qd.verts[1], mids[1], c] });
            resulting_quads.add(Polygon { verts: [mids[1], qd.verts[2], mids[2], c] });
            resulting_quads.add(Polygon { verts: [mids[2], qd.verts[3], mids[3], c] });
            proof {
                assert(resulting_quads.data@ =~= triangles_to_quads(ts, all, base, n) + quads_to_quads(
                    qs.take(q + 1),
                    all,
                    base,
                    n + ts.len(),
                ));
            }
            q += 1;
        }
        proof {
            assert(qs.take(q as int) =~= qs);
        }
        let generated = edge_centers.retrieve_data();
        proof {
            let d = distinct_edges(all);
            lemma_distinct_edges(all);
            lemma_edge_sequence_below(ts, n);
            lemma_edge_sequence_below(qs, n);
            assert forall|k: int| 0 <= k < d.len() implies is_center_of(
                center,
                seq![verts0[d[k].0.0 as int], verts0[d[k].1.0 as int]],
                #[trigger] generated@[k],
            ) by {
                assert(call_ensures(generator, (&d[k],), generated@[k]));
                assert(d.contains(d[k]));
                assert(all.contains(d[k]));
                let i = choose|i: int| 0 <= i < all.len() && all[i] == d[k];
                if i < edge_sequence(ts).len() {
                    assert(all[i] == edge_sequence(ts)[i]);
                } else {
                    assert(all[i] == edge_sequence(qs)[i - edge_sequence(ts).len()]);
                }
                assert(verts2[d[k].0.0 as int] == verts0[d[k].0.0 as int]) by {
                    assert(verts2.take(n)[d[k].0.0 as int] == verts0[d[k].0.0 as int]);
                }
                assert(verts2[d[k].1.0 as int] == verts0[d[k].1.0 as int]) by {
                    assert(verts2.take(n)[d[k].1.0 as int] == verts0[d[k].1.0 as int]);
                }
                assert(seq![verts2[d[k].0.0 as int], verts2[d[k].1.0 as int]] =~= seq![verts0[d[k].0.0 as int], verts0[d[k].1.0 as int]]);
            }
        }
        self.vertices.append(generated);
        self.boundary_indices = boundary;
        self.quads = resulting_quads;
        proof {
            assert(self.vertices@.take(n) =~= verts0) by {
                assert(self.vertices@.take(n) =~= verts2.take(n));
            }
            assert(self.vertices@.skip(base) =~= generated@);
            assert forall|i: int| 0 <= i < ts.len() implies is_center_of(
                center,
                corner_positions(verts0, ts[i]),
                #[trigger] self.vertices@[n + i],
            ) by {
                assert(self.vertices@[n + i] == verts1[n + i]) by {
                    assert(verts2.take(verts1.len() as int) == verts1);
                    assert(verts2[n + i] == verts1[n + i]);
                }
            }
            assert forall|i: int| 0 <= i < qs.len() implies is_center_of(
                center,
                corner_positions(verts0, qs[i]),
                #[trigger] self.vertices@[n + ts.len() + i],
            ) by {
                assert(self.vertices@[n + ts.len() + i] == verts2[n + ts.len() + i]);
                assert(corner_positions(verts1, qs[i]) =~= corner_positions(verts0, qs[i]));
            }
            law_boundary_midpoints(all, b0, base);
            law_quads_of_faces(ts, qs, all, base, n, n + ts.len());
            assert(self.boundary_indices@.take(b0.len() as int) =~= b0);
            assert(self.boundary_indices@.skip(b0.len() as int) =~= boundary_midpoints(all, b0, base));
            if old(self).well_formed() {
                let m = self.vertices@.len() as int;
                law_subdivided_quads(ts, qs, n);
                lemma_indices_below_mono(self.lines.data@, n, m);
                lemma_indices_below_mono(self.hex.data@, n, m);
            }
        }
    }
}

/// Whether `list` holds `x`.
fn contains_vertex(list: &Vec<VertexIndex>, x: VertexIndex) -> (res: bool)
    ensures
        res == list@.contains(x),
{
    let mut i: usize = 0;
    while i < list.len()
        invariant
            i <= list@.len(),
            forall|j: int| 0 <= j < i ==> list@[j] != x,
        decreases list@.len() - i,
    {
        if list[i].0 == x.0 {
            assert(list@[i as int] == x);
            return true;
        }
        i += 1;
    }
    false
}

} // verus!
