//! What the face-replacing operations make of each face: which lines, triangles and quads
//! come from which input face, stated corner by corner.
use vstd::prelude::*;

use crate::mesh::generation::{MergeCandidate, candidate_applies, greedy_merge, merged_quad};
use crate::mesh::laws::law_found_edge_is_a_side;
use crate::mesh::mesh_data::{
    hex_fan, hexes_to_triangles, line, quad_lines, quads_to_lines, quad_triangles, quads_to_triangles, triangle, triangle_lines, triangles_to_lines,
};
use crate::mesh::subdivision::{
    midpoint, polygon_edges, quad, quad_quads, quads_to_quads, subdivided_corner, subdivided_rest, subdivided_rests,
    triangle_quads, triangles_to_quads,
};
use crate::mesh::vertices::{Hexagon, Line, Quad, Triangle, VertexIndex, first_edge_at, sorted_edge};

verus! {

/// Reducing to lines turns the `j`-th triangle (counted from the first, taken from the
/// last) into its three sides, each from corner `k` to corner `k + 1` cyclically, so every
/// side of every triangle is drawn.
#[verifier::spinoff_prover]
pub proof fn law_triangle_lines_are_sides(ts: Seq<Triangle>)
    ensures
        triangles_to_lines(ts).len() == 3 * ts.len(),
        forall|j: int, k: int|
            0 <= j < ts.len() && 0 <= k < 3 ==> triangles_to_lines(ts)[3 * (ts.len() - 1 - j) + k] == line(
                #[trigger] ts[j].verts@[k],
                ts[j].verts@[(k + 1) % 3],
            ),
    decreases ts.len(),
{
    if ts.len() > 0 {
        let p = ts.drop_last();
        law_triangle_lines_are_sides(p);
        let t = ts.last();
        let head = triangle_lines(t);
        let r = triangles_to_lines(ts);
        assert(r == head + triangles_to_lines(p));
        assert(t.verts@[0] == t.verts[0] && t.verts@[1] == t.verts[1] && t.verts@[2] == t.verts[2]);
        assert(head[0] == line(t.verts@[0], t.verts@[1]));
        assert(head[1] == line(t.verts@[1], t.verts@[2]));
        assert(head[2] == line(t.verts@[2], t.verts@[0]));
        assert forall|j: int, k: int| 0 <= j < ts.len() && 0 <= k < 3 implies r[3 * (ts.len() - 1 - j) + k] == line(
            #[trigger] ts[j].verts@[k],
            ts[j].verts@[(k + 1) % 3],
        ) by {
            if j == ts.len() - 1 {
                assert(ts[j] == t);
                assert(r[k] == head[k]);
            } else {
                assert(ts[j] == p[j]);
                let i = 3 * (p.len() - 1 - j) + k;
                assert(p[j].verts@[k] == ts[j].verts@[k]);
                assert(r[3 + i] == triangles_to_lines(p)[i]);
            }
        }
    } else {
        assert(triangles_to_lines(ts) =~= Seq::empty());
    }
}

/// Reducing to lines turns the `j`-th quad (counted from the first, taken from the last)
/// into its four sides, each from corner `k` to corner `k + 1` cyclically, so every side of
/// every quad is drawn.
#[verifier::spinoff_prover]
#[verifier::rlimit(60)]
pub proof fn law_quad_lines_are_sides(qs: Seq<Quad>)
    ensures
        quads_to_lines(qs).len() == 4 * qs.len(),
        forall|j: int, k: int|
            0 <= j < qs.len() && 0 <= k < 4 ==> quads_to_lines(qs)[4 * (qs.len() - 1 - j) + k] == line(
                #[trigger] qs[j].verts@[k],
                qs[j].verts@[(k + 1) % 4],
            ),
    decreases qs.len(),
{
    if qs.len() > 0 {
        let p = qs.drop_last();
        law_quad_lines_are_sides(p);
        let q = qs.last();
        let head = quad_lines(q);
        let r = quads_to_lines(qs);
        assert(r == head + quads_to_lines(p));
        assert(q.verts@[0] == q.verts[0] && q.verts@[1] == q.verts[1] && q.verts@[2] == q.verts[2]);
        assert(q.verts@[3] == q.verts[3]);
        assert(head[0] == line(q.verts@[0], q.verts@[1]));
        assert(head[1] == line(q.verts@[1], q.verts@[2]));
        assert(head[2] == line(q.verts@[2], q.verts@[3]));
        assert(head[3] == line(q.verts@[3], q.verts@[0]));
        assert forall|j: int, k: int| 0 <= j < qs.len() && 0 <= k < 4 implies r[4 * (qs.len() - 1 - j) + k] == line(
            #[trigger] qs[j].verts@[k],
            qs[j].verts@[(k + 1) % 4],
        ) by {
            if j == qs.len() - 1 {
                assert(qs[j] == q);
                assert(r[k] == head[k]);
                if k == 0 {
                    assert((k + 1) % 4 == 1);
                } else if k == 1 {
                    assert((k + 1) % 4 == 2);
                } else if k == 2 {
                    assert((k + 1) % 4 == 3);
                } else {
                    assert((k + 1) % 4 == 0);
                }
            } else {
                assert(qs[j] == p[j]);
                let i = 4 * (p.len() - 1 - j) + k;
                assert(p[j].verts@[k] == qs[j].verts@[k]);
                assert(r[4 + i] == quads_to_lines(p)[i]);
            }
        }
    } else {
        assert(quads_to_lines(qs) =~= Seq::empty());
    }
}

/// Reducing to triangles cuts the `j`-th quad (counted from the first, taken from the
/// last) along its diagonal from corner 0 to corner 2, into `(q0, q1, q2)` and
/// `(q0, q2, q3)`: every quad contributes its own two halves, once.
#[verifier::spinoff_prover]
pub proof fn law_quad_halves(qs: Seq<Quad>)
    ensures
        quads_to_triangles(qs).len() == 2 * qs.len(),
        forall|j: int|
            0 <= j < qs.len() ==> quads_to_triangles(qs)[2 * (qs.len() - 1 - j)] == triangle(
                (#[trigger] qs[j]).verts@[0],
                qs[j].verts@[1],
                qs[j].verts@[2],
            ) && quads_to_triangles(qs)[2 * (qs.len() - 1 - j) + 1] == triangle(
                qs[j].verts@[0],
                qs[j].verts@[2],
                qs[j].verts@[3],
            ),
    decreases qs.len(),
{
    if qs.len() > 0 {
        let p = qs.drop_last();
        law_quad_halves(p);
        let q = qs.last();
        let head = quad_triangles(q);
        let r = quads_to_triangles(qs);
        assert(r == head + quads_to_triangles(p));
        assert(q.verts@[0] == q.verts[0] && q.verts@[1] == q.verts[1] && q.verts@[2] == q.verts[2]);
        assert(q.verts@[3] == q.verts[3]);
        assert forall|j: int| 0 <= j < qs.len() implies r[2 * (qs.len() - 1 - j)] == triangle(
            (#[trigger] qs[j]).verts@[0],
            qs[j].verts@[1],
            qs[j].verts@[2],
        ) && r[2 * (qs.len() - 1 - j) + 1] == triangle(qs[j].verts@[0], qs[j].verts@[2], qs[j].verts@[3]) by {
            if j == qs.len() - 1 {
                assert(qs[j] == q);
                assert(r[0] == head[0]);
                assert(r[1] == head[1]);
            } else {
                assert(qs[j] == p[j]);
                let i = 2 * (p.len() - 1 - j);
                assert(r[2 + i] == quads_to_triangles(p)[i]);
                assert(r[2 + i + 1] == quads_to_triangles(p)[i + 1]);
            }
        }
    } else {
        assert(quads_to_triangles(qs) =~= Seq::empty());
    }
}

/// Triangle `k` of the fan of `h` around `c` is `(c, h_k, h_(k+1))`.
proof fn lemma_hex_fan_at(h: Hexagon, c: VertexIndex, k: int)
    requires
        0 <= k < 6,
    ensures
        hex_fan(h, c)[k] == triangle(c, h.verts@[k], h.verts@[(k + 1) % 6]),
{
    assert(h.verts@[0] == h.verts[0] && h.verts@[1] == h.verts[1] && h.verts@[2] == h.verts[2]);
    assert(h.verts@[3] == h.verts[3] && h.verts@[4] == h.verts[4] && h.verts@[5] == h.verts[5]);
    if k == 0 {
        assert((k + 1) % 6 == 1);
    } else if k == 1 {
        assert((k + 1) % 6 == 2);
    } else if k == 2 {
        assert((k + 1) % 6 == 3);
    } else if k == 3 {
        assert((k + 1) % 6 == 4);
    } else if k == 4 {
        assert((k + 1) % 6 == 5);
    } else {
        assert((k + 1) % 6 == 0);
    }
}

/// Reducing to triangles fans the `j`-th hexagon (counted from the first, taken from the
/// last) around its own new centre vertex `base + (count - 1 - j)`: one triangle per side,
/// `(centre, h_k, h_(k+1))`, keeping the hexagon's orientation.
#[verifier::spinoff_prover]
#[verifier::rlimit(60)]
pub proof fn law_hexagon_fans(hs: Seq<Hexagon>, base: int)
    requires
        0 <= base,
        base + hs.len() <= usize::MAX,
    ensures
        hexes_to_triangles(hs, base).len() == 6 * hs.len(),
        forall|j: int, k: int|
            0 <= j < hs.len() && 0 <= k < 6 ==> hexes_to_triangles(hs, base)[6 * (hs.len() - 1 - j) + k] == triangle(
                VertexIndex((base + hs.len() - 1 - j) as usize),
                #[trigger] hs[j].verts@[k],
                hs[j].verts@[(k + 1) % 6],
            ),
    decreases hs.len(),
{
    if hs.len() > 0 {
        let p = hs.drop_last();
        law_hexagon_fans(p, base + 1);
        let h = hs.last();
        let c = VertexIndex(base as usize);
        let head = hex_fan(h, c);
        let r = hexes_to_triangles(hs, base);
        let rest = hexes_to_triangles(p, base + 1);
        assert(r == head + rest);
        assert(head.len() == 6);
        assert forall|j: int, k: int| 0 <= j < hs.len() && 0 <= k < 6 implies r[6 * (hs.len() - 1 - j) + k] == triangle(
            VertexIndex((base + hs.len() - 1 - j) as usize),
            #[trigger] hs[j].verts@[k],
            hs[j].verts@[(k + 1) % 6],
        ) by {
            if j == hs.len() - 1 {
                assert(hs[j] == h);
                assert(r[k] == head[k]);
                lemma_hex_fan_at(h, c, k);
            } else {
                assert(hs[j] == p[j]);
                let i = 6 * (p.len() - 1 - j) + k;
                assert(p[j].verts@[k] == hs[j].verts@[k]);
                assert(r[6 + i] == rest[i]);
            }
        }
    } else {
        assert(hexes_to_triangles(hs, base) =~= Seq::empty());
    }
}

/// The sides of the triangles and then of the quads, appended to the lines `ls`, sit at
/// the positions the reduction gives them.
pub proof fn lemma_sides_after(ls: Seq<Line>, ts: Seq<Triangle>, qs: Seq<Quad>)
    ensures
        forall|j: int, k: int|
            0 <= j < ts.len() && 0 <= k < 3 ==> (ls + triangles_to_lines(ts) + quads_to_lines(qs))[ls.len() + 3 * (ts.len()
                - 1 - j) + k] == line(#[trigger] ts[j].verts@[k], ts[j].verts@[(k + 1) % 3]),
        forall|j: int, k: int|
            0 <= j < qs.len() && 0 <= k < 4 ==> (ls + triangles_to_lines(ts) + quads_to_lines(qs))[ls.len() + 3 * ts.len()
                + 4 * (qs.len() - 1 - j) + k] == line(#[trigger] qs[j].verts@[k], qs[j].verts@[(k + 1) % 4]),
{
    law_triangle_lines_are_sides(ts);
    law_quad_lines_are_sides(qs);
    lemma_triangle_sides_after(ls, triangles_to_lines(ts), quads_to_lines(qs), ts);
    lemma_quad_sides_after(ls + triangles_to_lines(ts), quads_to_lines(qs), qs);
}

#[verifier::spinoff_prover]
proof fn lemma_triangle_sides_after(ls: Seq<Line>, tl: Seq<Line>, ql: Seq<Line>, ts: Seq<Triangle>)
    requires
        tl.len() == 3 * ts.len(),
        forall|j: int, k: int|
            0 <= j < ts.len() && 0 <= k < 3 ==> tl[3 * (ts.len() - 1 - j) + k] == line(
                #[trigger] ts[j].verts@[k],
                ts[j].verts@[(k + 1) % 3],
            ),
    ensures
        forall|j: int, k: int|
            0 <= j < ts.len() && 0 <= k < 3 ==> (ls + tl + ql)[ls.len() + 3 * (ts.len() - 1 - j) + k] == line(
                #[trigger] ts[j].verts@[k],
                ts[j].verts@[(k + 1) % 3],
            ),
{
    assert forall|j: int, k: int| 0 <= j < ts.len() && 0 <= k < 3 implies (ls + tl + ql)[ls.len() + 3 * (ts.len() - 1 - j)
        + k] == line(#[trigger] ts[j].verts@[k], ts[j].verts@[(k + 1) % 3]) by {
        let i = 3 * (ts.len() - 1 - j) + k;
        assert(0 <= i < tl.len());
        assert((ls + tl + ql)[ls.len() + i] == tl[i]);
    }
}

#[verifier::spinoff_prover]
proof fn lemma_quad_sides_after(ls: Seq<Line>, ql: Seq<Line>, qs: Seq<Quad>)
    requires
        ql.len() == 4 * qs.len(),
        forall|j: int, k: int|
            0 <= j < qs.len() && 0 <= k < 4 ==> ql[4 * (qs.len() - 1 - j) + k] == line(
                #[trigger] qs[j].verts@[k],
                qs[j].verts@[(k + 1) % 4],
            ),
    ensures
        forall|j: int, k: int|
            0 <= j < qs.len() && 0 <= k < 4 ==> (ls + ql)[ls.len() + 4 * (qs.len() - 1 - j) + k] == line(
                #[trigger] qs[j].verts@[k],
                qs[j].verts@[(k + 1) % 4],
            ),
{
    assert forall|j: int, k: int| 0 <= j < qs.len() && 0 <= k < 4 implies (ls + ql)[ls.len() + 4 * (qs.len() - 1 - j) + k]
        == line(#[trigger] qs[j].verts@[k], qs[j].verts@[(k + 1) % 4]) by {
        let i = 4 * (qs.len() - 1 - j) + k;
        assert(0 <= i < ql.len());
        assert((ls + ql)[ls.len() + i] == ql[i]);
    }
}

/// The halves of the quads and then the hexagon fans, appended to the triangles `ts`, sit at
/// the positions the reduction gives them.
pub proof fn lemma_faces_after(ts: Seq<Triangle>, qs: Seq<Quad>, hs: Seq<Hexagon>, base: int)
    requires
        0 <= base,
        base + hs.len() <= usize::MAX,
    ensures
        forall|j: int|
            0 <= j < qs.len() ==> (ts + quads_to_triangles(qs) + hexes_to_triangles(hs, base))[ts.len() + 2 * (qs.len() - 1
                - j)] == triangle((#[trigger] qs[j]).verts@[0], qs[j].verts@[1], qs[j].verts@[2]) && (ts + quads_to_triangles(
                qs) + hexes_to_triangles(hs, base))[ts.len() + 2 * (qs.len() - 1 - j) + 1] == triangle(
                qs[j].verts@[0],
                qs[j].verts@[2],
                qs[j].verts@[3],
            ),
        forall|j: int, k: int|
            0 <= j < hs.len() && 0 <= k < 6 ==> (ts + quads_to_triangles(qs) + hexes_to_triangles(hs, base))[ts.len() + 2
                * qs.len() + 6 * (hs.len() - 1 - j) + k] == triangle(
                VertexIndex((base + hs.len() - 1 - j) as usize),
                #[trigger] hs[j].verts@[k],
                hs[j].verts@[(k + 1) % 6],
            ),
{
    law_quad_halves(qs);
    law_hexagon_fans(hs, base);
    lemma_halves_after(ts, quads_to_triangles(qs), hexes_to_triangles(hs, base), qs);
    lemma_fans_after(ts + quads_to_triangles(qs), hexes_to_triangles(hs, base), hs, base);
}

#[verifier::spinoff_prover]
proof fn lemma_halves_after(ts: Seq<Triangle>, qt: Seq<Triangle>, ht: Seq<Triangle>, qs: Seq<Quad>)
    requires
        qt.len() == 2 * qs.len(),
        forall|j: int|
            0 <= j < qs.len() ==> qt[2 * (qs.len() - 1 - j)] == triangle(
                (#[trigger] qs[j]).verts@[0],
                qs[j].verts@[1],
                qs[j].verts@[2],
            ) && qt[2 * (qs.len() - 1 - j) + 1] == triangle(qs[j].verts@[0], qs[j].verts@[2], qs[j].verts@[3]),
    ensures
        forall|j: int|
            0 <= j < qs.len() ==> (ts + qt + ht)[ts.len() + 2 * (qs.len() - 1 - j)] == triangle(
                (#[trigger] qs[j]).verts@[0],
                qs[j].verts@[1],
                qs[j].verts@[2],
            ) && (ts + qt + ht)[ts.len() + 2 * (qs.len() - 1 - j) + 1] == triangle(
                qs[j].verts@[0],
                qs[j].verts@[2],
                qs[j].verts@[3],
            ),
{
    assert forall|j: int| 0 <= j < qs.len() implies (ts + qt + ht)[ts.len() + 2 * (qs.len() - 1 - j)] == triangle(
        (#[trigger] qs[j]).verts@[0],
        qs[j].verts@[1],
        qs[j].verts@[2],
    ) && (ts + qt + ht)[ts.len() + 2 * (qs.len() - 1 - j) + 1] == triangle(qs[j].verts@[0], qs[j].verts@[2], qs[j].verts@[3]) by {
        let i = 2 * (qs.len() - 1 - j);
        assert((ts + qt + ht)[ts.len() + i] == qt[i]);
        assert((ts + qt + ht)[ts.len() + i + 1] == qt[i + 1]);
    }
}

#[verifier::spinoff_prover]
proof fn lemma_fans_after(ts: Seq<Triangle>, ht: Seq<Triangle>, hs: Seq<Hexagon>, base: int)
    requires
        ht.len() == 6 * hs.len(),
        forall|j: int, k: int|
            0 <= j < hs.len() && 0 <= k < 6 ==> ht[6 * (hs.len() - 1 - j) + k] == triangle(
                VertexIndex((base + hs.len() - 1 - j) as usize),
                #[trigger] hs[j].verts@[k],
                hs[j].verts@[(k + 1) % 6],
            ),
    ensures
        forall|j: int, k: int|
            0 <= j < hs.len() && 0 <= k < 6 ==> (ts + ht)[ts.len() + 6 * (hs.len() - 1 - j) + k] == triangle(
                VertexIndex((base + hs.len() - 1 - j) as usize),
                #[trigger] hs[j].verts@[k],
                hs[j].verts@[(k + 1) % 6],
            ),
{
    assert forall|j: int, k: int| 0 <= j < hs.len() && 0 <= k < 6 implies (ts + ht)[ts.len() + 6 * (hs.len() - 1 - j) + k]
        == triangle(VertexIndex((base + hs.len() - 1 - j) as usize), #[trigger] hs[j].verts@[k], hs[j].verts@[(k + 1) % 6]) by {
        let i = 6 * (hs.len() - 1 - j) + k;
        assert(0 <= i < ht.len());
        assert((ts + ht)[ts.len() + i] == ht[i]);
    }
}

/// The new vertex a subdivision puts on the side between corners `a` and `b`, when the
/// distinct edges of the walk `all` are numbered from `base`.
pub open spec fn side_vertex(all: Seq<(VertexIndex, VertexIndex)>, base: int, a: VertexIndex, b: VertexIndex) -> VertexIndex {
    midpoint(all, base, sorted_edge(a, b))
}

/// `q`, read cyclically from some corner, is `a, b, c, d`.
pub open spec fn same_cycle4(q: Quad, a: VertexIndex, b: VertexIndex, c: VertexIndex, d: VertexIndex) -> bool {
    let v = q.verts@;
    ||| (v[0] == a && v[1] == b && v[2] == c && v[3] == d)
    ||| (v[1] == a && v[2] == b && v[3] == c && v[0] == d)
    ||| (v[2] == a && v[3] == b && v[0] == c && v[1] == d)
    ||| (v[3] == a && v[0] == b && v[1] == c && v[2] == d)
}

/// `r` is what splitting the triangles `ts` and quads `qs` into quads gives: three quads per
/// triangle, then four per quad, the quad of corner `k` of face `i` being, read cyclically,
/// the new vertex of the side arriving at `k`, the corner, the new vertex of the side
/// leaving `k`, and the face centre (`tbase + i` for triangles, `qbase + i` for quads).
pub open spec fn split_into_quads(
    r: Seq<Quad>,
    ts: Seq<Triangle>,
    qs: Seq<Quad>,
    all: Seq<(VertexIndex, VertexIndex)>,
    base: int,
    tbase: int,
    qbase: int,
) -> bool {
    &&& r.len() == 3 * ts.len() + 4 * qs.len()
    &&& forall|i: int, k: int|
        0 <= i < ts.len() && 0 <= k < 3 ==> same_cycle4(
            r[3 * i + k],
            side_vertex(all, base, #[trigger] ts[i].verts@[(k + 2) % 3], ts[i].verts@[k]),
            ts[i].verts@[k],
            side_vertex(all, base, ts[i].verts@[k], ts[i].verts@[(k + 1) % 3]),
            VertexIndex((tbase + i) as usize),
        )
    &&& forall|i: int, k: int|
        0 <= i < qs.len() && 0 <= k < 4 ==> r[3 * ts.len() + 4 * i + k] == quad(
            side_vertex(all, base, #[trigger] qs[i].verts@[(k + 3) % 4], qs[i].verts@[k]),
            qs[i].verts@[k],
            side_vertex(all, base, qs[i].verts@[k], qs[i].verts@[(k + 1) % 4]),
            VertexIndex((qbase + i) as usize),
        )
}

/// `r` is what splitting each triangle `(a, b, c)` of `ts`, with side vertices `ab`, `bc`,
/// `ca`, gives: `(a, ab, ca)` in the triangle's place, then `(ab, b, bc)`, `(bc, c, ca)` and
/// `(ab, bc, ca)` appended per triangle, each in the parent's cyclic order.
pub open spec fn split_in_four(r: Seq<Triangle>, ts: Seq<Triangle>, all: Seq<(VertexIndex, VertexIndex)>, n: int) -> bool {
    &&& r.len() == 4 * ts.len()
    &&& forall|i: int|
        0 <= i < ts.len() ==> r[i] == triangle(
            (#[trigger] ts[i]).verts@[0],
            side_vertex(all, n, ts[i].verts@[0], ts[i].verts@[1]),
            side_vertex(all, n, ts[i].verts@[2], ts[i].verts@[0]),
        )
    &&& forall|i: int|
        0 <= i < ts.len() ==> r[ts.len() + 3 * i] == triangle(
            side_vertex(all, n, (#[trigger] ts[i]).verts@[0], ts[i].verts@[1]),
            ts[i].verts@[1],
            side_vertex(all, n, ts[i].verts@[1], ts[i].verts@[2]),
        ) && r[ts.len() + 3 * i + 1] == triangle(
            side_vertex(all, n, ts[i].verts@[1], ts[i].verts@[2]),
            ts[i].verts@[2],
            side_vertex(all, n, ts[i].verts@[2], ts[i].verts@[0]),
        ) && r[ts.len() + 3 * i + 2] == triangle(
            side_vertex(all, n, ts[i].verts@[0], ts[i].verts@[1]),
            side_vertex(all, n, ts[i].verts@[1], ts[i].verts@[2]),
            side_vertex(all, n, ts[i].verts@[2], ts[i].verts@[0]),
        )
}

/// Quad `k` of a split triangle belongs to corner `k`: read cyclically it is the new vertex
/// of the side arriving at the corner, the corner, the new vertex of the side leaving it,
/// and the centre.
proof fn lemma_triangle_quad_at(t: Triangle, all: Seq<(VertexIndex, VertexIndex)>, base: int, c: VertexIndex, k: int)
    requires
        0 <= k < 3,
    ensures
        same_cycle4(
            triangle_quads(t, all, base, c)[k],
            side_vertex(all, base, t.verts@[(k + 2) % 3], t.verts@[k]),
            t.verts@[k],
            side_vertex(all, base, t.verts@[k], t.verts@[(k + 1) % 3]),
            c,
        ),
{
    let v = t.verts@;
    assert(v[0] == t.verts[0] && v[1] == t.verts[1] && v[2] == t.verts[2]);
    let pe = polygon_edges(t);
    assert(pe[0] == sorted_edge(v[0], v[1]));
    assert(pe[1] == sorted_edge(v[1], v[2]));
    assert(pe[2] == sorted_edge(v[2], v[0]));
    if k == 0 {
        assert((k + 2) % 3 == 2 && (k + 1) % 3 == 1);
    } else if k == 1 {
        assert((k + 2) % 3 == 0 && (k + 1) % 3 == 2);
    } else {
        assert((k + 2) % 3 == 1 && (k + 1) % 3 == 0);
    }
}

/// Quad `k` of a split quad belongs to corner `k`, in the same way.
proof fn lemma_quad_quad_at(q: Quad, all: Seq<(VertexIndex, VertexIndex)>, base: int, c: VertexIndex, k: int)
    requires
        0 <= k < 4,
    ensures
        quad_quads(q, all, base, c)[k] == quad(
            side_vertex(all, base, q.verts@[(k + 3) % 4], q.verts@[k]),
            q.verts@[k],
            side_vertex(all, base, q.verts@[k], q.verts@[(k + 1) % 4]),
            c,
        ),
{
    let v = q.verts@;
    assert(v[0] == q.verts[0] && v[1] == q.verts[1] && v[2] == q.verts[2] && v[3] == q.verts[3]);
    let pe = polygon_edges(q);
    assert(pe[0] == sorted_edge(v[0], v[1]));
    assert(pe[1] == sorted_edge(v[1], v[2]));
    assert(pe[2] == sorted_edge(v[2], v[3]));
    assert(pe[3] == sorted_edge(v[3], v[0]));
    if k == 0 {
        assert((k + 3) % 4 == 3 && (k + 1) % 4 == 1);
    } else if k == 1 {
        assert((k + 3) % 4 == 0 && (k + 1) % 4 == 2);
    } else if k == 2 {
        assert((k + 3) % 4 == 1 && (k + 1) % 4 == 3);
    } else {
        assert((k + 3) % 4 == 2 && (k + 1) % 4 == 0);
    }
}

/// Where the quads of the `i`-th triangle sit among the quads of all split triangles.
proof fn lemma_triangles_to_quads_at(ts: Seq<Triangle>, all: Seq<(VertexIndex, VertexIndex)>, base: int, cbase: int, i: int, k: int)
    requires
        0 <= i < ts.len(),
        0 <= k < 3,
    ensures
        triangles_to_quads(ts, all, base, cbase).len() == 3 * ts.len(),
        triangles_to_quads(ts, all, base, cbase)[3 * i + k] == triangle_quads(
            ts[i],
            all,
            base,
            VertexIndex((cbase + i) as usize),
        )[k],
    decreases ts.len(),
{
    let p = ts.drop_last();
    if i < ts.len() - 1 {
        lemma_triangles_to_quads_at(p, all, base, cbase, i, k);
        assert(p[i] == ts[i]);
    } else if p.len() > 0 {
        lemma_triangles_to_quads_at(p, all, base, cbase, 0, 0);
    } else {
        assert(triangles_to_quads(p, all, base, cbase) =~= Seq::empty());
    }
}

/// Where the quads of the `i`-th quad sit among the quads of all split quads.
proof fn lemma_quads_to_quads_at(qs: Seq<Quad>, all: Seq<(VertexIndex, VertexIndex)>, base: int, cbase: int, i: int, k: int)
    requires
        0 <= i < qs.len(),
        0 <= k < 4,
    ensures
        quads_to_quads(qs, all, base, cbase).len() == 4 * qs.len(),
        quads_to_quads(qs, all, base, cbase)[4 * i + k] == quad_quads(qs[i], all, base, VertexIndex((cbase + i) as usize))[k],
    decreases qs.len(),
{
    let p = qs.drop_last();
    if i < qs.len() - 1 {
        lemma_quads_to_quads_at(p, all, base, cbase, i, k);
        assert(p[i] == qs[i]);
    } else if p.len() > 0 {
        lemma_quads_to_quads_at(p, all, base, cbase, 0, 0);
    } else {
        assert(quads_to_quads(p, all, base, cbase) =~= Seq::empty());
    }
}

/// Subdividing into quads splits the `i`-th triangle into three quads and the `i`-th quad
/// into four, one per corner: the quad of corner `k` is, read cyclically, the new vertex of
/// the side arriving at `k`, the corner itself, the new vertex of the side leaving `k`, and
/// the face's centre (vertex `cbase + i`). So the quads tile each face, every side vertex
/// lying in the quads of the side's two ends, and keep the face's orientation.
pub proof fn law_quads_of_faces(
    ts: Seq<Triangle>,
    qs: Seq<Quad>,
    all: Seq<(VertexIndex, VertexIndex)>,
    base: int,
    tbase: int,
    qbase: int,
)
    ensures
        split_into_quads(
            triangles_to_quads(ts, all, base, tbase) + quads_to_quads(qs, all, base, qbase),
            ts,
            qs,
            all,
            base,
            tbase,
            qbase,
        ),
{
    let a = triangles_to_quads(ts, all, base, tbase);
    let b = quads_to_quads(qs, all, base, qbase);
    let r = a + b;
    if ts.len() > 0 {
        lemma_triangles_to_quads_at(ts, all, base, tbase, 0, 0);
    } else {
        assert(a =~= Seq::empty());
    }
    if qs.len() > 0 {
        lemma_quads_to_quads_at(qs, all, base, qbase, 0, 0);
    } else {
        assert(b =~= Seq::empty());
    }
    assert forall|i: int, k: int| 0 <= i < ts.len() && 0 <= k < 3 implies same_cycle4(
        r[3 * i + k],
        side_vertex(all, base, #[trigger] ts[i].verts@[(k + 2) % 3], ts[i].verts@[k]),
        ts[i].verts@[k],
        side_vertex(all, base, ts[i].verts@[k], ts[i].verts@[(k + 1) % 3]),
        VertexIndex((tbase + i) as usize),
    ) by {
        lemma_triangles_to_quads_at(ts, all, base, tbase, i, k);
        lemma_triangle_quad_at(ts[i], all, base, VertexIndex((tbase + i) as usize), k);
        assert(r[3 * i + k] == a[3 * i + k]);
    }
    assert forall|i: int, k: int| 0 <= i < qs.len() && 0 <= k < 4 implies r[3 * ts.len() + 4 * i + k] == quad(
        side_vertex(all, base, #[trigger] qs[i].verts@[(k + 3) % 4], qs[i].verts@[k]),
        qs[i].verts@[k],
        side_vertex(all, base, qs[i].verts@[k], qs[i].verts@[(k + 1) % 4]),
        VertexIndex((qbase + i) as usize),
    ) by {
        lemma_quads_to_quads_at(qs, all, base, qbase, i, k);
        lemma_quad_quad_at(qs[i], all, base, VertexIndex((qbase + i) as usize), k);
        assert(r[a.len() + 4 * i + k] == b[4 * i + k]);
    }
}

/// Where the non-corner triangles of the `i`-th triangle sit among those of all triangles.
proof fn lemma_rests_at(ts: Seq<Triangle>, all: Seq<(VertexIndex, VertexIndex)>, base: int, i: int, k: int)
    requires
        0 <= i < ts.len(),
        0 <= k < 3,
    ensures
        subdivided_rests(ts, all, base).len() == 3 * ts.len(),
        subdivided_rests(ts, all, base)[3 * i + k] == subdivided_rest(ts[i], all, base)[k],
    decreases ts.len(),
{
    let p = ts.drop_last();
    if i < ts.len() - 1 {
        lemma_rests_at(p, all, base, i, k);
        assert(p[i] == ts[i]);
    } else if p.len() > 0 {
        lemma_rests_at(p, all, base, 0, 0);
    } else {
        assert(subdivided_rests(p, all, base) =~= Seq::empty());
    }
}

/// Subdividing triangles splits each triangle `(a, b, c)` with side vertices `ab`, `bc`,
/// `ca` into `(a, ab, ca)` in its own place and `(ab, b, bc)`, `(bc, c, ca)`, `(ab, bc, ca)`
/// appended: every piece lists its corners in the parent's cyclic order, so no piece is
/// turned over, and the middle piece joins the three side vertices.
#[verifier::spinoff_prover]
pub proof fn law_subdivided_triangle_shapes(ts: Seq<Triangle>, all: Seq<(VertexIndex, VertexIndex)>, n: int)
    ensures
        split_in_four(ts.map_values(|t: Triangle| subdivided_corner(t, all, n)) + subdivided_rests(ts, all, n), ts, all, n),
{
    let corners = ts.map_values(|t: Triangle| subdivided_corner(t, all, n));
    let rests = subdivided_rests(ts, all, n);
    let r = corners + rests;
    if ts.len() > 0 {
        lemma_rests_at(ts, all, n, 0, 0);
    } else {
        assert(rests =~= Seq::empty());
    }
    assert forall|i: int| 0 <= i < ts.len() implies r[i] == triangle(
        (#[trigger] ts[i]).verts@[0],
        side_vertex(all, n, ts[i].verts@[0], ts[i].verts@[1]),
        side_vertex(all, n, ts[i].verts@[2], ts[i].verts@[0]),
    ) by {
        let t = ts[i];
        assert(r[i] == corners[i]);
        assert(t.verts@[0] == t.verts[0] && t.verts@[1] == t.verts[1] && t.verts@[2] == t.verts[2]);
        assert(polygon_edges(t)[0] == sorted_edge(t.verts@[0], t.verts@[1]));
        assert(polygon_edges(t)[2] == sorted_edge(t.verts@[2], t.verts@[0]));
    }
    assert forall|i: int| 0 <= i < ts.len() implies r[ts.len() + 3 * i] == triangle(
        side_vertex(all, n, (#[trigger] ts[i]).verts@[0], ts[i].verts@[1]),
        ts[i].verts@[1],
        side_vertex(all, n, ts[i].verts@[1], ts[i].verts@[2]),
    ) && r[ts.len() + 3 * i + 1] == triangle(
        side_vertex(all, n, ts[i].verts@[1], ts[i].verts@[2]),
        ts[i].verts@[2],
        side_vertex(all, n, ts[i].verts@[2], ts[i].verts@[0]),
    ) && r[ts.len() + 3 * i + 2] == triangle(
        side_vertex(all, n, ts[i].verts@[0], ts[i].verts@[1]),
        side_vertex(all, n, ts[i].verts@[1], ts[i].verts@[2]),
        side_vertex(all, n, ts[i].verts@[2], ts[i].verts@[0]),
    ) by {
        let t = ts[i];
        lemma_rests_at(ts, all, n, i, 0);
        lemma_rests_at(ts, all, n, i, 1);
        lemma_rests_at(ts, all, n, i, 2);
        assert(r[ts.len() + 3 * i] == rests[3 * i]);
        assert(r[ts.len() + 3 * i + 1] == rests[3 * i + 1]);
        assert(r[ts.len() + 3 * i + 2] == rests[3 * i + 2]);
        assert(t.verts@[0] == t.verts[0] && t.verts@[1] == t.verts[1] && t.verts@[2] == t.verts[2]);
        assert(polygon_edges(t)[0] == sorted_edge(t.verts@[0], t.verts@[1]));
        assert(polygon_edges(t)[1] == sorted_edge(t.verts@[1], t.verts@[2]));
        assert(polygon_edges(t)[2] == sorted_edge(t.verts@[2], t.verts@[0]));
    }
}

/// `q` is the triangle `t` with the merge candidate's vertex put in between the two ends of
/// the candidate's edge: taking that vertex out of `q` leaves `t`'s corners in `t`'s order,
/// and its two neighbours in `q` are the edge's ends. So the shared edge becomes a
/// diagonal of `q`, and every side of `q` is a side of `t` or joins an end of the edge to
/// the new vertex.
pub open spec fn inserted_between(q: Quad, t: Triangle, c: MergeCandidate) -> bool {
    exists|j: int|
        0 <= j < 4 && #[trigger] q.verts@[j] == c.opposite_b && q.verts@.remove(j) == t.verts@ && ((q.verts@[(j + 3)
            % 4] == c.edge.0 && q.verts@[(j + 1) % 4] == c.edge.1) || (q.verts@[(j + 3) % 4] == c.edge.1 && q.verts@[(j
            + 1) % 4] == c.edge.0))
}

/// A merged quad puts the candidate's vertex between the ends of the shared edge.
pub proof fn law_merged_quad_shape(t: Triangle, c: MergeCandidate)
    requires
        first_edge_at(t.verts@, c.edge, 0) is Some,
    ensures
        inserted_between(merged_quad(t, c), t, c),
{
    let v = t.verts@;
    law_found_edge_is_a_side(v, c.edge, 0);
    let (i, nx) = first_edge_at(v, c.edge, 0).unwrap();
    let i = i as int;
    let s = v.insert(i + 1, c.opposite_b);
    v.insert_ensures(i + 1, c.opposite_b);
    let q = merged_quad(t, c);
    assert(q.verts@ =~= s);
    assert(s.remove(i + 1) =~= v);
    let j = i + 1;
    if i == 0 {
        assert(nx == 1);
        assert(q.verts@[(j + 3) % 4] == v[0] && q.verts@[(j + 1) % 4] == v[1]);
    } else if i == 1 {
        assert(nx == 2);
        assert(q.verts@[(j + 3) % 4] == v[1] && q.verts@[(j + 1) % 4] == v[2]);
    } else {
        assert(nx == 0);
        assert(q.verts@[(j + 3) % 4] == v[2] && q.verts@[(j + 1) % 4] == v[0]);
    }
    assert(q.verts@[j] == c.opposite_b);
}

/// `q` is one of the triangles of `ts` named by a candidate of `cands`, with that
/// candidate's vertex put between the ends of its edge.
pub open spec fn made_from_candidate(q: Quad, ts: Seq<Triangle>, cands: Seq<MergeCandidate>) -> bool {
    exists|i: int| 0 <= i < cands.len() && #[trigger] inserted_between(q, ts[cands[i].tr_a as int], cands[i])
}

/// Every quad a greedy merge makes is one of its candidates' triangles with the candidate's
/// vertex put between the ends of the shared edge.
pub proof fn law_merged_quads(ts: Seq<Triangle>, cands: Seq<MergeCandidate>, used: Seq<bool>)
    requires
        forall|i: int| 0 <= i < cands.len() ==> candidate_applies(ts, #[trigger] cands[i]),
    ensures
        forall|k: int|
            0 <= k < greedy_merge(ts, cands, used).1.len() ==> made_from_candidate(
                #[trigger] greedy_merge(ts, cands, used).1[k],
                ts,
                cands,
            ),
    decreases cands.len(),
{
    if cands.len() > 0 {
        let c = cands.last();
        let p = cands.drop_last();
        assert(candidate_applies(ts, cands[cands.len() - 1]));
        assert forall|i: int| 0 <= i < p.len() implies candidate_applies(ts, #[trigger] p[i]) by {
            assert(p[i] == cands[i]);
        }
        let skip = used[c.tr_a as int] || used[c.tr_b as int];
        let u2 = if skip {
            used
        } else {
            used.update(c.tr_a as int, true).update(c.tr_b as int, true)
        };
        law_merged_quads(ts, p, u2);
        let rest = greedy_merge(ts, p, u2).1;
        let r = greedy_merge(ts, cands, used).1;
        if skip {
            assert(r == rest);
        } else {
            assert(r == seq![merged_quad(ts[c.tr_a as int], c)] + rest);
        }
        assert forall|k: int| 0 <= k < r.len() implies made_from_candidate(#[trigger] r[k], ts, cands) by {
            if skip || k > 0 {
                let kk = if skip { k } else { k - 1 };
                assert(r[k] == rest[kk]);
                assert(made_from_candidate(rest[kk], ts, p));
                let i = choose|i: int| 0 <= i < p.len() && #[trigger] inserted_between(rest[kk], ts[p[i].tr_a as int], p[i]);
                assert(cands[i] == p[i]);
                assert(inserted_between(r[k], ts[cands[i].tr_a as int], cands[i]));
            } else {
                law_merged_quad_shape(ts[c.tr_a as int], c);
                let last = cands.len() - 1;
                assert(cands[last] == c);
                assert(inserted_between(r[0], ts[cands[last].tr_a as int], cands[last]));
            }
        }
    } else {
        assert(greedy_merge(ts, cands, used).1 =~= Seq::<Quad>::empty());
    }
}

} // verus!
