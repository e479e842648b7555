use vstd::prelude::*;

use crate::mesh::edge_maps::{
    EdgeTriangleMap, edge_key, edge_triangle_contents, edge_triangle_map_new, edge_triangle_map_push, list_or_empty,
};
use crate::mesh::face_laws::{lemma_faces_after, lemma_sides_after};
use crate::mesh::laws::{law_lines_keep_indices, law_triangles_keep_indices};
use crate::mesh::vertices::{
    Hexagon, Line, Polygon, PolygonArray, Quad, Triangle, VertexArray, VertexIndex, corner_positions, edges_upto, flat_positions, indices_below, lemma_below_concat, lemma_indices_below_mono, pairs_upto, push_new, raw_indices,
};

verus! {

/// A polygon mesh: vertex payloads plus line, triangle, quad and hexagon faces that
/// refer to the vertices by index.
#[derive(Clone, Debug)]
pub struct MeshData<V> {
    pub vertices: VertexArray<V>,
    pub boundary_indices: Vec<VertexIndex>,
    pub lines: PolygonArray<2>,
    pub triangles: PolygonArray<3>,
    pub quads: PolygonArray<4>,
    pub hex: PolygonArray<6>,
}

impl<V> Default for MeshData<V> {
    fn default() -> (res: Self)
        ensures
            res.vertices@ == Seq::<V>::empty(),
            res.boundary_indices@ == Seq::<VertexIndex>::empty(),
            res.lines.data@ == Seq::<Line>::empty(),
            res.triangles.data@ == Seq::<Triangle>::empty(),
            res.quads.data@ == Seq::<Quad>::empty(),
            res.hex.data@ == Seq::<Hexagon>::empty(),
    {
        MeshData {
            vertices: VertexArray::default(),
            boundary_indices: Vec::new(),
            lines: PolygonArray::default(),
            triangles: PolygonArray::default(),
            quads: PolygonArray::default(),
            hex: PolygonArray::default(),
        }
    }
}

/// A line between two vertices.
pub open spec fn line(a: VertexIndex, b: VertexIndex) -> Line {
    Polygon { verts: [a, b] }
}

/// A triangle with the given corners.
pub open spec fn triangle(a: VertexIndex, b: VertexIndex, c: VertexIndex) -> Triangle {
    Polygon { verts: [a, b, c] }
}

/// The three sides of a triangle.
pub open spec fn triangle_lines(t: Triangle) -> Seq<Line> {
    seq![line(t.verts[0], t.verts[1]), line(t.verts[1], t.verts[2]), line(t.verts[2], t.verts[0])]
}

/// The four sides of a quad.
pub open spec fn quad_lines(q: Quad) -> Seq<Line> {
    seq![
        line(q.verts[0], q.verts[1]),
        line(q.verts[1], q.verts[2]),
        line(q.verts[2], q.verts[3]),
        line(q.verts[3], q.verts[0]),
    ]
}

/// The sides of all triangles, taken from the last triangle to the first.
pub open spec fn triangles_to_lines(ts: Seq<Triangle>) -> Seq<Line>
    decreases ts.len(),
{
    if ts.len() == 0 {
        Seq::empty()
    } else {
        triangle_lines(ts.last()) + triangles_to_lines(ts.drop_last())
    }
}

/// The sides of all quads, taken from the last quad to the first.
pub open spec fn quads_to_lines(qs: Seq<Quad>) -> Seq<Line>
    decreases qs.len(),
{
    if qs.len() == 0 {
        Seq::empty()
    } else {
        quad_lines(qs.last()) + quads_to_lines(qs.drop_last())
    }
}

/// A quad cut along its diagonal from corner 0 to corner 2.
pub open spec fn quad_triangles(q: Quad) -> Seq<Triangle> {
    seq![triangle(q.verts[0], q.verts[1], q.verts[2]), triangle(q.verts[0], q.verts[2], q.verts[3])]
}

/// The halves of all quads, taken from the last quad to the first.
pub open spec fn quads_to_triangles(qs: Seq<Quad>) -> Seq<Triangle>
    decreases qs.len(),
{
    if qs.len() == 0 {
        Seq::empty()
    } else {
        quad_triangles(qs.last()) + quads_to_triangles(qs.drop_last())
    }
}

/// A hexagon as a fan of six triangles around the vertex `c`.
pub open spec fn hex_fan(h: Hexagon, c: VertexIndex) -> Seq<Triangle> {
    seq![
        triangle(c, h.verts[0], h.verts[1]),
        triangle(c, h.verts[1], h.verts[2]),
        triangle(c, h.verts[2], h.verts[3]),
        triangle(c, h.verts[3], h.verts[4]),
        triangle(c, h.verts[4], h.verts[5]),
        triangle(c, h.verts[5], h.verts[0]),
    ]
}

/// The fans of all hexagons, taken from the last hexagon to the first; the fan of the
/// `k`-th hexagon taken is centred on the new vertex `base + k`.
pub open spec fn hexes_to_triangles(hs: Seq<Hexagon>, base: int) -> Seq<Triangle>
    decreases hs.len(),
{
    if hs.len() == 0 {
        Seq::empty()
    } else {
        hex_fan(hs.last(), VertexIndex(base as usize)) + hexes_to_triangles(hs.drop_last(), base + 1)
    }
}

/// `c` is a value that `center` returns for the points `pts`.
pub open spec fn is_center_of<V, F: Fn(&Vec<V>) -> V>(center: &F, pts: Seq<V>, c: V) -> bool {
    exists|p: &Vec<V>| #[trigger] returns_center(center, p, c) && p@ == pts
}

/// `center` may return `c` for the points `p`.
pub open spec fn returns_center<V, F: Fn(&Vec<V>) -> V>(center: &F, p: &Vec<V>, c: V) -> bool {
    call_ensures(*center, (p,), c)
}

/// `center` accepts every list of points.
pub open spec fn total_center<V, F: Fn(&Vec<V>) -> V>(center: &F) -> bool {
    forall|p: &Vec<V>| #[trigger] call_requires(*center, (p,))
}

/// `m` with triangle `t` appended to the list of each edge of `es`.
pub open spec fn add_triangle_edges(
    m: Map<(usize, usize), Seq<usize>>,
    es: Seq<(VertexIndex, VertexIndex)>,
    t: usize,
) -> Map<(usize, usize), Seq<usize>>
    decreases es.len(),
{
    if es.len() == 0 {
        m
    } else {
        let prev = add_triangle_edges(m, es.drop_last(), t);
        let k = edge_key(es.last());
        prev.insert(k, list_or_empty(prev, k).push(t))
    }
}

/// For every edge of the triangles `ts`, the triangles (by position) that have it, in order.
pub open spec fn edge_triangles(ts: Seq<Triangle>) -> Map<(usize, usize), Seq<usize>>
    decreases ts.len(),
{
    if ts.len() == 0 {
        Map::empty()
    } else {
        add_triangle_edges(edge_triangles(ts.drop_last()), edges_upto(ts.last().verts@, 3), (ts.len() - 1) as usize)
    }
}

/// Both directions of every side of every quad, quad after quad.
pub open spec fn quad_pairs(qs: Seq<Quad>) -> Seq<(VertexIndex, VertexIndex)>
    decreases qs.len(),
{
    if qs.len() == 0 {
        Seq::empty()
    } else {
        quad_pairs(qs.drop_last()) + pairs_upto(qs.last().verts@, 4)
    }
}

/// Records each directed pair `(a, b)` as "b is a neighbour of a", skipping repeats.
pub open spec fn add_neighbours(nb: Seq<Seq<VertexIndex>>, pairs: Seq<(VertexIndex, VertexIndex)>) -> Seq<Seq<VertexIndex>>
    decreases pairs.len(),
{
    if pairs.len() == 0 {
        nb
    } else {
        let prev = add_neighbours(nb, pairs.drop_last());
        let e = pairs.last();
        prev.update(e.0.0 as int, push_new(prev[e.0.0 as int], e.1))
    }
}

/// `n` empty neighbour lists.
pub open spec fn empty_lists(n: nat) -> Seq<Seq<VertexIndex>> {
    Seq::new(n, |i: int| Seq::<VertexIndex>::empty())
}

/// The neighbour lists of `n` vertices induced by the sides of the quads `qs`.
pub open spec fn neighbour_lists(n: nat, qs: Seq<Quad>) -> Seq<Seq<VertexIndex>> {
    add_neighbours(empty_lists(n), quad_pairs(qs))
}

/// The views of a list of index lists.
pub open spec fn list_views(v: Seq<Vec<VertexIndex>>) -> Seq<Seq<VertexIndex>> {
    v.map_values(|l: Vec<VertexIndex>| l@)
}

/// Whether `list` holds `x`.
fn contains_index(list: &Vec<VertexIndex>, x: VertexIndex) -> (res: bool)
    ensures
        res == list@.contains(x),
{
    let mut i: usize = 0;
    while i < list.len()
        invariant
            i <= list@.len(),
            forall|j: int| 0 <= j < i ==> list@[j] != x,
        decreases list@.len() - i,
    {
        if list[i].0 == x.0 {
            assert(list@[i as int] == x);
            return true;
        }
        i += 1;
    }
    false
}

impl<V> MeshData<V> {
    /// Every face of the mesh refers only to existing vertices.
    pub open spec fn well_formed(&self) -> bool {
        let n = self.vertices@.len() as int;
        &&& indices_below(self.lines.data@, n)
        &&& indices_below(self.triangles.data@, n)
        &&& indices_below(self.quads.data@, n)
        &&& indices_below(self.hex.data@, n)
    }

    /// For every edge of the triangles, the positions of the triangles that have it.
    pub fn get_edges_of_triangles(&self) -> (res: EdgeTriangleMap)
        ensures
            edge_triangle_contents(res) == edge_triangles(self.triangles.data@),
    {
        let mut edge_map = edge_triangle_map_new();
        let mut t: usize = 0;
        assert(edge_triangles(self.triangles.data@.take(0)) =~= Map::<(usize, usize), Seq<usize>>::empty());
        while t < self.triangles.data.len()
            invariant
                t <= self.triangles.data@.len(),
                edge_triangle_contents(edge_map) == edge_triangles(self.triangles.data@.take(t as int)),
            decreases self.triangles.data@.len() - t,
        {
            let tri = self.triangles.data[t];
            let edges = tri.get_edges();
            let ghost before = edge_triangle_contents(edge_map);
            let mut j: usize = 0;
            while j < edges.len()
                invariant
                    j <= edges@.len(),
                    edge_triangle_contents(edge_map) == add_triangle_edges(before, edges@.take(j as int), t),
                decreases edges@.len() - j,
            {
                edge_triangle_map_push(&mut edge_map, edges[j], t);
                j += 1;
                assert(edges@.take(j as int).drop_last() =~= edges@.take(j - 1));
            }
            assert(edges@.take(j as int) =~= edges@);
            t += 1;
            assert(self.triangles.data@.take(t as int).drop_last() =~= self.triangles.data@.take(t - 1));
        }
        assert(self.triangles.data@.take(t as int) =~= self.triangles.data@);
        edge_map
    }

    /// For every vertex, the vertices it shares a quad side with, in order of discovery.
    pub fn generate_neighbour_map(&self) -> (res: Vec<Vec<VertexIndex>>)
        requires
            indices_below(self.quads.data@, self.vertices@.len() as int),
        ensures
            list_views(res@) == neighbour_lists(self.vertices@.len(), self.quads.data@),
    {
        let n = self.vertices.count();
        let mut neighbours: Vec<Vec<VertexIndex>> = Vec::new();
        let mut i: usize = 0;
        while i < n
            invariant
                i <= n,
                list_views(neighbours@) == Seq::new(i as nat, |j: int| Seq::<VertexIndex>::empty()),
            decreases n - i,
        {
            let ghost prev = neighbours@;
            let fresh: Vec<VertexIndex> = Vec::new();
            neighbours.push(fresh);
            assert(neighbours@ == prev.push(fresh));
            assert(list_views(neighbours@) =~= list_views(prev).push(fresh@));
            i += 1;
            assert(list_views(neighbours@) =~= Seq::new(i as nat, |j: int| Seq::<VertexIndex>::empty()));
        }
        let ghost init = list_views(neighbours@);
        let mut p: usize = 0;
        while p < self.quads.data.len()
            invariant
                p <= self.quads.data@.len(),
                n == self.vertices@.len(),
                init == empty_lists(n as nat),
                indices_below(self.quads.data@, n as int),
                list_views(neighbours@) == add_neighbours(init, quad_pairs(self.quads.data@.take(p as int))),
                neighbours@.len() == n,
            decreases self.quads.data@.len() - p,
        {
            let quad = self.quads.data[p];
            let edges = quad.get_all_pairs();
            let ghost done = quad_pairs(self.quads.data@.take(p as int));
            let mut j: usize = 0;
            while j < edges.len()
                invariant
                    j <= edges@.len(),
                    edges@ == pairs_upto(quad.verts@, 4),
                    quad == self.quads.data@[p as int],
                    p < self.quads.data@.len(),
                    n == self.vertices@.len(),
                    indices_below(self.quads.data@, n as int),
                    list_views(neighbours@) == add_neighbours(init, done + edges@.take(j as int)),
                    neighbours@.len() == n,
                decreases edges@.len() - j,
            {
                let e = edges[j];
                assert(e.0.0 < n && e.1.0 < n) by {
                    lemma_pairs_below(quad.verts@, 4, n as int);
                }
                let ghost before = list_views(neighbours@);
                if !contains_index(&neighbours[e.0.0], e.1) {
                    neighbours[e.0.0].push(e.1);
                }
                j += 1;
                assert((done + edges@.take(j as int)).drop_last() =~= done + edges@.take(j - 1));
                assert(list_views(neighbours@) =~= before.update(e.0.0 as int, push_new(before[e.0.0 as int], e.1)));
            }
            assert(edges@.take(j as int) =~= edges@);
            p += 1;
            assert(self.quads.data@.take(p as int).drop_last() =~= self.quads.data@.take(p - 1));
        }
        assert(self.quads.data@.take(p as int) =~= self.quads.data@);
        neighbours
    }

    /// All vertex payloads and the triangle render indices.
    pub fn to_raw_triangles(&mut self) -> (res: (Vec<V>, Vec<u32>))
        where V: Copy
        ensures
            res.0@ == old(self).vertices@,
            res.1@ == raw_indices(old(self).triangles.data@),
            *final(self) == *old(self),
    {
        (self.vertices.to_raw(), self.triangles.to_raw())
    }

    /// Reduces all triangles and quads to lines, then returns all vertex payloads and
    /// the line render indices.
    pub fn to_raw_lines(&mut self) -> (res: (Vec<V>, Vec<u32>))
        where V: Copy
        ensures
            res.0@ == old(self).vertices@,
            res.1@ == raw_indices(final(self).lines.data@),
            final(self).lines.data@ == old(self).lines.data@ + triangles_to_lines(old(self).triangles.data@)
                + quads_to_lines(old(self).quads.data@),
            final(self).triangles.data@ == Seq::<Triangle>::empty(),
            final(self).quads.data@ == Seq::<Quad>::empty(),
            final(self).vertices@ == old(self).vertices@,
            final(self).boundary_indices@ == old(self).boundary_indices@,
            final(self).hex.data@ == old(self).hex.data@,
            old(self).well_formed() ==> final(self).well_formed(),
            forall|j: int, k: int|
                0 <= j < old(self).triangles.data@.len() && 0 <= k < 3 ==> final(self).lines.data@[old(self).lines.data@.len()
                    + 3 * (old(self).triangles.data@.len() - 1 - j) + k] == line(
                    #[trigger] old(self).triangles.data@[j].verts@[k],
                    old(self).triangles.data@[j].verts@[(k + 1) % 3],
                ),
            forall|j: int, k: int|
                0 <= j < old(self).quads.data@.len() && 0 <= k < 4 ==> final(self).lines.data@[old(self).lines.data@.len()
                    + 3 * old(self).triangles.data@.len() + 4 * (old(self).quads.data@.len() - 1 - j) + k] == line(
                    #[trigger] old(self).quads.data@[j].verts@[k],
                    old(self).quads.data@[j].verts@[(k + 1) % 4],
                ),
    {
        self.reduce_to_lines();
        (self.vertices.to_raw(), self.lines.to_raw())
    }

    /// Unshared vertices and counting indices for flat shading of the triangles.
    pub fn to_raw_flat_shading(&mut self) -> (res: (Vec<V>, Vec<u32>))
        where V: Copy
        requires
            indices_below(old(self).triangles.data@, old(self).vertices@.len() as int),
        ensures
            res.0@ == flat_positions(old(self).vertices@, old(self).triangles.data@),
            res.1@ == Seq::new(res.0@.len(), |m: int| m as u32),
            *final(self) == *old(self),
    {
        self.vertices.to_raw_flat_shading(&self.triangles)
    }

    /// Replaces every triangle and quad by its sides (last face first); the faces are
    /// removed, everything else stays.
    pub fn reduce_to_lines(&mut self)
        ensures
            final(self).lines.data@ == old(self).lines.data@ + triangles_to_lines(old(self).triangles.data@)
                + quads_to_lines(old(self).quads.data@),
            final(self).triangles.data@ == Seq::<Triangle>::empty(),
            final(self).quads.data@ == Seq::<Quad>::empty(),
            final(self).vertices@ == old(self).vertices@,
            final(self).boundary_indices@ == old(self).boundary_indices@,
            final(self).hex.data@ == old(self).hex.data@,
            old(self).well_formed() ==> final(self).well_formed(),
            forall|j: int, k: int|
                0 <= j < old(self).triangles.data@.len() && 0 <= k < 3 ==> final(self).lines.data@[old(self).lines.data@.len()
                    + 3 * (old(self).triangles.data@.len() - 1 - j) + k] == line(
                    #[trigger] old(self).triangles.data@[j].verts@[k],
                    old(self).triangles.data@[j].verts@[(k + 1) % 3],
                ),
            forall|j: int, k: int|
                0 <= j < old(self).quads.data@.len() && 0 <= k < 4 ==> final(self).lines.data@[old(self).lines.data@.len()
                    + 3 * old(self).triangles.data@.len() + 4 * (old(self).quads.data@.len() - 1 - j) + k] == line(
                    #[trigger] old(self).quads.data@[j].verts@[k],
                    old(self).quads.data@[j].verts@[(k + 1) % 4],
                ),
    {
        let ghost lines0 = self.lines.data@;
        let ghost tris0 = self.triangles.data@;
        let ghost quads0 = self.quads.data@;
        while self.triangles.data.len() != 0
            invariant
                self.lines.data@ + triangles_to_lines(self.triangles.data@) == lines0 + triangles_to_lines(tris0),
                self.quads.data@ == quads0,
                self.vertices@ == old(self).vertices@,
                self.boundary_indices@ == old(self).boundary_indices@,
                self.hex.data@ == old(self).hex.data@,
            decreases self.triangles.data@.len(),
        {
            let ghost ts = self.triangles.data@;
            let ghost ls = self.lines.data@;
            let verts = self.triangles.data[self.triangles.data.len() - 1].verts;
            self.lines.add(Polygon { verts: [verts[0], verts[1]] });
            self.lines.add(Polygon { verts: [verts[1], verts[2]] });
            self.lines.add(Polygon { verts: [verts[2], verts[0]] });
            self.triangles.data.pop();
            assert(self.triangles.data@ == ts.drop_last());
            assert(self.lines.data@ =~= ls + triangle_lines(ts.last()));
            assert(ls + triangles_to_lines(ts) =~= ls + triangle_lines(ts.last()) + triangles_to_lines(ts.drop_last()));
        }
        assert(self.lines.data@ =~= lines0 + triangles_to_lines(tris0));
        let ghost lines1 = self.lines.data@;
        while self.quads.data.len() != 0
            invariant
                self.lines.data@ + quads_to_lines(self.quads.data@) == lines1 + quads_to_lines(quads0),
                self.triangles.data@ == Seq::<Triangle>::empty(),
                self.vertices@ == old(self).vertices@,
                self.boundary_indices@ == old(self).boundary_indices@,
                self.hex.data@ == old(self).hex.data@,
            decreases self.quads.data@.len(),
        {
            let ghost qs = self.quads.data@;
            let ghost ls = self.lines.data@;
            let verts = self.quads.data[self.quads.data.len() - 1].verts;
            self.lines.add(Polygon { verts: [verts[0], verts[1]] });
            self.lines.add(Polygon { verts: [verts[1], verts[2]] });
            self.lines.add(Polygon { verts: [verts[2], verts[3]] });
            self.lines.add(Polygon { verts: [verts[3], verts[0]] });
            self.quads.data.pop();
            assert(self.quads.data@ == qs.drop_last());
            assert(self.lines.data@ =~= ls + quad_lines(qs.last()));
            assert(ls + quads_to_lines(qs) =~= ls + quad_lines(qs.last()) + quads_to_lines(qs.drop_last()));
        }
        assert(self.lines.data@ =~= lines1 + quads_to_lines(quads0));
        proof {
            lemma_sides_after(lines0, tris0, quads0);
        }
        proof {
            if old(self).well_formed() {
                let n = self.vertices@.len() as int;
                law_lines_keep_indices(tris0, quads0, n);
                lemma_below_concat(lines0, triangles_to_lines(tris0), n);
                lemma_below_concat(lines1, quads_to_lines(quads0), n);
            }
        }
    }

}

/// The corner pairs of a cycle only name vertices below `n` when its corners do.
pub proof fn lemma_pairs_below(verts: Seq<VertexIndex>, k: int, n: int)
    requires
        0 <= k <= verts.len(),
        forall|i: int| 0 <= i < verts.len() ==> #[trigger] verts[i].0 < n,
    ensures
        forall|i: int| 0 <= i < pairs_upto(verts, k).len() ==> #[trigger] pairs_upto(verts, k)[i].0.0 < n
            && pairs_upto(verts, k)[i].1.0 < n,
        pairs_upto(verts, k).len() == 2 * k,
    decreases k,
{
    if k > 0 {
        lemma_pairs_below(verts, k - 1, n);
        let m = verts.len() as int;
        assert(0 <= (k - 1 + 1) % m < m);
    }
}

impl<V: Copy> MeshData<V> {
    /// Replaces every quad by two triangles and every hexagon by a fan of six triangles
    /// around a new vertex placed by `center` (last face first).
    pub fn reduce_to_triangles<F: Fn(&Vec<V>) -> V>(&mut self, center: &F)
        requires
            total_center(center),
            indices_below(old(self).hex.data@, old(self).vertices@.len() as int),
        ensures
            final(self).triangles.data@ == old(self).triangles.data@ + quads_to_triangles(old(self).quads.data@)
                + hexes_to_triangles(old(self).hex.data@, old(self).vertices@.len() as int),
            final(self).vertices@.len() == old(self).vertices@.len() + old(self).hex.data@.len(),
            final(self).vertices@.take(old(self).vertices@.len() as int) == old(self).vertices@,
            forall|k: int|
                0 <= k < old(self).hex.data@.len() ==> is_center_of(
                    center,
                    corner_positions(old(self).vertices@, old(self).hex.data@[old(self).hex.data@.len() - 1 - k]),
                    #[trigger] final(self).vertices@[old(self).vertices@.len() + k],
                ),
            final(self).quads.data@ == Seq::<Quad>::empty(),
            final(self).hex.data@ == Seq::<Hexagon>::empty(),
            final(self).lines.data@ == old(self).lines.data@,
            final(self).boundary_indices@ == old(self).boundary_indices@,
            old(self).well_formed() ==> final(self).well_formed(),
            forall|j: int|
                0 <= j < old(self).quads.data@.len() ==> final(self).triangles.data@[old(self).triangles.data@.len() + 2 * (
                old(self).quads.data@.len() - 1 - j)] == triangle(
                    (#[trigger] old(self).quads.data@[j]).verts@[0],
                    old(self).quads.data@[j].verts@[1],
                    old(self).quads.data@[j].verts@[2],
                ) && final(self).triangles.data@[old(self).triangles.data@.len() + 2 * (old(self).quads.data@.len() - 1 - j)
                    + 1] == triangle(
                    old(self).quads.data@[j].verts@[0],
                    old(self).quads.data@[j].verts@[2],
                    old(self).quads.data@[j].verts@[3],
                ),
            forall|j: int, k: int|
                0 <= j < old(self).hex.data@.len() && 0 <= k < 6 ==> final(self).triangles.data@[old(self).triangles.data@.len()
                    + 2 * old(self).quads.data@.len() + 6 * (old(self).hex.data@.len() - 1 - j) + k] == triangle(
                    VertexIndex((old(self).vertices@.len() + old(self).hex.data@.len() - 1 - j) as usize),
                    #[trigger] old(self).hex.data@[j].verts@[k],
                    old(self).hex.data@[j].verts@[(k + 1) % 6],
                ),
    {
        let ghost tris0 = self.triangles.data@;
        let ghost quads0 = self.quads.data@;
        while self.quads.data.len() != 0
            invariant
                self.triangles.data@ + quads_to_triangles(self.quads.data@) == tris0 + quads_to_triangles(quads0),
                self.hex.data@ == old(self).hex.data@,
                self.vertices@ == old(self).vertices@,
                self.lines.data@ == old(self).lines.data@,
                self.boundary_indices@ == old(self).boundary_indices@,
            decreases self.quads.data@.len(),
        {
            let ghost qs = self.quads.data@;
            let ghost ts = self.triangles.data@;
            let verts = self.quads.data[self.quads.data.len() - 1].verts;
            self.triangles.add(Polygon { verts: [verts[0], verts[1], verts[2]] });
            self.triangles.add(Polygon { verts: [verts[0], verts[2], verts[3]] });
            self.quads.data.pop();
            assert(self.quads.data@ == qs.drop_last());
            assert(self.triangles.data@ =~= ts + quad_triangles(qs.last()));
            assert(ts + quads_to_triangles(qs) =~= ts + quad_triangles(qs.last()) + quads_to_triangles(qs.drop_last()));
        }
        assert(self.triangles.data@ =~= tris0 + quads_to_triangles(quads0));
        let ghost tris1 = self.triangles.data@;
        let ghost hexes0 = self.hex.data@;
        let ghost verts0 = self.vertices@;
        let ghost n0 = verts0.len() as int;
        while self.hex.data.len() != 0
            invariant
                total_center(center),
                hexes0 == old(self).hex.data@,
                verts0 == old(self).vertices@,
                n0 == verts0.len(),
                indices_below(hexes0, n0),
                self.hex.data@.len() <= hexes0.len(),
                self.hex.data@ == hexes0.take(self.hex.data@.len() as int),
                self.vertices@.len() == n0 + (hexes0.len() - self.hex.data@.len()),
                self.vertices@.take(n0) == verts0,
                forall|k: int|
                    0 <= k < hexes0.len() - self.hex.data@.len() ==> is_center_of(
                        center,
                        corner_positions(verts0, hexes0[hexes0.len() - 1 - k]),
                        #[trigger] self.vertices@[n0 + k],
                    ),
                self.triangles.data@ + hexes_to_triangles(self.hex.data@, self.vertices@.len() as int) == tris1
                    + hexes_to_triangles(hexes0, n0),
                self.quads.data@ == Seq::<Quad>::empty(),
                self.lines.data@ == old(self).lines.data@,
                self.boundary_indices@ == old(self).boundary_indices@,
            decreases self.hex.data@.len(),
        {
            let ghost hs = self.hex.data@;
            let ghost ts = self.triangles.data@;
            let ghost vs = self.vertices@;
            let h = self.hex.data[self.hex.data.len() - 1];
            assert(h == hexes0[hs.len() - 1]);
            assert forall|k: int| 0 <= k < 6 implies #[trigger] h.verts@[k].0 < self.vertices@.len() by {
                assert(hexes0[hs.len() - 1].verts@[k].0 < n0);
            }
            let pts = self.vertices.gather(&h);
            assert(corner_positions(self.vertices@, h) =~= corner_positions(verts0, h)) by {
                assert forall|k: int| 0 <= k < 6 implies #[trigger] self.vertices@[h.verts@[k].0 as int] == verts0[h.verts@[k].0 as int] by {
                    assert(hexes0[hs.len() - 1].verts@[k].0 < n0);
                    assert(self.vertices@.take(n0)[h.verts@[k].0 as int] == verts0[h.verts@[k].0 as int]);
                }
            }
            let c = center(&pts);
            assert(returns_center(center, &pts, c));
            let center_idx = self.vertices.add(c);
            let verts = h.verts;
            self.triangles.add(Polygon { verts: [center_idx, verts[0], verts[1]] });
            self.triangles.add(Polygon { verts: [center_idx, verts[1], verts[2]] });
            self.triangles.add(Polygon { verts: [center_idx, verts[2], verts[3]] });
            self.triangles.add(Polygon { verts: [center_idx, verts[3], verts[4]] });
            self.triangles.add(Polygon { verts: [center_idx, verts[4], verts[5]] });
            self.triangles.add(Polygon { verts: [center_idx, verts[5], verts[0]] });
            self.hex.data.pop();
            assert(self.hex.data@ =~= hexes0.take(self.hex.data@.len() as int));
            assert(self.vertices@.take(n0) =~= verts0) by {
                assert(self.vertices@.take(n0) =~= vs.take(n0));
            }
            assert(self.triangles.data@ =~= ts + hex_fan(hs.last(), VertexIndex(vs.len() as usize)));
            assert(ts + hexes_to_triangles(hs, vs.len() as int) =~= ts + hex_fan(hs.last(), VertexIndex(vs.len() as usize))
                + hexes_to_triangles(hs.drop_last(), vs.len() as int + 1));
            assert(hs.drop_last() == self.hex.data@);
            assert forall|k: int|
                0 <= k < hexes0.len() - self.hex.data@.len() implies is_center_of(
                    center,
                    corner_positions(verts0, hexes0[hexes0.len() - 1 - k]),
                    #[trigger] self.vertices@[n0 + k],
                ) by {
                if k == hexes0.len() - self.hex.data@.len() - 1 {
                    assert(self.vertices@[n0 + k] == c);
                } else {
                    assert(self.vertices@[n0 + k] == vs[n0 + k]);
                }
            }
        }
        assert(self.triangles.data@ =~= tris1 + hexes_to_triangles(hexes0, n0));
        proof {
            self.vertices.lemma_count_fits();
            lemma_faces_after(tris0, quads0, hexes0, n0);
        }
        proof {
            if old(self).well_formed() {
                let m = self.vertices@.len() as int;
                self.vertices.lemma_count_fits();
                law_triangles_keep_indices(quads0, hexes0, n0);
                lemma_indices_below_mono(tris0, n0, m);
                lemma_indices_below_mono(quads_to_triangles(quads0), n0, m);
                lemma_below_concat(tris0, quads_to_triangles(quads0), m);
                lemma_below_concat(tris1, hexes_to_triangles(hexes0, n0), m);
                lemma_indices_below_mono(self.lines.data@, n0, m);
            }
        }
    }
}

} // verus!
