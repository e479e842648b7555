use vstd::prelude::*;

verus! {

/// Index of a vertex inside a vertex array.
#[derive(Clone, Copy, Debug, PartialEq, Eq, PartialOrd, Ord, Hash, Default, Structural)]
pub struct VertexIndex(pub usize);

/// Growable array of vertex payloads (the positions live in `V`).
#[derive(Clone, Debug)]
pub struct VertexArray<V> {
    data: Vec<V>,
}

impl<V> View for VertexArray<V> {
    type V = Seq<V>;

    closed spec fn view(&self) -> Seq<V> {
        self.data@
    }
}

impl<V> Default for VertexArray<V> {
    fn default() -> (res: Self)
        ensures
            res@ == Seq::<V>::empty(),
    {
        VertexArray { data: Vec::new() }
    }
}

impl<V> VertexArray<V> {
    /// Wraps the given vertices.
    pub fn new(data: Vec<V>) -> (res: Self)
        ensures
            res@ == data@,
    {
        VertexArray { data }
    }

    /// Appends a vertex and returns its index.
    pub fn add(&mut self, vertex: V) -> (res: VertexIndex)
        ensures
            final(self)@ == old(self)@.push(vertex),
            res.0 == old(self)@.len(),
    {
        self.data.push(vertex);
        VertexIndex(self.data.len() - 1)
    }

    /// The vertex stored at `idx`.
    pub fn get(&self, idx: &VertexIndex) -> (res: &V)
        requires
            idx.0 < self@.len(),
        ensures
            *res == self@[idx.0 as int],
    {
        &self.data[idx.0]
    }

    /// Number of stored vertices.
    pub fn count(&self) -> (res: usize)
        ensures
            res == self@.len(),
    {
        self.data.len()
    }

    /// Moves all vertices of `other` to the end of this array.
    pub fn append(&mut self, other: Self)
        ensures
            final(self)@ == old(self)@ + other@,
    {
        let mut other = other;
        self.data.append(&mut other.data);
    }

    /// Mutable access to the underlying storage.
    pub fn ref_mut(&mut self) -> (res: &mut Vec<V>)
        ensures
            res@ == old(self)@,
            final(self)@ == final(res)@,
    {
        &mut self.data
    }

    /// A vertex array holds at most `usize::MAX` vertices.
    pub proof fn lemma_count_fits(&self)
        ensures
            self@.len() <= usize::MAX,
    {
        assert(self.data.len() == self.data@.len());
    }

    /// Replaces the vertex stored at `i`.
    pub fn update(&mut self, i: &VertexIndex, val: V)
        requires
            i.0 < old(self)@.len(),
        ensures
            final(self)@ == old(self)@.update(i.0 as int, val),
    {
        self.data.set(i.0, val);
    }
}

/// The positions of the corners of `poly` looked up in `verts`.
pub open spec fn corner_positions<V, const N: usize>(verts: Seq<V>, poly: Polygon<N>) -> Seq<V> {
    poly.verts@.map_values(|i: VertexIndex| verts[i.0 as int])
}

/// The corner positions of all polygons, polygon after polygon.
pub open spec fn flat_positions<V, const N: usize>(verts: Seq<V>, polys: Seq<Polygon<N>>) -> Seq<V>
    decreases polys.len(),
{
    if polys.len() == 0 {
        Seq::empty()
    } else {
        flat_positions(verts, polys.drop_last()) + corner_positions(verts, polys.last())
    }
}

/// Every corner index of every polygon is below `n`.
pub open spec fn indices_below<const N: usize>(polys: Seq<Polygon<N>>, n: int) -> bool {
    forall|p: int, k: int| 0 <= p < polys.len() && 0 <= k < N ==> #[trigger] polys[p].verts@[k].0 < n
}

/// What a read gives back after a write: after `add(v)` the returned index holds `v`;
/// after `append(t)` the first part is unchanged and the rest is `t`; after `update(i, v)`
/// index `i` holds `v`; every other vertex stays where it was.
pub proof fn law_vertex_array_reads<V>(s: Seq<V>, t: Seq<V>, v: V, i: int)
    requires
        0 <= i < s.len(),
    ensures
        s.push(v)[s.len() as int] == v,
        forall|j: int| 0 <= j < s.len() ==> #[trigger] s.push(v)[j] == s[j],
        forall|j: int| 0 <= j < s.len() ==> #[trigger] (s + t)[j] == s[j],
        forall|j: int| 0 <= j < t.len() ==> #[trigger] (s + t)[s.len() + j] == t[j],
        s.update(i, v)[i] == v,
        forall|j: int| 0 <= j < s.len() && j != i ==> #[trigger] s.update(i, v)[j] == s[j],
{
}

/// Indices below `n` are below any larger bound too.
pub proof fn lemma_indices_below_mono<const N: usize>(polys: Seq<Polygon<N>>, n: int, m: int)
    requires
        indices_below(polys, n),
        n <= m,
    ensures
        indices_below(polys, m),
{
}

/// The polygons of `ps` without the last still name vertices below `n`.
pub proof fn lemma_below_drop_last<const N: usize>(ps: Seq<Polygon<N>>, n: int)
    requires
        ps.len() > 0,
        indices_below(ps, n),
    ensures
        indices_below(ps.drop_last(), n),
        forall|k: int| 0 <= k < N ==> #[trigger] ps.last().verts@[k].0 < n,
{
    let p = ps.drop_last();
    assert forall|a: int, k: int| 0 <= a < p.len() && 0 <= k < N implies #[trigger] p[a].verts@[k].0 < n by {
        assert(p[a] == ps[a]);
    }
    assert(ps.last() == ps[ps.len() - 1]);
}

/// Two runs of polygons over vertices below `n` joined.
pub proof fn lemma_below_concat<const N: usize>(a: Seq<Polygon<N>>, b: Seq<Polygon<N>>, n: int)
    requires
        indices_below(a, n),
        indices_below(b, n),
    ensures
        indices_below(a + b, n),
{
    let r = a + b;
    assert forall|p: int, k: int| 0 <= p < r.len() && 0 <= k < N implies #[trigger] r[p].verts@[k].0 < n by {
        if p < a.len() {
            assert(r[p] == a[p]);
        } else {
            assert(r[p] == b[p - a.len()]);
        }
    }
}

impl<V: Copy> VertexArray<V> {
    /// The corner positions of `poly`, in corner order.
    pub(crate) fn gather<const N: usize>(&self, poly: &Polygon<N>) -> (res: Vec<V>)
        requires
            forall|k: int| 0 <= k < N ==> #[trigger] poly.verts@[k].0 < self@.len(),
        ensures
            res@ == corner_positions(self@, *poly),
    {
        let mut result: Vec<V> = Vec::new();
        let mut k: usize = 0;
        while k < N
            invariant
                k <= N,
                poly.verts@.len() == N,
                forall|j: int| 0 <= j < N ==> #[trigger] poly.verts@[j].0 < self@.len(),
                result@ == corner_positions(self@, *poly).take(k as int),
            decreases N - k,
        {
            result.push(*self.get(&poly.verts[k]));
            k += 1;
            assert(corner_positions(self@, *poly).take(k as int) =~= corner_positions(self@, *poly).take(
                k - 1,
            ).push(self@[poly.verts@[k - 1].0 as int]));
        }
        assert(corner_positions(self@, *poly).take(N as int) =~= corner_positions(self@, *poly));
        result
    }

    /// Unshared vertices for flat shading: every triangle corner gets its own copy of its
    /// position, and the render indices simply count up.
    pub fn to_raw_flat_shading(&self, triangles: &PolygonArray<3>) -> (res: (Vec<V>, Vec<u32>))
        requires
            indices_below(triangles.data@, self@.len() as int),
        ensures
            res.0@ == flat_positions(self@, triangles.data@),
            res.1@ == Seq::new(res.0@.len(), |m: int| m as u32),
    {
        let mut result: Vec<V> = Vec::new();
        let mut indices: Vec<u32> = Vec::new();
        let mut t: usize = 0;
        while t < triangles.data.len()
            invariant
                t <= triangles.data@.len(),
                indices_below(triangles.data@, self@.len() as int),
                result@ == flat_positions(self@, triangles.data@.take(t as int)),
                indices@ == Seq::new(result@.len(), |m: int| m as u32),
            decreases triangles.data@.len() - t,
        {
            let tri = triangles.data[t];
            assert forall|k: int| 0 <= k < 3 implies #[trigger] tri.verts@[k].0 < self@.len() by {
                assert(triangles.data@[t as int].verts@[k].0 < self@.len());
            }
            let corners = self.gather(&tri);
            let ghost before = result@;
            let mut k: usize = 0;
            while k < 3
                invariant
                    k <= 3,
                    corners@.len() == 3,
                    result@ == before + corners@.take(k as int),
                    indices@ == Seq::new(result@.len(), |m: int| m as u32),
                decreases 3 - k,
            {
                result.push(corners[k]);
                let next_index = indices.len() as u32;
                indices.push(next_index);
                k += 1;
                assert(corners@.take(k as int) =~= corners@.take(k - 1).push(corners@[k - 1]));
                assert(indices@ =~= Seq::new(result@.len(), |m: int| m as u32));
            }
            assert(corners@.take(3) =~= corners@);
            t += 1;
            assert(triangles.data@.take(t as int).drop_last() =~= triangles.data@.take(t - 1));
        }
        assert(triangles.data@.take(t as int) =~= triangles.data@);
        (result, indices)
    }

    /// All vertices, in index order.
    pub fn to_raw(&self) -> (res: Vec<V>)
        ensures
            res@ == self@,
    {
        let mut result: Vec<V> = Vec::new();
        let mut i: usize = 0;
        while i < self.data.len()
            invariant
                i <= self.data@.len(),
                result@ == self.data@.take(i as int),
            decreases self.data@.len() - i,
        {
            result.push(self.data[i]);
            i += 1;
            assert(self.data@.take(i as int) =~= self.data@.take(i - 1).push(self.data@[i - 1]));
        }
        assert(self.data@.take(i as int) =~= self.data@);
        result
    }
}


/// A closed polygon given by `N` vertex indices in cyclic order.
#[derive(Clone, Copy, Debug, PartialEq, Eq, Hash)]
pub struct Polygon<const N: usize> {
    pub verts: [VertexIndex; N],
}

/// A segment between two vertices.
pub type Line = Polygon<2>;

/// A triangle.
pub type Triangle = Polygon<3>;

/// A quadrilateral.
pub type Quad = Polygon<4>;

/// A hexagon.
pub type Hexagon = Polygon<6>;

/// Position following `i` in a cycle of length `n`.
pub open spec fn next_pos(i: int, n: int) -> int {
    (i + 1) % n
}

/// Position preceding `i` in a cycle of length `n`.
pub open spec fn prev_pos(i: int, n: int) -> int {
    if i == 0 {
        n - 1
    } else {
        i - 1
    }
}

/// Where the directed edge `e` sits at corner `i` of the cycle `verts`, if it starts there:
/// `(i, next)` when `e` runs forward, `(prev, i)` when it runs backward.
pub open spec fn edge_at(verts: Seq<VertexIndex>, e: (VertexIndex, VertexIndex), i: int) -> Option<(usize, usize)> {
    let n = verts.len() as int;
    if verts[i] != e.0 {
        None
    } else if verts[next_pos(i, n)] == e.1 {
        Some((i as usize, next_pos(i, n) as usize))
    } else if verts[prev_pos(i, n)] == e.1 {
        Some((prev_pos(i, n) as usize, i as usize))
    } else {
        None
    }
}

/// The match of `e` at the first corner at or after `from` where it matches.
pub open spec fn first_edge_at(verts: Seq<VertexIndex>, e: (VertexIndex, VertexIndex), from: int) -> Option<(usize, usize)>
    decreases verts.len() - from,
{
    if from < 0 || from >= verts.len() {
        None
    } else {
        match edge_at(verts, e, from) {
            Some(p) => Some(p),
            None => first_edge_at(verts, e, from + 1),
        }
    }
}

/// An edge with its endpoints ordered by index.
pub open spec fn sorted_edge(a: VertexIndex, b: VertexIndex) -> (VertexIndex, VertexIndex) {
    if a.0 < b.0 {
        (a, b)
    } else {
        (b, a)
    }
}

/// The (sorted) edge leaving corner `i` of the cycle `verts`.
pub open spec fn cycle_edge(verts: Seq<VertexIndex>, i: int) -> (VertexIndex, VertexIndex) {
    sorted_edge(verts[i], verts[next_pos(i, verts.len() as int)])
}

/// `s` with `x` appended unless it already occurs.
pub open spec fn push_new<T>(s: Seq<T>, x: T) -> Seq<T> {
    if s.contains(x) {
        s
    } else {
        s.push(x)
    }
}

/// The distinct sorted edges leaving the first `k` corners, in order of first occurrence.
pub open spec fn edges_upto(verts: Seq<VertexIndex>, k: int) -> Seq<(VertexIndex, VertexIndex)>
    decreases k,
{
    if k <= 0 {
        Seq::empty()
    } else {
        push_new(edges_upto(verts, k - 1), cycle_edge(verts, k - 1))
    }
}

/// Both directions of the edges leaving the first `k` corners.
pub open spec fn pairs_upto(verts: Seq<VertexIndex>, k: int) -> Seq<(VertexIndex, VertexIndex)>
    decreases k,
{
    if k <= 0 {
        Seq::empty()
    } else {
        let a = verts[k - 1];
        let b = verts[next_pos(k - 1, verts.len() as int)];
        pairs_upto(verts, k - 1).push((a, b)).push((b, a))
    }
}

/// Whether `list` holds the edge `e`.
fn contains_edge(list: &Vec<(VertexIndex, VertexIndex)>, e: (VertexIndex, VertexIndex)) -> (res: bool)
    ensures
        res == list@.contains(e),
{
    let mut i: usize = 0;
    while i < list.len()
        invariant
            i <= list@.len(),
            forall|j: int| 0 <= j < i ==> list@[j] != e,
        decreases list@.len() - i,
    {
        if list[i].0.0 == e.0.0 && list[i].1.0 == e.1.0 {
            assert(list@[i as int] == e);
            return true;
        }
        i += 1;
    }
    false
}

impl<const N: usize> Polygon<N> {
    /// Finds the positions of the edge `edge` (in either direction) on this polygon,
    /// returned in the polygon's cyclic order.
    pub fn find_edge_positions(&self, edge: &(VertexIndex, VertexIndex)) -> (res: Option<(usize, usize)>)
        ensures
            res == first_edge_at(self.verts@, *edge, 0),
    {
        let mut i: usize = 0;
        while i < N
            invariant
                i <= N,
                self.verts@.len() == N,
                first_edge_at(self.verts@, *edge, 0) == first_edge_at(self.verts@, *edge, i as int),
            decreases N - i,
        {
            if self.verts[i].0 == edge.0.0 {
                let j = (i + 1) % N;
                if self.verts[j].0 == edge.1.0 {
                    return Some((i, j));
                }
                let j = if i == 0 {
                    N - 1
                } else {
                    i - 1
                };
                if self.verts[j].0 == edge.1.0 {
                    return Some((j, i));
                }
            }
            i += 1;
        }
        None
    }

    /// The distinct edges of the polygon, each with its endpoints sorted by index,
    /// in order of first occurrence around the cycle.
    pub fn get_edges(&self) -> (res: Vec<(VertexIndex, VertexIndex)>)
        ensures
            res@ == edges_upto(self.verts@, N as int),
    {
        let mut result: Vec<(VertexIndex, VertexIndex)> = Vec::new();
        let mut i: usize = 0;
        while i < N
            invariant
                i <= N,
                self.verts@.len() == N,
                result@ == edges_upto(self.verts@, i as int),
            decreases N - i,
        {
            let v = self.verts[i];
            let next = self.verts[(i + 1) % N];
            let e = if v.0 < next.0 {
                (v, next)
            } else {
                (next, v)
            };
            if !contains_edge(&result, e) {
                result.push(e);
            }
            i += 1;
        }
        result
    }

    /// Every edge of the polygon in both directions: `(v_i, v_i+1)` then `(v_i+1, v_i)`.
    pub fn get_all_pairs(&self) -> (res: Vec<(VertexIndex, VertexIndex)>)
        ensures
            res@ == pairs_upto(self.verts@, N as int),
    {
        let mut result: Vec<(VertexIndex, VertexIndex)> = Vec::new();
        let mut i: usize = 0;
        while i < N
            invariant
                i <= N,
                self.verts@.len() == N,
                result@ == pairs_upto(self.verts@, i as int),
            decreases N - i,
        {
            let v = self.verts[i];
            let next = self.verts[(i + 1) % N];
            result.push((v, next));
            result.push((next, v));
            i += 1;
        }
        result
    }
}


/// A list of polygons with `N` corners each.
#[derive(Clone, Debug)]
pub struct PolygonArray<const N: usize> {
    pub data: Vec<Polygon<N>>,
}

impl<const N: usize> Default for PolygonArray<N> {
    fn default() -> (res: Self)
        ensures
            res.data@ == Seq::<Polygon<N>>::empty(),
    {
        PolygonArray { data: Vec::new() }
    }
}

/// The corner indices of one polygon as 32-bit render indices.
pub open spec fn polygon_indices<const N: usize>(p: Polygon<N>) -> Seq<u32> {
    p.verts@.map_values(|v: VertexIndex| v.0 as u32)
}

/// The corner indices of all polygons, polygon after polygon.
pub open spec fn raw_indices<const N: usize>(polys: Seq<Polygon<N>>) -> Seq<u32>
    decreases polys.len(),
{
    if polys.len() == 0 {
        Seq::empty()
    } else {
        raw_indices(polys.drop_last()) + polygon_indices(polys.last())
    }
}

impl<const N: usize> PolygonArray<N> {
    /// A polygon array holding a copy of `data`.
    pub fn new(data: &[Polygon<N>]) -> (res: Self)
        ensures
            res.data@ == data@,
    {
        let mut v: Vec<Polygon<N>> = Vec::new();
        let mut i: usize = 0;
        while i < data.len()
            invariant
                i <= data@.len(),
                v@ == data@.take(i as int),
            decreases data@.len() - i,
        {
            v.push(data[i]);
            i += 1;
            assert(data@.take(i as int) =~= data@.take(i - 1).push(data@[i - 1]));
        }
        assert(data@.take(i as int) =~= data@);
        PolygonArray { data: v }
    }

    /// All corner indices as 32-bit render indices, polygon after polygon.
    pub fn to_raw(&self) -> (res: Vec<u32>)
        ensures
            res@ == raw_indices(self.data@),
    {
        let mut result: Vec<u32> = Vec::new();
        let mut p: usize = 0;
        while p < self.data.len()
            invariant
                p <= self.data@.len(),
                result@ == raw_indices(self.data@.take(p as int)),
            decreases self.data@.len() - p,
        {
            let polygon = self.data[p];
            let ghost before = result@;
            let mut k: usize = 0;
            while k < N
                invariant
                    k <= N,
                    polygon.verts@.len() == N,
                    result@ == before + polygon_indices(polygon).take(k as int),
                decreases N - k,
            {
                result.push(polygon.verts[k].0 as u32);
                k += 1;
                assert(polygon_indices(polygon).take(k as int) =~= polygon_indices(polygon).take(k - 1).push(
                    polygon.verts@[k - 1].0 as u32,
                ));
            }
            assert(polygon_indices(polygon).take(N as int) =~= polygon_indices(polygon));
            p += 1;
            assert(self.data@.take(p as int).drop_last() =~= self.data@.take(p - 1));
        }
        assert(self.data@.take(p as int) =~= self.data@);
        result
    }

    /// Number of polygons.
    pub fn count(&self) -> (res: usize)
        ensures
            res == self.data@.len(),
    {
        self.data.len()
    }

    /// Appends one polygon.
    pub fn add(&mut self, polygon: Polygon<N>)
        ensures
            final(self).data@ == old(self).data@.push(polygon),
    {
        self.data.push(polygon);
    }

    /// Moves all polygons of `other` to the end of this array.
    pub fn append(&mut self, other: Self)
        ensures
            final(self).data@ == old(self).data@ + other.data@,
    {
        let mut other = other;
        self.data.append(&mut other.data);
    }
}

} // verus!
