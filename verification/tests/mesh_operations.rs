use planet_sim::mesh::generation::{
    DualFace, MergeCandidate, RenderMode, combine_triangles_to_quads_randomly, dual_face, icosahedron_indices,
};
use planet_sim::mesh::hashed_vertices::HashedVertexArray;
use planet_sim::mesh::mesh_data::MeshData;
use planet_sim::mesh::vertices::{Hexagon, Polygon, PolygonArray, Quad, Triangle, VertexArray, VertexIndex};

fn vi(i: usize) -> VertexIndex {
    VertexIndex(i)
}

fn tri(a: usize, b: usize, c: usize) -> Triangle {
    Polygon { verts: [vi(a), vi(b), vi(c)] }
}

fn quad(a: usize, b: usize, c: usize, d: usize) -> Quad {
    Polygon { verts: [vi(a), vi(b), vi(c), vi(d)] }
}

fn line(a: usize, b: usize) -> Polygon<2> {
    Polygon { verts: [vi(a), vi(b)] }
}

/// Vertices that are just their own numbers, so that centres are easy to check.
fn numbered_vertices(n: usize) -> VertexArray<i64> {
    let mut v = VertexArray::default();
    for i in 0..n {
        v.add(i as i64);
    }
    v
}

/// The "centre" of integer points: their sum times a hundred, which tells the inputs apart.
fn sum_center(pts: &Vec<i64>) -> i64 {
    100 * pts.iter().sum::<i64>()
}

fn mesh_with(n: usize, triangles: Vec<Triangle>, quads: Vec<Quad>) -> MeshData<i64> {
    MeshData {
        vertices: numbered_vertices(n),
        triangles: PolygonArray::new(&triangles),
        quads: PolygonArray::new(&quads),
        ..Default::default()
    }
}

#[test]
fn polygon_pairs_list_both_directions() {
    let t = tri(0, 2, 3);
    assert_eq!(
        t.get_all_pairs(),
        vec![(vi(0), vi(2)), (vi(2), vi(0)), (vi(2), vi(3)), (vi(3), vi(2)), (vi(3), vi(0)), (vi(0), vi(3))]
    );
}

#[test]
fn polygon_edge_not_on_polygon() {
    let q = quad(2, 3, 5, 6);
    assert_eq!(q.find_edge_positions(&(vi(2), vi(5))), None);
    assert_eq!(q.find_edge_positions(&(vi(6), vi(2))), Some((3, 0)));
    assert_eq!(q.find_edge_positions(&(vi(1), vi(2))), None);
}

#[test]
fn polygon_edges_of_repeated_corner() {
    // A degenerate triangle reports its one edge once.
    let t = tri(4, 1, 4);
    assert_eq!(t.get_edges(), vec![(vi(1), vi(4)), (vi(4), vi(4))]);
}

#[test]
fn polygon_array_raw_indices() {
    let mut a = PolygonArray::new(&[tri(0, 1, 2)]);
    a.add(tri(2, 1, 3));
    let mut b = PolygonArray::default();
    b.add(tri(5, 6, 7));
    a.append(b);
    assert_eq!(a.count(), 3);
    assert_eq!(a.to_raw(), vec![0, 1, 2, 2, 1, 3, 5, 6, 7]);
}

#[test]
fn vertex_array_update_and_ref_mut() {
    let mut v = numbered_vertices(3);
    v.update(&vi(1), 40);
    assert_eq!(v.to_raw(), vec![0, 40, 2]);
    v.ref_mut().push(9);
    assert_eq!(v.to_raw(), vec![0, 40, 2, 9]);
    let w = VertexArray::new(vec![7i64, 8]);
    assert_eq!(w.count(), 2);
}

#[test]
fn vertex_array_flat_shading_copies_corners() {
    let v = numbered_vertices(4);
    let ts = PolygonArray::new(&[tri(0, 1, 2), tri(2, 1, 3)]);
    let (positions, indices) = v.to_raw_flat_shading(&ts);
    assert_eq!(positions, vec![0, 1, 2, 2, 1, 3]);
    assert_eq!(indices, vec![0, 1, 2, 3, 4, 5]);
}

#[test]
fn mesh_raw_triangles_and_flat_shading() {
    let mut m = mesh_with(4, vec![tri(0, 1, 2), tri(0, 2, 3)], vec![]);
    let (v, i) = m.to_raw_triangles();
    assert_eq!(v, vec![0, 1, 2, 3]);
    assert_eq!(i, vec![0, 1, 2, 0, 2, 3]);
    let (fv, fi) = m.to_raw_flat_shading();
    assert_eq!(fv, vec![0, 1, 2, 0, 2, 3]);
    assert_eq!(fi, vec![0, 1, 2, 3, 4, 5]);
    assert_eq!(m.triangles.count(), 2);
}

#[test]
fn mesh_raw_lines_order() {
    let mut m = mesh_with(5, vec![tri(0, 1, 2), tri(0, 2, 3)], vec![quad(1, 2, 3, 4)]);
    m.lines.add(line(0, 4));
    let (v, i) = m.to_raw_lines();
    assert_eq!(v, vec![0, 1, 2, 3, 4]);
    // Existing line, then the last triangle's sides, the first triangle's, then the quad's.
    assert_eq!(i, vec![0, 4, 0, 2, 2, 3, 3, 0, 0, 1, 1, 2, 2, 0, 1, 2, 2, 3, 3, 4, 4, 1]);
    assert_eq!(m.triangles.count(), 0);
    assert_eq!(m.quads.count(), 0);
    // Three lines per triangle and four per quad, besides the one there was.
    assert_eq!(m.lines.count(), 1 + 3 * 2 + 4);
}

#[test]
fn mesh_reduce_to_triangles_counts_and_centres() {
    let mut m = mesh_with(8, vec![tri(0, 1, 2)], vec![quad(0, 1, 2, 3)]);
    m.hex.add(Hexagon { verts: [vi(2), vi(3), vi(4), vi(5), vi(6), vi(7)] });
    m.reduce_to_triangles(&sum_center);
    // One triangle kept, two per quad, six per hexagon.
    assert_eq!(m.triangles.count(), 1 + 2 + 6);
    assert_eq!(m.quads.count(), 0);
    assert_eq!(m.hex.count(), 0);
    assert_eq!(m.vertices.count(), 9);
    assert_eq!(*m.vertices.get(&vi(8)), 100 * (2 + 3 + 4 + 5 + 6 + 7));
    assert!(m.triangles.to_raw().iter().all(|&i| (i as usize) < m.vertices.count()));
    assert_eq!(
        m.triangles.data,
        vec![
            tri(0, 1, 2),
            tri(0, 1, 2),
            tri(0, 2, 3),
            tri(8, 2, 3),
            tri(8, 3, 4),
            tri(8, 4, 5),
            tri(8, 5, 6),
            tri(8, 6, 7),
            tri(8, 7, 2),
        ]
    );
}

#[test]
fn mesh_subdivide_one_triangle() {
    let mut m = mesh_with(3, vec![tri(0, 1, 2)], vec![]);
    m.boundary_indices = vec![vi(0), vi(1)];
    m.subdivide_triangles(&sum_center);
    assert_eq!(m.vertices.count(), 6);
    // Edge vertices in order of first occurrence: (0,1), (1,2), (0,2).
    assert_eq!(m.vertices.to_raw(), vec![0, 1, 2, 100, 300, 200]);
    assert_eq!(m.triangles.data, vec![tri(0, 3, 5), tri(3, 1, 4), tri(4, 2, 5), tri(3, 4, 5)]);
    // Only the edge with both ends on the boundary adds to it.
    assert_eq!(m.boundary_indices, vec![vi(0), vi(1), vi(3)]);
}

#[test]
fn mesh_subdivide_shares_edge_vertices() {
    let mut m = mesh_with(4, vec![tri(0, 1, 2), tri(0, 2, 3)], vec![]);
    m.subdivide_triangles(&sum_center);
    // Five distinct edges, so five new vertices.
    assert_eq!(m.vertices.count(), 9);
    assert_eq!(m.triangles.count(), 8);
    let raw = m.triangles.to_raw();
    assert!(raw.iter().all(|&i| (i as usize) < 9));
}

#[test]
fn mesh_subdivide_icosahedron() {
    let mut m = mesh_with(12, icosahedron_indices().to_vec(), vec![]);
    m.subdivide_triangles(&sum_center);
    assert_eq!(m.vertices.count(), 12 + 30);
    assert_eq!(m.triangles.count(), 80);
    m.subdivide_triangles(&sum_center);
    assert_eq!(m.vertices.count(), 42 + 120);
    assert_eq!(m.triangles.count(), 320);
}

#[test]
fn mesh_subdivide_to_quads_one_triangle() {
    let mut m = mesh_with(3, vec![tri(0, 1, 2)], vec![]);
    m.subdivide_to_quads(&sum_center);
    assert_eq!(m.vertices.to_raw(), vec![0, 1, 2, 300, 100, 300, 200]);
    assert_eq!(m.quads.data, vec![quad(0, 4, 3, 6), quad(4, 1, 5, 3), quad(5, 2, 6, 3)]);
    assert!(m.quads.to_raw().iter().all(|&i| (i as usize) < m.vertices.count()));
    assert_eq!(m.triangles.count(), 0);
}

#[test]
fn mesh_subdivide_to_quads_boundary() {
    let mut m = mesh_with(4, vec![tri(0, 1, 2), tri(0, 2, 3)], vec![]);
    m.boundary_indices = vec![vi(0), vi(1), vi(2)];
    m.subdivide_to_quads(&sum_center);
    // Centres 4 and 5; edge vertices from 6: (0,1), (1,2), (0,2), (2,3), (0,3).
    // The edges with both ends on the boundary are (0,1), (1,2) and (0,2), the last twice.
    assert_eq!(m.boundary_indices, vec![vi(0), vi(1), vi(2), vi(6), vi(7), vi(8), vi(8)]);
}

#[test]
fn mesh_subdivide_to_quads_counts() {
    let mut m = mesh_with(5, vec![tri(0, 1, 2)], vec![quad(1, 3, 4, 2)]);
    m.subdivide_to_quads(&sum_center);
    // Three quads per triangle and four per quad; one centre per face and one vertex
    // per distinct edge (six: the edge (1,2) is shared).
    assert_eq!(m.quads.count(), 3 + 4);
    assert_eq!(m.vertices.count(), 5 + 2 + 6);
    assert_eq!(*m.vertices.get(&vi(6)), 100 * (1 + 3 + 4 + 2));
}

#[test]
fn mesh_merge_triangle_pairs_greedy() {
    let mut m = mesh_with(5, vec![tri(0, 1, 2), tri(0, 2, 3), tri(0, 3, 4)], vec![quad(0, 1, 2, 3)]);
    let candidates = vec![
        MergeCandidate { edge: (vi(0), vi(3)), tr_a: 1, tr_b: 2, opposite_b: vi(4) },
        MergeCandidate { edge: (vi(0), vi(2)), tr_a: 0, tr_b: 1, opposite_b: vi(3) },
    ];
    m.merge_triangle_pairs(candidates);
    // The last candidate goes first; the other then finds triangle 1 used.
    assert_eq!(m.quads.data, vec![quad(0, 1, 2, 3)]);
    assert_eq!(m.triangles.data, vec![tri(0, 3, 4)]);
}

#[test]
fn mesh_combine_two_triangles() {
    let mut m = mesh_with(4, vec![tri(0, 1, 2), tri(0, 2, 3)], vec![]);
    combine_triangles_to_quads_randomly(&mut m);
    assert_eq!(m.quads.data, vec![quad(0, 1, 2, 3)]);
    assert_eq!(m.triangles.count(), 0);
}

#[test]
fn mesh_combine_icosahedron_conserves_triangles() {
    let mut m = mesh_with(12, icosahedron_indices().to_vec(), vec![]);
    combine_triangles_to_quads_randomly(&mut m);
    assert_eq!(2 * m.quads.count() + m.triangles.count(), 20);
    assert!(m.quads.count() >= 1);
    assert!(m.quads.to_raw().iter().all(|&i| i < 12));
    assert!(m.triangles.to_raw().iter().all(|&i| i < 12));
}

#[test]
fn mesh_adjacent_triangles() {
    let m = mesh_with(5, vec![tri(0, 1, 2), tri(0, 2, 3), tri(3, 2, 4)], vec![]);
    let adj = m.adjacent_triangles();
    assert_eq!(adj, vec![vec![0, 1], vec![0], vec![0, 1, 2], vec![1, 2], vec![2]]);
}

#[test]
fn mesh_neighbours_are_mutual() {
    let m = mesh_with(6, vec![], vec![quad(0, 1, 2, 3), quad(1, 4, 5, 2)]);
    let nb = m.generate_neighbour_map();
    assert_eq!(nb[1], vec![vi(0), vi(2), vi(4)]);
    for v in 0..6 {
        for w in &nb[v] {
            assert!(nb[w.0].contains(&vi(v)));
        }
    }
}

#[test]
fn icosahedron_faces_are_the_table() {
    let faces = icosahedron_indices();
    assert_eq!(faces.len(), 20);
    assert_eq!(faces[0], tri(9, 6, 3));
    assert_eq!(faces[19], tri(7, 5, 11));
    for v in 0..12 {
        let count = faces.iter().filter(|f| f.verts.contains(&vi(v))).count();
        assert_eq!(count, 5);
    }
}

#[test]
fn hashed_vertices_share_keys() {
    let base = numbered_vertices(3);
    let mut h = HashedVertexArray::new(&base, |k: &(VertexIndex, VertexIndex)| 10 * (k.0 .0 + k.1 .0) as i64);
    let a = h.get_idx(&(vi(0), vi(1)));
    let b = h.get_idx(&(vi(1), vi(2)));
    let again = h.get_idx(&(vi(0), vi(1)));
    let loose = h.insert_unmapped(&77);
    assert_eq!((a, b, again, loose), (vi(3), vi(4), vi(3), vi(5)));
    assert_eq!(*h.get_vertex(&vi(1)), 1);
    assert_eq!(*h.get_vertex(&vi(4)), 30);
    let reversed = h.get_idx(&(vi(1), vi(0)));
    assert_eq!(reversed, vi(6));
    assert_eq!(*h.get_vertex(&vi(3)), 10);
    assert_eq!(*h.get_vertex(&vi(5)), 77);
    assert_eq!(h.retrieve_data().to_raw(), vec![10, 30, 77, 10]);
}

#[test]
fn render_mode_default_is_wireframe() {
    assert_eq!(RenderMode::default(), RenderMode::Frame);
}

#[test]
fn mesh_mergeable_only_fails_on_second_degenerate_triangle() {
    assert!(mesh_with(12, icosahedron_indices().to_vec(), vec![]).is_mergeable());
    // The second triangle on edge (0,1) has no corner off it.
    assert!(!mesh_with(3, vec![tri(0, 1, 2), tri(0, 1, 1)], vec![]).is_mergeable());
    // A degenerate triangle that comes first on its shared edge does no harm.
    assert!(mesh_with(3, vec![tri(0, 1, 1), tri(0, 1, 2)], vec![]).is_mergeable());
}

#[test]
fn dual_faces_by_corner_count() {
    let five: Vec<VertexIndex> = (0..5).map(vi).collect();
    let six: Vec<VertexIndex> = (0..6).map(vi).collect();
    assert_eq!(dual_face(&five), Some(DualFace::Pentagon(Polygon { verts: [vi(0), vi(1), vi(2), vi(3), vi(4)] })));
    assert_eq!(
        dual_face(&six),
        Some(DualFace::Hexagon(Polygon { verts: [vi(0), vi(1), vi(2), vi(3), vi(4), vi(5)] }))
    );
    assert_eq!(dual_face(&vec![vi(0), vi(1), vi(2), vi(3)]), None);
    assert_eq!(dual_face(&(0..7).map(vi).collect()), None);
}
