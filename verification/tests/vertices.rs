use std::f32::consts::PI;

use planet_sim::mesh::mesh_data::MeshData;
use planet_sim::mesh::vertices::{Hexagon, Line, PolygonArray, Quad, Triangle, VertexArray, VertexIndex};

type Vertex = [f32; 3];

fn generate_vertex(i: usize) -> Vertex {
    if i == 0 {
        [0.0, 0.0, 0.0]
    } else {
        // The unit x axis rotated about the y axis by i * 60 degrees.
        let angle = i as f32 * PI / 3.0;
        [angle.cos(), 0.0, -angle.sin()]
    }
}

fn fill_vertex_array(a: &mut VertexArray<Vertex>) {
    for i in 0..7 {
        a.add(generate_vertex(i));
    }
}

fn cross(a: Vertex, b: Vertex) -> Vertex {
    [a[1] * b[2] - a[2] * b[1], a[2] * b[0] - a[0] * b[2], a[0] * b[1] - a[1] * b[0]]
}

////////////////////////////////////////
// VERTEX ARRAY TESTS
////////////////////////////////////////

#[test]
fn vertex_array_add() {
    let mut test_subject: VertexArray<Vertex> = VertexArray::default();
    for i in 0..3 {
        let vertex = Vertex::default();
        let index = test_subject.add(vertex);
        assert_eq!(index.0, i);
    }
    assert_eq!(test_subject.count(), 3);
    assert_eq!(test_subject.to_raw(), vec![Vertex::default(), Vertex::default(), Vertex::default()])
}

#[test]
fn vertex_array_get() {
    let mut test_subject = VertexArray::default();
    fill_vertex_array(&mut test_subject);
    for i in 0..7 {
        let vert = test_subject.get(&VertexIndex(i));
        assert_eq!(*vert, generate_vertex(i));
    }
}

#[test]
fn vertex_array_count() {
    let mut test_subject = VertexArray::default();
    fill_vertex_array(&mut test_subject);
    assert_eq!(test_subject.count(), 7);
}

#[test]
fn vertex_array_append() {
    let mut test_subject = VertexArray::default();
    let mut test_subject_b = VertexArray::default();
    fill_vertex_array(&mut test_subject);
    fill_vertex_array(&mut test_subject_b);
    test_subject.append(test_subject_b);
    for i in 0..14 {
        let vert = test_subject.get(&VertexIndex(i));
        assert_eq!(*vert, generate_vertex(i % 7));
    }
}

#[test]
fn vertex_array_to_raw() {
    let mut test_subject = VertexArray::default();
    fill_vertex_array(&mut test_subject);
    let raw = test_subject.to_raw();
    assert_eq!(raw.len(), 7);
    for i in 0..7 {
        let vert = test_subject.get(&VertexIndex(i));
        assert_eq!(vert[0], raw[i][0]);
        assert_eq!(vert[1], raw[i][1]);
        assert_eq!(vert[2], raw[i][2]);
    }
}

////////////////////////////////////////
// POLYGON TESTS
////////////////////////////////////////

fn generate_polygons() -> (Line, Triangle, Quad, Hexagon) {
    (
        Line { verts: [VertexIndex(0), VertexIndex(1)] },
        Triangle { verts: [VertexIndex(0), VertexIndex(2), VertexIndex(3)] },
        Quad { verts: [VertexIndex(2), VertexIndex(3), VertexIndex(5), VertexIndex(6)] },
        Hexagon {
            verts: [VertexIndex(1), VertexIndex(2), VertexIndex(3), VertexIndex(4), VertexIndex(5), VertexIndex(6)],
        },
    )
}

#[test]
fn polygon_find_edge_position() {
    let (line, triangle, quad, hexagon) = generate_polygons();

    let test_edge = (VertexIndex(0), VertexIndex(1));
    assert_eq!(line.find_edge_positions(&test_edge).expect("Edge not found"), (0, 1));

    let test_edge = (VertexIndex(3), VertexIndex(0));
    assert_eq!(triangle.find_edge_positions(&test_edge).expect("Edge not found"), (2, 0));

    let test_edge = (VertexIndex(5), VertexIndex(3));
    assert_eq!(quad.find_edge_positions(&test_edge).expect("Edge not found"), (1, 2));

    let test_edge = (VertexIndex(1), VertexIndex(6));
    assert_eq!(hexagon.find_edge_positions(&test_edge).expect("Edge not found"), (5, 0));
}

#[test]
fn polygon_get_edges() {
    let (line, triangle, quad, _) = generate_polygons();

    assert_eq!(line.get_edges(), [(VertexIndex(0), VertexIndex(1))]);

    assert_eq!(
        triangle.get_edges(),
        [(VertexIndex(0), VertexIndex(2)), (VertexIndex(2), VertexIndex(3)), (VertexIndex(0), VertexIndex(3))]
    );

    assert_eq!(
        quad.get_edges(),
        [
            (VertexIndex(2), VertexIndex(3)),
            (VertexIndex(3), VertexIndex(5)),
            (VertexIndex(5), VertexIndex(6)),
            (VertexIndex(2), VertexIndex(6))
        ]
    );
}

////////////////////////////////////////
// MESH DATA TESTS
////////////////////////////////////////

fn generate_mesh() -> MeshData<Vertex> {
    let mut vertices = VertexArray::default();
    fill_vertex_array(&mut vertices);
    let (line, triangle, quad, hex) = generate_polygons();
    let mesh = MeshData {
        vertices,
        lines: PolygonArray::new(&vec![line]),
        triangles: PolygonArray::new(&vec![triangle]),
        quads: PolygonArray::new(&vec![quad]),
        hex: PolygonArray::new(&vec![hex]),
        ..Default::default()
    };
    // The orientation frame with normal y and tangent x has bitangent z.
    let (normal, tangent) = ([0.0, 1.0, 0.0], [1.0, 0.0, 0.0]);
    assert_eq!(cross(tangent, normal), [0.0, 0.0, 1.0]);
    mesh
}

#[test]
fn mesh_data_get_edges_of_triangle() {
    let mut test_subject = generate_mesh();
    test_subject.triangles.add(Triangle { verts: [VertexIndex(0), VertexIndex(3), VertexIndex(4)] });
    let edges = test_subject.get_edges_of_triangles();

    assert_eq!(*edges.get(&(VertexIndex(0), VertexIndex(2))).expect("Could not find edge"), vec![0 as usize]);
    assert_eq!(*edges.get(&(VertexIndex(2), VertexIndex(3))).expect("Could not find edge"), vec![0 as usize]);
    let shared_edge = edges.get(&(VertexIndex(0), VertexIndex(3))).expect("Could not find edge");
    assert!(shared_edge.contains(&1));
    assert!(shared_edge.contains(&0));
}

#[test]
fn mesh_data_generate_neighbour_map() {
    let test_subject = generate_mesh();
    let list = test_subject.generate_neighbour_map();

    println!("Neighbour list: {:?}", list);
    assert!(list[2].contains(&VertexIndex(3)) && list[2].contains(&VertexIndex(6)));
    assert!(list[3].contains(&VertexIndex(2)) && list[3].contains(&VertexIndex(5)));
    assert!(list[5].contains(&VertexIndex(3)) && list[5].contains(&VertexIndex(6)));
    assert!(list[6].contains(&VertexIndex(5)) && list[6].contains(&VertexIndex(2)));
}

#[test]
fn mesh_data_reduce_to_lines() {
    let mut test_subject = generate_mesh();
    test_subject.reduce_to_lines();
    let lines = test_subject.lines.data;
    println!("{:?}", lines);
    assert!(lines.contains(&Line { verts: [VertexIndex(0), VertexIndex(1)] }));

    assert!(lines.contains(&Line { verts: [VertexIndex(0), VertexIndex(2)] }));
    assert!(lines.contains(&Line { verts: [VertexIndex(2), VertexIndex(3)] }));
    assert!(lines.contains(&Line { verts: [VertexIndex(3), VertexIndex(0)] }));

    assert!(lines.contains(&Line { verts: [VertexIndex(2), VertexIndex(3)] }));
    assert!(lines.contains(&Line { verts: [VertexIndex(3), VertexIndex(5)] }));
    assert!(lines.contains(&Line { verts: [VertexIndex(5), VertexIndex(6)] }));
    assert!(lines.contains(&Line { verts: [VertexIndex(6), VertexIndex(2)] }));
}
