pub mod edge_maps;
pub mod generation;
pub mod hashed_vertices;
pub mod laws;
pub mod mesh_data;
pub mod subdivision;
pub mod vertices;
pub mod face_laws;
