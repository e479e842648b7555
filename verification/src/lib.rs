//! Planet-simulation library: the combinatorial mesh core, chemistry tables,
//! color parsing and the input/selection decisions of the planet simulator.

pub mod color;
pub mod input;
pub mod mesh;
pub mod plugins;
pub mod resources;
pub mod ui;
pub mod world;
