pub mod celestial;
pub mod chemistry;
