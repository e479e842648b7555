pub mod molecule_table;
pub mod periodic_table;
