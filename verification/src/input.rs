pub mod selection;
