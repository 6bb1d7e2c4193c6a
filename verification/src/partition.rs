pub mod grid;
