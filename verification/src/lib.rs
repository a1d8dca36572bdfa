pub mod board;
pub mod field;
pub mod generator;
pub mod solver;
