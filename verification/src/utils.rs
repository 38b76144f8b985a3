pub mod constants;
pub mod grid;
pub mod offset;
pub mod weight;
