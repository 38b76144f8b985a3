pub mod basic_marching_cubes;
pub mod chunk_manager;
pub mod table_reader;
