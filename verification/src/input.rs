pub mod input_manager;
