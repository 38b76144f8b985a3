pub mod raw_model;
