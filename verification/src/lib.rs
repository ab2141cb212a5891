pub mod laws;
pub mod table;
