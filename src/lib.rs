pub mod argman;
pub mod laws;
pub mod table;
pub mod token;
