pub mod context;
pub mod file_context;
pub mod gate;
pub mod parser;
