pub mod lines;
pub mod parser;
pub mod rope;
pub mod syntax;
pub mod text_buffer;
