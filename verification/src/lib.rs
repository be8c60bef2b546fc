pub mod buffer;
pub mod event;
pub mod parser;
