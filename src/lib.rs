pub mod aliases;
pub mod builder;
pub mod formatter;
pub mod hover;
pub mod laws;
pub mod parser;
pub mod position;
pub mod reader;
