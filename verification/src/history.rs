//! The replayed market: its events and where they come from.

pub mod parser;
pub mod reader;
pub mod text;
pub mod types;
