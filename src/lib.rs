pub mod args;
pub mod chunk;
pub mod chunk_type;
pub mod png;
mod text;
