pub mod buffer;
pub mod workspace;
