pub mod block;
pub mod block_laws;
pub mod compile;
pub mod compile_laws;
pub mod idle;
pub mod text;
