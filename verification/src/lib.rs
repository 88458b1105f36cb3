pub mod ast;
pub mod codegen;
pub mod compiler;
pub mod hir;
pub mod index_vec;
pub mod mir;
pub mod types;
pub mod unicode;
