pub mod ast_store;
pub mod builder;
pub mod context;
pub mod hir_store;
pub mod mir_store;
pub mod module;
pub mod str_store;
pub mod ty_store;
