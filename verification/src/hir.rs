pub mod hir;
pub mod noder;
