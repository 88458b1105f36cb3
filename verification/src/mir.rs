pub mod grapher;
pub mod mir;
