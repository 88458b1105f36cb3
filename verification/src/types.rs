pub mod checked_ty;
pub mod unchecked_ty;
