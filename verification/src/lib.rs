//! A grow-only set: a conflict-free replicated data type whose only
//! mutations are insertion and merging, so that independently updated
//! replicas converge to the union of everything ever inserted.

pub mod codec;
pub mod gset;

pub use codec::DecodeError;
pub use gset::GSet;
