//! Exceptions.
pub mod vc;
