//! The supervisor, which runs with the highest privileges.
pub mod exception;
