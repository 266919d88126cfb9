//! What does not belong to one component: the error types.

pub mod exceptions;
