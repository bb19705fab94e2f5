//! The built-in synths' note handling.

pub mod bass;
pub mod drum;
pub mod poly;
