//! What the birds' agents do in a frame.

pub mod replacement;
pub mod think;
