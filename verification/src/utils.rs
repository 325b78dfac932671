//! Padding, truncation, and texts as bytes.

pub mod padding;
pub mod text;
pub mod truncation;
