//! Recognition on Windows.

pub mod image;
pub mod page;
