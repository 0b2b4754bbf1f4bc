//! The coders that the library carries itself.

pub mod bcj2;
pub mod range_coder;
