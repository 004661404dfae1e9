//! The defense layers, applied in order by the builder.

pub mod encoding;
pub mod fence;
pub mod patterns;
pub mod unicode;
