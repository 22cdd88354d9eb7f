//! DNG files.
pub mod crop;
pub mod decoder;
pub mod jpeg;
