//! Reading of raw sensor images.
pub mod bits;
pub mod camera;
pub mod cfa;
pub mod dct;
pub mod dng;
pub mod laws;
pub mod ljpeg;
pub mod single;
pub mod raspberrypi;
pub mod region;
pub mod text;
pub mod tiff;
pub mod unpack;
