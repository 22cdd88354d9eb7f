//! What the operations of the library are for: what comes out of them, by what went in.
pub mod bits;
pub mod cfa;
pub mod dct;
pub mod dng;
pub mod header;
pub mod huffman;
pub mod pairs;
pub mod raspberrypi;
pub mod readable;
pub mod scan;
pub mod single;
pub mod text;
pub mod tiff;
pub mod tiles;
pub mod unpack;
pub mod yuv;
