//! Lossless JPEG.
pub mod decode;
pub mod decompressors;
pub mod frame;
pub mod header;
pub mod huffman;
pub mod pairs;
pub mod scan;
pub mod yuv;
