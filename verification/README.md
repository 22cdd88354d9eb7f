# rawloader

Reading of raw sensor images: DNG files, and the raw images that Raspberry Pi cameras append to
their JPEG files. The library is written in Verus; what its functions return is stated in their
contracts and proved.

- `src/ljpeg/` lossless JPEG: headers, Huffman codes, and the kinds of scans
- `src/dct.rs` DCT-compressed JPEG, decoded by `oxideav-mjpeg` and placed in the image here
- `src/dng/` DNG files: strips and tiles, crops, and what else a file says of its image
- `src/raspberrypi.rs` the images of Raspberry Pi cameras
- `src/tiff.rs`, `src/single.rs`, `src/cfa.rs`, `src/camera.rs` entries of a file, single-precision
  numbers by their bits, color filters, cameras and images
- `src/bits.rs`, `src/unpack.rs`, `src/region.rs`, `src/text.rs` bit streams, packed samples,
  rectangles of an image, messages
- `app/` what needs floating point: white balance and the offsets of black levels

The functions of the library that are not verified are the two in `src/dct.rs` that call
`oxideav-mjpeg`.
