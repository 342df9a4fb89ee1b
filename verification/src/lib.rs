//! A verified baseline sequential JPEG decoder (SOF0, Huffman-coded,
//! 8-bit samples).
//!
//! The pipeline turns a JPEG byte stream into an RGB raster: segment
//! parsing fills quantization and Huffman tables and the frame header;
//! on SOS the MCU scheduler drives the entropy decoder, dequantization
//! and the inverse DCT into per-component sample planes; the color
//! assembler upsamples chroma and converts YCbCr to RGB.

pub mod color;
pub mod decoder;
pub mod error;
pub mod haff;
pub mod idct;
pub mod stream;
