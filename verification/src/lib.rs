//! Byte-stream compression toolkit: bit packing, BWT, MTF, range coding,
//! Huffman coding, LZ77 and the SSP symbol codec.

pub mod bit_io;
pub mod symbols;
pub mod le;
pub mod mtf;
pub mod sort;
pub mod bwt;
pub mod range_coder;
pub mod lz77;
pub mod fse;
pub mod ssp_codec;
pub mod ssp5_pipeline;
pub mod ssp5_pipeline_v2;
