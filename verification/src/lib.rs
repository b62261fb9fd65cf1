pub mod blockheader;
pub mod codec;
pub mod compressor;
