//! A small file archiver built on a run-length byte codec.
//!
//! The library holds the verified core: the run-length codec, the archive
//! container layout (entry count, directory table, payload region) and the
//! pack/unpack transforms between file contents and archive bytes.  All
//! file-system and console work lives outside, in the surrounding
//! application, which hands the library plain paths and byte buffers.

pub mod codec;
pub mod compressor;
pub mod container;
pub mod models;
pub mod text;
pub mod utils;
