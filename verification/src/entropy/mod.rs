//! Entropy coding: Huffman ("Prefix Coding") tables and run-length symbol streams.
pub mod depth;
pub mod huffman;
pub mod prefix;
pub mod rle;
pub mod roundtrip;
pub mod tree;
