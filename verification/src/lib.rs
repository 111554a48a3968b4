//! LCEVC enhancement-layer coding.
//!
//! The crate writes and reads enhancement-layer NAL units, holds the frame pipeline between a
//! base picture and the enhanced picture, muxes both streams, and takes the decisions of the
//! command-line encoder around it.
pub mod annexb;
pub mod base;
pub mod bitstream;
pub mod blocks;
pub mod capacity;
pub mod cli;
pub mod coding;
pub mod config;
pub mod decoder;
pub mod dequant;
pub mod encoder;
pub mod entropy;
pub mod fidelity;
pub mod frame;
pub mod framing;
pub mod geometry;
pub mod gop;
pub mod header_laws;
pub mod layout;
pub mod movie;
pub mod mp4;
pub mod nal;
pub mod numbers;
pub mod options;
pub mod payload;
pub mod picture;
pub mod plane;
pub mod quant;
pub mod rate;
pub mod reconstruct;
pub mod resolution;
pub mod runs;
pub mod selection;
pub mod selfcheck;
pub mod session;
pub mod simd;
pub mod spatial;
pub mod steps;
pub mod stream;
pub mod text;
pub mod tiles;
pub mod transform;
pub mod tu;
pub mod upscale;
pub mod wiring;
pub mod y4m;
pub mod y4m_header;
pub mod yuv;
