//! Verified core of the SplatForge splat toolkit: container framing, header
//! parsing, conformance checking and the integer-level codecs behind the
//! PLY, SPZ, glTF/GLB, MesonGS++ and PostHAC formats.
#![allow(unused_imports)]

pub mod text;
pub mod json;

pub mod khr;
pub mod bytes;
pub mod posthac;
pub mod coords;
pub mod ir;
pub mod detect;
pub mod ply;
pub mod ply_roundtrip;
pub mod gltf;
pub mod accessors;
pub mod streaming;
pub mod meson;
pub mod codebook;
pub mod spz;
pub mod optimize;
pub mod presets;
pub mod lodge;
pub mod index_stream;
pub mod cli;
pub mod mcp;
