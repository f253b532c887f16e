//! Codec for CPTV thermal video clips: the bit packer, the snaking
//! predictive coder, the tagged field container and a resumable streaming
//! decoder, each with its behaviour stated and proved.
pub mod bits;
pub mod frame;
pub mod codec;
pub mod predict;
pub mod fields;
pub mod header;
pub mod container;
pub mod stats;
pub mod decoder;
pub mod encoder;
pub mod roundtrip;
pub mod compat;
