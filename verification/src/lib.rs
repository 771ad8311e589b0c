//! Verified codecs and layout logic for HyperPlonk proofs over KoalaBear with Keccak Merkle
//! commitments: the `HPK1` proof blob, the ABI calldata of the on-chain `verify(bytes)`
//! entry point, its JSON payload, the Keccak leaf and node hashers, the concatenation of
//! matrices into one multilinear polynomial, and the proof configuration.
pub mod blob;
pub mod bytes;
pub mod calldata;
pub mod concat;
pub mod config;
pub mod constraint;
pub mod decode;
pub mod encode;
pub mod field;
pub mod format;
pub mod keccak;
pub mod layout;
pub mod model;
pub mod offsets;
pub mod parse;
pub mod render;
pub mod roundtrip;
pub mod strict;
pub mod wellformed;
