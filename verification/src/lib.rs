//! Verified pieces of a multilinear STARK backend over the BabyBear field.

pub mod algebra;
pub mod bits;
pub mod code_laws;
pub mod codec;
pub mod commitment;
pub mod config;
pub mod cpu_merkle;
pub mod cpu_transcript;
pub mod digest_layers;
pub mod error;
pub mod extension;
pub mod field;
pub mod hasher;
pub mod keys;
pub mod layout_laws;
pub mod matrix;
pub mod merkle_tree;
pub mod meter;
pub mod multi_field;
pub mod multilinear;
pub mod packed;
pub mod params;
pub mod poly;
pub mod poseidon2;
pub mod prime;
pub mod proofs;
pub mod reed_solomon;
pub mod stacked_layout;
pub mod stacked_pcs;
pub mod transcript;
pub mod tree;
pub mod verification;
