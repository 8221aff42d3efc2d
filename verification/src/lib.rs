//! Codec that turns an annotated STARK proof into the exact numeric
//! call arguments an EVM verifier contract expects.

pub mod annotations;
pub mod assemble;
pub mod bigops;
pub mod bytes;
pub mod encode;
pub mod field;
pub mod fri;
pub mod hash;
pub mod hexfmt;
pub mod model;
pub mod pagehash;
pub mod pages;
pub mod parse;
pub mod pipeline;
pub mod products;
pub mod tasks;
pub mod transcript;
