//! Proof-of-Model possession proofs and on-chain AI requests for a Keryx miner.

pub mod bytes;
pub mod gpu;
pub mod hash;
pub mod hextext;
pub mod index;
pub mod intake;
pub mod merkle;
pub mod mix;
pub mod node;
pub mod payload;
pub mod possession;
pub mod request;
pub mod split;
pub mod template;
pub mod text;
pub mod wire;
