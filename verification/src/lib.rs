//! RustClaw: a quantized NNUE chess evaluator with its search, training data
//! handling and network file format, verified with Verus.

pub mod arith;
pub mod chess;
pub mod movegen;
pub mod text;
pub mod data;
pub mod codec;
pub mod features;
pub mod accumulator;
pub mod layers;
pub mod network;
pub mod search;
pub mod uci;
pub mod session;

