//! A weighted order-3 Markov chain text engine: vocabulary interning,
//! context-keyed transition weights, two training strategies, a
//! weighted-random generation walk, and a binary persistence format.

pub mod auth;
pub mod chain;
pub mod codec;
pub mod training;
pub mod words;
