//! Core of a local speech-to-text engine: the recording and model-lifecycle
//! state machines, the vocabulary table with its detokenizer, and the greedy
//! token-and-duration transducer decode step that drives transcription.
//!
//! Everything that touches tensors, files or the network lives outside this
//! crate; the functions here work on plain values (byte strings, token ids,
//! integer-coded logits) and carry contracts for what they compute.

pub mod decode;
pub mod engine;
pub mod errors;
pub mod vocab;
