//! Voice-clone speech synthesis with Qwen3-TTS: the verified core.
//!
//! Everything the engine decides stands here: what it reads from files, which
//! requests it admits, what goes into the model, which token may be drawn, when
//! an utterance ends, which samples are handed on. Numbers the model computes
//! with are known by their bit patterns; computing with them is left to the
//! caller.

pub mod audio;
pub mod code_predictor;
pub mod decoder;
pub mod encoder;
pub mod engine;
pub mod error;
pub mod ieee;
pub mod lang;
pub mod lowpass;
pub mod mel;
pub mod options;
pub mod pipeline;
pub mod postproc;
pub mod resample;
pub mod sampling;
pub mod schema;
pub mod speaker;
pub mod stream;
pub mod talker;
pub mod text;
pub mod tokenizer;
pub mod weights;

pub use error::TtsError;
pub use options::{EngineOptions, KernelCache};
