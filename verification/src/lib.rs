//! A CPU inference engine for small language models: the file formats, the block quantization
//! formats, the integer kernels, the execution plans and the generation loop.
//!
//! The crate holds no floating-point arithmetic. A floating-point value travels through it as its
//! bit pattern or as a value of a type parameter, and what only floating-point arithmetic can
//! compute is a function that the caller passes in or a step that the caller performs.

pub mod bytes;
pub mod quant;
pub mod tensor;
pub mod pack;
pub mod product;
pub mod float;
pub mod activation;
pub mod simd;
pub mod text;
pub mod json;
pub mod gguf;
pub mod written;
pub mod config;
pub mod cache;
pub mod backend;
pub mod kernels;
pub mod architecture;
pub mod model;
pub mod benchmark;
pub mod track;
pub mod store;
pub mod loader;
pub mod sampling;
pub mod settings;
pub mod engine;

pub use engine::{EngineOptions, InferenceEngine};
pub use loader::{LoadOptions, LoadQuantization, ModelLoader};
