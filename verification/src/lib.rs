//! The host side of an inference engine.
//!
//! What the engine decides is here: how pages of cached keys and values are
//! shared out, which pieces of which prompts go into a prefill call, which
//! kernels a step launches on which buffers and what it copies back, how a
//! conversation becomes a prompt, and what the two HTTP adapters answer. The
//! arithmetic of the kernels, the device and the network are not: they are
//! handed plain values and hand plain values back.
//!
//! - [`paged`], [`cache`]: storage of keys and values; [`tenancy`]: what holds of
//!   a pool that many sequences share
//! - [`prefill`], [`packed`]: planning prompt work, and its metadata
//! - [`launch`], [`dataflow`], [`profile`], [`graphs`], [`gpu`]: what is launched
//! - [`gpu_model`], [`model`], [`quant`], [`config`]: the model around it
//! - [`equations`]: what a transformer computes; [`interpret`], [`interpret_cpu`],
//!   [`steps`]: that the launched operations compute it
//! - [`openai`], [`anthropic`], [`chat_template`], [`service`], [`protocol`]: the
//!   adapters
//! - [`harness`]: workloads and verdicts of the command-line checks
pub mod anthropic;
pub mod cache;
pub mod calendar;
pub mod chat_template;
pub mod config;
pub mod dataflow;
pub mod equations;
pub mod gpu;
pub mod gpu_error;
pub mod gpu_model;
pub mod graphs;
pub mod harness;
pub mod ids;
pub mod interpret;
pub mod interpret_cpu;
pub mod launch;
pub mod math;
pub mod model;
pub mod openai;
pub mod packed;
pub mod paged;
pub mod prefill;
pub mod profile;
pub mod protocol;
pub mod quant;
pub mod service;
pub mod steps;
pub mod tenancy;
pub mod text;
pub mod wire;

pub use cache::KvCache;
pub use config::Config;
pub use model::Model;
pub use paged::{PagePool, SequencePages, PAGE_TOKENS};
pub use quant::QuantTensor;
