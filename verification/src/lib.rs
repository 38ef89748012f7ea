//! Verified decision logic of a quantized mixture-of-experts causal decoder.

pub mod attention;
pub mod conv;
pub mod cross_loop_reuse;
pub mod elements;
pub mod exit;
pub mod gguf;
pub mod greedy;
pub mod ieee;
pub mod kv_cache;
pub mod kv_laws;
pub mod layers;
pub mod loop_reuse_laws;
pub mod model;
pub mod model_laws;
pub mod moe;
pub mod moe_laws;
pub mod ops;
pub mod packed;
pub mod pass;
pub mod pass_laws;
pub mod pass_runs;
pub mod pass_values;
pub mod quantized;
pub mod steering;
pub mod tensor;
