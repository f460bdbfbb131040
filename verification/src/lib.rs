//! Loading a Qwen3 language model: a JSON reader, the model configuration,
//! safetensors shards, the gathering of the model's weights from them, and
//! the byte-level BPE tokenizer. The arithmetic of the forward pass, which is
//! floating point, is not part of this library.
use vstd::prelude::*;

pub mod config;
pub mod error;
pub mod gather;
pub mod json;
pub mod number;
pub mod positions;
pub mod readback;
pub mod safetensors;
pub mod text;
pub mod tokenizer;
pub mod weights;

verus! {

} // verus!
