//! The weights of one decoder layer that do not belong to its mixer.
use vstd::prelude::*;

verus! {

/// The weights of the feed-forward part.
pub struct MlpWeights<T> {
    /// `[intermediate, hidden]`
    pub gate_proj: Vec<T>,
    /// `[intermediate, hidden]`
    pub up_proj: Vec<T>,
    /// `[hidden, intermediate]`
    pub down_proj: Vec<T>,
}

/// The weights of a layer besides those of its mixer.
pub struct LayerWeights<T> {
    /// `[hidden]`
    pub input_layernorm: Vec<T>,
    /// `[hidden]`
    pub post_attention_layernorm: Vec<T>,
    pub mlp: MlpWeights<T>,
}

} // verus!
