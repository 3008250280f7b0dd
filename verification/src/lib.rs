//! Loading, checking and addressing the weights of a safetensors checkpoint.
pub mod aligned;
pub mod args;
pub mod attention;
pub mod bundle;
pub mod bytes;
pub mod cache;
pub mod checkpoint;
pub mod checks;
pub mod compare;
pub mod corpus;
pub mod delta;
pub mod float_bits;
pub mod fuzz;
pub mod gdn;
pub mod header;
pub mod json;
pub mod layer;
pub mod layout;
pub mod loader;
pub mod logits;
pub mod model;
pub mod names;
pub mod oracle;
pub mod plan;
pub mod reader;
pub mod safetensors;
pub mod samples;
pub mod selftest;
pub mod shards;
pub mod summary;
pub mod text;
