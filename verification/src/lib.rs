//! Host-side logic of a single-model Gemma 4 inference stack.

pub mod text;
pub mod heap;
pub mod vocab;
pub mod bpe;
pub mod detok;
pub mod tokenizer;
pub mod json;
pub mod argument;
pub mod schema;
pub mod template;
pub mod args;
pub mod toolcall;
pub mod inverse;
pub mod sampler;
pub mod session;
pub mod stops;
pub mod shape;
pub mod weights;
pub mod layout;
pub mod reference;
pub mod forward;
pub mod graph;
pub mod prefill;
pub mod dataflow;
pub mod meaning;
pub mod stage;
pub mod model;
pub mod probe;
