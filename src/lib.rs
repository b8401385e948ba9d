//! A byte-pair-encoding tokenizer for GPT vocabularies.

pub mod bpe;
pub mod codec;
pub mod pretoken;
pub mod table;
pub mod visible;
