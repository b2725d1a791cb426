//! Real text: a SentencePiece BPE tokenizer and a streaming corpus reader.

pub mod documents;
pub mod encode;
pub mod merge;
pub mod stream;
pub mod text;
pub mod tokenizer;
pub mod vocabulary;
pub mod wire;
