pub mod frequency;
pub mod summarizer;
pub mod tokenizer;
