pub mod analyzer;
pub mod chars;
pub mod sentences;

pub use analyzer::{TextAnalysis, WordToken};
