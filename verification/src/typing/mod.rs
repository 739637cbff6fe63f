pub mod clock;
pub mod engine;
pub mod random;
pub mod timing;

pub use engine::{EngineCommand, EngineEvent, EngineStats, TypingEngine};
