//! The settings that the typing run decides by.
use vstd::prelude::*;

verus! {

/// The integer and on/off settings that a typing run decides by. The rates,
/// probabilities, speeds and delays stay with the caller, which rolls the dice
/// and times the keystrokes.
#[derive(Clone, Copy, Debug, PartialEq, Eq, Structural)]
pub struct TypingSettings {
    pub mistakes_enabled: bool,
    pub thinking_enabled: bool,
    pub thinking_min_ms: u64,
    pub thinking_max_ms: u64,
    pub revision_enabled: bool,
    pub revision_min_seconds: u64,
    pub revision_max_seconds: u64,
    pub max_revisions: u32,
}

impl Default for TypingSettings {
    fn default() -> (s: Self)
        ensures
            s.mistakes_enabled,
            s.thinking_enabled && s.thinking_min_ms == 1000 && s.thinking_max_ms == 3000,
            s.revision_enabled && s.revision_min_seconds == 8 && s.revision_max_seconds == 38,
            s.max_revisions == 2,
    {
        TypingSettings {
            mistakes_enabled: true,
            thinking_enabled: true,
            thinking_min_ms: 1000,
            thinking_max_ms: 3000,
            revision_enabled: true,
            revision_min_seconds: 8,
            revision_max_seconds: 38,
            max_revisions: 2,
        }
    }
}

} // verus!
