//! The pause that punctuation adds to a keystroke.
use vstd::prelude::*;

verus! {

/// The base pause, in milliseconds, that typing `character` adds before the
/// random factor is applied: 300 after a comma, 500 after a sentence end, 350
/// after a colon or semicolon, the configured pause after a line break, and
/// none otherwise.
pub open spec fn punctuation_base(character: char, punctuation_pause_ms: u64) -> u64 {
    if character == ',' {
        300
    } else if character == '.' || character == '!' || character == '?' {
        500
    } else if character == ':' || character == ';' {
        350
    } else if character == '\n' {
        punctuation_pause_ms
    } else {
        0
    }
}

/// The base punctuation pause of `character`; the caller scales it by a random
/// factor.
pub fn punctuation_pause_base(character: char, punctuation_pause_ms: u64) -> (ms: u64)
    ensures
        ms == punctuation_base(character, punctuation_pause_ms),
{
    match character {
        ',' => 300,
        '.' | '!' | '?' => 500,
        ':' | ';' => 350,
        '\n' => punctuation_pause_ms,
        _ => 0,
    }
}

} // verus!
