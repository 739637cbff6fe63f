//! The keyboard input that the typing engine sends: each key press and
//! release as a plain value, in the order they are sent.
use vstd::prelude::*;

use crate::typing::engine::EngineCommand;

verus! {

/// The virtual key of backspace.
pub const VK_BACK: u16 = 0x08;

/// The virtual key of the left control key.
pub const VK_LCONTROL: u16 = 0xA2;

/// The virtual key of Home.
pub const VK_HOME: u16 = 0x24;

/// The virtual key of End.
pub const VK_END: u16 = 0x23;

/// The virtual key of the right arrow.
pub const VK_RIGHT: u16 = 0x27;

/// One keyboard event: a virtual key, or a UTF-16 unit typed as unicode
/// input; pressed or released.
#[derive(Clone, Copy, Debug, PartialEq, Eq, Structural)]
pub struct KeyInput {
    pub virtual_key: u16,
    pub scan: u16,
    pub unicode: bool,
    pub key_up: bool,
}

/// The UTF-16 units of `c`: the code point itself below U+10000, else the
/// surrogate pair that encodes it.
pub open spec fn utf16_units(c: char) -> Seq<u16> {
    let v = c as u32;
    if v < 0x10000 {
        seq![v as u16]
    } else {
        seq![(0xD800 + (v - 0x10000) / 0x400) as u16, (0xDC00 + (v - 0x10000) % 0x400) as u16]
    }
}

/// The code point that one unit, or a surrogate pair, of UTF-16 encodes.
pub open spec fn decode_utf16(units: Seq<u16>) -> int {
    if units.len() == 1 {
        units[0] as int
    } else {
        0x10000 + (units[0] - 0xD800) * 0x400 + (units[1] - 0xDC00)
    }
}

/// The event that presses (`up` false) or releases the UTF-16 unit `unit`
/// as unicode input.
pub open spec fn unit_event(unit: u16, up: bool) -> KeyInput {
    KeyInput { virtual_key: 0, scan: unit, unicode: true, key_up: up }
}

/// The event that presses or releases the virtual key `vk`.
pub open spec fn key_event(vk: u16, up: bool) -> KeyInput {
    KeyInput { virtual_key: vk, scan: 0, unicode: false, key_up: up }
}

/// Pressing and releasing `vk`.
pub open spec fn tap(vk: u16) -> Seq<KeyInput> {
    seq![key_event(vk, false), key_event(vk, true)]
}

/// Typing `c`: a press and a release of each of its UTF-16 units, in order.
pub open spec fn char_events(c: char) -> Seq<KeyInput> {
    let u = utf16_units(c);
    if u.len() == 1 {
        seq![unit_event(u[0], false), unit_event(u[0], true)]
    } else {
        seq![
            unit_event(u[0], false),
            unit_event(u[0], true),
            unit_event(u[1], false),
            unit_event(u[1], true),
        ]
    }
}

/// Law: the units that typing `c` sends decode to `c`; a single unit is no
/// surrogate, and a pair is a high surrogate followed by a low one.
pub proof fn lemma_utf16_round_trip(c: char)
    ensures
        decode_utf16(utf16_units(c)) == c as u32,
        utf16_units(c).len() == 1 ==> !(0xD800 <= utf16_units(c)[0] <= 0xDFFF),
        utf16_units(c).len() == 2 ==> 0xD800 <= utf16_units(c)[0] <= 0xDBFF && 0xDC00
            <= utf16_units(c)[1] <= 0xDFFF,
{
    vstd::utf8::char_is_scalar(c);
    let v = c as u32;
    if v >= 0x10000 {
        let w = v - 0x10000;
        assert(w / 0x400 * 0x400 + w % 0x400 == w);
        assert(w / 0x400 <= 0x3FF);
    }
}

/// Tapping `vk` `n` times.
pub open spec fn taps(vk: u16, n: nat) -> Seq<KeyInput>
    decreases n,
{
    if n == 0 {
        seq![]
    } else {
        taps(vk, (n - 1) as nat) + tap(vk)
    }
}

/// Typing the characters of `s` one after the other.
pub open spec fn typed_events(s: Seq<char>) -> Seq<KeyInput>
    decreases s.len(),
{
    if s.len() == 0 {
        seq![]
    } else {
        typed_events(s.drop_last()) + char_events(s.last())
    }
}

/// Replacing a word: control and Home go to the start of the text, the
/// right arrow moves `character_count` characters on, backspace is pressed
/// `word_length` times, `replacement` is typed, and End goes to the end.
pub open spec fn revision_events(character_count: nat, word_length: nat, replacement: Seq<char>) -> Seq<
    KeyInput,
> {
    seq![
        key_event(VK_LCONTROL, false),
        key_event(VK_HOME, false),
        key_event(VK_HOME, true),
        key_event(VK_LCONTROL, true),
    ] + taps(VK_RIGHT, character_count) + taps(VK_BACK, word_length) + typed_events(replacement)
        + tap(VK_END)
}

fn unit_input(unit: u16, key_up: bool) -> (k: KeyInput)
    ensures
        k == unit_event(unit, key_up),
{
    KeyInput { virtual_key: 0, scan: unit, unicode: true, key_up }
}

fn key_input(vk: u16, key_up: bool) -> (k: KeyInput)
    ensures
        k == key_event(vk, key_up),
{
    KeyInput { virtual_key: vk, scan: 0, unicode: false, key_up }
}

/// The input that types `character`: a press and a release of each of its
/// UTF-16 units as unicode input.
pub fn send_char(character: char) -> (inputs: Vec<KeyInput>)
    ensures
        inputs@ == char_events(character),
{
    proof {
        vstd::utf8::char_is_scalar(character);
    }
    let v = character as u32;
    let mut inputs = Vec::new();
    if v < 0x10000 {
        let unit = v as u16;
        inputs.push(unit_input(unit, false));
        inputs.push(unit_input(unit, true));
    } else {
        let w = v - 0x10000;
        let high = (0xD800 + w / 0x400) as u16;
        let low = (0xDC00 + w % 0x400) as u16;
        inputs.push(unit_input(high, false));
        inputs.push(unit_input(high, true));
        inputs.push(unit_input(low, false));
        inputs.push(unit_input(low, true));
    }
    proof {
        assert(inputs@ =~= char_events(character));
    }
    inputs
}

/// The input that presses and releases backspace.
pub fn send_backspace() -> (inputs: Vec<KeyInput>)
    ensures
        inputs@ == tap(VK_BACK),
{
    let mut inputs = Vec::new();
    inputs.push(key_input(VK_BACK, false));
    inputs.push(key_input(VK_BACK, true));
    proof {
        assert(inputs@ =~= tap(VK_BACK));
    }
    inputs
}

/// Appends `n` taps of `vk` to `inputs`.
fn push_taps(inputs: &mut Vec<KeyInput>, vk: u16, n: usize)
    ensures
        final(inputs)@ == old(inputs)@ + taps(vk, n as nat),
{
    let ghost start = inputs@;
    let mut i: usize = 0;
    proof {
        assert(start + taps(vk, 0) =~= start);
    }
    while i < n
        invariant
            i <= n,
            inputs@ == start + taps(vk, i as nat),
        decreases n - i,
    {
        inputs.push(key_input(vk, false));
        inputs.push(key_input(vk, true));
        proof {
            assert(taps(vk, (i + 1) as nat) == taps(vk, i as nat) + tap(vk));
            assert(inputs@ =~= start + taps(vk, (i + 1) as nat));
        }
        i = i + 1;
    }
}

/// The input that replaces a word of the typed text: see `revision_events`.
pub fn send_revision_navigation(character_count: usize, word_length: usize, replacement: &str) -> (inputs:
    Vec<KeyInput>)
    ensures
        inputs@ == revision_events(character_count as nat, word_length as nat, replacement@),
{
    let mut inputs = Vec::new();
    inputs.push(key_input(VK_LCONTROL, false));
    inputs.push(key_input(VK_HOME, false));
    inputs.push(key_input(VK_HOME, true));
    inputs.push(key_input(VK_LCONTROL, true));
    let ghost head = inputs@;
    push_taps(&mut inputs, VK_RIGHT, character_count);
    push_taps(&mut inputs, VK_BACK, word_length);
    let ghost before_text = inputs@;
    let ghost s = replacement@;
    let mut it = replacement.chars();
    let ghost mut i: int = 0;
    proof {
        assert(s.skip(0) =~= s);
        assert(s.take(0) =~= Seq::<char>::empty());
        assert(before_text + typed_events(s.take(0)) =~= before_text);
    }
    loop
        invariant_except_break
            0 <= i <= s.len(),
            vstd::std_specs::iter::IteratorSpec::remaining(&it) == s.skip(i),
            inputs@ == before_text + typed_events(s.take(i)),
        ensures
            inputs@ == before_text + typed_events(s),
        decreases s.len() - i,
    {
        match it.next() {
            None => {
                proof {
                    assert(s.take(i) =~= s);
                }
                break ;
            },
            Some(c) => {
                proof {
                    assert(s.skip(i).drop_first() =~= s.skip(i + 1));
                    assert(c == s[i]);
                    assert(s.take(i + 1).drop_last() =~= s.take(i));
                    assert(s.take(i + 1).last() == c);
                }
                let mut typed = send_char(c);
                inputs.append(&mut typed);
                proof {
                    assert(inputs@ =~= before_text + typed_events(s.take(i + 1)));
                    i = i + 1;
                }
            },
        }
    }
    inputs.push(key_input(VK_END, false));
    inputs.push(key_input(VK_END, true));
    proof {
        assert(head =~= seq![
            key_event(VK_LCONTROL, false),
            key_event(VK_HOME, false),
            key_event(VK_HOME, true),
            key_event(VK_LCONTROL, true),
        ]);
        assert(inputs@ =~= revision_events(character_count as nat, word_length as nat, s));
    }
    inputs
}

/// The command that the hotkey registered under `id` sends: F6 (`1`) starts
/// the last prepared run, F7 (`2`) toggles the pause, F8 (`3`) stops; other
/// ids send nothing.
pub open spec fn hotkey_spec<S>(id: usize) -> Option<EngineCommand<S>> {
    if id == 1 {
        Some(EngineCommand::StartLast)
    } else if id == 2 {
        Some(EngineCommand::TogglePause)
    } else if id == 3 {
        Some(EngineCommand::Stop)
    } else {
        None
    }
}

/// The command that the hotkey registered under `id` sends.
pub fn hotkey_command<S>(id: usize) -> (command: Option<EngineCommand<S>>)
    ensures
        command == hotkey_spec::<S>(id),
{
    match id {
        1 => Some(EngineCommand::StartLast),
        2 => Some(EngineCommand::TogglePause),
        3 => Some(EngineCommand::Stop),
        _ => None,
    }
}

/// Law: F8 is an emergency stop: its command ends any run; F7 flips the
/// pause of any run and keeps it going; F6 begins the last prepared run.
pub proof fn lemma_hotkeys<S>(paused: bool, last: Option<(String, S)>)
    ensures
        hotkey_spec::<S>(3) matches Some(c) && c is Stop,
        hotkey_spec::<S>(2) matches Some(c) && !(c is Stop) && crate::typing::engine::paused_after(
            paused,
            c,
        ) == !paused,
        hotkey_spec::<S>(1) matches Some(c) && crate::typing::engine::idle_decision(last, Some(c))
            == if last is Some {
            crate::typing::engine::IdleStep::Begin
        } else {
            crate::typing::engine::IdleStep::Wait
        },
{
}

} // verus!
