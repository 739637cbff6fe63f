use auto_write::input::windows::{
    hotkey_command, send_backspace, send_char, send_revision_navigation, KeyInput, VK_BACK,
    VK_END, VK_HOME, VK_LCONTROL, VK_RIGHT,
};
use auto_write::typing::engine::EngineCommand;

fn key(vk: u16, key_up: bool) -> KeyInput {
    KeyInput { virtual_key: vk, scan: 0, unicode: false, key_up }
}

fn unicode(scan: u16, key_up: bool) -> KeyInput {
    KeyInput { virtual_key: 0, scan, unicode: true, key_up }
}

#[test]
fn send_char_presses_and_releases_unicode_input() {
    assert_eq!(send_char('a'), vec![unicode(0x61, false), unicode(0x61, true)]);
    assert_eq!(send_char('é'), vec![unicode(0xE9, false), unicode(0xE9, true)]);
}

#[test]
fn send_char_sends_surrogate_pairs_above_the_basic_plane() {
    assert_eq!(
        send_char('😀'),
        vec![
            unicode(0xD83D, false),
            unicode(0xD83D, true),
            unicode(0xDE00, false),
            unicode(0xDE00, true),
        ]
    );
    let units: Vec<u16> = "😀".encode_utf16().collect();
    assert_eq!(units, vec![0xD83D, 0xDE00]);
}

#[test]
fn send_char_sends_one_unit_up_to_the_basic_plane() {
    assert_eq!(send_char('\u{FFFF}'), vec![unicode(0xFFFF, false), unicode(0xFFFF, true)]);
    assert_eq!(
        send_char('\u{10000}'),
        vec![
            unicode(0xD800, false),
            unicode(0xD800, true),
            unicode(0xDC00, false),
            unicode(0xDC00, true),
        ]
    );
}

#[test]
fn send_backspace_taps_backspace() {
    assert_eq!(send_backspace(), vec![key(VK_BACK, false), key(VK_BACK, true)]);
}

#[test]
fn revision_navigation_goes_home_moves_deletes_types_and_ends() {
    let inputs = send_revision_navigation(2, 1, "ok");
    let expected = vec![
        key(VK_LCONTROL, false),
        key(VK_HOME, false),
        key(VK_HOME, true),
        key(VK_LCONTROL, true),
        key(VK_RIGHT, false),
        key(VK_RIGHT, true),
        key(VK_RIGHT, false),
        key(VK_RIGHT, true),
        key(VK_BACK, false),
        key(VK_BACK, true),
        unicode(0x6F, false),
        unicode(0x6F, true),
        unicode(0x6B, false),
        unicode(0x6B, true),
        key(VK_END, false),
        key(VK_END, true),
    ];
    assert_eq!(inputs, expected);
}

#[test]
fn revision_navigation_with_nothing_to_move() {
    let inputs = send_revision_navigation(0, 0, "");
    assert_eq!(inputs.len(), 6);
}

#[test]
fn hotkeys_map_to_commands() {
    assert!(matches!(hotkey_command::<()>(1), Some(EngineCommand::StartLast)));
    assert!(matches!(hotkey_command::<()>(2), Some(EngineCommand::TogglePause)));
    assert!(matches!(hotkey_command::<()>(3), Some(EngineCommand::Stop)));
    assert!(hotkey_command::<()>(0).is_none());
    assert!(hotkey_command::<()>(4).is_none());
}
