use auto_write::app::AppState;
use auto_write::typing::engine::{EngineCommand, EngineEvent, EngineStats};

#[test]
fn a_new_window_is_ready() {
    let state = AppState::new();
    assert_eq!(state.status, "Ready");
    assert!(!state.running && !state.paused);
}

#[test]
fn blank_text_is_refused() {
    let mut state = AppState::new();
    assert!(!state.start_typing(" \n\t "));
    assert_eq!(state.status, "Enter text first");
    assert!(!state.running);
    assert!(!state.start_typing(""));
    assert!(!state.start_typing("\u{3000}\u{A0}\u{2028}"));
    assert_eq!(state.status, "Enter text first");
}

#[test]
fn start_pause_resume_stop() {
    let mut state = AppState::new();
    assert!(matches!(state.toggle_pause::<()>(), None));
    assert!(state.start_typing("hello"));
    assert_eq!(state.status, "Typing");
    assert!(state.running && !state.paused);
    assert!(matches!(state.toggle_pause::<()>(), Some(EngineCommand::Pause)));
    assert_eq!(state.status, "Paused");
    assert!(matches!(state.toggle_pause::<()>(), Some(EngineCommand::Resume)));
    assert_eq!(state.status, "Typing");
    assert!(state.stop_typing());
    assert_eq!(state.status, "Stopped");
    assert!(!state.running && !state.paused);
    assert!(!state.stop_typing());
    assert_eq!(state.status, "Ready");
}

#[test]
fn events_update_the_status() {
    let mut state = AppState::new();
    assert!(state.start_typing("hello"));
    state.handle_event(&EngineEvent::State("Starting in 3".to_string()));
    assert_eq!(state.status, "Starting in 3");
    state.handle_event(&EngineEvent::Stats(EngineStats::default()));
    assert_eq!(state.status, "Starting in 3");
    let finished = EngineStats { finished: true, ..EngineStats::default() };
    state.handle_event(&EngineEvent::Stats(finished.clone()));
    assert!(!state.running);
    assert_eq!(state.status, "Finished");
    state.handle_event(&EngineEvent::Error("boom".to_string()));
    assert_eq!(state.status, "boom");
}

#[test]
fn a_stopped_window_stays_stopped() {
    let mut state = AppState::new();
    assert!(state.start_typing("hello"));
    assert!(state.stop_typing());
    state.handle_event(&EngineEvent::Stats(EngineStats::default()));
    assert_eq!(state.status, "Stopped");
}
