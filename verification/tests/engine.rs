use auto_write::config::settings::TypingSettings;
use auto_write::typing::engine::{
    idle_step, is_stop, keystroke_plan, neighbor_key, EngineCommand, EngineStats, IdleStep, Run,
    RunStep, Stroke,
};
use auto_write::typing::timing::punctuation_pause_base;

fn quiet() -> TypingSettings {
    TypingSettings {
        mistakes_enabled: false,
        thinking_enabled: false,
        revision_enabled: false,
        ..TypingSettings::default()
    }
}

#[test]
fn neighbor_keys_follow_the_keyboard_row() {
    assert_eq!(neighbor_key('q'), 'w');
    assert_eq!(neighbor_key('m'), 'n');
    assert_eq!(neighbor_key('n'), 'm');
    assert_eq!(neighbor_key('A'), 's');
    assert_eq!(neighbor_key('p'), 'p');
    assert_eq!(neighbor_key('P'), 'P');
    assert_eq!(neighbor_key('l'), 'l');
    assert_eq!(neighbor_key('7'), '7');
    assert_eq!(neighbor_key('é'), 'é');
}

#[test]
fn punctuation_pauses() {
    assert_eq!(punctuation_pause_base(',', 420), 300);
    assert_eq!(punctuation_pause_base('.', 420), 500);
    assert_eq!(punctuation_pause_base('!', 420), 500);
    assert_eq!(punctuation_pause_base('?', 420), 500);
    assert_eq!(punctuation_pause_base(':', 420), 350);
    assert_eq!(punctuation_pause_base(';', 420), 350);
    assert_eq!(punctuation_pause_base('\n', 420), 420);
    assert_eq!(punctuation_pause_base('a', 420), 0);
}

#[test]
fn default_settings() {
    let s = TypingSettings::default();
    assert!(s.mistakes_enabled && s.thinking_enabled && s.revision_enabled);
    assert_eq!((s.thinking_min_ms, s.thinking_max_ms), (1000, 3000));
    assert_eq!((s.revision_min_seconds, s.revision_max_seconds), (8, 38));
    assert_eq!(s.max_revisions, 2);
}

#[test]
fn default_stats_are_empty() {
    let stats = EngineStats::default();
    assert_eq!((stats.typed, stats.total), (0, 0));
    assert_eq!((stats.mistakes, stats.corrections, stats.revisions), (0, 0, 0));
    assert!(stats.started_at.is_none() && !stats.paused && !stats.finished);
}

#[test]
fn start_last_replays_the_last_start() {
    let mut last: Option<(String, u8)> = None;
    assert_eq!(idle_step(&mut last, Some(EngineCommand::StartLast)), IdleStep::Wait);
    assert!(last.is_none());
    assert_eq!(idle_step(&mut last, Some(EngineCommand::Start("hi".to_string(), 7))), IdleStep::Begin);
    assert_eq!(last, Some(("hi".to_string(), 7)));
    assert_eq!(idle_step(&mut last, Some(EngineCommand::Pause)), IdleStep::Wait);
    assert_eq!(idle_step(&mut last, Some(EngineCommand::StartLast)), IdleStep::Begin);
    assert_eq!(last, Some(("hi".to_string(), 7)));
    assert_eq!(idle_step(&mut last, None), IdleStep::Exit);
}

#[test]
fn stop_is_recognised() {
    assert!(is_stop(&EngineCommand::<()>::Stop));
    assert!(!is_stop(&EngineCommand::<()>::Pause));
}

#[test]
fn a_run_types_every_character_then_finishes() {
    let mut run = Run::new("hé!".to_string(), quiet());
    let mut typed = String::new();
    loop {
        match run.next_step() {
            RunStep::Type(c) => {
                let stroke = run.type_character(true, true);
                assert_eq!(stroke.character, c);
                assert!(stroke.thinking_pause.is_none() && stroke.typo.is_none());
                typed.push(c);
            }
            RunStep::Finish => break,
            RunStep::Wait => panic!("not paused"),
            RunStep::Ended => panic!("not stopped"),
        }
    }
    assert_eq!(typed, "hé!");
    let stats = run.final_stats();
    assert_eq!((stats.typed, stats.total), (3, 3));
    assert!(stats.finished && stats.started_at.is_some());
}

#[test]
fn pause_controls() {
    let mut run = Run::new("ab".to_string(), quiet());
    assert!(run.on_command(&EngineCommand::<()>::TogglePause));
    assert!(run.is_paused());
    assert_eq!(run.next_step(), RunStep::Wait);
    assert!(run.stats().paused);
    assert!(run.on_command(&EngineCommand::<()>::TogglePause));
    assert!(!run.is_paused());
    assert!(run.on_command(&EngineCommand::<()>::Pause));
    assert!(run.on_command(&EngineCommand::<()>::Pause));
    assert!(run.is_paused());
    assert!(run.on_command(&EngineCommand::<()>::Resume));
    assert!(!run.is_paused());
    assert!(run.on_command(&EngineCommand::<()>::StartLast));
    assert!(!run.on_command(&EngineCommand::<()>::Stop));
    assert_eq!(run.next_step(), RunStep::Ended);
}

#[test]
fn typos_are_neighbor_keys_and_corrected() {
    let settings = TypingSettings { mistakes_enabled: true, ..quiet() };
    let mut run = Run::new("a,".to_string(), settings);
    let stroke = run.type_character(false, true);
    let typo = stroke.typo.expect("a typo");
    assert_eq!(typo.key, 's');
    assert!((90..=260).contains(&typo.pause_after_key));
    assert!((45..=140).contains(&typo.pause_after_backspace));
    let stroke = run.type_character(false, true);
    assert!(stroke.typo.is_none());
    let stats = run.stats();
    assert_eq!((stats.mistakes, stats.corrections), (1, 1));
}

#[test]
fn mistakes_off_means_no_typo() {
    let mut run = Run::new("a".to_string(), quiet());
    assert!(run.type_character(false, true).typo.is_none());
}

#[test]
fn thinking_at_line_breaks_and_difficult_words() {
    let settings = TypingSettings { thinking_enabled: true, thinking_min_ms: 5, thinking_max_ms: 9, ..quiet() };
    let mut run = Run::new("\nextraordinary x".to_string(), settings);
    assert!(run.is_thinking_point('\n'));
    let stroke = run.type_character(true, false);
    let pause = stroke.thinking_pause.expect("a pause");
    assert!((5..=9).contains(&pause));
    assert!(run.is_thinking_point('e'));
    assert!(run.type_character(false, false).thinking_pause.is_none());
    assert!(!run.is_thinking_point('x'));
    assert!(run.type_character(true, false).thinking_pause.is_none());
}

#[test]
fn revision_offers_the_longest_typed_word() {
    let settings = TypingSettings { revision_enabled: true, ..quiet() };
    let mut run = Run::new("Go wonderful there great shortest! Longer".to_string(), settings);
    for _ in 0..35 {
        run.type_character(false, false);
    }
    assert!(run.revision_offer_at(7, 10).is_none());
    assert!(run.revision_offer_at(10, 39).is_none());
    let offer = run.revision_offer_at(8, 38).expect("an offer");
    assert_eq!(offer.characters_before, 3);
    assert_eq!(offer.word_length, 9);
    assert_eq!(offer.replacement, "better");
    run.record_revision();
    assert_eq!(run.stats().revisions, 1);
    assert!(run.revision_offer_at(10, 10).is_none());
}

#[test]
fn revision_prefers_the_last_of_equally_long_words() {
    let settings = TypingSettings { revision_enabled: true, ..quiet() };
    let mut run = Run::new("alpha there gamma delta.".to_string(), settings);
    for _ in 0..24 {
        run.type_character(false, false);
    }
    let offer = run.revision_offer_at(10, 10).expect("an offer");
    assert_eq!(offer.characters_before, 18);
    assert_eq!(offer.word_length, 5);
}

#[test]
fn no_revision_when_disabled_or_untyped() {
    let mut run = Run::new("wonderful".to_string(), quiet());
    for _ in 0..9 {
        run.type_character(false, false);
    }
    assert!(run.revision_offer_at(10, 10).is_none());
    let settings = TypingSettings { revision_enabled: true, ..quiet() };
    let run = Run::new("wonderful".to_string(), settings);
    assert!(run.revision_offer_at(10, 10).is_none());
    assert!(run.revision_offer().is_none());
}

#[test]
fn a_typo_is_typed_then_taken_back() {
    let settings = TypingSettings {
        mistakes_enabled: true,
        thinking_enabled: true,
        thinking_min_ms: 7,
        thinking_max_ms: 7,
        ..quiet()
    };
    let mut run = Run::new("\nq".to_string(), settings);
    let stroke = run.type_character(true, true);
    assert_eq!(keystroke_plan(&stroke), vec![Stroke::Pause(7), Stroke::Type('\n')]);
    let stroke = run.type_character(true, true);
    let typo = stroke.typo.expect("a typo");
    assert_eq!(
        keystroke_plan(&stroke),
        vec![
            Stroke::Type('w'),
            Stroke::Pause(typo.pause_after_key),
            Stroke::Backspace,
            Stroke::Pause(typo.pause_after_backspace),
            Stroke::Type('q'),
        ]
    );
}

#[test]
fn replaying_a_run_with_typos_gives_the_text() {
    let text = "Hello, wörld! 😀 ok";
    let settings = TypingSettings { mistakes_enabled: true, ..quiet() };
    let mut run = Run::new(text.to_string(), settings);
    let mut editor = String::new();
    while let RunStep::Type(_) = run.next_step() {
        let stroke = run.type_character(false, true);
        for action in keystroke_plan(&stroke) {
            match action {
                Stroke::Pause(_) => {}
                Stroke::Type(c) => editor.push(c),
                Stroke::Backspace => {
                    editor.pop();
                }
            }
        }
    }
    assert_eq!(editor, text);
    let stats = run.final_stats();
    assert_eq!(stats.mistakes, 12);
    assert_eq!(stats.corrections, 12);
    assert_eq!(stats.typed, stats.total);
}

#[test]
fn pausing_holds_the_position() {
    let mut run = Run::new("ab".to_string(), quiet());
    run.type_character(false, false);
    assert!(run.on_command(&EngineCommand::<()>::Pause));
    assert_eq!(run.next_step(), RunStep::Wait);
    assert_eq!(run.stats().typed, 1);
    assert!(run.on_command(&EngineCommand::<()>::Resume));
    assert_eq!(run.next_step(), RunStep::Type('b'));
}

#[test]
fn a_stopped_run_types_and_offers_nothing_more() {
    let settings = TypingSettings { revision_enabled: true, ..quiet() };
    let mut run = Run::new("Go wonderful there".to_string(), settings);
    for _ in 0..13 {
        run.type_character(false, false);
    }
    assert!(run.revision_offer_at(10, 10).is_some());
    assert!(!run.on_command(&EngineCommand::<()>::Stop));
    assert_eq!(run.next_step(), RunStep::Ended);
    assert!(run.revision_offer_at(10, 10).is_none());
    assert!(run.revision_offer().is_none());
    assert!(run.on_command(&EngineCommand::<()>::Resume));
    assert!(run.on_command(&EngineCommand::<()>::TogglePause));
    assert_eq!(run.next_step(), RunStep::Ended);
}
