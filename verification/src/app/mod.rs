//! The window's state: the status line and whether a run is going or
//! paused, and how the buttons and the engine's events change it.
use vstd::prelude::*;

use crate::text::chars::is_whitespace;
use crate::typing::engine::{EngineCommand, EngineEvent};

verus! {

/// The state the window shows.
pub struct AppState {
    pub status: String,
    pub running: bool,
    pub paused: bool,
}

/// Every character of `s` is white space: `s` trims to nothing.
pub open spec fn blank(s: Seq<char>) -> bool {
    forall|i: int| 0 <= i < s.len() ==> crate::text::chars::whitespace(#[trigger] s[i])
}

/// Whether `text` trims to nothing.
fn is_blank(text: &str) -> (r: bool)
    ensures
        r == blank(text@),
{
    let ghost s = text@;
    let mut it = text.chars();
    let ghost mut i: int = 0;
    proof {
        assert(s.skip(0) =~= s);
    }
    loop
        invariant_except_break
            s == text@,
            0 <= i <= s.len(),
            vstd::std_specs::iter::IteratorSpec::remaining(&it) == s.skip(i),
            forall|j: int| 0 <= j < i ==> crate::text::chars::whitespace(#[trigger] s[j]),
        ensures
            blank(s),
        decreases s.len() - i,
    {
        match it.next() {
            None => {
                break ;
            },
            Some(c) => {
                proof {
                    assert(s.skip(i).drop_first() =~= s.skip(i + 1));
                    assert(c == s[i]);
                }
                if !is_whitespace(c) {
                    proof {
                        assert(!crate::text::chars::whitespace(s[i]));
                    }
                    return false;
                }
                proof {
                    i = i + 1;
                }
            },
        }
    }
    true
}

impl AppState {
    /// A window with no run, showing "Ready".
    pub fn new() -> (state: Self)
        ensures
            state.status@ == "Ready"@,
            !state.running && !state.paused,
    {
        AppState { status: "Ready".to_owned(), running: false, paused: false }
    }

    /// Shows `value` as the status.
    pub fn set_status(&mut self, value: &str)
        ensures
            final(self).status@ == value@,
            final(self).running == old(self).running,
            final(self).paused == old(self).paused,
    {
        self.status = value.to_owned();
    }

    /// The start button with `text` in the editor: a blank text is refused
    /// with "Enter text first"; otherwise the run is going, not paused, the
    /// status is "Typing", and the result is `true`: send the start command.
    pub fn start_typing(&mut self, text: &str) -> (start: bool)
        ensures
            start == !blank(text@),
            !start ==> final(self).status@ == "Enter text first"@ && final(self).running == old(self).running && final(self).paused == old(self).paused,
            start ==> final(self).status@ == "Typing"@ && final(self).running && !final(self).paused,
    {
        if is_blank(text) {
            self.set_status("Enter text first");
            return false;
        }
        self.running = true;
        self.paused = false;
        self.set_status("Typing");
        true
    }

    /// The pause button: with no run going nothing happens; otherwise the
    /// pause flips, the status follows, and the result is the command to send.
    pub fn toggle_pause<S>(&mut self) -> (command: Option<EngineCommand<S>>)
        ensures
            !old(self).running ==> command is None && final(self).status == old(self).status
                && final(self).paused == old(self).paused && !final(self).running,
            old(self).running ==> {
                &&& final(self).running
                &&& final(self).paused == !old(self).paused
                &&& final(self).paused ==> command == Some(EngineCommand::<S>::Pause)
                    && final(self).status@ == "Paused"@
                &&& !final(self).paused ==> command == Some(EngineCommand::<S>::Resume)
                    && final(self).status@ == "Typing"@
            },
    {
        if !self.running {
            return None;
        }
        self.paused = !self.paused;
        if self.paused {
            self.set_status("Paused");
            Some(EngineCommand::Pause)
        } else {
            self.set_status("Typing");
            Some(EngineCommand::Resume)
        }
    }

    /// The stop button: with no run going the status returns to "Ready";
    /// otherwise the run ends with "Stopped", and the result is `true`: send
    /// the stop command.
    pub fn stop_typing(&mut self) -> (send_stop: bool)
        ensures
            send_stop == old(self).running,
            !final(self).running,
            !old(self).running ==> final(self).status@ == "Ready"@ && final(self).paused == old(self).paused,
            old(self).running ==> final(self).status@ == "Stopped"@ && !final(self).paused,
    {
        if !self.running {
            self.set_status("Ready");
            return false;
        }
        self.running = false;
        self.paused = false;
        self.set_status("Stopped");
        true
    }

    /// Takes one event of the engine: a state message or an error becomes the
    /// status; progress that is finished ends the run; progress with no run
    /// going, not paused, shows "Finished" unless the status is "Stopped".
    pub fn handle_event(&mut self, event: &EngineEvent)
        ensures
            match event {
                EngineEvent::State(s) => final(self).status@ == s@ && final(self).running == old(self).running && final(self).paused == old(self).paused,
                EngineEvent::Error(e) => final(self).status@ == e@ && final(self).running == old(self).running && final(self).paused == old(self).paused,
                EngineEvent::Stats(stats) => {
                    let running = old(self).running && !stats.finished;
                    let paused = old(self).paused && !stats.finished;
                    &&& final(self).running == running
                    &&& final(self).paused == paused
                    &&& final(self).status@ == if !running && !paused && old(self).status@
                        != "Stopped"@ {
                        "Finished"@
                    } else {
                        old(self).status@
                    }
                },
            },
    {
        match event {
            EngineEvent::State(status) => self.set_status(status.as_str()),
            EngineEvent::Stats(stats) => {
                if stats.finished {
                    self.running = false;
                    self.paused = false;
                }
                let stopped = "Stopped".to_owned();
                if !self.running && !self.paused && !(self.status == stopped) {
                    self.set_status("Finished");
                }
            },
            EngineEvent::Error(error) => self.set_status(error.as_str()),
        }
    }
}

} // verus!
