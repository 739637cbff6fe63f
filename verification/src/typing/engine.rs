//! The typing engine: the commands it takes, the events it reports, and the
//! state of a run with the decisions it takes at each keystroke. The caller
//! runs the loop: it waits, sends the keys, rolls the dice that need rates,
//! and hands the outcomes back.
use vstd::prelude::*;

use crate::config::settings::TypingSettings;
use crate::text::analyzer::{TextAnalysis, WordToken};
use crate::text::chars::{is_alphanumeric, len_utf8, to_ascii_lowercase};
use crate::typing::clock::{as_secs, elapsed, now};
use crate::typing::random::random_between;

verus! {

/// A command to the typing engine. `S` is the full settings record that a
/// run starts with.
#[derive(Clone, Debug)]
pub enum EngineCommand<S> {
    Start(String, S),
    StartLast,
    Pause,
    Resume,
    TogglePause,
    Stop,
}

/// Progress of a run, as reported to the window.
#[derive(Clone, Debug)]
pub struct EngineStats {
    pub typed: usize,
    pub total: usize,
    pub mistakes: u32,
    pub corrections: u32,
    pub revisions: u32,
    pub started_at: Option<std::time::Instant>,
    pub paused: bool,
    pub finished: bool,
}

impl Default for EngineStats {
    fn default() -> (r: Self)
        ensures
            r.typed == 0 && r.total == 0,
            r.mistakes == 0 && r.corrections == 0 && r.revisions == 0,
            r.started_at is None,
            !r.paused && !r.finished,
    {
        EngineStats {
            typed: 0,
            total: 0,
            mistakes: 0,
            corrections: 0,
            revisions: 0,
            started_at: None,
            paused: false,
            finished: false,
        }
    }
}

/// What the engine reports.
#[derive(Clone, Debug)]
pub enum EngineEvent {
    Stats(EngineStats),
    State(String),
    Error(String),
}

/// The typing engine; it runs on a worker of its own.
pub struct TypingEngine;

/// What the engine does with a command it receives while no run is active.
#[derive(Clone, Copy, Debug, PartialEq, Eq, Structural)]
pub enum IdleStep {
    /// Start a run with the last prepared text and settings.
    Begin,
    /// Keep waiting.
    Wait,
    /// The command channel is closed: stop the worker.
    Exit,
}

/// The last prepared text and settings after `received`.
pub open spec fn last_after<S>(last: Option<(String, S)>, received: Option<EngineCommand<S>>) -> Option<
    (String, S),
> {
    match received {
        Some(EngineCommand::Start(text, settings)) => Some((text, settings)),
        _ => last,
    }
}

/// What an idle engine does with `received` (`None`: the channel closed).
pub open spec fn idle_decision<S>(last: Option<(String, S)>, received: Option<EngineCommand<S>>) -> IdleStep {
    match received {
        None => IdleStep::Exit,
        Some(EngineCommand::Start(_, _)) => IdleStep::Begin,
        Some(EngineCommand::StartLast) => if last is Some {
            IdleStep::Begin
        } else {
            IdleStep::Wait
        },
        Some(_) => IdleStep::Wait,
    }
}

/// Takes a command received while no run is active: a start is remembered
/// as the last prepared run and begun; "start last" begins the remembered
/// run if there is one; the rest is ignored.
pub fn idle_step<S>(last: &mut Option<(String, S)>, received: Option<EngineCommand<S>>) -> (step:
    IdleStep)
    ensures
        *final(last) == last_after(*old(last), received),
        step == idle_decision(*old(last), received),
{
    match received {
        None => IdleStep::Exit,
        Some(EngineCommand::Start(text, settings)) => {
            *last = Some((text, settings));
            IdleStep::Begin
        },
        Some(EngineCommand::StartLast) => {
            if last.is_some() {
                IdleStep::Begin
            } else {
                IdleStep::Wait
            }
        },
        Some(_) => IdleStep::Wait,
    }
}

/// Law: after a start, "start last" begins the same text with the same
/// settings again.
pub proof fn lemma_start_last_replays<S>(last: Option<(String, S)>, text: String, settings: S)
    ensures
        ({
            let remembered = last_after(last, Some(EngineCommand::Start(text, settings)));
            &&& idle_decision(remembered, Some(EngineCommand::<S>::StartLast)) == IdleStep::Begin
            &&& last_after(remembered, Some(EngineCommand::<S>::StartLast)) == Some((text, settings))
        }),
{
}

/// Whether a command is the stop command.
pub fn is_stop<S>(command: &EngineCommand<S>) -> (r: bool)
    ensures
        r == (*command is Stop),
{
    match command {
        EngineCommand::Stop => true,
        _ => false,
    }
}

/// Whether a run is paused after `command`.
pub open spec fn paused_after<S>(paused: bool, command: EngineCommand<S>) -> bool {
    match command {
        EngineCommand::Pause => true,
        EngineCommand::Resume => false,
        EngineCommand::TogglePause => !paused,
        _ => paused,
    }
}

/// Law: toggling twice leaves the pause as it was; pausing and resuming are
/// idempotent and undo each other.
pub proof fn lemma_pause_controls<S>(paused: bool)
    ensures
        paused_after(paused_after(paused, EngineCommand::<S>::TogglePause), EngineCommand::<
            S,
        >::TogglePause) == paused,
        paused_after(paused_after(paused, EngineCommand::<S>::Pause), EngineCommand::<S>::Pause),
        !paused_after(paused_after(paused, EngineCommand::<S>::Pause), EngineCommand::<S>::Resume),
        paused_after(paused, EngineCommand::<S>::TogglePause) != paused,
{
}

/// The key next to `c` on a QWERTY keyboard, typed by mistake: letters are
/// lowered first; `p`, `l` and everything that is not a letter map to `c`.
pub open spec fn neighbor(c: char) -> char {
    let l = crate::text::chars::ascii_lower(c);
    if l == 'q' {
        'w'
    } else if l == 'w' {
        'e'
    } else if l == 'e' {
        'r'
    } else if l == 'r' {
        't'
    } else if l == 't' {
        'y'
    } else if l == 'y' {
        'u'
    } else if l == 'u' {
        'i'
    } else if l == 'i' {
        'o'
    } else if l == 'o' {
        'p'
    } else if l == 'a' {
        's'
    } else if l == 's' {
        'd'
    } else if l == 'd' {
        'f'
    } else if l == 'f' {
        'g'
    } else if l == 'g' {
        'h'
    } else if l == 'h' {
        'j'
    } else if l == 'j' {
        'k'
    } else if l == 'k' {
        'l'
    } else if l == 'z' {
        'x'
    } else if l == 'x' {
        'c'
    } else if l == 'c' {
        'v'
    } else if l == 'v' {
        'b'
    } else if l == 'b' {
        'n'
    } else if l == 'n' {
        'm'
    } else if l == 'm' {
        'n'
    } else {
        c
    }
}

/// The key typed by mistake instead of `character`.
pub fn neighbor_key(character: char) -> (key: char)
    ensures
        key == neighbor(character),
{
    match to_ascii_lowercase(character) {
        'q' => 'w',
        'w' => 'e',
        'e' => 'r',
        'r' => 't',
        't' => 'y',
        'y' => 'u',
        'u' => 'i',
        'i' => 'o',
        'o' => 'p',
        'a' => 's',
        's' => 'd',
        'd' => 'f',
        'f' => 'g',
        'g' => 'h',
        'h' => 'j',
        'j' => 'k',
        'k' => 'l',
        'z' => 'x',
        'x' => 'c',
        'c' => 'v',
        'v' => 'b',
        'b' => 'n',
        'n' => 'm',
        'm' => 'n',
        _ => character,
    }
}

/// What the caller does next with an active run.
#[derive(Clone, Copy, Debug, PartialEq, Eq, Structural)]
pub enum RunStep {
    /// The run was stopped: it types nothing more and reports nothing more.
    Ended,
    /// The run is paused: report progress and wait a little.
    Wait,
    /// Every character is typed: report the final progress.
    Finish,
    /// Type this character next.
    Type(char),
}

/// A wrong key typed and taken back before the right one.
#[derive(Clone, Copy, Debug, PartialEq, Eq, Structural)]
pub struct Typo {
    pub key: char,
    pub pause_after_key: u64,
    pub pause_after_backspace: u64,
}

/// What typing one character consists of: an optional pause to think, an
/// optional typo, then the character.
#[derive(Clone, Copy, Debug, PartialEq, Eq, Structural)]
pub struct Keystroke {
    pub character: char,
    pub thinking_pause: Option<u64>,
    pub typo: Option<Typo>,
}

/// One action of typing a character, in the order the keys are sent.
#[derive(Clone, Copy, Debug, PartialEq, Eq, Structural)]
pub enum Stroke {
    /// Wait this many milliseconds, taking commands meanwhile.
    Pause(u64),
    /// Type this character.
    Type(char),
    /// Press backspace.
    Backspace,
}

/// The actions of a keystroke: the pause to think, the typo with its
/// pauses and the backspace that takes it back, then the character.
pub open spec fn stroke_plan(k: Keystroke) -> Seq<Stroke> {
    (match k.thinking_pause {
        Some(ms) => seq![Stroke::Pause(ms)],
        None => seq![],
    }) + (match k.typo {
        Some(t) => seq![
            Stroke::Type(t.key),
            Stroke::Pause(t.pause_after_key),
            Stroke::Backspace,
            Stroke::Pause(t.pause_after_backspace),
        ],
        None => seq![],
    }) + seq![Stroke::Type(k.character)]
}

/// The text that `plan` leaves in an editor that held `buffer`: typing
/// appends a character, backspace removes the last one, a pause changes
/// nothing.
pub open spec fn replay(buffer: Seq<char>, plan: Seq<Stroke>) -> Seq<char>
    decreases plan.len(),
{
    if plan.len() == 0 {
        buffer
    } else {
        let before = replay(buffer, plan.drop_last());
        match plan.last() {
            Stroke::Pause(_) => before,
            Stroke::Type(c) => before.push(c),
            Stroke::Backspace => before.drop_last(),
        }
    }
}

/// The actions of the keystrokes `strokes`, one after the other.
pub open spec fn plans_of(strokes: Seq<Keystroke>) -> Seq<Stroke>
    decreases strokes.len(),
{
    if strokes.len() == 0 {
        seq![]
    } else {
        plans_of(strokes.drop_last()) + stroke_plan(strokes.last())
    }
}

/// Replaying one plan after another is replaying them joined.
pub proof fn lemma_replay_concat(buffer: Seq<char>, p: Seq<Stroke>, q: Seq<Stroke>)
    ensures
        replay(buffer, p + q) == replay(replay(buffer, p), q),
    decreases q.len(),
{
    if q.len() == 0 {
        assert(p + q =~= p);
    } else {
        assert((p + q).drop_last() =~= p + q.drop_last());
        assert((p + q).last() == q.last());
        lemma_replay_concat(buffer, p, q.drop_last());
    }
}

/// Law: a keystroke leaves exactly its character behind: a typo is taken
/// back by the backspace that follows it.
pub proof fn lemma_keystroke_types_its_character(buffer: Seq<char>, k: Keystroke)
    ensures
        replay(buffer, stroke_plan(k)) == buffer.push(k.character),
{
    let think: Seq<Stroke> = match k.thinking_pause {
        Some(ms) => seq![Stroke::Pause(ms)],
        None => seq![],
    };
    let typo: Seq<Stroke> = match k.typo {
        Some(t) => seq![
            Stroke::Type(t.key),
            Stroke::Pause(t.pause_after_key),
            Stroke::Backspace,
            Stroke::Pause(t.pause_after_backspace),
        ],
        None => seq![],
    };
    let last: Seq<Stroke> = seq![Stroke::Type(k.character)];
    lemma_replay_concat(buffer, think + typo, last);
    lemma_replay_concat(buffer, think, typo);
    reveal_with_fuel(replay, 5);
    assert(replay(buffer, think) == buffer) by {
        if think.len() == 1 {
            assert(think.drop_last() =~= Seq::<Stroke>::empty());
        }
    }
    assert(replay(buffer, typo) == buffer) by {
        if typo.len() == 4 {
            assert(typo.drop_last() =~= typo.subrange(0, 3));
            assert(typo.subrange(0, 3).drop_last() =~= typo.subrange(0, 2));
            assert(typo.subrange(0, 2).drop_last() =~= typo.subrange(0, 1));
            assert(typo.subrange(0, 1).drop_last() =~= Seq::<Stroke>::empty());
            assert(buffer.push(typo[0]->Type_0).drop_last() =~= buffer);
        }
    }
    assert(last.drop_last() =~= Seq::<Stroke>::empty());
}

/// Law: the keystrokes of a run, replayed from an empty editor, leave the
/// characters they typed: when the `i`-th keystroke types the `i`-th
/// character of `text`, the editor holds the start of `text`.
pub proof fn lemma_strokes_replay_text(strokes: Seq<Keystroke>, text: Seq<char>)
    requires
        strokes.len() <= text.len(),
        forall|i: int| 0 <= i < strokes.len() ==> #[trigger] strokes[i].character == text[i],
    ensures
        replay(seq![], plans_of(strokes)) == text.take(strokes.len() as int),
    decreases strokes.len(),
{
    if strokes.len() == 0 {
        assert(text.take(0) =~= Seq::<char>::empty());
    } else {
        let n = strokes.len() - 1;
        let p = strokes.drop_last();
        assert forall|i: int| 0 <= i < p.len() implies #[trigger] p[i].character == text[i] by {
            assert(p[i] == strokes[i]);
        }
        lemma_strokes_replay_text(p, text);
        lemma_replay_concat(seq![], plans_of(p), stroke_plan(strokes.last()));
        lemma_keystroke_types_its_character(text.take(n), strokes.last());
        assert(strokes.last().character == text[n]);
        assert(text.take(n).push(text[n]) =~= text.take(n + 1));
    }
}

/// The actions of `stroke`, in the order to perform them.
pub fn keystroke_plan(stroke: &Keystroke) -> (plan: Vec<Stroke>)
    ensures
        plan@ == stroke_plan(*stroke),
{
    let mut plan = Vec::new();
    if let Some(ms) = stroke.thinking_pause {
        plan.push(Stroke::Pause(ms));
    }
    if let Some(typo) = stroke.typo {
        plan.push(Stroke::Type(typo.key));
        plan.push(Stroke::Pause(typo.pause_after_key));
        plan.push(Stroke::Backspace);
        plan.push(Stroke::Pause(typo.pause_after_backspace));
    }
    plan.push(Stroke::Type(stroke.character));
    proof {
        assert(plan@ =~= stroke_plan(*stroke));
    }
    plan
}

/// Going back into the typed text to replace a word: the number of
/// characters before the word, its number of characters, and the text that
/// replaces it.
#[derive(Clone, Debug)]
pub struct Revision {
    pub characters_before: usize,
    pub word_length: usize,
    pub replacement: String,
}

/// A text being typed.
pub struct Run {
    text: Vec<char>,
    index: usize,
    position: usize,
    settings: TypingSettings,
    analysis: TextAnalysis,
    stats_typed: usize,
    mistakes: u32,
    corrections: u32,
    revisions: u32,
    revision_done: bool,
    paused: bool,
    stopped: bool,
    started: std::time::Instant,
    strokes: Ghost<Seq<Keystroke>>,
}

/// The abstract state of a run.
pub struct RunView {
    /// The text, as characters.
    pub text: Seq<char>,
    /// How many characters are typed.
    pub index: nat,
    /// How many bytes of the text are typed.
    pub position: nat,
    /// The typed count that progress reports.
    pub typed: nat,
    pub mistakes: u32,
    pub corrections: u32,
    pub revisions: u32,
    pub revision_done: bool,
    pub paused: bool,
    /// Whether the run was stopped.
    pub stopped: bool,
    pub settings: TypingSettings,
    pub analysis: TextAnalysis,
    pub started: std::time::Instant,
    /// The keystrokes made so far, in order.
    pub strokes: Seq<Keystroke>,
}

impl View for Run {
    type V = RunView;

    closed spec fn view(&self) -> RunView {
        RunView {
            text: self.text@,
            index: self.index as nat,
            position: self.position as nat,
            typed: self.stats_typed as nat,
            mistakes: self.mistakes,
            corrections: self.corrections,
            revisions: self.revisions,
            revision_done: self.revision_done,
            paused: self.paused,
            stopped: self.stopped,
            settings: self.settings,
            analysis: self.analysis,
            started: self.started,
            strokes: self.strokes@,
        }
    }
}

/// The word "there", which is never chosen for a revision.
pub open spec fn there() -> Seq<char> {
    seq!['t', 'h', 'e', 'r', 'e']
}

/// `w` lowered as ASCII equals `target`, as `eq_ignore_ascii_case` and a
/// comparison after `to_ascii_lowercase` decide for a lower-case ASCII target.
pub open spec fn lower_equals(w: Seq<char>, target: Seq<char>) -> bool {
    &&& w.len() == target.len()
    &&& forall|i: int| 0 <= i < w.len() ==> crate::text::chars::ascii_lower(#[trigger] w[i]) == target[i]
}

/// A word that a revision may replace: it is typed (ends at or before
/// `position`), has five characters or more, and is not "there".
pub open spec fn eligible(t: WordToken, position: int) -> bool {
    &&& t.end <= position
    &&& t.text@.len() >= 5
    &&& !lower_equals(t.text@, there())
}

/// The word a revision replaces: the longest eligible word, the last one of
/// those that are longest.
pub open spec fn best_candidate(tokens: Seq<WordToken>, position: int) -> Option<int>
    decreases tokens.len(),
{
    if tokens.len() == 0 {
        None
    } else {
        let k = tokens.len() - 1;
        let before = best_candidate(tokens.drop_last(), position);
        if eligible(tokens[k], position) && match before {
            Some(j) => tokens[j].text@.len() <= tokens[k].text@.len(),
            None => true,
        } {
            Some(k as int)
        } else {
            before
        }
    }
}

/// The text that replaces `w` in a revision.
pub open spec fn replacement_for(w: Seq<char>) -> Seq<char> {
    if lower_equals(w, seq!['g', 'o', 'o', 'd']) {
        "surprisingly good"@
    } else if lower_equals(w, seq!['n', 'i', 'c', 'e']) {
        "thoughtful"@
    } else if lower_equals(w, seq!['b', 'i', 'g']) {
        "substantial"@
    } else {
        "better"@
    }
}

impl RunView {
    /// The run is consistent: the typed bytes are the encoding of the typed
    /// characters, the analysis is that of the text, every typo was taken
    /// back, and at most one revision was made.
    pub open spec fn wf(self) -> bool {
        &&& self.index <= self.text.len()
        &&& self.position == crate::text::chars::byte_len(self.text.take(self.index as int))
        &&& crate::text::chars::byte_len(self.text) <= usize::MAX
        &&& crate::text::analyzer::analysis_of(self.analysis, self.text)
        &&& self.typed == self.index
        &&& self.corrections == self.mistakes
        &&& self.revisions <= self.settings.max_revisions
        &&& self.revision_done == (self.revisions == 1)
        &&& self.revisions <= 1
        &&& self.strokes.len() == self.index
        &&& forall|i: int| 0 <= i < self.index ==> #[trigger] self.strokes[i].character == self.text[i]
    }

    /// The state after `command`: pause, resume and toggle change the
    /// pause; stop ends the run for good.
    pub open spec fn after<S>(self, command: EngineCommand<S>) -> RunView {
        RunView {
            paused: paused_after(self.paused, command),
            stopped: self.stopped || command is Stop,
            ..self
        }
    }

    /// What comes next in this state.
    pub open spec fn step(self) -> RunStep {
        if self.stopped {
            RunStep::Ended
        } else if self.paused {
            RunStep::Wait
        } else if self.index >= self.text.len() {
            RunStep::Finish
        } else {
            RunStep::Type(self.text[self.index as int])
        }
    }

    /// Typing `c` here is a moment to think: thinking is on, and `c` is a
    /// line break or the first character of a difficult word.
    pub open spec fn thinking_point(self, c: char) -> bool {
        &&& self.settings.thinking_enabled
        &&& (c == '\n' || exists|k: int|
            0 <= k < self.analysis.tokens@.len() && #[trigger] self.analysis.tokens@[k].start
                == self.position && self.analysis.tokens@[k].difficult)
    }

    /// A revision may be made when `first_secs` and `second_secs` seconds
    /// have passed at the two readings of the clock.
    pub open spec fn revision_window(self, first_secs: u64, second_secs: u64) -> bool {
        &&& !self.stopped
        &&& self.settings.revision_enabled
        &&& !self.revision_done
        &&& self.revisions < self.settings.max_revisions
        &&& first_secs >= self.settings.revision_min_seconds
        &&& second_secs <= self.settings.revision_max_seconds
    }

    /// The character spans of the words of the text.
    pub open spec fn spans(self) -> Seq<(int, int)> {
        crate::text::analyzer::word_spans(
            crate::text::analyzer::word_mask(self.text, crate::text::analyzer::alnum_flags(self.text)),
        )
    }
}

/// `word` lowered as ASCII equals `target`.
fn lower_equals_exec(word: &str, target: &Vec<char>) -> (r: bool)
    ensures
        r == lower_equals(word@, target@),
{
    let n = word.unicode_len();
    if n != target.len() {
        return false;
    }
    let mut i: usize = 0;
    while i < n
        invariant
            n == word@.len(),
            n == target@.len(),
            i <= n,
            forall|j: int| 0 <= j < i ==> crate::text::chars::ascii_lower(#[trigger] word@[j]) == target@[j],
        decreases n - i,
    {
        if to_ascii_lowercase(word.get_char(i)) != target[i] {
            return false;
        }
        i = i + 1;
    }
    true
}

/// The text that replaces `word` in a revision.
fn replacement_word(word: &str) -> (r: String)
    ensures
        r@ == replacement_for(word@),
{
    if lower_equals_exec(word, &vec!['g', 'o', 'o', 'd']) {
        "surprisingly good".to_owned()
    } else if lower_equals_exec(word, &vec!['n', 'i', 'c', 'e']) {
        "thoughtful".to_owned()
    } else if lower_equals_exec(word, &vec!['b', 'i', 'g']) {
        "substantial".to_owned()
    } else {
        "better".to_owned()
    }
}

impl Run {
    /// Prepares `text` to be typed with `settings`; the run starts now.
    pub fn new(text: String, settings: TypingSettings) -> (run: Run)
        ensures
            run.wf(),
            run@.wf(),
            run@.text == text@,
            run@.index == 0,
            run@.mistakes == 0 && run@.revisions == 0,
            !run@.paused && !run@.revision_done && !run@.stopped,
            run@.strokes.len() == 0,
            run@.settings == settings,
    {
        let analysis = TextAnalysis::parse(text.as_str());
        let chars = crate::text::chars::chars_of(text.as_str());
        // The encoding is held in memory, so every byte position fits a `usize`.
        let byte_count: usize = text.as_str().as_bytes().len();
        proof {
            assert(byte_count == crate::text::chars::byte_len(text@));
            crate::text::chars::lemma_chars_le_bytes(text@);
        }
        Run {
            text: chars,
            index: 0,
            position: 0,
            settings,
            analysis,
            stats_typed: 0,
            mistakes: 0,
            corrections: 0,
            revisions: 0,
            revision_done: false,
            paused: false,
            stopped: false,
            started: now(),
            strokes: Ghost(Seq::empty()),
        }
    }

    /// The run is consistent (see `RunView::wf`).
    pub closed spec fn wf(&self) -> bool {
        self@.wf()
    }

    /// The progress of a run that was not stopped.
    pub fn stats(&self) -> (stats: EngineStats)
        requires
            self.wf(),
            !self@.stopped,
        ensures
            stats.typed == self@.typed,
            stats.total == self@.text.len(),
            stats.mistakes == self@.mistakes,
            stats.corrections == self@.corrections,
            stats.revisions == self@.revisions,
            stats.started_at == Some(self@.started),
            stats.paused == self@.paused,
            !stats.finished,
    {
        EngineStats {
            typed: self.stats_typed,
            total: self.analysis.characters,
            mistakes: self.mistakes,
            corrections: self.corrections,
            revisions: self.revisions,
            paused: self.paused,
            started_at: Some(self.started),
            finished: false,
        }
    }

    /// The progress of a run that has typed everything, marked finished.
    pub fn final_stats(&self) -> (stats: EngineStats)
        requires
            self.wf(),
            self@.step() == RunStep::Finish,
        ensures
            stats.typed == stats.total,
            !stats.paused,
            stats.typed == self@.typed,
            stats.total == self@.text.len(),
            stats.mistakes == self@.mistakes,
            stats.corrections == self@.corrections,
            stats.revisions == self@.revisions,
            stats.started_at == Some(self@.started),
            stats.paused == self@.paused,
            stats.finished,
    {
        let mut stats = self.stats();
        stats.finished = true;
        proof {
            lemma_finish_types_everything(self@);
        }
        stats
    }

    /// Whether the run is paused.
    pub fn is_paused(&self) -> (r: bool)
        ensures
            r == self@.paused,
    {
        self.paused
    }

    /// Takes a command received during the run: pause, resume and toggle
    /// change the pause; stop ends the run for good (the result is `false`);
    /// starts are ignored.
    pub fn on_command<S>(&mut self, command: &EngineCommand<S>) -> (keep: bool)
        requires
            old(self).wf(),
        ensures
            final(self).wf(),
            keep == !(*command is Stop),
            final(self)@ == old(self)@.after(*command),
    {
        match command {
            EngineCommand::Pause => {
                self.paused = true;
                true
            },
            EngineCommand::Resume => {
                self.paused = false;
                true
            },
            EngineCommand::TogglePause => {
                self.paused = !self.paused;
                true
            },
            EngineCommand::Stop => {
                self.stopped = true;
                false
            },
            EngineCommand::Start(_, _) => true,
            EngineCommand::StartLast => true,
        }
    }

    /// What comes next: nothing once stopped, wait while paused, finish when
    /// all is typed, else type the next character.
    pub fn next_step(&self) -> (step: RunStep)
        requires
            self.wf(),
        ensures
            step == self@.step(),
    {
        if self.stopped {
            RunStep::Ended
        } else if self.paused {
            RunStep::Wait
        } else if self.index >= self.text.len() {
            RunStep::Finish
        } else {
            RunStep::Type(self.text[self.index])
        }
    }

    /// Whether typing `character` now is a moment to think.
    pub fn is_thinking_point(&self, character: char) -> (r: bool)
        requires
            self.wf(),
        ensures
            r == self@.thinking_point(character),
            !self@.settings.thinking_enabled ==> !r,
    {
        proof {
            lemma_thinking_follows_the_setting(self@, character);
        }
        if !self.settings.thinking_enabled {
            return false;
        }
        if character == '\n' {
            return true;
        }
        let tokens = &self.analysis.tokens;
        let mut k: usize = 0;
        while k < tokens.len()
            invariant
                k <= tokens@.len(),
                tokens@ == self.analysis.tokens@,
                self.settings.thinking_enabled,
                forall|j: int|
                    0 <= j < k ==> !(#[trigger] tokens@[j].start == self.position
                        && tokens@[j].difficult),
            decreases tokens@.len() - k,
        {
            if tokens[k].start == self.position && tokens[k].difficult {
                proof {
                    let v = self@;
                    assert(v.analysis.tokens@[k as int].start == v.position);
                    assert(v.analysis.tokens@[k as int].difficult);
                }
                return true;
            }
            k = k + 1;
        }
        false
    }

    /// Types the next character: draws a pause to think when `think` is set
    /// at a moment to think, makes a typo when mistakes are on, `mistake` is
    /// set and the character is alphanumeric, and advances past the
    /// character. The typo is counted as made and corrected.
    pub fn type_character(&mut self, think: bool, mistake: bool) -> (stroke: Keystroke)
        requires
            old(self).wf(),
            old(self)@.step() is Type,
            think && old(self)@.thinking_point(old(self)@.text[old(self)@.index as int])
                ==> old(self)@.settings.thinking_min_ms <= old(self)@.settings.thinking_max_ms,
        ensures
            final(self).wf(),
            ({
                let o = old(self)@;
                let c = o.text[o.index as int];
                let typo = o.settings.mistakes_enabled && mistake
                    && crate::text::chars::alphanumeric(c);
                &&& stroke.character == c
                &&& (stroke.thinking_pause is Some <==> think && o.thinking_point(c))
                &&& (!o.settings.thinking_enabled ==> stroke.thinking_pause is None)
                &&& (stroke.thinking_pause matches Some(ms) ==> o.settings.thinking_min_ms <= ms
                    <= o.settings.thinking_max_ms)
                &&& (stroke.typo is Some <==> typo)
                &&& (stroke.typo matches Some(t) ==> t.key == neighbor(c) && 90 <= t.pause_after_key
                    <= 260 && 45 <= t.pause_after_backspace <= 140)
                &&& final(self)@ == (RunView {
                    index: o.index + 1,
                    position: o.position + crate::text::chars::utf8_width(c),
                    typed: o.typed + 1,
                    mistakes: if typo {
                        o.mistakes.wrapping_add(1)
                    } else {
                        o.mistakes
                    },
                    corrections: if typo {
                        o.corrections.wrapping_add(1)
                    } else {
                        o.corrections
                    },
                    strokes: o.strokes.push(stroke),
                    ..o
                })
            }),
    {
        let ghost o = self@;
        let character = self.text[self.index];
        proof {
            lemma_thinking_follows_the_setting(o, character);
        }
        let thinking_pause = if think && self.is_thinking_point(character) {
            Some(random_between(self.settings.thinking_min_ms, self.settings.thinking_max_ms))
        } else {
            None
        };
        let typo = if self.settings.mistakes_enabled && mistake && is_alphanumeric(character) {
            let key = neighbor_key(character);
            self.mistakes = self.mistakes.wrapping_add(1);
            let pause_after_key = random_between(90, 260);
            self.corrections = self.corrections.wrapping_add(1);
            let pause_after_backspace = random_between(45, 140);
            Some(Typo { key, pause_after_key, pause_after_backspace })
        } else {
            None
        };
        let width = len_utf8(character);
        proof {
            let t = self.text@;
            let i = self.index as int;
            assert(t.take(i + 1) =~= t.take(i).push(character));
            crate::text::chars::lemma_byte_len_push(t.take(i), character);
            crate::text::chars::lemma_byte_len_prefix(t, i + 1, t.len() as int);
            crate::text::chars::lemma_chars_le_bytes(t);
        }
        self.position = self.position + width;
        self.stats_typed = self.stats_typed + 1;
        self.index = self.index + 1;
        let made = Keystroke { character, thinking_pause, typo };
        self.strokes = Ghost(self.strokes@.push(made));
        proof {
            lemma_stroke_extends_trace(o.strokes, o.text, made);
        }
        made
    }

    /// The number of characters whose encoding takes the first `byte` bytes
    /// of the text.
    fn chars_before(&self, byte: usize) -> (n: usize)
        requires
            self.wf(),
            exists|c: int| 0 <= c <= self@.text.len() && crate::text::chars::byte_len(
                #[trigger] self@.text.take(c),
            ) == byte,
        ensures
            n <= self@.text.len(),
            crate::text::chars::byte_len(self@.text.take(n as int)) == byte,
    {
        let ghost t = self.text@;
        let ghost target = choose|c: int|
            0 <= c <= t.len() && crate::text::chars::byte_len(#[trigger] t.take(c)) == byte;
        let mut n: usize = 0;
        let mut acc: usize = 0;
        proof {
            crate::text::chars::lemma_chars_le_bytes(t);
        }
        while acc < byte
            invariant
                t == self.text@,
                t.len() <= usize::MAX,
                0 <= target <= t.len(),
                crate::text::chars::byte_len(t.take(target)) == byte,
                n <= target,
                acc == crate::text::chars::byte_len(t.take(n as int)),
            decreases target - n,
        {
            proof {
                if n == target {
                    assert(false);
                }
                assert(t.take(n + 1) =~= t.take(n as int).push(t[n as int]));
                crate::text::chars::lemma_byte_len_push(t.take(n as int), t[n as int]);
                crate::text::chars::lemma_byte_len_prefix(t, n + 1, target);
            }
            acc = acc + len_utf8(self.text[n]);
            n = n + 1;
        }
        proof {
            if n < target {
                crate::text::chars::lemma_byte_len_prefix(t, n as int, target);
            }
        }
        n
    }

    /// The index of the word a revision would replace.
    fn best_candidate_index(&self) -> (best: Option<usize>)
        requires
            self.wf(),
        ensures
            best matches Some(k) ==> best_candidate(self@.analysis.tokens@, self@.position as int)
                == Some(k as int),
            best is None ==> best_candidate(self@.analysis.tokens@, self@.position as int) is None,
    {
        let tokens = &self.analysis.tokens;
        let there_word = vec!['t', 'h', 'e', 'r', 'e'];
        let mut best: Option<usize> = None;
        let mut best_len: usize = 0;
        let mut k: usize = 0;
        while k < tokens.len()
            invariant
                k <= tokens@.len(),
                tokens@ == self.analysis.tokens@,
                there_word@ == there(),
                best matches Some(j) ==> best_candidate(tokens@.take(k as int), self.position as int)
                    == Some(j as int) && j < k && best_len == tokens@[j as int].text@.len(),
                best is None ==> best_candidate(tokens@.take(k as int), self.position as int) is None,
            decreases tokens@.len() - k,
        {
            proof {
                assert(tokens@.take(k + 1).drop_last() =~= tokens@.take(k as int));
                assert(tokens@.take(k + 1)[k as int] == tokens@[k as int]);
                if let Some(j) = best {
                    assert(tokens@.take(k + 1)[j as int] == tokens@[j as int]);
                }
            }
            let token = &tokens[k];
            let length = token.text.as_str().unicode_len();
            if token.end <= self.position && length >= 5 && !lower_equals_exec(
                token.text.as_str(),
                &there_word,
            ) {
                let better = match best {
                    Some(_) => best_len <= length,
                    None => true,
                };
                if better {
                    best = Some(k);
                    best_len = length;
                }
            }
            k = k + 1;
        }
        proof {
            assert(tokens@.take(k as int) =~= tokens@);
        }
        best
    }

    /// The revision to offer when `first_secs` and `second_secs` seconds have
    /// passed at the two readings of the clock: within the revision window,
    /// the longest typed word that is not "there", if there is one.
    pub fn revision_offer_at(&self, first_secs: u64, second_secs: u64) -> (offer: Option<Revision>)
        requires
            self.wf(),
        ensures
            offer is Some <==> self@.revision_window(first_secs, second_secs) && best_candidate(
                self@.analysis.tokens@,
                self@.position as int,
            ) is Some,
            offer matches Some(r) ==> ({
                let k = best_candidate(self@.analysis.tokens@, self@.position as int)->0;
                let word = self@.analysis.tokens@[k];
                &&& r.characters_before == self@.spans()[k].0
                &&& r.word_length == word.text@.len()
                &&& r.replacement@ == replacement_for(word.text@)
            }),
    {
        if self.stopped || !(self.settings.revision_enabled && !self.revision_done && self.revisions
            < self.settings.max_revisions && first_secs >= self.settings.revision_min_seconds
            && second_secs <= self.settings.revision_max_seconds) {
            return None;
        }
        match self.best_candidate_index() {
            None => None,
            Some(k) => {
                proof {
                    lemma_best_candidate(self.analysis.tokens@, self.position as int);
                }
                let token = &self.analysis.tokens[k];
                proof {
                    let t = self.text@;
                    let w = crate::text::analyzer::word_mask(
                        t,
                        crate::text::analyzer::alnum_flags(t),
                    );
                    crate::text::analyzer::lemma_word_spans_are_maximal_runs(w);
                    let span = self@.spans()[k as int];
                    assert(crate::text::analyzer::token_of_span(*token, t, span));
                    assert(crate::text::analyzer::is_maximal_run(w, span.0, span.1));
                    assert(0 <= span.0 <= t.len());
                }
                let characters_before = self.chars_before(token.start);
                proof {
                    let span = self@.spans()[k as int];
                    crate::text::chars::lemma_byte_len_prefix_injective(
                        self.text@,
                        characters_before as int,
                        span.0,
                    );
                }
                let word_length = token.text.as_str().unicode_len();
                let replacement = replacement_word(token.text.as_str());
                Some(Revision { characters_before, word_length, replacement })
            },
        }
    }

    /// The revision to offer now, reading the clock twice as the window's two
    /// bounds are checked: what `revision_offer_at` offers for the two
    /// readings. The readings themselves are not stated, so the result is
    /// that of some two readings; where no reading can close the window (a
    /// minimum of zero seconds and a maximum of `u64::MAX`), the longest
    /// eligible word is always offered.
    #[verifier::spinoff_prover]
    pub fn revision_offer(&self) -> (offer: Option<Revision>)
        requires
            self.wf(),
        ensures
            exists|first_secs: u64, second_secs: u64|
                #![trigger self@.revision_window(first_secs, second_secs)]
                (offer is Some <==> self@.revision_window(first_secs, second_secs)
                    && best_candidate(self@.analysis.tokens@, self@.position as int) is Some),
            offer is Some ==> best_candidate(self@.analysis.tokens@, self@.position as int) is Some
                && !self@.stopped && self@.settings.revision_enabled && !self@.revision_done && self@.revisions
                < self@.settings.max_revisions,
            offer matches Some(r) ==> ({
                let k = best_candidate(self@.analysis.tokens@, self@.position as int)->0;
                let word = self@.analysis.tokens@[k];
                &&& r.characters_before == self@.spans()[k].0
                &&& r.word_length == word.text@.len()
                &&& r.replacement@ == replacement_for(word.text@)
            }),
    {
        let first_secs = as_secs(&elapsed(&self.started));
        let second_secs = as_secs(&elapsed(&self.started));
        let offer = self.revision_offer_at(first_secs, second_secs);
        proof {
            assert(offer is Some <==> self@.revision_window(first_secs, second_secs)
                && best_candidate(self@.analysis.tokens@, self@.position as int) is Some);
        }
        offer
    }

    /// Records that the offered revision was made.
    pub fn record_revision(&mut self)
        requires
            old(self).wf(),
            !old(self)@.revision_done,
            old(self)@.revisions < old(self)@.settings.max_revisions,
        ensures
            final(self).wf(),
            final(self)@ == (RunView {
                revisions: (old(self)@.revisions + 1) as u32,
                revision_done: true,
                ..old(self)@
            }),
    {
        self.revisions = self.revisions + 1;
        self.revision_done = true;
    }
}

/// Law: the word a revision replaces is eligible and longest among the
/// eligible words, and no later eligible word is as long; when there is
/// none, no word is eligible.
pub proof fn lemma_best_candidate(tokens: Seq<WordToken>, position: int)
    ensures
        best_candidate(tokens, position) matches Some(k) ==> {
            &&& 0 <= k < tokens.len()
            &&& eligible(tokens[k], position)
            &&& forall|j: int|
                0 <= j < tokens.len() && eligible(#[trigger] tokens[j], position)
                    ==> tokens[j].text@.len() <= tokens[k].text@.len()
            &&& forall|j: int|
                k < j < tokens.len() && eligible(#[trigger] tokens[j], position)
                    ==> tokens[j].text@.len() < tokens[k].text@.len()
        },
        best_candidate(tokens, position) is None ==> forall|j: int|
            0 <= j < tokens.len() ==> !eligible(#[trigger] tokens[j], position),
    decreases tokens.len(),
{
    if tokens.len() > 0 {
        let p = tokens.drop_last();
        let last = tokens.len() - 1;
        lemma_best_candidate(p, position);
        assert forall|j: int| 0 <= j < p.len() implies #[trigger] p[j] == tokens[j] by {}
        let before = best_candidate(p, position);
        let chosen = eligible(tokens[last], position) && match before {
            Some(j) => tokens[j].text@.len() <= tokens[last].text@.len(),
            None => true,
        };
        if chosen {
            assert(best_candidate(tokens, position) == Some(last));
            assert forall|j: int|
                0 <= j < tokens.len() && eligible(#[trigger] tokens[j], position) implies tokens[j].text@.len()
                <= tokens[last].text@.len() by {
                if j < last {
                    assert(p[j] == tokens[j]);
                    assert(eligible(p[j], position));
                }
            }
        } else {
            assert(best_candidate(tokens, position) == before);
            match before {
                Some(k) => {
                    assert(p[k] == tokens[k]);
                    assert forall|j: int|
                        0 <= j < tokens.len() && eligible(#[trigger] tokens[j], position) implies tokens[j].text@.len()
                        <= tokens[k].text@.len() by {
                        if j < last {
                            assert(p[j] == tokens[j]);
                            assert(eligible(p[j], position));
                        }
                    }
                    assert forall|j: int|
                        k < j < tokens.len() && eligible(#[trigger] tokens[j], position) implies tokens[j].text@.len()
                        < tokens[k].text@.len() by {
                        if j < last {
                            assert(p[j] == tokens[j]);
                            assert(eligible(p[j], position));
                        }
                    }
                },
                None => {
                    assert forall|j: int| 0 <= j < tokens.len() implies !eligible(
                        #[trigger] tokens[j],
                        position,
                    ) by {
                        if j < last {
                            assert(p[j] == tokens[j]);
                        }
                    }
                },
            }
        }
    }
}

/// Law: a run stays consistent: what is typed is a prefix of the text,
/// progress counts the typed characters, every typo is counted as corrected,
/// and at most one revision is made, never more than the settings allow.
pub proof fn lemma_run_consistent(run: &Run)
    requires
        run.wf(),
    ensures
        run@.wf(),
{
}

/// Law: a run that finishes has typed every character of its text, and
/// every byte.
pub proof fn lemma_finish_types_everything(v: RunView)
    requires
        v.wf(),
        v.step() == RunStep::Finish,
    ensures
        v.typed == v.text.len(),
        v.position == crate::text::chars::byte_len(v.text),
{
    assert(v.text.take(v.text.len() as int) =~= v.text);
}

/// Law: once a revision is made, no other is offered, whatever the clock.
pub proof fn lemma_no_second_revision(v: RunView, first_secs: u64, second_secs: u64)
    requires
        v.revision_done,
    ensures
        !v.revision_window(first_secs, second_secs),
{
}

/// Law: an offered revision always replaces its word with "better": the
/// words with other replacements are shorter than any eligible word.
pub proof fn lemma_offered_replacement_is_better(t: WordToken, position: int)
    requires
        eligible(t, position),
    ensures
        replacement_for(t.text@) == "better"@,
{
}

/// Law: pausing a run that was not stopped holds the typing where it is: a
/// paused run only waits, and after resuming it types the same next
/// character at the same place, so nothing is skipped or typed twice.
pub proof fn lemma_pause_holds_position<S>(v: RunView)
    requires
        !v.stopped,
    ensures
        ({
            let paused = RunView { paused: paused_after(v.paused, EngineCommand::<S>::Pause), ..v };
            let resumed = RunView {
                paused: paused_after(paused.paused, EngineCommand::<S>::Resume),
                ..paused
            };
            &&& paused.step() == RunStep::Wait
            &&& resumed.index == v.index && resumed.position == v.position
            &&& resumed.text == v.text
            &&& resumed.step() == (RunView { paused: false, ..v }).step()
        }),
{
}

/// A keystroke that types the next character of `text` extends a trace of
/// keystrokes that typed the characters before it.
proof fn lemma_stroke_extends_trace(strokes: Seq<Keystroke>, text: Seq<char>, k: Keystroke)
    requires
        strokes.len() < text.len(),
        forall|i: int| 0 <= i < strokes.len() ==> #[trigger] strokes[i].character == text[i],
        k.character == text[strokes.len() as int],
    ensures
        ({
            let next = strokes.push(k);
            &&& next.len() == strokes.len() + 1
            &&& forall|i: int| 0 <= i < next.len() ==> #[trigger] next[i].character == text[i]
        }),
{
    let next = strokes.push(k);
    assert forall|i: int| 0 <= i < next.len() implies #[trigger] next[i].character == text[i] by {
        if i < strokes.len() {
            assert(next[i] == strokes[i]);
        }
    }
}

/// Law: the keystrokes of a run, replayed from an empty editor, give the
/// text typed so far (every typo is taken back), and the whole text once
/// the run finishes. A revision is made apart from these keystrokes.
pub proof fn lemma_run_replays_text(v: RunView)
    requires
        v.wf(),
    ensures
        replay(seq![], plans_of(v.strokes)) == v.text.take(v.index as int),
        v.step() == RunStep::Finish ==> replay(seq![], plans_of(v.strokes)) == v.text,
{
    lemma_strokes_replay_text(v.strokes, v.text);
    assert(v.text.take(v.text.len() as int) =~= v.text);
}

/// Law: stop ends a run for good: a stopped run types nothing, offers no
/// revision, and stays stopped whatever command follows.
pub proof fn lemma_stop_ends_run<S>(v: RunView, next: EngineCommand<S>, first_secs: u64, second_secs: u64)
    ensures
        v.after(EngineCommand::<S>::Stop).step() == RunStep::Ended,
        !v.after(EngineCommand::<S>::Stop).revision_window(first_secs, second_secs),
        v.after(EngineCommand::<S>::Stop).after(next).step() == RunStep::Ended,
{
}


/// Law: thinking follows the setting: with thinking off no character is a
/// moment to think, and with it on every line break is.
pub proof fn lemma_thinking_follows_the_setting(v: RunView, c: char)
    ensures
        !v.settings.thinking_enabled ==> !v.thinking_point(c),
        v.settings.thinking_enabled ==> v.thinking_point('\n'),
{
}

/// Law: a word that is "there" in any mix of upper and lower case ("There",
/// "THERE", ...) is never eligible for a revision.
pub proof fn lemma_there_is_never_revised(t: WordToken, position: int)
    requires
        eligible(t, position),
    ensures
        !(t.text@.len() == 5 && forall|i: int|
            0 <= i < 5 ==> #[trigger] t.text@[i] == seq!['t', 'h', 'e', 'r', 'e'][i] || t.text@[i]
                == seq!['T', 'H', 'E', 'R', 'E'][i]),
{
    let w = t.text@;
    let lower = seq!['t', 'h', 'e', 'r', 'e'];
    let upper = seq!['T', 'H', 'E', 'R', 'E'];
    if w.len() == 5 && forall|i: int| 0 <= i < 5 ==> #[trigger] w[i] == lower[i] || w[i] == upper[i] {
        assert forall|i: int| 0 <= i < w.len() implies crate::text::chars::ascii_lower(#[trigger] w[i])
            == there()[i] by {
            assert(w[i] == lower[i] || w[i] == upper[i]);
            assert(('T' as u32) == 0x54 && ('H' as u32) == 0x48 && ('E' as u32) == 0x45 && ('R' as u32)
                == 0x52);
            assert(('t' as u32) == 0x74 && ('h' as u32) == 0x68 && ('e' as u32) == 0x65 && ('r' as u32)
                == 0x72);
        }
        assert(lower_equals(w, there()));
    }
}

/// Law: a start received during a run changes nothing; only pause, resume,
/// toggle and stop change a run, and only pause, resume and toggle change
/// its pause.
pub proof fn lemma_starts_leave_a_run<S>(v: RunView, text: String, settings: S, command: EngineCommand<S>)
    ensures
        v.after(EngineCommand::Start(text, settings)) == v,
        v.after(EngineCommand::<S>::StartLast) == v,
        v.after(command).paused != v.paused ==> (command is Pause || command is Resume
            || command is TogglePause),
        v.after(command) != v ==> (command is Pause || command is Resume || command is TogglePause
            || command is Stop),
{
}

/// Law: an idle engine ends only when its channel closes: no command ends
/// it, and pause, resume, toggle and stop are ignored, leaving the
/// remembered run as it was.
pub proof fn lemma_idle_ends_only_on_close<S>(last: Option<(String, S)>, command: EngineCommand<S>)
    ensures
        idle_decision(last, None) == IdleStep::Exit,
        idle_decision(last, Some(command)) != IdleStep::Exit,
        (command is Pause || command is Resume || command is TogglePause || command is Stop) ==> (
        idle_decision(last, Some(command)) == IdleStep::Wait && last_after(last, Some(command))
            == last),
{
}

} // verus!
