# Auto Write

A typing simulator: it types a prepared text into the focused application
with a human rhythm, thinking pauses, corrected typos and an occasional
revision: it goes back to the start of the longest typed word, presses
backspace once for each character of that word (which removes the
characters just before the caret, so the ones before the word), types a
replacement and returns to the end.

- `src/` is the verified library.
  - `text/`: the analysis of the text (characters, words with their byte
    ranges, sentences, paragraphs, punctuation) and the character classes
    it rests on.
  - `typing/`: the engine's commands and events, the state of a run and the
    decision it takes at each keystroke, the punctuation pause, and the
    clock and random draws the run reads.
  - `input/`: the keyboard events that typing a character, a backspace or a
    revision consists of, and the commands of the hotkeys.
  - `app/`: the state the window shows and how buttons and events change it.
  - `config/`: the settings the run decides by.
- `app/` runs the engine's worker, times the keystrokes, rolls the dice that
  have float rates, loads the settings, and drives a console front end.
- `tests/` runs the library on concrete values.
