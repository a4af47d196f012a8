# Diveno

A library for hosting a game of MOTUS/Lingo in Esperanto: a team guesses a
word letter by letter, sees which letters are in place or elsewhere in the
word, and covers spaces of a bingo grid with balls drawn from a tombola.

The library is written in Verus: its functions carry contracts that the
verifier proves.

- `src/game/logic.rs`: the game itself. `LogicView` is the state as plain
  values and `key_step` says what each key does to it; `Logic::press_key` is
  proved to follow it. Scoring a guess, hints, pages, scores and the event
  queue are all stated there, with properties such as an event queue that
  never repeats an event and a hint that shows exactly one more letter.
- `src/game/bingo_grid.rs`: the bingo grid, its lines and the generator of
  starting patterns, which never runs out of spaces to cover and whose
  choices only narrow as spaces are covered.
- `src/game/random.rs`: random numbers and the Fisher-Yates shuffle, stated
  over the numbers drawn.
- `src/game/dictionary.rs`: the trie dictionary file and the word codes of the
  word list.
- `src/game/sound_queue.rs`, `src/game/tombola.rs`, `src/game/timeout.rs`:
  the timing of sounds and the step clock of a tombola.
- `src/game/quad_tool.rs`, `src/game/bingo_painter.rs`,
  `src/game/digit_tool.rs`: the integer parts of drawing: the element indices
  of quads, which letter of BINGO a space shows during the animation, and the
  textures of a number's digits.
- `src/logic.rs`: a smaller game that reads the guess in the x-system.
- `src/word_list.rs`, `src/tile_texture.rs`: the computations behind the word
  list and letter texture tools.

`app/` holds the program around the library: the SDL window, keyboard and
sound, the rapier2d physics of the tombolas and a text display of the game.
