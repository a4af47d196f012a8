use vstd::prelude::*;
use std::collections::HashMap;
use std::collections::VecDeque;
use super::{bingo_grid, case, dictionary, letter_texture, random, tombola};
use bingo_grid::{
    lemma_bit_or,
    lemma_count_bits_add,
    rank,
    BingoGrid,
    GridView,
    count_bits,
    count_ones,
    is_set,
    lists_uncovered_spaces,
    numbered_balls,
    valid_initial_pattern,
};
use tombola::{ClockView, SpinClock, start_spin_spec};
use dictionary::{Dictionary, dictionary_contains, dictionary_word};
use letter_texture::{has_tile, is_valid_letter};

verus! {

broadcast use vstd::std_specs::hash::group_hash_axioms;

pub const N_GUESSES: usize = 6;

pub const N_NUMBER_BALLS: usize = bingo_grid::N_SPACES - bingo_grid::N_INITIAL_SPACES_COVERED;
pub const N_BLACK_BALLS: usize = 3;
pub const N_BALLS: usize = N_NUMBER_BALLS + N_BLACK_BALLS;

pub const N_TEAMS: usize = 2;

pub const MAX_SCORE: u32 = 990;

/// Points a team earns for solving the word.
pub const SOLVE_SCORE: u32 = 50;

#[derive(PartialEq, Eq, Structural, Copy, Clone, Debug)]
pub enum Team {
    Left,
    Right,
}

#[derive(PartialEq, Eq, Structural, Copy, Clone, Debug)]
pub enum Page {
    Bingo(Team),
    Word,
}

impl Page {
    pub fn position(&self) -> (r: usize)
        ensures
            r == match *self {
                Page::Bingo(Team::Left) => 0usize,
                Page::Word => 1usize,
                Page::Bingo(Team::Right) => 2usize,
            },
    {
        match self {
            Page::Bingo(Team::Left) => 0,
            Page::Word => 1,
            Page::Bingo(Team::Right) => 2,
        }
    }
}

#[derive(PartialEq, Eq, Structural, Copy, Clone, Debug)]
pub enum Event {
    WordChanged,
    GridChanged,
    GuessEntered,
    WrongGuessEntered,
    GuessRejected,
    Solved,
    ScoreChanged(Team),
    CurrentTeamChanged,
    CurrentPageChanged(Page),
    TombolaStartedSpinning(Team),
}

#[derive(PartialEq, Eq, Structural, Copy, Clone, Debug)]
pub enum LetterResult {
    Correct,
    WrongPosition,
    Wrong,
    // Used when a guess is rejected, for example when the word is not
    // in the dictionary
    Rejected,
}

#[derive(Copy, Clone, Debug)]
pub enum Key {
    Dead,
    Backspace,
    Delete,
    Enter,
    PageDown,
    Space,
    Home,
    Letter(char),
    Left,
    Right,
    Up,
    Down,
}

/// What a ball of the tombola shows.
#[derive(PartialEq, Eq, Structural, Copy, Clone, Debug)]
pub enum BallType {
    Number(u32),
    Black,
}

#[derive(PartialEq, Eq, Structural, Copy, Clone, Debug)]
pub struct Letter {
    pub letter: char,
    pub result: LetterResult,
}

impl Letter {
    pub fn new(letter: char, result: LetterResult) -> (r: Letter)
        ensures
            r == (Letter { letter, result }),
    {
        Letter { letter, result }
    }
}

pub open spec fn team_index(team: Team) -> int {
    match team {
        Team::Left => 0,
        Team::Right => 1,
    }
}

fn team_slot(team: Team) -> (r: usize)
    ensures
        r == team_index(team),
{
    match team {
        Team::Left => 0,
        Team::Right => 1,
    }
}

// ---------------------------------------------------------------------------
// Letters

/// The letter with a circumflex (or breve) that the letter stands for in the
/// Esperanto x-system, if any.
pub open spec fn hatify_spec(letter: char) -> Option<char> {
    if letter == 'C' {
        Some('Ĉ')
    } else if letter == 'G' {
        Some('Ĝ')
    } else if letter == 'H' {
        Some('Ĥ')
    } else if letter == 'J' {
        Some('Ĵ')
    } else if letter == 'S' {
        Some('Ŝ')
    } else if letter == 'U' {
        Some('Ŭ')
    } else if letter == 'c' {
        Some('ĉ')
    } else if letter == 'g' {
        Some('ĝ')
    } else if letter == 'h' {
        Some('ĥ')
    } else if letter == 'j' {
        Some('ĵ')
    } else if letter == 's' {
        Some('ŝ')
    } else if letter == 'u' {
        Some('ŭ')
    } else {
        None
    }
}

pub fn hatify(letter: char) -> (r: Option<char>)
    ensures
        r == hatify_spec(letter),
{
    match letter {
        'C' => Some('Ĉ'),
        'G' => Some('Ĝ'),
        'H' => Some('Ĥ'),
        'J' => Some('Ĵ'),
        'S' => Some('Ŝ'),
        'U' => Some('Ŭ'),
        'c' => Some('ĉ'),
        'g' => Some('ĝ'),
        'h' => Some('ĥ'),
        'j' => Some('ĵ'),
        's' => Some('ŝ'),
        'u' => Some('ŭ'),
        _ => None,
    }
}

/// The characters of `s` that have a tile.
pub open spec fn tiles_only(s: Seq<char>) -> Seq<char> {
    s.filter(|c: char| has_tile(c))
}

/// A word as the game shows it: each character in uppercase, keeping only the
/// characters that have a tile.
pub open spec fn normalize_word(word: Seq<char>) -> Seq<char>
    decreases word.len(),
{
    if word.len() == 0 {
        seq![]
    } else {
        normalize_word(word.drop_last()) + tiles_only(case::uppercase_of(word.last()))
    }
}

fn normalize(word: &[char]) -> (r: Vec<char>)
    ensures
        r@ == normalize_word(word@),
{
    let mut r: Vec<char> = Vec::new();
    let mut i: usize = 0;
    while i < word.len()
        invariant
            i <= word@.len(),
            r@ == normalize_word(word@.take(i as int)),
        decreases word@.len() - i,
    {
        let upper = case::to_uppercase(word[i]);
        let mut j: usize = 0;
        let ghost before = r@;
        while j < upper.len()
            invariant
                j <= upper@.len(),
                r@ == before + tiles_only(upper@.take(j as int)),
            decreases upper@.len() - j,
        {
            proof {
                assert(upper@.take(j + 1).drop_last() == upper@.take(j as int));
                reveal(Seq::filter);
            }
            if is_valid_letter(upper[j]) {
                r.push(upper[j]);
            }
            j = j + 1;
        }
        proof {
            assert(word@.take(i + 1).drop_last() == word@.take(i as int));
            assert(upper@.take(j as int) == upper@);
        }
        i = i + 1;
    }
    assert(word@.take(word@.len() as int) == word@);
    r
}

// ---------------------------------------------------------------------------
// Scoring a guess

/// Number of positions below `n` where the guess misses and the word has `c`.
pub open spec fn unmatched_in_word(guess: Seq<char>, word: Seq<char>, c: char, n: int) -> int
    decreases n,
{
    if n <= 0 {
        0
    } else {
        unmatched_in_word(guess, word, c, n - 1) + if guess[n - 1] != word[n - 1] && word[n - 1]
            == c {
            1int
        } else {
            0int
        }
    }
}

/// Number of positions below `n` where the guess misses and the guess has `c`.
pub open spec fn missed_in_guess(guess: Seq<char>, word: Seq<char>, c: char, n: int) -> int
    decreases n,
{
    if n <= 0 {
        0
    } else {
        missed_in_guess(guess, word, c, n - 1) + if guess[n - 1] != word[n - 1] && guess[n - 1]
            == c {
            1int
        } else {
            0int
        }
    }
}

/// The result for letter `i` of a guess: correct where it matches the word;
/// otherwise in the wrong position while the word still has unmatched copies of
/// the letter that earlier misses of the same letter have not used up.
pub open spec fn letter_result(guess: Seq<char>, word: Seq<char>, i: int) -> LetterResult {
    if guess[i] == word[i] {
        LetterResult::Correct
    } else if missed_in_guess(guess, word, guess[i], i) < unmatched_in_word(
        guess,
        word,
        guess[i],
        word.len() as int,
    ) {
        LetterResult::WrongPosition
    } else {
        LetterResult::Wrong
    }
}

/// Letter `i` of a guess once it is scored against the word.
pub open spec fn scored_letter(guess: Seq<char>, word: Seq<char>, i: int) -> Letter {
    Letter { letter: guess[i], result: letter_result(guess, word, i) }
}

/// `letters` is the guess scored against the word, letter by letter.
pub open spec fn is_scored(letters: Seq<Letter>, guess: Seq<char>, word: Seq<char>) -> bool {
    &&& letters.len() == guess.len()
    &&& forall|i: int| 0 <= i < guess.len() ==> #[trigger] letters[i] == scored_letter(guess, word, i)
}

/// A letter after the first scoring pass: correct or wrong.
spec fn first_pass(guess: Seq<char>, word: Seq<char>, j: int) -> Letter {
    Letter {
        letter: guess[j],
        result: if guess[j] == word[j] {
            LetterResult::Correct
        } else {
            LetterResult::Wrong
        },
    }
}

/// A count of letters.
pub struct LetterCounter {
    letters: HashMap<u32, u32>,
}

/// The counts after popping `letter` from `count`: one fewer of the letter
/// when there was one, the same otherwise.
pub open spec fn count_after_pop(count: spec_fn(char) -> int, letter: char) -> spec_fn(char) -> int {
    |c: char| if c == letter && count(letter) > 0 { count(c) - 1 } else { count(c) }
}

/// What popping `letters` one after the other from `count` returns.
pub open spec fn pop_results(count: spec_fn(char) -> int, letters: Seq<char>) -> Seq<bool>
    decreases letters.len(),
{
    if letters.len() == 0 {
        Seq::empty()
    } else {
        seq![count(letters[0]) > 0] + pop_results(
            count_after_pop(count, letters[0]),
            letters.drop_first(),
        )
    }
}

/// How many of the first `j` letters of `s` are `c`.
pub open spec fn occurrences(s: Seq<char>, c: char, j: int) -> int
    decreases j,
{
    if j <= 0 {
        0
    } else {
        occurrences(s, c, j - 1) + if s[j - 1] == c { 1int } else { 0int }
    }
}

proof fn lemma_occurrences_after_first(s: Seq<char>, c: char, j: int)
    requires
        1 <= j <= s.len(),
    ensures
        occurrences(s, c, j) == occurrences(s.drop_first(), c, j - 1) + if s[0] == c {
            1int
        } else {
            0int
        },
    decreases j,
{
    let t = s.drop_first();
    assert(occurrences(s, c, 0) == 0);
    assert(occurrences(t, c, 0) == 0);
    if j > 1 {
        lemma_occurrences_after_first(s, c, j - 1);
        assert(t[j - 2] == s[j - 1]);
        assert(occurrences(t, c, j - 1) == occurrences(t, c, j - 2) + if t[j - 2] == c {
            1int
        } else {
            0int
        });
    }
}

/// The counter behaves as a multiset: in a run of pops, a pop of a letter
/// succeeds exactly when fewer of that letter were popped before it in the
/// run than the counter held, so pops of one letter never change the results
/// for another.
pub proof fn lemma_pops_follow_counts(count: spec_fn(char) -> int, letters: Seq<char>)
    requires
        forall|c: char| #[trigger] count(c) >= 0,
    ensures
        pop_results(count, letters).len() == letters.len(),
        forall|j: int|
            0 <= j < letters.len() ==> #[trigger] pop_results(count, letters)[j] == (occurrences(
                letters,
                letters[j],
                j,
            ) < count(letters[j])),
    decreases letters.len(),
{
    if letters.len() > 0 {
        let next = count_after_pop(count, letters[0]);
        let tail = letters.drop_first();
        lemma_pops_follow_counts(next, tail);
        assert forall|j: int| 0 <= j < letters.len() implies #[trigger] pop_results(
            count,
            letters,
        )[j] == (occurrences(letters, letters[j], j) < count(letters[j])) by {
            let head = seq![count(letters[0]) > 0];
            assert(pop_results(count, letters) == head + pop_results(next, tail));
            if j > 0 {
                lemma_occurrences_after_first(letters, letters[j], j);
                lemma_occurrences_nonnegative(tail, letters[j], j - 1);
                assert(pop_results(count, letters)[j] == pop_results(next, tail)[j - 1]);
                assert(tail[j - 1] == letters[j]);
                assert(pop_results(next, tail)[j - 1] == (occurrences(tail, tail[j - 1], j - 1)
                    < next(tail[j - 1])));
                assert(next(letters[j]) == if letters[j] == letters[0] && count(letters[0]) > 0 {
                    count(letters[j]) - 1
                } else {
                    count(letters[j])
                });
            } else {
                assert(occurrences(letters, letters[0], 0) == 0);
            }
        }
    }
}

/// The counts of an empty counter after `pushed` are pushed into it, each
/// push adding one of its letter.
pub open spec fn pushed_counts(pushed: Seq<char>) -> spec_fn(char) -> int {
    |c: char| occurrences(pushed, c, pushed.len() as int)
}

/// After `pushed` are pushed into an empty counter (each push adds one of its
/// letter), a run of pops of `popped` succeeds at pop `j` exactly when fewer
/// than the pushes of that letter were popped before it.
pub proof fn lemma_pops_after_pushes(pushed: Seq<char>, popped: Seq<char>)
    ensures
        forall|j: int|
            0 <= j < popped.len() ==> #[trigger] pop_results(pushed_counts(pushed), popped)[j] == (occurrences(popped, popped[j], j) < occurrences(
                pushed,
                popped[j],
                pushed.len() as int,
            )),
{
    let count = pushed_counts(pushed);
    assert forall|c: char| #[trigger] count(c) >= 0 by {
        lemma_occurrences_nonnegative(pushed, c, pushed.len() as int);
    }
    lemma_pops_follow_counts(count, popped);
}

proof fn lemma_occurrences_nonnegative(s: Seq<char>, c: char, j: int)
    ensures
        occurrences(s, c, j) >= 0,
    decreases j,
{
    if j > 0 {
        lemma_occurrences_nonnegative(s, c, j - 1);
    }
}

impl LetterCounter {
    /// How many of the letter the counter holds.
    pub closed spec fn count(&self, letter: char) -> int {
        if self.letters@.contains_key(letter as u32) {
            self.letters@[letter as u32] as int
        } else {
            0
        }
    }

    pub closed spec fn wf(&self) -> bool {
        forall|k: u32| #[trigger] self.letters@.contains_key(k) ==> self.letters@[k] > 0
    }

    pub fn new() -> (r: LetterCounter)
        ensures
            r.wf(),
            forall|c: char| #[trigger] r.count(c) == 0,
    {
        LetterCounter { letters: HashMap::new() }
    }

    pub fn clear(&mut self)
        ensures
            final(self).wf(),
            forall|c: char| #[trigger] final(self).count(c) == 0,
    {
        self.letters.clear();
    }

    pub fn push(&mut self, letter: char)
        requires
            old(self).wf(),
            old(self).count(letter) < u32::MAX,
        ensures
            final(self).wf(),
            forall|c: char| #[trigger] final(self).count(c) == old(self).count(c) + if c == letter {
                1int
            } else {
                0int
            },
    {
        let key = letter as u32;
        let n = match self.letters.get(&key) {
            Some(count) => *count,
            None => 0,
        };
        self.letters.insert(key, n + 1);
        assert(self.letters@ == old(self).letters@.insert(key, (n + 1) as u32));
        assert(n == old(self).count(letter));
        proof {
            assert forall|c: char| #[trigger] self.count(c) == old(self).count(c) + if c == letter {
                1int
            } else {
                0int
            } by {
                lemma_char_key(c, letter);
            }
        }
    }

    /// Takes one of the letter out of the counter; `false` when it held none.
    pub fn pop(&mut self, letter: char) -> (r: bool)
        requires
            old(self).wf(),
        ensures
            final(self).wf(),
            r == (old(self).count(letter) > 0),
            forall|c: char| #[trigger] final(self).count(c) == old(self).count(c) - if c == letter && r {
                1int
            } else {
                0int
            },
            forall|c: char| #[trigger] final(self).count(c) == count_after_pop(
                |d: char| old(self).count(d),
                letter,
            )(c),
    {
        let key = letter as u32;
        let n = match self.letters.get(&key) {
            Some(count) => *count,
            None => {
                return false;
            },
        };
        if n <= 1 {
            self.letters.remove(&key);
        } else {
            self.letters.insert(key, n - 1);
        }
        proof {
            assert forall|c: char| #[trigger] self.count(c) == old(self).count(c) - if c == letter {
                1int
            } else {
                0int
            } by {
                lemma_char_key(c, letter);
            }
        }
        true
    }
}

/// The letters of the line agree with the guess.
fn row_agrees(row: &[Letter], guess: &[char]) -> (r: bool)
    ensures
        r == agrees(letters_of(row@), guess@),
{
    let mut i: usize = 0;
    while i < row.len() && i < guess.len()
        invariant
            i <= row@.len(),
            forall|j: int| 0 <= j < i && j < guess@.len() ==> row@[j].letter == guess@[j],
        decreases row@.len() - i,
    {
        if row[i].letter != guess[i] {
            assert(letters_of(row@)[i as int] != guess@[i as int]);
            return false;
        }
        i = i + 1;
    }
    true
}

/// Position of the hidden letter that has `r` hidden letters before it.
fn find_hidden_position(visible: u32, n: usize, r: usize) -> (p: Option<u32>)
    requires
        n <= 32,
    ensures
        match hidden_position(visible, n as int, r as int, 0) {
            Some(i) => p == Some(i as u32),
            None => p is None,
        },
        p matches Some(i) ==> i < n,
{
    let mut remaining = r;
    let mut i: usize = 0;
    while i < n
        invariant
            n <= 32,
            i <= n,
            hidden_position(visible, n as int, remaining as int, i as int) == hidden_position(
                visible,
                n as int,
                r as int,
                0,
            ),
        decreases n - i,
    {
        if visible & (1u32 << i as u32) == 0 {
            assert(!is_set(visible, i as int)) by {
                lemma_bit_test(visible, i as u32);
            }
            if remaining == 0 {
                return Some(i as u32);
            }
            remaining = remaining - 1;
        } else {
            assert(is_set(visible, i as int)) by {
                lemma_bit_test(visible, i as u32);
            }
        }
        i = i + 1;
    }
    None
}

/// Testing a bit with a mask tells whether it is in the set.
proof fn lemma_bit_test(x: u32, i: u32)
    by (bit_vector)
    requires
        i < 32,
    ensures
        (x & (1u32 << i) == 0) <==> !((x >> i) & 1u32 == 1u32),
{
}

/// Two letters have the same key in the counter only when they are equal.
proof fn lemma_char_key(a: char, b: char)
    ensures
        (a as u32 == b as u32) <==> a == b,
{
}

/// Scores a guess against the word of the same length, using `counter` for
/// the letters of the word that the guess misses.
fn score_guess(guess: &[char], word: &[char]) -> (r: Vec<Letter>)
    requires
        guess@.len() == word@.len(),
        word@.len() <= u32::MAX,
    ensures
        is_scored(r@, guess@, word@),
{
    let n = guess.len();
    let mut counter = LetterCounter::new();
    let mut i: usize = 0;
    while i < n
        invariant
            n == guess@.len(),
            n == word@.len(),
            n <= u32::MAX,
            i <= n,
            counter.wf(),
            forall|c: char| #[trigger] counter.count(c) == unmatched_in_word(guess@, word@, c, i as int),
        decreases n - i,
    {
        if word[i] != guess[i] {
            proof {
                lemma_unmatched_bound(guess@, word@, word@[i as int], i as int);
            }
            counter.push(word[i]);
        }
        i = i + 1;
    }

    let mut letters: Vec<Letter> = Vec::new();
    let mut i: usize = 0;
    while i < n
        invariant
            n == guess@.len(),
            n == word@.len(),
            i <= n,
            letters@.len() == i,
            forall|j: int|
                0 <= j < i ==> #[trigger] letters@[j] == first_pass(guess@, word@, j),
        decreases n - i,
    {
        let letter = guess[i];
        let result = if word[i] == letter {
            LetterResult::Correct
        } else {
            LetterResult::Wrong
        };
        letters.push(Letter::new(letter, result));
        i = i + 1;
    }

    let mut i: usize = 0;
    while i < n
        invariant
            n == guess@.len(),
            n == word@.len(),
            i <= n,
            counter.wf(),
            forall|c: char| #[trigger] counter.count(c) == if missed_in_guess(guess@, word@, c, i as int)
                < unmatched_in_word(guess@, word@, c, n as int) {
                unmatched_in_word(guess@, word@, c, n as int) - missed_in_guess(guess@, word@, c, i as int)
            } else {
                0
            },
            letters@.len() == n,
            forall|j: int|
                0 <= j < i ==> #[trigger] letters@[j] == scored_letter(guess@, word@, j),
            forall|j: int|
                i <= j < n ==> #[trigger] letters@[j] == first_pass(guess@, word@, j),
        decreases n - i,
    {
        proof {
            lemma_missed_nonnegative(guess@, word@, guess@[i as int], i as int);
        }
        let ghost before = counter;
        let current = letters[i];
        assert(current == first_pass(guess@, word@, i as int));
        if current.result == LetterResult::Wrong {
            if counter.pop(current.letter) {
                let letter = Letter::new(current.letter, LetterResult::WrongPosition);
                letters.set(i, letter);
            }
        }
        proof {
            assert forall|c: char| #[trigger] counter.count(c) == if missed_in_guess(
                guess@,
                word@,
                c,
                i + 1,
            ) < unmatched_in_word(guess@, word@, c, n as int) {
                unmatched_in_word(guess@, word@, c, n as int) - missed_in_guess(
                    guess@,
                    word@,
                    c,
                    i + 1,
                )
            } else {
                0
            } by {
                assert(before.count(c) == if missed_in_guess(guess@, word@, c, i as int)
                    < unmatched_in_word(guess@, word@, c, n as int) {
                    unmatched_in_word(guess@, word@, c, n as int) - missed_in_guess(
                        guess@,
                        word@,
                        c,
                        i as int,
                    )
                } else {
                    0
                });
            }
            assert(letters@[i as int] == scored_letter(guess@, word@, i as int));
        }
        i = i + 1;
    }
    letters
}

proof fn lemma_unmatched_bound(guess: Seq<char>, word: Seq<char>, c: char, n: int)
    requires
        0 <= n,
    ensures
        0 <= unmatched_in_word(guess, word, c, n) <= n,
    decreases n,
{
    if n > 0 {
        lemma_unmatched_bound(guess, word, c, n - 1);
    }
}

proof fn lemma_missed_nonnegative(guess: Seq<char>, word: Seq<char>, c: char, n: int)
    requires
        0 <= n,
    ensures
        0 <= missed_in_guess(guess, word, c, n),
    decreases n,
{
    if n > 0 {
        lemma_missed_nonnegative(guess, word, c, n - 1);
    }
}

} // verus!

verus! {

// ---------------------------------------------------------------------------
// The game state as plain values

/// The state of a game.
#[verifier::ext_equal]
pub struct LogicView {
    /// The dictionary data that guesses are checked against.
    pub dictionary: Seq<u8>,
    /// Codes of the words that can be picked.
    pub word_list: Seq<u64>,
    pub page: Page,
    /// The word to find, in uppercase, made of letters that have a tile.
    pub word: Seq<char>,
    /// The guess being typed.
    pub guess: Seq<char>,
    /// The letters of each guess made for the word so far.
    pub guess_letters: Seq<Seq<char>>,
    /// The result for each letter of each guess made so far.
    pub guess_results: Seq<Seq<LetterResult>>,
    /// The score of each team, indexed by `team_index`.
    pub scores: Seq<u32>,
    pub team: Team,
    pub grids: Seq<GridView>,
    pub clocks: Seq<ClockView>,
    /// Events not yet taken, oldest first.
    pub events: Seq<Event>,
    /// Bit set of the positions of the word that the players can see.
    pub visible: u32,
    pub dead_key: bool,
    pub solved: bool,
}

/// The queue with the event added at the back, unless it already holds it.
pub open spec fn queue_once(events: Seq<Event>, event: Event) -> Seq<Event> {
    if events.contains(event) {
        events
    } else {
        events.push(event)
    }
}

/// The word that stands in when no word can be picked from the list.
pub open spec fn fallback_word() -> Seq<char> {
    seq!['e', 'r', 'a', 'r', 'o']
}

/// The state after a new word is set: no guess is made yet and only its first
/// letter is visible.
pub open spec fn set_word_spec(s: LogicView, word: Seq<char>) -> LogicView {
    LogicView {
        word: normalize_word(word),
        guess: Seq::empty(),
        guess_letters: Seq::empty(),
        guess_results: Seq::empty(),
        events: queue_once(queue_once(s.events, Event::WordChanged), Event::GridChanged),
        visible: 1,
        dead_key: false,
        solved: false,
        ..s
    }
}

/// The state after picking the word whose code stands at position `r` of the
/// word list; the fallback word when the list is empty or the code leads to no
/// word of the dictionary.
pub open spec fn pick_word_spec(s: LogicView, r: int) -> LogicView {
    if s.word_list.len() > 0 {
        match dictionary_word(s.dictionary, s.word_list[r]) {
            Some(word) => set_word_spec(s, word),
            None => set_word_spec(s, fallback_word()),
        }
    } else {
        set_word_spec(s, fallback_word())
    }
}

pub open spec fn with_guess(s: LogicView, guess: Seq<char>) -> LogicView {
    LogicView { guess, events: queue_once(s.events, Event::GridChanged), ..s }
}

/// Typing `x` after a letter that can take a circumflex (or a breve) puts it
/// on; the first letter of the guess is left as it is.
pub open spec fn hatify_last_letter_spec(s: LogicView) -> LogicView {
    if s.guess.len() >= 2 {
        match hatify_spec(s.guess.last()) {
            Some(hatted) => with_guess(s, s.guess.drop_last().push(hatted)),
            None => s,
        }
    } else {
        s
    }
}

pub open spec fn remove_letter_spec(s: LogicView) -> LogicView {
    if s.guess.len() > 0 {
        with_guess(s, s.guess.drop_last())
    } else {
        s
    }
}

/// Adds the characters to the guess, stopping once the guess is as long as the
/// word. Characters without a tile are skipped; a guess that would not start
/// with the first letter of the word gets that letter put in front.
pub open spec fn add_chars(s: LogicView, chars: Seq<char>) -> LogicView
    decreases chars.len(),
{
    if chars.len() == 0 || s.guess.len() >= s.word.len() {
        s
    } else {
        let ch = chars[0];
        let next = if has_tile(ch) {
            let start = if s.guess.len() == 0 && ch != s.word[0] {
                seq![s.word[0]]
            } else {
                s.guess
            };
            with_guess(s, start.push(ch))
        } else {
            s
        };
        add_chars(next, chars.drop_first())
    }
}

pub open spec fn add_letter_spec(s: LogicView, letter: char) -> LogicView {
    add_chars(s, case::uppercase_of(letter))
}

/// No more guesses can be made for the word.
pub open spec fn finished(s: LogicView) -> bool {
    s.solved || s.guess_letters.len() >= N_GUESSES
}

/// The guess padded with spaces, or cut, to `n` letters.
pub open spec fn padded(guess: Seq<char>, n: nat) -> Seq<char> {
    Seq::new(n, |i: int| if i < guess.len() { guess[i] } else { ' ' })
}

/// Rejecting the guess uses up a line of the grid.
pub open spec fn reject_guess_spec(s: LogicView) -> LogicView {
    if finished(s) {
        s
    } else {
        LogicView {
            guess_letters: s.guess_letters.push(padded(s.guess, s.word.len())),
            guess_results: s.guess_results.push(
                Seq::new(s.word.len(), |i: int| LetterResult::Rejected),
            ),
            guess: Seq::empty(),
            events: queue_once(queue_once(s.events, Event::GridChanged), Event::GuessRejected),
            ..s
        }
    }
}

/// Position of the hidden letter that has `r` hidden letters before it,
/// looking at positions `i` up to `len`.
pub open spec fn hidden_position(visible: u32, len: int, r: int, i: int) -> Option<int>
    decreases len - i,
{
    if i >= len {
        None
    } else if !is_set(visible, i) {
        if r == 0 {
            Some(i)
        } else {
            hidden_position(visible, len, r - 1, i + 1)
        }
    } else {
        hidden_position(visible, len, r, i + 1)
    }
}

/// A hint can be given: the game is not over, no guess is being typed and at
/// least two letters are still hidden.
pub open spec fn hint_possible(s: LogicView) -> bool {
    &&& !finished(s)
    &&& s.guess.len() == 0
    &&& count_bits(s.visible, 32) + 1 < s.word.len()
}

/// A hint shows the hidden letter that has `r` hidden letters before it.
pub open spec fn add_hint_spec(s: LogicView, r: int) -> LogicView {
    if hint_possible(s) {
        let visible = match hidden_position(s.visible, s.word.len() as int, r, 0) {
            Some(i) => s.visible | (1u32 << (i as u32)),
            None => s.visible,
        };
        LogicView { visible, events: queue_once(s.events, Event::GridChanged), ..s }
    } else {
        s
    }
}

pub open spec fn other_team(team: Team) -> Team {
    match team {
        Team::Left => Team::Right,
        Team::Right => Team::Left,
    }
}

pub open spec fn change_current_team_spec(s: LogicView) -> LogicView {
    LogicView {
        team: other_team(s.team),
        events: queue_once(s.events, Event::CurrentTeamChanged),
        ..s
    }
}

pub open spec fn spin_tombola_spec(s: LogicView, team: Team) -> LogicView {
    LogicView {
        clocks: s.clocks.update(team_index(team), start_spin_spec(s.clocks[team_index(team)])),
        events: queue_once(s.events, Event::TombolaStartedSpinning(team)),
        ..s
    }
}

/// Each pair of letters at the same position agrees.
pub open spec fn agrees(a: Seq<char>, b: Seq<char>) -> bool {
    forall|i: int| 0 <= i < a.len() && i < b.len() ==> a[i] == b[i]
}

/// The guess being typed agrees with one that was already made.
pub open spec fn already_tried(s: LogicView) -> bool {
    exists|k: int| 0 <= k < s.guess_letters.len() && agrees(#[trigger] s.guess_letters[k], s.guess)
}

/// A guess is accepted when it is as long as the word, is in the dictionary
/// and was not tried before.
pub open spec fn guess_acceptable(s: LogicView) -> bool {
    &&& s.guess.len() == s.word.len()
    &&& dictionary_contains(s.dictionary, s.guess)
    &&& !already_tried(s)
}

/// The results of the guess being typed.
pub open spec fn guess_results_spec(s: LogicView) -> Seq<LetterResult> {
    Seq::new(s.guess.len(), |i: int| letter_result(s.guess, s.word, i))
}

/// Every letter of the results is correct.
pub open spec fn all_correct(results: Seq<LetterResult>) -> bool {
    forall|i: int| 0 <= i < results.len() ==> results[i] == LetterResult::Correct
}

/// The visible set with the position of each correct letter added.
pub open spec fn with_correct_letters(visible: u32, results: Seq<LetterResult>) -> u32
    decreases results.len(),
{
    if results.len() == 0 {
        visible
    } else {
        let rest = with_correct_letters(visible, results.drop_last());
        if results.last() == LetterResult::Correct {
            rest | (1u32 << ((results.len() - 1) as u32))
        } else {
            rest
        }
    }
}

/// Points a team earns for solving the word.
pub open spec fn score_after_solve(score: u32) -> u32 {
    (score + SOLVE_SCORE) as u32
}

pub open spec fn enter_guess_spec(s: LogicView) -> LogicView {
    if finished(s) {
        s
    } else if !guess_acceptable(s) {
        LogicView { events: queue_once(s.events, Event::WrongGuessEntered), ..s }
    } else {
        let results = guess_results_spec(s);
        let solved = all_correct(results);
        let t = team_index(s.team);
        let events = queue_once(queue_once(s.events, Event::GridChanged), Event::GuessEntered);
        LogicView {
            guess_letters: s.guess_letters.push(s.guess),
            guess_results: s.guess_results.push(results),
            visible: with_correct_letters(s.visible, results),
            solved,
            guess: Seq::empty(),
            scores: if solved {
                s.scores.update(t, score_after_solve(s.scores[t]))
            } else {
                s.scores
            },
            events: if solved {
                queue_once(queue_once(events, Event::ScoreChanged(s.team)), Event::Solved)
            } else {
                events
            },
            ..s
        }
    }
}

pub open spec fn set_page_spec(s: LogicView, page: Page) -> LogicView {
    if page != s.page {
        LogicView { page, events: queue_once(s.events, Event::CurrentPageChanged(s.page)), ..s }
    } else {
        s
    }
}

pub open spec fn page_left_spec(s: LogicView) -> LogicView {
    match s.page {
        Page::Bingo(Team::Left) => s,
        Page::Word => set_page_spec(s, Page::Bingo(Team::Left)),
        Page::Bingo(Team::Right) => set_page_spec(s, Page::Word),
    }
}

pub open spec fn page_right_spec(s: LogicView) -> LogicView {
    match s.page {
        Page::Bingo(Team::Left) => set_page_spec(s, Page::Word),
        Page::Word => set_page_spec(s, Page::Bingo(Team::Right)),
        Page::Bingo(Team::Right) => s,
    }
}

/// The team whose score the arrow keys change: the one whose grid is shown, or
/// the current team on the word page.
pub open spec fn team_to_edit(s: LogicView) -> Team {
    match s.page {
        Page::Word => s.team,
        Page::Bingo(team) => team,
    }
}

/// A score changes only when the result stays between zero and `MAX_SCORE`.
pub open spec fn add_to_score_spec(s: LogicView, diff: int) -> LogicView {
    let team = team_to_edit(s);
    let t = team_index(team);
    let new_score = s.scores[t] + diff;
    if 0 <= new_score <= MAX_SCORE {
        LogicView {
            scores: s.scores.update(t, new_score as u32),
            events: queue_once(s.events, Event::ScoreChanged(team)),
            ..s
        }
    } else {
        s
    }
}

/// The letter a key types, with its circumflex when a dead key came before.
pub open spec fn typed_letter(s: LogicView, letter: char) -> char {
    if s.dead_key {
        match hatify_spec(letter) {
            Some(hatted) => hatted,
            None => letter,
        }
    } else {
        letter
    }
}

pub open spec fn clear_dead_key(s: LogicView) -> LogicView {
    LogicView { dead_key: false, ..s }
}

/// The state after a key press; `r` is the random number drawn for the keys
/// that pick a word or give a hint.
pub open spec fn key_step(s: LogicView, key: Key, r: int) -> LogicView {
    match key {
        Key::Letter(letter) => {
            let next = if s.page == Page::Word {
                if letter == 'x' || letter == 'X' {
                    hatify_last_letter_spec(s)
                } else {
                    add_letter_spec(s, typed_letter(s, letter))
                }
            } else {
                s
            };
            clear_dead_key(next)
        },
        Key::Dead => LogicView { dead_key: true, ..s },
        Key::Enter => {
            let c = clear_dead_key(s);
            match s.page {
                Page::Word => enter_guess_spec(c),
                Page::Bingo(team) => spin_tombola_spec(c, team),
            }
        },
        Key::Backspace => {
            let c = clear_dead_key(s);
            if s.page == Page::Word { remove_letter_spec(c) } else { c }
        },
        Key::Delete => {
            let c = clear_dead_key(s);
            if s.page == Page::Word { reject_guess_spec(c) } else { c }
        },
        Key::PageDown => {
            let c = clear_dead_key(s);
            if s.page == Page::Word { add_hint_spec(c, r) } else { c }
        },
        Key::Space => change_current_team_spec(clear_dead_key(s)),
        Key::Home => {
            let c = clear_dead_key(s);
            if s.page == Page::Word { pick_word_spec(c, r) } else { c }
        },
        Key::Left => page_left_spec(clear_dead_key(s)),
        Key::Right => page_right_spec(clear_dead_key(s)),
        Key::Up => add_to_score_spec(s, 10),
        Key::Down => add_to_score_spec(s, -10),
    }
}

/// The bound that the random number of a key press is drawn below; zero when
/// the key draws none.
pub open spec fn random_bound(s: LogicView, key: Key) -> int {
    match key {
        Key::Home => if s.page == Page::Word { s.word_list.len() as int } else { 0 },
        Key::PageDown => if s.page == Page::Word && hint_possible(s) {
            s.word.len() - count_bits(s.visible, 32)
        } else {
            0
        },
        _ => 0,
    }
}

/// Entering the guess can be handled without a panic: the word's letters can
/// be counted in a `u32` (a machine limit), and when the guess is accepted,
/// no letter from position 32 on is in its place (the visible positions are
/// bits of a `u32`), and a solve leaves room for `SOLVE_SCORE` more points.
pub open spec fn enter_fits(s: LogicView) -> bool {
    &&& s.word.len() <= u32::MAX
    &&& !finished(s) && guess_acceptable(s) ==> {
        &&& forall|i: int| 32 <= i < s.word.len() ==> #[trigger] s.guess[i] != s.word[i]
        &&& s.guess == s.word ==> s.scores[team_index(s.team)] + SOLVE_SCORE <= u32::MAX
    }
}

/// A hint with random number `r` can be given without a panic: the hidden
/// position it shows, or the end of the word when there is none, lies within
/// the 32 positions of the visible set.
pub open spec fn hint_fits(s: LogicView, r: int) -> bool {
    hint_possible(s) ==> match hidden_position(s.visible, s.word.len() as int, r, 0) {
        Some(i) => i < 32,
        None => s.word.len() <= 32,
    }
}

/// A key with random number `r` can be handled in the state without a panic:
/// typing a letter needs a word to take its first letter from, and entering
/// a guess or giving a hint must fit as `enter_fits` and `hint_fits` say.
pub open spec fn key_fits(s: LogicView, key: Key, r: int) -> bool {
    match key {
        Key::Letter(letter) => s.page == Page::Word && letter != 'x' && letter != 'X' ==> s.word.len() > 0,
        Key::Enter => s.page == Page::Word ==> enter_fits(s),
        Key::PageDown => s.page == Page::Word ==> hint_fits(s, r),
        _ => true,
    }
}

/// A key can be handled without a panic whatever random number is drawn for
/// it: as `key_fits`, where a hint fits for every draw exactly when the word
/// has at most 32 letters.
pub open spec fn key_allowed(s: LogicView, key: Key) -> bool {
    match key {
        Key::PageDown => s.page == Page::Word && hint_possible(s) ==> s.word.len() <= 32,
        _ => key_fits(s, key, 0),
    }
}

/// The hidden position a hint finds lies inside the word.
proof fn lemma_hidden_position_inside(v: u32, len: int, r: int, i: int)
    ensures
        hidden_position(v, len, r, i) matches Some(j) ==> i <= j < len && !is_set(v, j),
    decreases len - i,
{
    if i < len {
        if !is_set(v, i) {
            if r != 0 {
                lemma_hidden_position_inside(v, len, r - 1, i + 1);
            }
        } else {
            lemma_hidden_position_inside(v, len, r, i + 1);
        }
    }
}

/// A hidden position found before `m` is found the same when looking only
/// at positions below `m`.
proof fn lemma_hidden_position_prefix(v: u32, len: int, m: int, r: int, i: int)
    requires
        0 <= i <= m <= len,
        hidden_position(v, len, r, i) matches Some(j) && j < m,
    ensures
        hidden_position(v, m, r, i) == hidden_position(v, len, r, i),
    decreases len - i,
{
    lemma_hidden_position_inside(v, len, r, i);
    if !is_set(v, i) {
        if r != 0 {
            lemma_hidden_position_inside(v, len, r - 1, i + 1);
            lemma_hidden_position_prefix(v, len, m, r - 1, i + 1);
        }
    } else {
        lemma_hidden_position_inside(v, len, r, i + 1);
        lemma_hidden_position_prefix(v, len, m, r, i + 1);
    }
}

/// A key allowed whatever the draw fits each draw in range.
pub proof fn lemma_key_allowed_fits(s: LogicView, key: Key, r: int)
    requires
        key_allowed(s, key),
    ensures
        key_fits(s, key, r),
{
    lemma_hidden_position_inside(s.visible, s.word.len() as int, r, 0);
}

} // verus!

verus! {

// ---------------------------------------------------------------------------
// The game

/// The letters of a line of the grid.
pub open spec fn letters_of(row: Seq<Letter>) -> Seq<char> {
    Seq::new(row.len(), |i: int| row[i].letter)
}

/// The results of a line of the grid.
pub open spec fn results_of(row: Seq<Letter>) -> Seq<LetterResult> {
    Seq::new(row.len(), |i: int| row[i].result)
}

pub struct Logic {
    dictionary: Dictionary,
    current_page: Page,
    word_list: Vec<u64>,
    word: Vec<char>,
    in_progress_guess: Vec<char>,
    guesses: Vec<Vec<Letter>>,
    scores: [u32; 2],
    clocks: [SpinClock; 2],
    bingo_grids: [BingoGrid; 2],
    current_team: Team,
    event_queue: VecDeque<Event>,
    visible_letters: u32,
    dead_key_queued: bool,
    is_solved: bool,
}

impl View for Logic {
    type V = LogicView;

    closed spec fn view(&self) -> LogicView {
        LogicView {
            dictionary: self.dictionary@,
            word_list: self.word_list@,
            page: self.current_page,
            word: self.word@,
            guess: self.in_progress_guess@,
            guess_letters: Seq::new(self.guesses@.len(), |k: int| letters_of(self.guesses@[k]@)),
            guess_results: Seq::new(self.guesses@.len(), |k: int| results_of(self.guesses@[k]@)),
            scores: self.scores@,
            team: self.current_team,
            grids: seq![self.bingo_grids[0]@, self.bingo_grids[1]@],
            clocks: seq![self.clocks[0]@, self.clocks[1]@],
            events: self.event_queue@,
            visible: self.visible_letters,
            dead_key: self.dead_key_queued,
            solved: self.is_solved,
        }
    }
}

/// The state of a new game before its first word is picked.
pub open spec fn initial_view(
    dictionary: Seq<u8>,
    word_list: Seq<u64>,
    grids: Seq<GridView>,
) -> LogicView {
    LogicView {
        dictionary,
        word_list,
        page: Page::Word,
        word: Seq::empty(),
        guess: Seq::empty(),
        guess_letters: Seq::empty(),
        guess_results: Seq::empty(),
        scores: seq![0u32, 0u32],
        team: Team::Left,
        grids,
        clocks: seq![
            ClockView { steps_executed: 0, spin_start_steps: None },
            ClockView { steps_executed: 0, spin_start_steps: None },
        ],
        events: Seq::empty(),
        visible: 1,
        dead_key: false,
        solved: false,
    }
}

/// A grid at the start of a game: the balls shuffled from their numbered
/// order, a valid starting pattern and no bingo.
pub open spec fn starting_grid(g: GridView) -> bool {
    &&& exists|draws: Seq<usize>|
        random::valid_draws(draws, 25) && g.spaces == #[trigger] random::fisher_yates(
            numbered_balls(),
            draws,
        )
    &&& bingo_grid::each_ball_once(g.spaces)
    &&& valid_initial_pattern(g.spaces_covered)
    &&& lists_uncovered_spaces(g.spaces_covered, g.initial_uncovered_space_map)
    &&& g.bingo is None
}

/// The guess being typed starts with the first letter of the word and is no
/// longer than the word, except that a one-letter word can be followed by one
/// more letter when the first typed letter is another one.
pub open spec fn guess_fits_word(s: LogicView) -> bool {
    &&& s.guess.len() <= if s.word.len() == 1 {
        2
    } else {
        s.word.len() as int
    }
    &&& s.guess.len() > 0 ==> s.word.len() > 0 && s.guess[0] == s.word[0]
}

/// What holds of every state of a game: one score, grid and clock per team,
/// each grid holding every ball once, no event waiting twice, at most
/// `N_GUESSES` lines, each as long as the word, a guess that fits the word,
/// and only positions of the word visible.
pub open spec fn game_inv(s: LogicView) -> bool {
    &&& s.scores.len() == N_TEAMS
    &&& s.grids.len() == N_TEAMS
    &&& bingo_grid::each_ball_once(s.grids[0].spaces)
    &&& bingo_grid::each_ball_once(s.grids[1].spaces)
    &&& s.clocks.len() == N_TEAMS
    &&& s.events.no_duplicates()
    &&& s.guess_letters.len() <= N_GUESSES
    &&& rows_fit_word(s)
    &&& guess_fits_word(s)
    &&& s.word.len() > 0 ==> visible_within_word(s)
}

impl Logic {
    /// The game's invariant: the bounds of its fields and `game_inv` of its state.
    pub closed spec fn wf(&self) -> bool {
        self.fields_ok() && game_inv(self@)
    }

    /// A game's state meets `game_inv`.
    pub proof fn lemma_wf_state(&self)
        requires
            self.wf(),
        ensures
            game_inv(self@),
    {
    }

    /// At most `N_GUESSES` guesses, and tombola clocks whose counts cannot overflow.
    spec fn fields_ok(&self) -> bool {
        &&& self.guesses@.len() <= N_GUESSES
        &&& tombola::clock_wf(self.clocks[0]@)
        &&& tombola::clock_wf(self.clocks[1]@)
    }

    /// Starts a game with a random word from the list and a new grid for each
    /// team.
    pub fn new(dictionary: Dictionary, word_list: Vec<u64>) -> (logic: Logic)
        ensures
            logic.wf(),
            game_inv(logic@),
            starting_grid(logic@.grids[0]),
            starting_grid(logic@.grids[1]),
            logic@.grids.len() == 2,
            exists|w: int|
                (word_list@.len() > 0 ==> 0 <= w < word_list@.len()) && logic@
                    == #[trigger] pick_word_spec(
                    initial_view(dictionary@, word_list@, logic@.grids),
                    w,
                ),
    {
        let mut left = BingoGrid::new();
        let mut right = BingoGrid::new();
        proof {
            assert(left@.spaces =~= numbered_balls());
            assert(right@.spaces =~= numbered_balls());
        }
        let word_num = if word_list.len() > 0 {
            random::random_range(word_list.len())
        } else {
            0
        };
        let mut logic = Logic {
            dictionary,
            current_page: Page::Word,
            word_list,
            word: Vec::new(),
            in_progress_guess: Vec::new(),
            guesses: Vec::new(),
            scores: [0u32, 0u32],
            clocks: [SpinClock::new(), SpinClock::new()],
            bingo_grids: [BingoGrid::new(), BingoGrid::new()],
            current_team: Team::Left,
            event_queue: VecDeque::new(),
            visible_letters: 1,
            dead_key_queued: false,
            is_solved: false,
        };
        logic.pick_word(word_num);
        left.reset();
        right.reset();
        let ghost before = logic@;
        logic.bingo_grids = [left, right];
        proof {
            assert(before.grids.len() == 2);
            assert(initial_view(logic@.dictionary, logic@.word_list, before.grids) =~= LogicView {
                word: Seq::empty(),
                ..initial_view(logic@.dictionary, logic@.word_list, before.grids)
            });
            assert(logic@ =~= LogicView { grids: logic@.grids, ..before });
            assert(logic@ == pick_word_spec(
                initial_view(logic@.dictionary, logic@.word_list, logic@.grids),
                word_num as int,
            ));
            let start = initial_view(logic@.dictionary, logic@.word_list, logic@.grids);
            assert(start.events.no_duplicates());
            assert(game_inv(start));
            lemma_pick_word_keeps_inv(start, word_num as int);
        }
        logic
    }

    fn queue_event_once(&mut self, event: Event)
        ensures
            final(self)@ == (LogicView { events: queue_once(old(self)@.events, event), ..old(self)@ }),
            final(self).fields_ok() == old(self).fields_ok(),
    {
        let n = self.event_queue.len();
        let mut i: usize = 0;
        while i < n
            invariant
                n == self.event_queue@.len(),
                i <= n,
                forall|j: int| 0 <= j < i ==> self.event_queue@[j] != event,
            decreases n - i,
        {
            if self.event_queue[i] == event {
                assert(self.event_queue@.contains(event));
                return;
            }
            i = i + 1;
        }
        self.event_queue.push_back(event);
    }

    fn set_word(&mut self, word: &[char])
        ensures
            final(self)@ == set_word_spec(old(self)@, word@),
            old(self).fields_ok() ==> final(self).fields_ok(),
    {
        self.word = normalize(word);
        self.in_progress_guess = Vec::new();
        self.queue_event_once(Event::WordChanged);
        self.queue_event_once(Event::GridChanged);
        self.guesses = Vec::new();
        self.visible_letters = 1;
        self.dead_key_queued = false;
        self.is_solved = false;
        assert(self@ =~= set_word_spec(old(self)@, word@));
    }

    /// Picks the word whose code is at position `word_num` of the list.
    fn pick_word(&mut self, word_num: usize)
        requires
            old(self)@.word_list.len() > 0 ==> word_num < old(self)@.word_list.len(),
        ensures
            final(self)@ == pick_word_spec(old(self)@, word_num as int),
            old(self).fields_ok() ==> final(self).fields_ok(),
    {
        if self.word_list.len() > 0 {
            let code = self.word_list[word_num];
            match self.dictionary.extract_word(code) {
                Some(word) => {
                    self.set_word(word.as_slice());
                    return;
                },
                None => {},
            }
        }
        let fallback = vec!['e', 'r', 'a', 'r', 'o'];
        assert(fallback@ == fallback_word());
        self.set_word(fallback.as_slice());
    }

    fn hatify_last_letter(&mut self)
        ensures
            final(self)@ == hatify_last_letter_spec(old(self)@),
            final(self).fields_ok() == old(self).fields_ok(),
    {
        let n = self.in_progress_guess.len();
        // The first letter is never changed
        if n < 2 {
            return;
        }
        let letter = self.in_progress_guess[n - 1];
        match hatify(letter) {
            Some(hatted) => {
                self.in_progress_guess.pop();
                self.in_progress_guess.push(hatted);
                self.queue_event_once(Event::GridChanged);
                assert(self@ =~= hatify_last_letter_spec(old(self)@));
            },
            None => {},
        }
    }

    fn remove_letter(&mut self)
        ensures
            final(self)@ == remove_letter_spec(old(self)@),
            final(self).fields_ok() == old(self).fields_ok(),
    {
        if self.in_progress_guess.len() > 0 {
            self.in_progress_guess.pop();
            self.queue_event_once(Event::GridChanged);
            assert(self@ =~= remove_letter_spec(old(self)@));
        }
    }

    fn push_guess_letter(&mut self, letter: char)
        ensures
            final(self)@ == with_guess(old(self)@, old(self)@.guess.push(letter)),
            final(self).fields_ok() == old(self).fields_ok(),
    {
        self.in_progress_guess.push(letter);
        self.queue_event_once(Event::GridChanged);
        assert(self@ =~= with_guess(old(self)@, old(self)@.guess.push(letter)));
    }

    fn add_letter(&mut self, letter: char)
        requires
            old(self)@.word.len() > 0,
        ensures
            final(self)@ == add_letter_spec(old(self)@, letter),
            final(self).fields_ok() == old(self).fields_ok(),
    {
        let chars = case::to_uppercase(letter);
        self.push_chars(chars.as_slice());
    }

    /// Adds the characters to the guess as `add_chars` says.
    pub fn add_chars(&mut self, chars: &[char])
        requires
            old(self).wf(),
            old(self)@.word.len() > 0,
        ensures
            final(self)@ == add_chars(old(self)@, chars@),
            final(self).wf(),
    {
        self.push_chars(chars);
        proof {
            lemma_add_chars_unique(old(self)@, chars@);
            lemma_add_chars_keeps_rows(old(self)@, chars@);
            lemma_add_chars_fits(old(self)@, chars@);
        }
    }

    fn push_chars(&mut self, chars: &[char])
        requires
            old(self)@.word.len() > 0,
        ensures
            final(self)@ == add_chars(old(self)@, chars@),
            final(self).fields_ok() == old(self).fields_ok(),
    {
        let first_letter = self.word[0];
        let ghost start = self@;
        let mut i: usize = 0;
        assert(chars@.skip(0) == chars@);
        while i < chars.len()
            invariant
                i <= chars@.len(),
                start == old(self)@,
                self@.word.len() > 0,
                first_letter == self@.word[0],
                self@.word == start.word,
                self.fields_ok() == old(self).fields_ok(),
                add_chars(self@, chars@.skip(i as int)) == add_chars(start, chars@),
            decreases chars@.len() - i,
        {
            if self.in_progress_guess.len() >= self.word.len() {
                assert(add_chars(self@, chars@.skip(i as int)) == self@);
                return;
            }
            let ch = chars[i];
            proof {
                assert(chars@.skip(i as int)[0] == ch);
                assert(chars@.skip(i as int).drop_first() == chars@.skip(i + 1));
            }
            if is_valid_letter(ch) {
                if self.in_progress_guess.len() == 0 && ch != first_letter {
                    self.in_progress_guess.push(first_letter);
                    assert(self@.guess == seq![first_letter]);
                }
                self.push_guess_letter(ch);
            }
            i = i + 1;
        }
        assert(chars@.skip(i as int).len() == 0);
    }

    fn is_finished_now(&self) -> (r: bool)
        ensures
            r == finished(self@),
    {
        self.is_solved || self.guesses.len() >= N_GUESSES
    }

    fn reject_guess(&mut self)
        requires
            old(self).fields_ok(),
        ensures
            final(self)@ == reject_guess_spec(old(self)@),
            final(self).fields_ok(),
    {
        if self.is_finished_now() {
            return;
        }
        let n = self.word.len();
        let mut row: Vec<Letter> = Vec::new();
        let mut i: usize = 0;
        while i < n
            invariant
                n == self@.word.len(),
                i <= n,
                row@.len() == i,
                forall|j: int|
                    0 <= j < i ==> #[trigger] row@[j] == (Letter {
                        letter: padded(self@.guess, n as nat)[j],
                        result: LetterResult::Rejected,
                    }),
            decreases n - i,
        {
            let letter = if i < self.in_progress_guess.len() {
                self.in_progress_guess[i]
            } else {
                ' '
            };
            row.push(Letter::new(letter, LetterResult::Rejected));
            i = i + 1;
        }
        proof {
            assert(letters_of(row@) =~= padded(self@.guess, n as nat));
            assert(results_of(row@) =~= Seq::new(n as nat, |i: int| LetterResult::Rejected));
        }
        let ghost before = self@;
        self.guesses.push(row);
        self.in_progress_guess = Vec::new();
        self.queue_event_once(Event::GridChanged);
        self.queue_event_once(Event::GuessRejected);
        proof {
            assert(self@.guess_letters =~= before.guess_letters.push(padded(before.guess, n as nat)));
            assert(self@.guess_results =~= before.guess_results.push(
                Seq::new(n as nat, |i: int| LetterResult::Rejected),
            ));
            assert(self@ =~= reject_guess_spec(old(self)@));
        }
    }

    fn hint_possible_now(&self) -> (r: bool)
        ensures
            r == hint_possible(self@),
    {
        if self.is_finished_now() || self.in_progress_guess.len() > 0 {
            return false;
        }
        let n_visible = count_ones(self.visible_letters) as usize;
        n_visible + 1 < self.word.len()
    }

    /// Shows the hidden letter that has `letter_num` hidden letters before it.
    fn add_hint(&mut self, letter_num: usize)
        requires
            hint_fits(old(self)@, letter_num as int),
        ensures
            final(self)@ == add_hint_spec(old(self)@, letter_num as int),
            final(self).fields_ok() == old(self).fields_ok(),
    {
        if !self.hint_possible_now() {
            return;
        }
        let len = self.word.len();
        let n = if len < 32 { len } else { 32 };
        proof {
            if len > 32 {
                lemma_hidden_position_prefix(self.visible_letters, len as int, 32, letter_num as int, 0);
            }
        }
        match find_hidden_position(self.visible_letters, n, letter_num) {
            Some(i) => {
                self.visible_letters = self.visible_letters | (1u32 << i);
            },
            None => {},
        }
        self.queue_event_once(Event::GridChanged);
        assert(self@ =~= add_hint_spec(old(self)@, letter_num as int));
    }

    fn change_current_team(&mut self)
        ensures
            final(self)@ == change_current_team_spec(old(self)@),
            final(self).fields_ok() == old(self).fields_ok(),
    {
        let next_team = match self.current_team {
            Team::Left => Team::Right,
            Team::Right => Team::Left,
        };
        self.current_team = next_team;
        self.queue_event_once(Event::CurrentTeamChanged);
    }

    fn spin_tombola(&mut self, team: Team)
        requires
            old(self).fields_ok(),
        ensures
            final(self)@ == spin_tombola_spec(old(self)@, team),
            final(self).fields_ok(),
    {
        let t = team_slot(team);
        let mut clock = self.clocks[t];
        clock.start_spin();
        self.clocks[t] = clock;
        self.queue_event_once(Event::TombolaStartedSpinning(team));
        assert(self@ =~= spin_tombola_spec(old(self)@, team));
    }

    fn guess_already_tried(&self) -> (r: bool)
        ensures
            r == already_tried(self@),
    {
        let n = self.guesses.len();
        let mut k: usize = 0;
        while k < n
            invariant
                n == self.guesses@.len(),
                k <= n,
                forall|j: int|
                    0 <= j < k ==> !agrees(#[trigger] self@.guess_letters[j], self@.guess),
            decreases n - k,
        {
            if row_agrees(self.guesses[k].as_slice(), self.in_progress_guess.as_slice()) {
                assert(self@.guess_letters[k as int] == letters_of(self.guesses@[k as int]@));
                return true;
            }
            assert(self@.guess_letters[k as int] == letters_of(self.guesses@[k as int]@));
            k = k + 1;
        }
        false
    }

    fn enter_guess(&mut self)
        requires
            old(self).fields_ok(),
            enter_fits(old(self)@),
        ensures
            final(self)@ == enter_guess_spec(old(self)@),
            final(self).fields_ok(),
    {
        if self.is_finished_now() {
            return;
        }
        if self.in_progress_guess.len() != self.word.len() || !self.dictionary.contains(
            self.in_progress_guess.as_slice(),
        ) || self.guess_already_tried() {
            self.queue_event_once(Event::WrongGuessEntered);
            assert(self@ =~= enter_guess_spec(old(self)@));
            return;
        }
        let row = score_guess(self.in_progress_guess.as_slice(), self.word.as_slice());
        let ghost results = results_of(row@);
        assert(results =~= guess_results_spec(self@));
        assert forall|j: int| 32 <= j < row@.len() implies #[trigger] results[j]
            != LetterResult::Correct by {
            assert(self@.guess[j] != self@.word[j]);
        }
        assert(letters_of(row@) =~= self@.guess);
        let n = row.len();
        let mut visible = self.visible_letters;
        let mut solved = true;
        let mut i: usize = 0;
        while i < n
            invariant
                n == row@.len(),
                i <= n,
                results == results_of(row@),
                forall|j: int| 32 <= j < n ==> #[trigger] results[j] != LetterResult::Correct,
                visible == with_correct_letters(old(self)@.visible, results.take(i as int)),
                solved == all_correct(results.take(i as int)),
            decreases n - i,
        {
            proof {
                assert(results.take(i + 1).drop_last() =~= results.take(i as int));
                assert(results.take(i + 1).last() == row@[i as int].result);
            }
            if row[i].result == LetterResult::Correct {
                visible = visible | (1u32 << i as u32);
            } else {
                solved = false;
            }
            proof {
                if solved {
                    assert forall|j: int| 0 <= j < i + 1 implies #[trigger] results.take(i + 1)[j]
                        == LetterResult::Correct by {
                        if j < i {
                            assert(results.take(i + 1)[j] == results.take(i as int)[j]);
                        }
                    }
                } else {
                    if row@[i as int].result != LetterResult::Correct {
                        assert(results.take(i + 1)[i as int] != LetterResult::Correct);
                    } else {
                        let w = choose|j: int| 0 <= j < i && results.take(i as int)[j]
                            != LetterResult::Correct;
                        assert(results.take(i + 1)[w] == results.take(i as int)[w]);
                    }
                }
            }
            i = i + 1;
        }
        assert(results.take(n as int) =~= results);
        let ghost before = self@;
        self.guesses.push(row);
        self.visible_letters = visible;
        self.is_solved = solved;
        self.in_progress_guess = Vec::new();
        self.queue_event_once(Event::GridChanged);
        self.queue_event_once(Event::GuessEntered);
        proof {
            assert(self@.guess_letters =~= before.guess_letters.push(before.guess));
            assert(self@.guess_results =~= before.guess_results.push(results));
        }
        if solved {
            let team = self.current_team;
            let t = team_slot(team);
            assert(old(self)@.guess =~= old(self)@.word) by {
                assert forall|j: int| 0 <= j < old(self)@.word.len() implies old(self)@.guess[j]
                    == old(self)@.word[j] by {
                    assert(results[j] == LetterResult::Correct);
                }
            }
            self.scores[t] = self.scores[t] + SOLVE_SCORE;
            self.queue_event_once(Event::ScoreChanged(team));
            self.queue_event_once(Event::Solved);
        }
        assert(self@ =~= enter_guess_spec(old(self)@));
    }

    fn set_page(&mut self, page: Page)
        ensures
            final(self)@ == set_page_spec(old(self)@, page),
            final(self).fields_ok() == old(self).fields_ok(),
    {
        if page != self.current_page {
            let old_page = self.current_page;
            self.current_page = page;
            self.queue_event_once(Event::CurrentPageChanged(old_page));
        }
    }

    fn change_page_left(&mut self)
        ensures
            final(self)@ == page_left_spec(old(self)@),
            final(self).fields_ok() == old(self).fields_ok(),
    {
        match self.current_page {
            Page::Bingo(Team::Left) => {},
            Page::Word => self.set_page(Page::Bingo(Team::Left)),
            Page::Bingo(Team::Right) => self.set_page(Page::Word),
        }
    }

    fn change_page_right(&mut self)
        ensures
            final(self)@ == page_right_spec(old(self)@),
            final(self).fields_ok() == old(self).fields_ok(),
    {
        match self.current_page {
            Page::Bingo(Team::Left) => self.set_page(Page::Word),
            Page::Word => self.set_page(Page::Bingo(Team::Right)),
            Page::Bingo(Team::Right) => {},
        }
    }

    fn team_to_edit(&self) -> (r: Team)
        ensures
            r == team_to_edit(self@),
    {
        match self.current_page {
            Page::Word => self.current_team,
            Page::Bingo(team) => team,
        }
    }

    fn add_to_score(&mut self, diff: i32)
        ensures
            final(self)@ == add_to_score_spec(old(self)@, diff as int),
            final(self).fields_ok() == old(self).fields_ok(),
    {
        let team = self.team_to_edit();
        let t = team_slot(team);
        let new_score = self.scores[t] as i64 + diff as i64;
        if 0 <= new_score && new_score <= MAX_SCORE as i64 {
            self.scores[t] = new_score as u32;
            self.queue_event_once(Event::ScoreChanged(team));
            assert(self@ =~= add_to_score_spec(old(self)@, diff as int));
        }
    }

    fn random_bound_now(&self, key: Key) -> (r: usize)
        ensures
            r == random_bound(self@, key),
    {
        match key {
            Key::Home => {
                if self.current_page == Page::Word {
                    self.word_list.len()
                } else {
                    0
                }
            },
            Key::PageDown => {
                if self.current_page == Page::Word && self.hint_possible_now() {
                    self.word.len() - count_ones(self.visible_letters) as usize
                } else {
                    0
                }
            },
            _ => 0,
        }
    }

    /// Whether entering the guess fits, as `enter_fits` says.
    fn enter_fits_now(&self) -> (r: bool)
        requires
            self.fields_ok(),
        ensures
            r == enter_fits(self@),
    {
        if self.word.len() > 0xffff_ffff {
            return false;
        }
        if self.is_finished_now() || self.in_progress_guess.len() != self.word.len()
            || !self.dictionary.contains(self.in_progress_guess.as_slice())
            || self.guess_already_tried() {
            return true;
        }
        let n = self.word.len();
        let mut same = true;
        let mut i: usize = 0;
        while i < n
            invariant
                n == self@.word.len(),
                n == self@.guess.len(),
                !finished(self@),
                guess_acceptable(self@),
                i <= n,
                same == (forall|j: int| 0 <= j < i ==> self@.guess[j] == self@.word[j]),
                forall|j: int| 32 <= j < i ==> #[trigger] self@.guess[j] != self@.word[j],
            decreases n - i,
        {
            let equal = self.in_progress_guess[i] == self.word[i];
            if equal && i >= 32 {
                assert(self@.guess[i as int] == self@.word[i as int]);
                return false;
            }
            same = same && equal;
            i = i + 1;
        }
        if same {
            assert(self@.guess =~= self@.word);
            let t = team_slot(self.current_team);
            self.scores[t] <= u32::MAX - SOLVE_SCORE
        } else {
            true
        }
    }

    /// Whether the key can be handled whatever random number is drawn for it,
    /// as `key_allowed` says.
    pub fn key_allowed_now(&self, key: Key) -> (r: bool)
        requires
            self.wf(),
        ensures
            r == key_allowed(self@, key),
    {
        let on_word_page = self.current_page == Page::Word;
        match key {
            Key::Letter(letter) => !(on_word_page && letter != 'x' && letter != 'X')
                || self.word.len() > 0,
            Key::Enter => !on_word_page || self.enter_fits_now(),
            Key::PageDown => !(on_word_page && self.hint_possible_now()) || self.word.len() <= 32,
            _ => true,
        }
    }

    /// Handles a key press with `random` as the random number that picking a
    /// word or giving a hint draws.
    pub fn press_key_with(&mut self, key: Key, random: usize)
        requires
            old(self).wf(),
            key_fits(old(self)@, key, random as int),
            random_bound(old(self)@, key) > 0 ==> random < random_bound(old(self)@, key),
        ensures
            final(self).wf(),
            game_inv(final(self)@),
            final(self)@ == key_step(old(self)@, key, random as int),
    {
        match key {
            Key::Letter(letter) => {
                if self.current_page == Page::Word {
                    if letter == 'x' || letter == 'X' {
                        self.hatify_last_letter();
                    } else {
                        let typed = if self.dead_key_queued {
                            match hatify(letter) {
                                Some(hatted) => hatted,
                                None => letter,
                            }
                        } else {
                            letter
                        };
                        self.add_letter(typed);
                    }
                }
                self.dead_key_queued = false;
            },
            Key::Dead => {
                self.dead_key_queued = true;
            },
            Key::Enter => {
                self.dead_key_queued = false;
                match self.current_page {
                    Page::Word => self.enter_guess(),
                    Page::Bingo(team) => self.spin_tombola(team),
                }
            },
            Key::Backspace => {
                self.dead_key_queued = false;
                if self.current_page == Page::Word {
                    self.remove_letter();
                }
            },
            Key::Delete => {
                self.dead_key_queued = false;
                if self.current_page == Page::Word {
                    self.reject_guess();
                }
            },
            Key::PageDown => {
                self.dead_key_queued = false;
                if self.current_page == Page::Word {
                    self.add_hint(random);
                }
            },
            Key::Space => {
                self.dead_key_queued = false;
                self.change_current_team();
            },
            Key::Home => {
                self.dead_key_queued = false;
                if self.current_page == Page::Word {
                    self.pick_word(random);
                }
            },
            Key::Left => {
                self.dead_key_queued = false;
                self.change_page_left();
            },
            Key::Right => {
                self.dead_key_queued = false;
                self.change_page_right();
            },
            Key::Up => self.add_to_score(10),
            Key::Down => self.add_to_score(-10),
        }
        assert(self@ =~= key_step(old(self)@, key, random as int));
        proof {
            lemma_key_step_keeps_inv(old(self)@, key, random as int);
        }
    }

    /// Handles a key press, drawing the random number that picking a word or
    /// giving a hint needs.
    pub fn press_key(&mut self, key: Key)
        requires
            old(self).wf(),
            key_allowed(old(self)@, key),
        ensures
            final(self).wf(),
            game_inv(final(self)@),
            exists|r: int|
                (random_bound(old(self)@, key) > 0 ==> 0 <= r < random_bound(old(self)@, key))
                    && final(self)@ == #[trigger] key_step(old(self)@, key, r),
            random_bound(old(self)@, key) == 0 ==> final(self)@ == key_step(old(self)@, key, 0),
    {
        let bound = self.random_bound_now(key);
        let random = if bound > 0 {
            random::random_range(bound)
        } else {
            0
        };
        proof {
            lemma_key_allowed_fits(self@, key, random as int);
        }
        self.press_key_with(key, random);
    }

    pub fn word(&self) -> (r: &[char])
        ensures
            r@ == self@.word,
    {
        self.word.as_slice()
    }

    pub fn word_length(&self) -> (r: usize)
        ensures
            r == self@.word.len(),
    {
        self.word.len()
    }

    pub fn in_progress_guess(&self) -> (r: &[char])
        ensures
            r@ == self@.guess,
    {
        self.in_progress_guess.as_slice()
    }

    /// Takes the oldest event out of the queue.
    pub fn get_event(&mut self) -> (r: Option<Event>)
        ensures
            old(self)@.events.len() == 0 ==> r is None && final(self)@ == old(self)@,
            old(self)@.events.len() > 0 ==> {
                &&& r == Some(old(self)@.events[0])
                &&& final(self)@ == (LogicView {
                    events: old(self)@.events.drop_first(),
                    ..old(self)@
                })
            },
            old(self).wf() ==> final(self).wf(),
            old(self).wf() && r is Some ==> !final(self)@.events.contains(r->0),
    {
        let r = self.event_queue.pop_front();
        assert(old(self)@.events.len() > 0 ==> self@ =~= LogicView {
            events: old(self)@.events.drop_first(),
            ..old(self)@
        });
        proof {
            if old(self).wf() && r is Some {
                let events = old(self)@.events;
                assert forall|j: int| 0 <= j < self@.events.len() implies self@.events[j] != r->0 by {
                    assert(self@.events[j] == events[j + 1]);
                }
            }
        }
        r
    }

    pub fn visible_letters(&self) -> (r: u32)
        ensures
            r == self@.visible,
    {
        self.visible_letters
    }

    /// The guesses made for the word, in the order they were made.
    pub fn guesses(&self) -> (it: GuessIter<'_>)
        ensures
            it.index == 0,
            it.guesses@.len() == self@.guess_letters.len(),
            it.guesses@.len() == self@.guess_results.len(),
            forall|k: int|
                0 <= k < it.guesses@.len() ==> letters_of(#[trigger] it.guesses@[k]@)
                    == self@.guess_letters[k] && results_of(it.guesses@[k]@)
                    == self@.guess_results[k],
    {
        GuessIter { guesses: self.guesses.as_slice(), index: 0 }
    }

    pub fn n_guesses(&self) -> (r: usize)
        ensures
            r == self@.guess_letters.len(),
    {
        self.guesses.len()
    }

    pub fn is_finished(&self) -> (r: bool)
        ensures
            r == finished(self@),
    {
        self.is_finished_now()
    }

    pub fn is_solved(&self) -> (r: bool)
        ensures
            r == self@.solved,
    {
        self.is_solved
    }

    pub fn team_score(&self, team: Team) -> (r: u32)
        ensures
            r == self@.scores[team_index(team)],
    {
        self.scores[team_slot(team)]
    }

    pub fn current_team(&self) -> (r: Team)
        ensures
            r == self@.team,
    {
        self.current_team
    }

    pub fn current_page(&self) -> (r: Page)
        ensures
            r == self@.page,
    {
        self.current_page
    }

    pub fn bingo_grid(&self, team: Team) -> (r: &BingoGrid)
        ensures
            r@ == self@.grids[team_index(team)],
    {
        &self.bingo_grids[team_slot(team)]
    }

    /// What the tombola ball with this index shows: the first balls carry the
    /// ball numbers of the team's grid, space by space, and the rest are black.
    pub fn ball_type(&self, team: Team, ball_index: usize) -> (r: BallType)
        ensures
            ball_index < N_NUMBER_BALLS ==> r == BallType::Number(
                self@.grids[team_index(team)].spaces[ball_index as int] as u32,
            ),
            ball_index >= N_NUMBER_BALLS ==> r == BallType::Black,
    {
        if ball_index < N_NUMBER_BALLS {
            let space = self.bingo_grids[team_slot(team)].space(ball_index);
            BallType::Number(space.ball as u32)
        } else {
            BallType::Black
        }
    }

    pub fn spin_clock(&self, team: Team) -> (r: SpinClock)
        ensures
            r@ == self@.clocks[team_index(team)],
    {
        self.clocks[team_slot(team)]
    }

    /// Catches the team's tombola clock up with `elapsed_ms` milliseconds since
    /// it started; returns the number of physics steps to run.
    pub fn step_tombola(&mut self, team: Team, elapsed_ms: i64) -> (n: i64)
        requires
            old(self).wf(),
            0 <= elapsed_ms <= tombola::MAX_ELAPSED_MS,
        ensures
            final(self).wf(),
            ({
                let t = team_index(team);
                let c = old(self)@.clocks[t];
                let due = tombola::target_steps(elapsed_ms as int) - c.steps_executed;
                if due < 0 || due > tombola::MAX_CATCH_UP_STEPS {
                    &&& n == 0
                    &&& final(self)@ == (LogicView {
                        clocks: old(self)@.clocks.update(
                            t,
                            ClockView {
                                steps_executed: tombola::target_steps(elapsed_ms as int) as i64,
                                ..c
                            },
                        ),
                        ..old(self)@
                    })
                } else {
                    &&& n == due
                    &&& final(self)@ == old(self)@
                }
            }),
            final(self)@.clocks[team_index(team)].steps_executed + n <= tombola::MAX_STEPS,
    {
        let t = team_slot(team);
        let mut clock = self.clocks[t];
        let n = clock.catch_up(elapsed_ms);
        self.clocks[t] = clock;
        assert(self@.clocks =~= old(self)@.clocks.update(t as int, clock@));
        assert(self@ == LogicView { clocks: self@.clocks, ..old(self)@ });
        n
    }

    /// Runs one step of the team's tombola clock.
    pub fn advance_tombola(&mut self, team: Team) -> (r: tombola::SpinState)
        requires
            old(self).wf(),
            old(self)@.clocks[team_index(team)].steps_executed < tombola::MAX_STEPS,
        ensures
            final(self).wf(),
            ({
                let t = team_index(team);
                let c = old(self)@.clocks[t];
                &&& final(self)@.clocks[t].steps_executed == c.steps_executed + 1
                &&& final(self)@ == (LogicView {
                    clocks: old(self)@.clocks.update(t, final(self)@.clocks[t]),
                    ..old(self)@
                })
                &&& match c.spin_start_steps {
                    None => {
                        &&& r == tombola::SpinState::Idle
                        &&& final(self)@.clocks[t].spin_start_steps is None
                    },
                    Some(start) => {
                        let executed = c.steps_executed - start;
                        if tombola::turns_after(executed) >= tombola::N_TURNS {
                            &&& r == tombola::SpinState::Finished
                            &&& final(self)@.clocks[t].spin_start_steps is None
                        } else {
                            &&& r == tombola::SpinState::Turning(executed as i64)
                            &&& final(self)@.clocks[t].spin_start_steps == Some(start)
                        }
                    },
                }
            }),
    {
        let t = team_slot(team);
        let mut clock = self.clocks[t];
        let r = clock.step();
        self.clocks[t] = clock;
        assert(self@.clocks =~= old(self)@.clocks.update(t as int, clock@));
        r
    }
}

} // verus!

verus! {

/// The guesses of a game, one line of the grid at a time.
pub struct GuessIter<'a> {
    pub guesses: &'a [Vec<Letter>],
    pub index: usize,
}

impl<'a> GuessIter<'a> {
    pub fn next(&mut self) -> (r: Option<&'a [Letter]>)
        ensures
            final(self).guesses == old(self).guesses,
            old(self).index < old(self).guesses@.len() ==> {
                &&& r matches Some(row) && row@ == old(self).guesses@[old(self).index as int]@
                &&& final(self).index == old(self).index + 1
            },
            old(self).index >= old(self).guesses@.len() ==> r is None && final(self).index
                == old(self).index,
    {
        if self.index < self.guesses.len() {
            let row = self.guesses[self.index].as_slice();
            self.index = self.index + 1;
            Some(row)
        } else {
            None
        }
    }

    /// The last line still to come, if any.
    pub fn last(self) -> (r: Option<&'a [Letter]>)
        ensures
            self.index < self.guesses@.len() ==> (r matches Some(row) && row@
                == self.guesses@.last()@),
            self.index >= self.guesses@.len() ==> r is None,
    {
        if self.index < self.guesses.len() {
            Some(self.guesses[self.guesses.len() - 1].as_slice())
        } else {
            None
        }
    }
}

} // verus!

verus! {

// ---------------------------------------------------------------------------
// Loading the data files

/// The word code stored little-endian in the eight bytes from `i` on.
pub open spec fn le_u64_at(bytes: Seq<u8>, i: int) -> u64 {
    (bytes[i] as u64) | ((bytes[i + 1] as u64) << 8u64) | ((bytes[i + 2] as u64) << 16u64) | ((
    bytes[i + 3] as u64) << 24u64) | ((bytes[i + 4] as u64) << 32u64) | ((bytes[i + 5] as u64)
        << 40u64) | ((bytes[i + 6] as u64) << 48u64) | ((bytes[i + 7] as u64) << 56u64)
}

/// The word codes of a word list file: one little-endian `u64` per eight bytes.
pub open spec fn word_codes(bytes: Seq<u8>) -> Seq<u64> {
    Seq::new(bytes.len() / 8, |k: int| le_u64_at(bytes, 8 * k))
}

fn read_word_codes(source: &[u8]) -> (r: Vec<u64>)
    requires
        source@.len() % 8 == 0,
    ensures
        r@ == word_codes(source@),
{
    let len = source.len();
    let n = len / 8;
    let mut words: Vec<u64> = Vec::new();
    let mut k: usize = 0;
    while k < n
        invariant
            n == source@.len() / 8,
            len == source@.len(),
            source@.len() % 8 == 0,
            k <= n,
            words@.len() == k,
            forall|j: int| 0 <= j < k ==> #[trigger] words@[j] == le_u64_at(source@, 8 * j),
        decreases n - k,
    {
        assert(8 * k + 8 <= len) by (nonlinear_arith)
            requires
                k < n,
                n == len / 8,
        ;
        let i = 8 * k;
        let word = (source[i] as u64) | ((source[i + 1] as u64) << 8u64) | ((source[i + 2] as u64)
            << 16u64) | ((source[i + 3] as u64) << 24u64) | ((source[i + 4] as u64) << 32u64) | ((
        source[i + 5] as u64) << 40u64) | ((source[i + 6] as u64) << 48u64) | ((source[i + 7] as u64)
            << 56u64);
        words.push(word);
        k = k + 1;
    }
    assert(words@ =~= word_codes(source@));
    words
}

/// Collects the data files that a game needs, one after the other: the
/// dictionary, then the word list.
pub struct LogicLoader {
    dictionary: Option<Dictionary>,
    word_list: Option<Vec<u64>>,
}

pub struct LoaderView {
    pub dictionary: Option<Seq<u8>>,
    pub word_list: Option<Seq<u64>>,
}

impl View for LogicLoader {
    type V = LoaderView;

    closed spec fn view(&self) -> LoaderView {
        LoaderView {
            dictionary: match self.dictionary {
                Some(d) => Some(d@),
                None => None,
            },
            word_list: match self.word_list {
                Some(w) => Some(w@),
                None => None,
            },
        }
    }
}

impl LogicLoader {
    pub fn new() -> (r: LogicLoader)
        ensures
            r@.dictionary is None,
            r@.word_list is None,
    {
        LogicLoader { dictionary: None, word_list: None }
    }

    /// The name of the file to load next, if any is still needed.
    pub fn next_filename(&self) -> (r: Option<&'static str>)
        ensures
            self@.dictionary is None ==> (r matches Some(name) && name@ == "dictionary.bin"@),
            self@.dictionary is Some && self@.word_list is None ==> (r matches Some(name) && name@
                == "wordlist.bin"@),
            self@.dictionary is Some && self@.word_list is Some ==> r is None,
    {
        if self.dictionary.is_none() {
            Some("dictionary.bin")
        } else if self.word_list.is_none() {
            Some("wordlist.bin")
        } else {
            None
        }
    }

    /// Takes the contents of the file that `next_filename` named.
    pub fn loaded(&mut self, source: Vec<u8>)
        requires
            old(self)@.dictionary is None || old(self)@.word_list is None,
            old(self)@.dictionary is Some ==> source@.len() % 8 == 0,
        ensures
            old(self)@.dictionary is None ==> final(self)@.dictionary == Some(source@)
                && final(self)@.word_list == old(self)@.word_list,
            old(self)@.dictionary is Some ==> final(self)@.dictionary == old(self)@.dictionary
                && final(self)@.word_list == Some(word_codes(source@)),
    {
        if self.dictionary.is_none() {
            self.dictionary = Some(Dictionary::new(source));
        } else {
            self.word_list = Some(read_word_codes(source.as_slice()));
        }
    }

    /// Starts the game once both files are loaded.
    pub fn complete(self) -> (logic: Logic)
        requires
            self@.dictionary is Some,
            self@.word_list is Some,
        ensures
            logic.wf(),
            game_inv(logic@),
            starting_grid(logic@.grids[0]),
            starting_grid(logic@.grids[1]),
            logic@.grids.len() == 2,
            exists|w: int|
                (self@.word_list->0.len() > 0 ==> 0 <= w < self@.word_list->0.len()) && logic@
                    == #[trigger] pick_word_spec(
                    initial_view(self@.dictionary->0, self@.word_list->0, logic@.grids),
                    w,
                ),
    {
        match (self.dictionary, self.word_list) {
            (Some(dictionary), Some(word_list)) => Logic::new(dictionary, word_list),
            _ => Logic::new(Dictionary::new(Vec::new()), Vec::new()),
        }
    }
}

} // verus!

verus! {

// ---------------------------------------------------------------------------
// Properties of the game

proof fn lemma_queue_once_unique()
    ensures
        forall|events: Seq<Event>, e: Event|
            events.no_duplicates() ==> (#[trigger] queue_once(events, e)).no_duplicates(),
{
    assert forall|events: Seq<Event>, e: Event| events.no_duplicates() implies (#[trigger] queue_once(
        events,
        e,
    )).no_duplicates() by {
        if !events.contains(e) {
            let q = events.push(e);
            assert forall|i: int, j: int| 0 <= i < q.len() && 0 <= j < q.len() && i != j implies q[i]
                != q[j] by {
                if j == events.len() as int {
                    assert(q[i] == events[i]);
                } else if i == events.len() as int {
                    assert(q[j] == events[j]);
                }
            }
        }
    }
}

proof fn lemma_add_chars_unique(s: LogicView, chars: Seq<char>)
    requires
        s.events.no_duplicates(),
    ensures
        add_chars(s, chars).events.no_duplicates(),
    decreases chars.len(),
{
    lemma_queue_once_unique();
    if chars.len() > 0 && s.guess.len() < s.word.len() {
        let ch = chars[0];
        let next = if has_tile(ch) {
            let start = if s.guess.len() == 0 && ch != s.word[0] {
                seq![s.word[0]]
            } else {
                s.guess
            };
            with_guess(s, start.push(ch))
        } else {
            s
        };
        lemma_add_chars_unique(next, chars.drop_first());
    }
}

/// The event queue never holds the same event twice: a key press keeps a
/// queue without repeats free of them.
pub proof fn lemma_key_step_keeps_events_unique(s: LogicView, key: Key, r: int)
    requires
        s.events.no_duplicates(),
    ensures
        key_step(s, key, r).events.no_duplicates(),
{
    lemma_queue_once_unique();
    match key {
        Key::Letter(letter) => {
            lemma_add_chars_unique(s, case::uppercase_of(typed_letter(s, letter)));
        },
        _ => {},
    }
}

/// Once the word is solved or the guesses are used up, entering a guess
/// changes neither the guesses nor the scores.
pub proof fn lemma_no_guess_after_the_end(s: LogicView, r: int)
    requires
        finished(s),
    ensures
        key_step(s, Key::Enter, r).guess_letters == s.guess_letters,
        key_step(s, Key::Enter, r).scores == s.scores,
{
}

/// Moving left from any page but the leftmost one and then right comes back
/// to the same page.
pub proof fn lemma_left_then_right(s: LogicView)
    requires
        s.page != Page::Bingo(Team::Left),
    ensures
        page_right_spec(page_left_spec(s)).page == s.page,
{
}

/// Changing the current team twice gives the turn back to the same team.
pub proof fn lemma_change_team_twice(s: LogicView)
    ensures
        change_current_team_spec(change_current_team_spec(s)).team == s.team,
{
}

} // verus!

verus! {

/// Number of positions below `n` where the guess has `c` and it is marked as
/// being in the wrong position.
pub open spec fn wrong_position_count(guess: Seq<char>, word: Seq<char>, c: char, n: int) -> int
    decreases n,
{
    if n <= 0 {
        0
    } else {
        wrong_position_count(guess, word, c, n - 1) + if guess[n - 1] == c && letter_result(
            guess,
            word,
            n - 1,
        ) == LetterResult::WrongPosition {
            1int
        } else {
            0int
        }
    }
}

/// A letter of a guess is marked as in the wrong position as many times as
/// the guess misses it, but never more often than the word has copies of it
/// that the guess does not match.
pub proof fn lemma_wrong_position_count(guess: Seq<char>, word: Seq<char>, c: char, n: int)
    requires
        guess.len() == word.len(),
        0 <= n <= guess.len(),
    ensures
        wrong_position_count(guess, word, c, n) == if missed_in_guess(guess, word, c, n)
            < unmatched_in_word(guess, word, c, word.len() as int) {
            missed_in_guess(guess, word, c, n)
        } else {
            unmatched_in_word(guess, word, c, word.len() as int)
        },
    decreases n,
{
    lemma_unmatched_bound(guess, word, c, word.len() as int);
    if n > 0 {
        lemma_wrong_position_count(guess, word, c, n - 1);
        lemma_missed_nonnegative(guess, word, c, n - 1);
    }
}

} // verus!

verus! {

/// Every visible position is a position of the word.
pub open spec fn visible_within_word(s: LogicView) -> bool {
    forall|i: int| s.word.len() <= i < 32 ==> !#[trigger] is_set(s.visible, i)
}

/// Looking from position `i` on, a hidden letter with `r` hidden letters
/// before it is found when there are more than `r` hidden letters left.
proof fn lemma_hidden_position_found(v: u32, len: int, r: int, i: int) -> (j: int)
    requires
        0 <= i <= len <= 32,
        0 <= r,
        rank(v, len) - rank(v, i) > r,
    ensures
        hidden_position(v, len, r, i) == Some(j),
        i <= j < len,
        !is_set(v, j),
    decreases len - i,
{
    if i == len {
        assert(false);
        0
    } else if !is_set(v, i) {
        if r == 0 {
            i
        } else {
            lemma_hidden_position_found(v, len, r - 1, i + 1)
        }
    } else {
        lemma_hidden_position_found(v, len, r, i + 1)
    }
}

/// Bits from `len` on do not add to the count.
proof fn lemma_count_bits_high_clear(v: u32, len: int, n: int)
    requires
        0 <= len <= n <= 32,
        forall|i: int| len <= i < 32 ==> !#[trigger] is_set(v, i),
    ensures
        count_bits(v, n) == count_bits(v, len),
    decreases n - len,
{
    if n > len {
        lemma_count_bits_high_clear(v, len, n - 1);
    }
}

/// A hint shows exactly one more letter of the word and keeps the letters that
/// were visible.
pub proof fn lemma_hint_shows_one_more_letter(s: LogicView, r: int)
    requires
        hint_possible(s),
        hint_fits(s, r),
        visible_within_word(s),
        0 <= r < random_bound(s, Key::PageDown),
        s.page == Page::Word,
    ensures
        ({
            let t = key_step(s, Key::PageDown, r);
            &&& count_bits(t.visible, 32) == count_bits(s.visible, 32) + 1
            &&& visible_within_word(t)
            &&& forall|i: int| 0 <= i < 32 && is_set(s.visible, i) ==> #[trigger] is_set(t.visible, i)
        }),
{
    let v = s.visible;
    let len = s.word.len() as int;
    let j = if len <= 32 {
        lemma_count_bits_high_clear(v, len, 32);
        lemma_hidden_position_found(v, len, r, 0)
    } else {
        lemma_hidden_position_inside(v, len, r, 0);
        hidden_position(v, len, r, 0)->0
    };
    let t = key_step(s, Key::PageDown, r);
    assert(t.visible == v | (1u32 << (j as u32)));
    lemma_count_bits_add(v, j as u32, 32);
    assert forall|i: int| 0 <= i < 32 implies #[trigger] is_set(t.visible, i) == (is_set(v, i) || i
        == j) by {
        lemma_bit_or(v, j as u32, i as u32);
    }
}

} // verus!

verus! {

/// Entering the word itself solves it and gives `SOLVE_SCORE` points to the
/// current team, leaving the other team's score as it was.
pub proof fn lemma_right_word_solves(s: LogicView, r: int)
    requires
        s.page == Page::Word,
        !finished(s),
        guess_acceptable(s),
        s.guess == s.word,
        s.scores.len() == N_TEAMS,
        s.scores[team_index(s.team)] + SOLVE_SCORE <= u32::MAX,
    ensures
        ({
            let t = key_step(s, Key::Enter, r);
            let team = team_index(s.team);
            &&& t.solved
            &&& t.scores[team] == s.scores[team] + SOLVE_SCORE
            &&& t.scores[1 - team] == s.scores[1 - team]
        }),
{
    let results = guess_results_spec(clear_dead_key(s));
    assert forall|i: int| 0 <= i < results.len() implies results[i] == LetterResult::Correct by {}
    assert(all_correct(results));
}

/// With one bit per letter of the results, a position is visible after a
/// guess exactly when it was visible before or its letter is correct.
proof fn lemma_with_correct_letters(visible: u32, results: Seq<LetterResult>, i: int)
    requires
        forall|j: int| 32 <= j < results.len() ==> #[trigger] results[j] != LetterResult::Correct,
        0 <= i < 32,
    ensures
        is_set(with_correct_letters(visible, results), i) == (is_set(visible, i) || (i
            < results.len() && results[i] == LetterResult::Correct)),
    decreases results.len(),
{
    if results.len() > 0 {
        let rest = results.drop_last();
        assert forall|j: int| 32 <= j < rest.len() implies #[trigger] rest[j]
            != LetterResult::Correct by {
            assert(rest[j] == results[j]);
        }
        lemma_with_correct_letters(visible, rest, i);
        let n = results.len() - 1;
        if results.last() == LetterResult::Correct {
            lemma_bit_or(with_correct_letters(visible, rest), n as u32, i as u32);
        }
        assert(i < n ==> results[i] == rest[i]);
    }
}

/// After a guess is entered, the visible letters are those that were visible
/// and those that the guess got in the right place.
pub proof fn lemma_correct_letters_become_visible(s: LogicView, r: int)
    requires
        s.page == Page::Word,
        !finished(s),
        guess_acceptable(s),
        enter_fits(s),
    ensures
        forall|i: int|
            0 <= i < 32 ==> (#[trigger] is_set(key_step(s, Key::Enter, r).visible, i) == (is_set(
                s.visible,
                i,
            ) || (i < s.word.len() && s.guess[i] == s.word[i]))),
{
    let c = clear_dead_key(s);
    let results = guess_results_spec(c);
    assert forall|j: int| 32 <= j < results.len() implies #[trigger] results[j]
        != LetterResult::Correct by {
        assert(s.guess[j] != s.word[j]);
    }
    assert forall|i: int| 0 <= i < 32 implies (#[trigger] is_set(
        key_step(s, Key::Enter, r).visible,
        i,
    ) == (is_set(s.visible, i) || (i < s.word.len() && s.guess[i] == s.word[i]))) by {
        lemma_with_correct_letters(s.visible, results, i);
    }
}

} // verus!

verus! {

/// Every line of the grid is as long as the word, and there is a line of
/// results for each line of letters.
pub open spec fn rows_fit_word(s: LogicView) -> bool {
    &&& s.guess_results.len() == s.guess_letters.len()
    &&& forall|k: int|
        0 <= k < s.guess_letters.len() ==> (#[trigger] s.guess_letters[k]).len() == s.word.len()
            && s.guess_results[k].len() == s.word.len()
}

proof fn lemma_add_chars_keeps_rows(s: LogicView, chars: Seq<char>)
    ensures
        add_chars(s, chars).word == s.word,
        add_chars(s, chars).guess_letters == s.guess_letters,
        add_chars(s, chars).guess_results == s.guess_results,
    decreases chars.len(),
{
    if chars.len() > 0 && s.guess.len() < s.word.len() {
        let ch = chars[0];
        let next = if has_tile(ch) {
            let start = if s.guess.len() == 0 && ch != s.word[0] {
                seq![s.word[0]]
            } else {
                s.guess
            };
            with_guess(s, start.push(ch))
        } else {
            s
        };
        lemma_add_chars_keeps_rows(next, chars.drop_first());
    }
}

proof fn lemma_rows_fit_same(s: LogicView, t: LogicView)
    requires
        rows_fit_word(s),
        t.word == s.word,
        t.guess_letters == s.guess_letters,
        t.guess_results == s.guess_results,
    ensures
        rows_fit_word(t),
{
    assert forall|k: int| 0 <= k < t.guess_letters.len() implies (#[trigger] t.guess_letters[k]).len()
        == t.word.len() && t.guess_results[k].len() == t.word.len() by {
        assert(t.guess_letters[k] == s.guess_letters[k]);
        assert(t.guess_results[k] == s.guess_results[k]);
    }
}

/// Each line of the grid stays as long as the word: a key press adds only
/// lines of the word's length, and a new word starts with an empty grid.
pub proof fn lemma_key_step_keeps_rows_fit(s: LogicView, key: Key, r: int)
    requires
        rows_fit_word(s),
    ensures
        rows_fit_word(key_step(s, key, r)),
{
    let t = key_step(s, key, r);
    match key {
        Key::Letter(letter) => {
            lemma_add_chars_keeps_rows(s, case::uppercase_of(typed_letter(s, letter)));
            lemma_rows_fit_same(s, t);
        },
        Key::Delete | Key::Enter => {
            assert forall|k: int| 0 <= k < t.guess_letters.len() implies (
            #[trigger] t.guess_letters[k]).len() == t.word.len() && t.guess_results[k].len()
                == t.word.len() by {
                if k < s.guess_letters.len() {
                    assert(t.guess_letters[k] == s.guess_letters[k]);
                    assert(t.guess_results[k] == s.guess_results[k]);
                }
            }
        },
        Key::Home => {
            if s.page == Page::Word {
                assert(t.guess_letters.len() == 0);
            } else {
                lemma_rows_fit_same(s, t);
            }
        },
        _ => {
            lemma_rows_fit_same(s, t);
        },
    }
}

} // verus!

verus! {

proof fn lemma_one_is_first_bit(i: u32)
    by (bit_vector)
    requires
        1 <= i < 32,
    ensures
        !((1u32 >> i) & 1u32 == 1u32),
{
}

/// A new word keeps the game's invariant.
proof fn lemma_set_word_keeps_inv(s: LogicView, word: Seq<char>)
    requires
        game_inv(s),
    ensures
        game_inv(set_word_spec(s, word)),
{
    lemma_queue_once_unique();
    let t = set_word_spec(s, word);
    assert forall|i: int| t.word.len() <= i < 32 && t.word.len() > 0 implies !#[trigger] is_set(
        t.visible,
        i,
    ) by {
        lemma_one_is_first_bit(i as u32);
    }
}

/// Picking a word keeps the game's invariant.
pub proof fn lemma_pick_word_keeps_inv(s: LogicView, r: int)
    requires
        game_inv(s),
    ensures
        game_inv(pick_word_spec(s, r)),
{
    lemma_set_word_keeps_inv(s, fallback_word());
    if s.word_list.len() > 0 {
        match dictionary_word(s.dictionary, s.word_list[r]) {
            Some(word) => lemma_set_word_keeps_inv(s, word),
            None => {},
        }
    }
}

proof fn lemma_add_chars_fits(s: LogicView, chars: Seq<char>)
    requires
        guess_fits_word(s),
        s.word.len() > 0,
    ensures
        guess_fits_word(add_chars(s, chars)),
        add_chars(s, chars).visible == s.visible,
        add_chars(s, chars).scores == s.scores,
        add_chars(s, chars).grids == s.grids,
        add_chars(s, chars).clocks == s.clocks,
    decreases chars.len(),
{
    if chars.len() > 0 && s.guess.len() < s.word.len() {
        let ch = chars[0];
        let next = if has_tile(ch) {
            let start = if s.guess.len() == 0 && ch != s.word[0] {
                seq![s.word[0]]
            } else {
                s.guess
            };
            with_guess(s, start.push(ch))
        } else {
            s
        };
        lemma_add_chars_fits(next, chars.drop_first());
    }
}

/// Every key press keeps the game's invariant.
pub proof fn lemma_key_step_keeps_inv(s: LogicView, key: Key, r: int)
    requires
        game_inv(s),
        key_fits(s, key, r),
        random_bound(s, key) > 0 ==> 0 <= r < random_bound(s, key),
    ensures
        game_inv(key_step(s, key, r)),
{
    lemma_key_step_keeps_events_unique(s, key, r);
    lemma_key_step_keeps_rows_fit(s, key, r);
    let t = key_step(s, key, r);
    let c = clear_dead_key(s);
    match key {
        Key::Letter(letter) => {
            if s.page == Page::Word && letter != 'x' && letter != 'X' {
                lemma_add_chars_fits(s, case::uppercase_of(typed_letter(s, letter)));
                lemma_add_chars_keeps_rows(s, case::uppercase_of(typed_letter(s, letter)));
            }
        },
        Key::Enter => {
            if s.page == Page::Word && !finished(c) && guess_acceptable(c) {
                let results = guess_results_spec(c);
                assert forall|i: int| t.word.len() <= i < 32 && t.word.len() > 0 implies !#[trigger] is_set(
                    t.visible,
                    i,
                ) by {
                    lemma_with_correct_letters(s.visible, results, i);
                }
            }
        },
        Key::PageDown => {
            if s.page == Page::Word && hint_possible(c) && s.word.len() <= 32 {
                bingo_grid::lemma_count_bits_nonnegative(s.visible, 32);
                lemma_hint_shows_one_more_letter(s, r);
            }
        },
        Key::Home => {
            if s.page == Page::Word {
                lemma_pick_word_keeps_inv(c, r);
            }
        },
        _ => {},
    }
}

} // verus!

verus! {

/// The Esperanto letters with a circumflex (or a breve, for `ŭ`), each after
/// the plain letter that the x-system writes before an `x`.
pub open spec fn x_system_pairs() -> Seq<(char, char)> {
    seq![
        ('C', 'Ĉ'), ('G', 'Ĝ'), ('H', 'Ĥ'), ('J', 'Ĵ'), ('S', 'Ŝ'), ('U', 'Ŭ'),
        ('c', 'ĉ'), ('g', 'ĝ'), ('h', 'ĥ'), ('j', 'ĵ'), ('s', 'ŝ'), ('u', 'ŭ'),
    ]
}

/// Each of the twelve plain letters takes exactly its accented letter, and no
/// other character takes one.
pub proof fn lemma_hatify_table()
    ensures
        x_system_pairs().len() == 12,
        forall|k: int| 0 <= k < 12 ==> #[trigger] hatify_spec(x_system_pairs()[k].0) == Some(
            x_system_pairs()[k].1,
        ),
        forall|c: char|
            #[trigger] hatify_spec(c) is Some ==> exists|k: int|
                0 <= k < 12 && x_system_pairs()[k].0 == c,
{
    let p = x_system_pairs();
    assert forall|c: char| #[trigger] hatify_spec(c) is Some implies exists|k: int|
        0 <= k < 12 && x_system_pairs()[k].0 == c by {
        if c == 'C' { assert(p[0].0 == c); }
        else if c == 'G' { assert(p[1].0 == c); }
        else if c == 'H' { assert(p[2].0 == c); }
        else if c == 'J' { assert(p[3].0 == c); }
        else if c == 'S' { assert(p[4].0 == c); }
        else if c == 'U' { assert(p[5].0 == c); }
        else if c == 'c' { assert(p[6].0 == c); }
        else if c == 'g' { assert(p[7].0 == c); }
        else if c == 'h' { assert(p[8].0 == c); }
        else if c == 'j' { assert(p[9].0 == c); }
        else if c == 's' { assert(p[10].0 == c); }
        else { assert(p[11].0 == c); }
    }
}

/// On the word page, typing `x` (or `X`) after a guess of two or more letters
/// that ends with one of the twelve plain letters puts that letter's accent
/// on it, leaving the rest of the guess as it was.
pub proof fn lemma_x_hats_the_last_letter(s: LogicView, x: char, k: int, r: int)
    requires
        s.page == Page::Word,
        x == 'x' || x == 'X',
        0 <= k < 12,
        s.guess.len() >= 2,
        s.guess.last() == x_system_pairs()[k].0,
    ensures
        key_step(s, Key::Letter(x), r).guess == s.guess.drop_last().push(x_system_pairs()[k].1),
        !key_step(s, Key::Letter(x), r).dead_key,
{
    lemma_hatify_table();
    assert(hatify_spec(x_system_pairs()[k].0) == Some(x_system_pairs()[k].1));
}

/// After a dead key, typing a letter on the word page does what typing the
/// letter with its circumflex (or breve) does, and the dead key is used up.
pub proof fn lemma_dead_key_hats_the_letter(s: LogicView, c: char, r: int)
    requires
        s.page == Page::Word,
        s.dead_key,
        c != 'x' && c != 'X',
    ensures
        key_step(s, Key::Letter(c), r) == key_step(
            clear_dead_key(s),
            Key::Letter(
                match hatify_spec(c) {
                    Some(h) => h,
                    None => c,
                },
            ),
            r,
        ),
        !key_step(s, Key::Letter(c), r).dead_key,
{
    let h = match hatify_spec(c) {
        Some(h) => h,
        None => c,
    };
    assert(h != 'x' && h != 'X');
    lemma_add_chars_ignores_dead_key(s, case::uppercase_of(h));
}

proof fn lemma_add_chars_ignores_dead_key(s: LogicView, chars: Seq<char>)
    ensures
        add_chars(clear_dead_key(s), chars) == clear_dead_key(add_chars(s, chars)),
        add_chars(s, chars).dead_key == s.dead_key,
    decreases chars.len(),
{
    if chars.len() > 0 && s.guess.len() < s.word.len() {
        let ch = chars[0];
        let next = if has_tile(ch) {
            let start = if s.guess.len() == 0 && ch != s.word[0] {
                seq![s.word[0]]
            } else {
                s.guess
            };
            with_guess(s, start.push(ch))
        } else {
            s
        };
        lemma_add_chars_ignores_dead_key(next, chars.drop_first());
        assert(clear_dead_key(next) == if has_tile(ch) {
            let start = if s.guess.len() == 0 && ch != s.word[0] {
                seq![s.word[0]]
            } else {
                s.guess
            };
            with_guess(clear_dead_key(s), start.push(ch))
        } else {
            clear_dead_key(s)
        });
    }
}

} // verus!
