use vstd::prelude::*;
use crate::game::case;
use crate::game::letter_texture::{has_tile, is_valid_letter};
use crate::game::logic::hatify_spec;

verus! {

pub const N_GUESSES: usize = 6;

#[derive(PartialEq, Eq, Structural, Copy, Clone, Debug)]
pub enum Event {
    GridChanged,
}

/// The text with each letter that takes a circumflex (or a breve) and is
/// followed by `x` or `X` replaced by the accented letter.
pub open spec fn from_x_system(s: Seq<char>) -> Seq<char>
    decreases s.len(),
{
    if s.len() == 0 {
        Seq::empty()
    } else if s.len() >= 2 && (s[1] == 'x' || s[1] == 'X') && hatify_spec(s[0]) is Some {
        seq![hatify_spec(s[0])->0] + from_x_system(s.skip(2))
    } else {
        seq![s[0]] + from_x_system(s.skip(1))
    }
}

/// Reads the text in the Esperanto x-system with `xsystem::unicode_chars`,
/// which is believed to turn each letter that can take a circumflex (or a
/// breve) followed by an `x` or `X` into the accented letter and to pass every
/// other character through.
#[verifier::external_body]
fn x_system_chars(text: &[char]) -> (r: Vec<char>)
    ensures
        r@ == from_x_system(text@),
{
    xsystem::unicode_chars(text.iter().copied()).collect()
}

/// The guess `g` with the uppercase forms of the `pending` characters and then
/// of `chars` added, skipping characters without a tile and a repeat of the
/// first letter at the start, until the guess is `len` letters long.
pub open spec fn fill_guess(
    g: Seq<char>,
    first: char,
    len: int,
    pending: Seq<char>,
    chars: Seq<char>,
) -> Seq<char>
    decreases chars.len(), pending.len(),
{
    if pending.len() > 0 {
        let c = pending[0];
        if (g.len() > 1 || c != first) && has_tile(c) {
            if g.len() + 1 >= len {
                g.push(c)
            } else {
                fill_guess(g.push(c), first, len, pending.drop_first(), chars)
            }
        } else {
            fill_guess(g, first, len, pending.drop_first(), chars)
        }
    } else if chars.len() > 0 {
        fill_guess(g, first, len, case::uppercase_of(chars[0]), chars.drop_first())
    } else {
        g
    }
}

/// Once the guess holds two or more letters, every letter with a tile is
/// added, the first letter too, until the guess is as long as the word.
pub proof fn lemma_fill_appends_after_two(g: Seq<char>, first: char, len: int, letters: Seq<char>)
    requires
        g.len() >= 2,
        g.len() + letters.len() <= len,
        forall|i: int| 0 <= i < letters.len() ==> has_tile(#[trigger] letters[i]),
    ensures
        fill_guess(g, first, len, letters, Seq::empty()) == g + letters,
    decreases letters.len(),
{
    if letters.len() > 0 {
        let c = letters[0];
        if g.len() + 1 >= len {
            assert(letters.len() == 1);
            assert(g + letters =~= g.push(c));
        } else {
            let rest = letters.drop_first();
            assert forall|i: int| 0 <= i < rest.len() implies has_tile(#[trigger] rest[i]) by {
                assert(rest[i] == letters[i + 1]);
            }
            lemma_fill_appends_after_two(g.push(c), first, len, rest);
            assert(g.push(c) + rest =~= g + letters);
        }
    } else {
        assert(g + letters =~= g);
    }
}

/// While the guess holds only the first letter, typing that letter again is
/// skipped; any other letter with a tile is added after it.
pub proof fn lemma_fill_skips_first_repeat(first: char, len: int, c: char, letters: Seq<char>)
    requires
        len >= 3,
    ensures
        fill_guess(seq![first], first, len, seq![first] + letters, Seq::empty()) == fill_guess(
            seq![first],
            first,
            len,
            letters,
            Seq::empty(),
        ),
        c != first && has_tile(c) ==> fill_guess(seq![first], first, len, seq![c] + letters, Seq::empty())
            == fill_guess(seq![first, c], first, len, letters, Seq::empty()),
{
    assert((seq![first] + letters)[0] == first);
    assert((seq![first] + letters).drop_first() =~= letters);
    assert((seq![c] + letters)[0] == c);
    assert((seq![c] + letters).drop_first() =~= letters);
    assert(seq![first].push(c) =~= seq![first, c]);
}

/// The uppercase forms of the characters, one after the other.
pub open spec fn uppercase_all(chars: Seq<char>) -> Seq<char>
    decreases chars.len(),
{
    if chars.len() == 0 {
        Seq::empty()
    } else {
        case::uppercase_of(chars[0]) + uppercase_all(chars.drop_first())
    }
}

/// Filling the guess from characters goes letter by letter through their
/// uppercase forms.
proof fn lemma_fill_guess_flat(
    g: Seq<char>,
    first: char,
    len: int,
    pending: Seq<char>,
    chars: Seq<char>,
)
    ensures
        fill_guess(g, first, len, pending, chars) == fill_guess(
            g,
            first,
            len,
            pending + uppercase_all(chars),
            Seq::empty(),
        ),
    decreases chars.len(), pending.len(),
{
    let all = pending + uppercase_all(chars);
    if pending.len() > 0 {
        assert(all[0] == pending[0]);
        assert(all.drop_first() == pending.drop_first() + uppercase_all(chars));
        let c = pending[0];
        if (g.len() > 1 || c != first) && has_tile(c) {
            lemma_fill_guess_flat(g.push(c), first, len, pending.drop_first(), chars);
        } else {
            lemma_fill_guess_flat(g, first, len, pending.drop_first(), chars);
        }
    } else if chars.len() > 0 {
        lemma_fill_guess_flat(g, first, len, case::uppercase_of(chars[0]), chars.drop_first());
        assert(pending + uppercase_all(chars) == case::uppercase_of(chars[0]) + uppercase_all(
            chars.drop_first(),
        ));
    } else {
        assert(all == Seq::<char>::empty());
    }
}

/// The uppercase forms of the characters, one after the other.
fn uppercase_chars(chars: &[char]) -> (r: Vec<char>)
    ensures
        r@ == uppercase_all(chars@),
{
    let mut r: Vec<char> = Vec::new();
    let mut i: usize = 0;
    assert(chars@.skip(0) == chars@);
    while i < chars.len()
        invariant
            i <= chars@.len(),
            r@ + uppercase_all(chars@.skip(i as int)) == uppercase_all(chars@),
        decreases chars@.len() - i,
    {
        let upper = case::to_uppercase(chars[i]);
        proof {
            assert(chars@.skip(i as int)[0] == chars@[i as int]);
            assert(chars@.skip(i as int).drop_first() == chars@.skip(i + 1));
        }
        let ghost before = r@;
        let mut j: usize = 0;
        while j < upper.len()
            invariant
                j <= upper@.len(),
                r@ == before + upper@.take(j as int),
            decreases upper@.len() - j,
        {
            r.push(upper[j]);
            assert(upper@.take(j + 1) == upper@.take(j as int).push(upper@[j as int]));
            j = j + 1;
        }
        assert(upper@.take(j as int) == upper@);
        assert(before + upper@ + uppercase_all(chars@.skip(i + 1)) == before + (upper@
            + uppercase_all(chars@.skip(i + 1))));
        i = i + 1;
    }
    assert(chars@.skip(i as int).len() == 0);
    assert(r@ + Seq::<char>::empty() == r@);
    r
}

/// The state of the game as plain values.
pub struct LogicView {
    pub word: Seq<char>,
    pub guess: Seq<char>,
    pub grid_changed: bool,
}

/// A word game with one word and a guess being typed.
pub struct Logic {
    word: Vec<char>,
    in_progress_guess: Vec<char>,
    grid_changed_queued: bool,
}

impl View for Logic {
    type V = LogicView;

    closed spec fn view(&self) -> LogicView {
        LogicView {
            word: self.word@,
            guess: self.in_progress_guess@,
            grid_changed: self.grid_changed_queued,
        }
    }
}

impl Logic {
    pub fn new() -> (logic: Logic)
        ensures
            logic@.word == seq!['P', 'O', 'T', 'A', 'T', 'O'],
            logic@.guess == seq!['P'],
            logic@.grid_changed,
    {
        let mut logic = Logic {
            word: Vec::new(),
            in_progress_guess: Vec::new(),
            grid_changed_queued: false,
        };
        let word = vec!['P', 'O', 'T', 'A', 'T', 'O'];
        logic.set_word(word);
        logic
    }

    fn set_word(&mut self, word: Vec<char>)
        requires
            word@.len() > 0,
        ensures
            final(self)@.word == word@,
            final(self)@.guess == seq![word@[0]],
            final(self)@.grid_changed,
    {
        let first = word[0];
        self.word = word;
        self.in_progress_guess = Vec::new();
        self.in_progress_guess.push(first);
        self.grid_changed_queued = true;
    }

    pub fn word_length(&self) -> (r: usize)
        ensures
            r == self@.word.len(),
    {
        self.word.len()
    }

    /// Replaces the guess with the first letter of the word followed by the
    /// letters of `guess`, read in the x-system and in uppercase, until the
    /// guess is as long as the word.
    pub fn set_in_progress_guess(&mut self, guess: &[char])
        requires
            old(self)@.word.len() > 0,
        ensures
            final(self)@.word == old(self)@.word,
            final(self)@.guess == fill_guess(
                seq![old(self)@.word[0]],
                old(self)@.word[0],
                old(self)@.word.len() as int,
                Seq::empty(),
                from_x_system(guess@),
            ),
            final(self)@.grid_changed,
    {
        let chars = x_system_chars(guess);
        let letters = uppercase_chars(chars.as_slice());
        proof {
            let w = old(self)@.word;
            lemma_fill_guess_flat(seq![w[0]], w[0], w.len() as int, Seq::empty(), chars@);
            assert(Seq::<char>::empty() + uppercase_all(chars@) == uppercase_all(chars@));
        }
        self.fill_in_progress_guess(letters.as_slice());
    }

    /// Replaces the guess with the first letter of the word followed by the
    /// given letters, skipping those without a tile and a repeat of the first
    /// letter at the start, until the guess is as long as the word.
    pub fn fill_in_progress_guess(&mut self, letters: &[char])
        requires
            old(self)@.word.len() > 0,
        ensures
            final(self)@.word == old(self)@.word,
            final(self)@.guess == fill_guess(
                seq![old(self)@.word[0]],
                old(self)@.word[0],
                old(self)@.word.len() as int,
                letters@,
                Seq::empty(),
            ),
            final(self)@.grid_changed,
    {
        let first_letter = self.word[0];
        let len = self.word.len();
        self.in_progress_guess = Vec::new();
        self.in_progress_guess.push(first_letter);
        self.grid_changed_queued = true;
        assert(self@.guess == seq![first_letter]);
        let ghost target = fill_guess(
            seq![first_letter],
            first_letter,
            len as int,
            letters@,
            Seq::empty(),
        );
        assert(letters@.skip(0) == letters@);
        let mut j: usize = 0;
        while j < letters.len()
            invariant
                j <= letters@.len(),
                len == self@.word.len(),
                len > 0,
                self@.word == old(self)@.word,
                first_letter == self@.word[0],
                self@.grid_changed,
                target == fill_guess(
                    seq![old(self)@.word[0]],
                    old(self)@.word[0],
                    old(self)@.word.len() as int,
                    letters@,
                    Seq::empty(),
                ),
                fill_guess(
                    self@.guess,
                    first_letter,
                    len as int,
                    letters@.skip(j as int),
                    Seq::empty(),
                ) == target,
            decreases letters@.len() - j,
        {
            let ch = letters[j];
            proof {
                assert(letters@.skip(j as int)[0] == ch);
                assert(letters@.skip(j as int).drop_first() == letters@.skip(j + 1));
            }
            if (self.in_progress_guess.len() > 1 || ch != first_letter) && is_valid_letter(ch) {
                self.in_progress_guess.push(ch);
                if self.in_progress_guess.len() >= len {
                    assert(self@.guess == target);
                    return;
                }
            }
            j = j + 1;
        }
        proof {
            assert(letters@.skip(j as int).len() == 0);
        }
    }

    pub fn in_progress_guess(&self) -> (r: &[char])
        ensures
            r@ == self@.guess,
    {
        self.in_progress_guess.as_slice()
    }

    /// Takes the grid change out of the queue, if one is waiting.
    pub fn get_event(&mut self) -> (r: Option<Event>)
        ensures
            r == (if old(self)@.grid_changed {
                Some(Event::GridChanged)
            } else {
                None
            }),
            final(self)@.word == old(self)@.word,
            final(self)@.guess == old(self)@.guess,
            !final(self)@.grid_changed,
    {
        if self.grid_changed_queued {
            self.grid_changed_queued = false;
            Some(Event::GridChanged)
        } else {
            None
        }
    }
}

} // verus!
