use vstd::prelude::*;
use super::logic::{Event, LetterResult, Logic, LogicView, results_of};
use super::timing::MILLIS_PER_LETTER;

verus! {

#[derive(PartialEq, Eq, Structural, Copy, Clone, Debug)]
pub enum Sound {
    CorrectLetter,
    WrongPosition,
    WrongLetter,
    BadWord,
    Solved,
}

/// Of two sounds due at the same time, the one of higher rank plays first.
pub open spec fn sound_rank(sound: Sound) -> int {
    match sound {
        Sound::CorrectLetter => 0,
        Sound::WrongPosition => 1,
        Sound::WrongLetter => 2,
        Sound::BadWord => 3,
        Sound::Solved => 4,
    }
}

fn rank_of(sound: Sound) -> (r: u8)
    ensures
        r == sound_rank(sound),
{
    match sound {
        Sound::CorrectLetter => 0,
        Sound::WrongPosition => 1,
        Sound::WrongLetter => 2,
        Sound::BadWord => 3,
        Sound::Solved => 4,
    }
}

/// A sound waiting for its time to play, in milliseconds on the queue's clock.
#[derive(PartialEq, Eq, Structural, Copy, Clone, Debug)]
pub struct QueuedSound {
    pub play_time: i64,
    pub sound: Sound,
}

/// `a` plays no later than `b`: it is due earlier, or at the same time with a
/// rank at least as high.
pub open spec fn plays_before(a: QueuedSound, b: QueuedSound) -> bool {
    a.play_time < b.play_time || (a.play_time == b.play_time && sound_rank(a.sound) >= sound_rank(
        b.sound,
    ))
}

/// `i` is the first position of the queue holding the sound that plays first.
pub open spec fn is_next(queue: Seq<QueuedSound>, i: int) -> bool {
    &&& 0 <= i < queue.len()
    &&& forall|j: int| 0 <= j < queue.len() ==> plays_before(queue[i], #[trigger] queue[j])
    &&& forall|j: int| 0 <= j < i ==> !plays_before(#[trigger] queue[j], queue[i])
}

/// Sounds waiting to be played, each at its own time.
pub struct SoundQueue {
    queue: Vec<QueuedSound>,
}

impl View for SoundQueue {
    type V = Seq<QueuedSound>;

    closed spec fn view(&self) -> Seq<QueuedSound> {
        self.queue@
    }
}

/// The sound that a letter's result makes, if any.
pub open spec fn letter_sound(result: LetterResult) -> Option<Sound> {
    match result {
        LetterResult::Correct => Some(Sound::CorrectLetter),
        LetterResult::WrongPosition => Some(Sound::WrongPosition),
        LetterResult::Wrong => Some(Sound::WrongLetter),
        LetterResult::Rejected => None,
    }
}

/// A letter in its place plays the correct sound, a letter elsewhere in the
/// word the wrong-position sound, a letter not in the word the wrong-letter
/// sound, and a rejected line no sound: three different sounds for the three
/// results of a scored letter.
pub proof fn lemma_each_result_has_its_sound()
    ensures
        letter_sound(LetterResult::Correct) == Some(Sound::CorrectLetter),
        letter_sound(LetterResult::WrongPosition) == Some(Sound::WrongPosition),
        letter_sound(LetterResult::Wrong) == Some(Sound::WrongLetter),
        letter_sound(LetterResult::Rejected) is None,
        forall|a: LetterResult, b: LetterResult|
            a != b && #[trigger] letter_sound(a) is Some && #[trigger] letter_sound(b) is Some
                ==> letter_sound(a) != letter_sound(b),
{
}

/// The sounds of the first `n` letters of a guess, one letter after the other.
pub open spec fn guess_sounds(results: Seq<LetterResult>, now: int, n: int) -> Seq<QueuedSound>
    decreases n,
{
    if n <= 0 {
        Seq::empty()
    } else {
        guess_sounds(results, now, n - 1) + match letter_sound(results[n - 1]) {
            Some(sound) => seq![
                QueuedSound { play_time: (now + MILLIS_PER_LETTER * (n - 1)) as i64, sound },
            ],
            None => Seq::empty(),
        }
    }
}

/// The sounds that an event of the game queues.
pub open spec fn event_sounds(event: Event, game: LogicView, now: int) -> Seq<QueuedSound> {
    match event {
        Event::GuessEntered => if game.guess_results.len() > 0 {
            let results = game.guess_results.last();
            guess_sounds(results, now, results.len() as int)
        } else {
            Seq::empty()
        },
        Event::WrongGuessEntered => seq![
            QueuedSound { play_time: now as i64, sound: Sound::BadWord },
        ],
        Event::Solved => seq![
            QueuedSound {
                play_time: (now + game.word.len() * MILLIS_PER_LETTER) as i64,
                sound: Sound::Solved,
            },
        ],
        _ => Seq::empty(),
    }
}

/// Timing of the event's sounds stays within an `i64`.
pub open spec fn event_times_fit(game: LogicView, now: int) -> bool {
    &&& MILLIS_PER_LETTER * game.word.len() <= i64::MAX
    &&& now + MILLIS_PER_LETTER * game.word.len() <= i64::MAX
    &&& game.guess_results.len() > 0 ==> {
        &&& MILLIS_PER_LETTER * game.guess_results.last().len() <= i64::MAX
        &&& now + MILLIS_PER_LETTER * game.guess_results.last().len() <= i64::MAX
    }
}

impl SoundQueue {
    pub fn new() -> (r: SoundQueue)
        ensures
            r@ == Seq::<QueuedSound>::empty(),
    {
        SoundQueue { queue: Vec::new() }
    }

    /// Queues the sound to play `delay` milliseconds after `now`.
    pub fn queue_sound(&mut self, sound: Sound, now: i64, delay: i64)
        requires
            i64::MIN <= now + delay <= i64::MAX,
        ensures
            final(self)@ == old(self)@.push(QueuedSound { play_time: (now + delay) as i64, sound }),
    {
        self.queue.push(QueuedSound { play_time: now + delay, sound });
    }

    /// Position of the sound that plays first.
    fn next_index(&self) -> (r: Option<usize>)
        ensures
            r is None <==> self@.len() == 0,
            r matches Some(i) ==> is_next(self@, i as int),
    {
        let n = self.queue.len();
        if n == 0 {
            return None;
        }
        let mut best: usize = 0;
        let mut i: usize = 1;
        while i < n
            invariant
                n == self@.len(),
                1 <= i <= n,
                best < i,
                forall|j: int| 0 <= j < i ==> plays_before(self@[best as int], #[trigger] self@[j]),
                forall|j: int| 0 <= j < best ==> !plays_before(#[trigger] self@[j], self@[best as int]),
            decreases n - i,
        {
            let a = self.queue[i];
            let b = self.queue[best];
            if a.play_time < b.play_time || (a.play_time == b.play_time && rank_of(a.sound) > rank_of(
                b.sound,
            )) {
                best = i;
            }
            i = i + 1;
        }
        Some(best)
    }

    /// Takes out the sound that plays first if it is due at `now`.
    pub fn next_ready_sound(&mut self, now: i64) -> (r: Option<Sound>)
        ensures
            old(self)@.len() == 0 ==> r is None && final(self)@ == old(self)@,
            forall|i: int|
                is_next(old(self)@, i) ==> if now >= old(self)@[i].play_time {
                    &&& r == Some(old(self)@[i].sound)
                    &&& final(self)@ == old(self)@.remove(i)
                } else {
                    &&& r is None
                    &&& final(self)@ == old(self)@
                },
    {
        match self.next_index() {
            Some(i) => {
                proof {
                    lemma_next_unique(self@, i as int);
                }
                let qs = self.queue[i];
                if now >= qs.play_time {
                    self.queue.remove(i);
                    Some(qs.sound)
                } else {
                    None
                }
            },
            None => None,
        }
    }

    /// Milliseconds from `now` until the first sound is due, if any is queued.
    pub fn next_delay(&self, now: i64) -> (r: Option<i64>)
        requires
            forall|i: int|
                is_next(self@, i) ==> i64::MIN <= #[trigger] self@[i].play_time - now <= i64::MAX,
        ensures
            self@.len() == 0 ==> r is None,
            forall|i: int|
                is_next(self@, i) ==> r == Some(
                    if self@[i].play_time - now > 0 {
                        (self@[i].play_time - now) as i64
                    } else {
                        0i64
                    },
                ),
    {
        match self.next_index() {
            Some(i) => {
                proof {
                    lemma_next_unique(self@, i as int);
                }
                let delay = self.queue[i].play_time - now;
                if delay > 0 {
                    Some(delay)
                } else {
                    Some(0)
                }
            },
            None => None,
        }
    }

    /// Queues the sounds that the game's event calls for.
    pub fn handle_logic_event(&mut self, logic: &Logic, event: Event, now: i64)
        requires
            event_times_fit(logic@, now as int),
        ensures
            final(self)@ == old(self)@ + event_sounds(event, logic@, now as int),
    {
        match event {
            Event::GuessEntered => self.queue_guess_sounds(logic, now),
            Event::WrongGuessEntered => {
                self.queue_sound(Sound::BadWord, now, 0);
            },
            Event::Solved => self.queue_solved(logic, now),
            _ => {},
        }
        assert(self@ =~= old(self)@ + event_sounds(event, logic@, now as int));
    }

    fn queue_guess_sounds(&mut self, logic: &Logic, now: i64)
        requires
            event_times_fit(logic@, now as int),
        ensures
            final(self)@ == old(self)@ + event_sounds(Event::GuessEntered, logic@, now as int),
    {
        let all = logic.guesses();
        let ghost rows = all.guesses@;
        match all.last() {
            Some(guess) => {
                let ghost results = logic@.guess_results.last();
                assert(results == results_of(rows[rows.len() - 1]@));
                assert(results == results_of(guess@));
                let n = guess.len();
                let mut letter_num: usize = 0;
                while letter_num < n
                    invariant
                        n == guess@.len(),
                        results == results_of(guess@),
                        letter_num <= n,
                        now + MILLIS_PER_LETTER * n <= i64::MAX,
                        MILLIS_PER_LETTER * n <= i64::MAX,
                        self@ == old(self)@ + guess_sounds(results, now as int, letter_num as int),
                    decreases n - letter_num,
                {
                    assert(MILLIS_PER_LETTER * letter_num <= MILLIS_PER_LETTER * n) by (nonlinear_arith)
                        requires
                            letter_num <= n,
                    ;
                    let sound = match guess[letter_num].result {
                        LetterResult::Correct => Some(Sound::CorrectLetter),
                        LetterResult::WrongPosition => Some(Sound::WrongPosition),
                        LetterResult::Wrong => Some(Sound::WrongLetter),
                        LetterResult::Rejected => None,
                    };
                    match sound {
                        Some(sound) => {
                            self.queue_sound(sound, now, MILLIS_PER_LETTER * letter_num as i64);
                        },
                        None => {},
                    }
                    assert(self@ =~= old(self)@ + guess_sounds(
                        results,
                        now as int,
                        letter_num + 1,
                    ));
                    letter_num = letter_num + 1;
                }
            },
            None => {},
        }
    }

    fn queue_solved(&mut self, logic: &Logic, now: i64)
        requires
            event_times_fit(logic@, now as int),
        ensures
            final(self)@ == old(self)@ + event_sounds(Event::Solved, logic@, now as int),
    {
        let n = logic.word_length();
        self.queue_sound(Sound::Solved, now, n as i64 * MILLIS_PER_LETTER);
        assert(self@ =~= old(self)@ + event_sounds(Event::Solved, logic@, now as int));
    }
}

/// Every position that holds the sound that plays first holds the same value.
proof fn lemma_next_unique(queue: Seq<QueuedSound>, i: int)
    requires
        is_next(queue, i),
    ensures
        forall|k: int| is_next(queue, k) ==> k == i,
{
    assert forall|k: int| is_next(queue, k) implies k == i by {
        if k < i {
            assert(!plays_before(queue[k], queue[i]));
            assert(plays_before(queue[k], queue[i]));
        } else if i < k {
            assert(!plays_before(queue[i], queue[k]));
            assert(plays_before(queue[i], queue[k]));
        }
    }
}

} // verus!
