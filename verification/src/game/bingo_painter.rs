use vstd::prelude::*;
use super::bingo_grid::{Bingo, GRID_WIDTH, N_SPACES, letter_index_spec};

verus! {

/// How long the whole bingo animation lasts, in milliseconds.
pub const BINGO_TIME: i64 = 3000;

/// The letters of BINGO appear one after the other during the first half of
/// the animation.
pub const BINGO_LETTER_TIME: i64 = 1500;

/// How many letters of BINGO the animation shows `bingo_time` milliseconds
/// after the bingo.
pub open spec fn letters_revealed(bingo_time: i64) -> int {
    bingo_time * GRID_WIDTH as int / BINGO_LETTER_TIME as int
}

/// The letter of BINGO that the space at `index` shows: its letter on the
/// bingo line, once the animation has revealed that letter; always when no
/// animation is running.
pub open spec fn bingo_index_spec(index: usize, bingo: Option<Bingo>, bingo_time: Option<i64>) -> Option<u32> {
    match bingo {
        None => None,
        Some(line) => match letter_index_spec(line, index as u8) {
            None => None,
            Some(letter) => match bingo_time {
                None => Some(letter as u32),
                Some(t) => if t >= 0 && letters_revealed(t) >= letter {
                    Some(letter as u32)
                } else {
                    None
                },
            },
        },
    }
}

/// Which letter of BINGO to draw on the space at `index`, if any, given the
/// grid's bingo line and the time since the bingo (`None` once the animation
/// is over).
pub fn bingo_index(index: usize, bingo: Option<Bingo>, bingo_time: Option<i64>) -> (r: Option<u32>)
    requires
        bingo is Some && bingo->0 is DiagonalB ==> (index as u8) < N_SPACES,
        bingo_time matches Some(t) ==> (t >= 0 ==> t * GRID_WIDTH as int <= i64::MAX),
    ensures
        r == bingo_index_spec(index, bingo, bingo_time),
{
    let line = match bingo {
        Some(line) => line,
        None => return None,
    };
    let letter = match line.letter_index_for_space(index as u8) {
        Some(letter) => letter,
        None => return None,
    };
    match bingo_time {
        Some(bingo_time) => {
            if bingo_time >= 0 && bingo_time * GRID_WIDTH as i64 / BINGO_LETTER_TIME >= letter as i64 {
                Some(letter as u32)
            } else {
                None
            }
        },
        None => Some(letter as u32),
    }
}

} // verus!
