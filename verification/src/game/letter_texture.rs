use vstd::prelude::*;

verus! {

/// Number of letters that have a tile in the letter texture.
pub const N_LETTERS: usize = 30;

/// Texture coordinates of one letter's tile.
pub struct Letter {
    pub ch: char,
    pub s1: u16,
    pub t1: u16,
    pub s2: u16,
    pub t2: u16,
}

pub struct Color {
    pub letters: [Letter; N_LETTERS],
}

/// The letter has a tile in the letter texture: the Esperanto alphabet in
/// capitals, the full stop and the space.
pub open spec fn has_tile(c: char) -> bool {
    c == 'A' || c == 'B' || c == 'C' || c == 'D' || c == 'E' || c == 'F' || c == 'G' || c == 'H'
        || c == 'I' || c == 'J' || c == 'K' || c == 'L' || c == 'M' || c == 'N' || c == 'O' || c
        == 'P' || c == 'R' || c == 'S' || c == 'T' || c == 'U' || c == 'V' || c == 'Z' || c == 'Ĥ'
        || c == 'Ŝ' || c == 'Ĝ' || c == 'Ĉ' || c == 'Ĵ' || c == 'Ŭ' || c == '.' || c == ' '
}

/// Whether the letter has a tile in the letter texture.
pub fn is_valid_letter(letter: char) -> (r: bool)
    ensures
        r == has_tile(letter),
{
    match letter {
        'A' | 'B' | 'C' | 'D' | 'E' | 'F' | 'G' | 'H' | 'I' | 'J' | 'K' | 'L' | 'M' | 'N' | 'O'
        | 'P' | 'R' | 'S' | 'T' | 'U' | 'V' | 'Z' | 'Ĥ' | 'Ŝ' | 'Ĝ' | 'Ĉ' | 'Ĵ' | 'Ŭ' | '.'
        | ' ' => true,
        _ => false,
    }
}

} // verus!
