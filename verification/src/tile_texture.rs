use vstd::prelude::*;
use crate::game::letter_texture::{Letter, has_tile};

verus! {

/// Number of bytes that UTF-8 takes for the character.
pub open spec fn utf8_len(c: char) -> int {
    if (c as u32) < 0x80 {
        1
    } else if (c as u32) < 0x800 {
        2
    } else if (c as u32) < 0x10000 {
        3
    } else {
        4
    }
}

fn len_utf8(c: char) -> (r: usize)
    ensures
        r == utf8_len(c),
{
    let code = c as u32;
    if code < 0x80 {
        1
    } else if code < 0x800 {
        2
    } else if code < 0x10000 {
        3
    } else {
        4
    }
}

/// Byte offset of letter `i` in the UTF-8 text of `letters`.
pub open spec fn byte_offset(letters: Seq<char>, i: int) -> int
    decreases i,
{
    if i <= 0 {
        0
    } else {
        byte_offset(letters, i - 1) + utf8_len(letters[i - 1])
    }
}

/// The letters that get a tile, in the order they are written down.
pub open spec fn tile_letters_spec() -> Seq<char> {
    seq![
        'A', 'B', 'C', 'D', 'E', 'F', 'G', 'H', 'I', 'J', 'K', 'L', 'M', 'N', 'O', 'P', 'R', 'S',
        'T', 'U', 'V', 'Z', 'Ĥ', 'Ŝ', 'Ĝ', 'Ĉ', 'Ĵ', 'Ŭ', '.', ' ',
    ]
}

/// Position of the letter in the list of letters that get a tile, or -1.
spec fn tile_index(c: char) -> int {
    if c == 'A' {
        0
    } else if c == 'B' {
        1
    } else if c == 'C' {
        2
    } else if c == 'D' {
        3
    } else if c == 'E' {
        4
    } else if c == 'F' {
        5
    } else if c == 'G' {
        6
    } else if c == 'H' {
        7
    } else if c == 'I' {
        8
    } else if c == 'J' {
        9
    } else if c == 'K' {
        10
    } else if c == 'L' {
        11
    } else if c == 'M' {
        12
    } else if c == 'N' {
        13
    } else if c == 'O' {
        14
    } else if c == 'P' {
        15
    } else if c == 'R' {
        16
    } else if c == 'S' {
        17
    } else if c == 'T' {
        18
    } else if c == 'U' {
        19
    } else if c == 'V' {
        20
    } else if c == 'Z' {
        21
    } else if c == 'Ĥ' {
        22
    } else if c == 'Ŝ' {
        23
    } else if c == 'Ĝ' {
        24
    } else if c == 'Ĉ' {
        25
    } else if c == 'Ĵ' {
        26
    } else if c == 'Ŭ' {
        27
    } else if c == '.' {
        28
    } else if c == ' ' {
        29
    } else {
        -1
    }
}

/// The letters that the game accepts are exactly the letters that get a tile.
pub proof fn lemma_tiles_match_valid_letters(c: char)
    ensures
        has_tile(c) <==> tile_letters_spec().contains(c),
{
    let t = tile_letters_spec();
    if has_tile(c) {
        assert(t[tile_index(c)] == c);
    }
    if t.contains(c) {
        let i = choose|i: int| 0 <= i < t.len() && t[i] == c;
        assert(has_tile(t[i]));
    }
}

/// The letters that get a tile, in the order they are written down.
pub fn tile_letters() -> (r: Vec<char>)
    ensures
        r@ == tile_letters_spec(),
{
    vec![
        'A', 'B', 'C', 'D', 'E', 'F', 'G', 'H', 'I', 'J', 'K', 'L', 'M', 'N', 'O', 'P', 'R', 'S',
        'T', 'U', 'V', 'Z', 'Ĥ', 'Ŝ', 'Ĝ', 'Ĉ', 'Ĵ', 'Ŭ', '.', ' ',
    ]
}

/// Width and height, in tiles, after `k` doublings: the width and the height
/// are doubled in turn, starting with the width.
pub open spec fn doubled_size(k: nat) -> (int, int)
    decreases k,
{
    if k == 0 {
        (1, 1)
    } else {
        let (w, h) = doubled_size((k - 1) as nat);
        if w <= h {
            (2 * w, h)
        } else {
            (w, 2 * h)
        }
    }
}

/// The texture for `n` tiles is the first doubled size that holds them all.
pub open spec fn is_texture_size(n: int, size: (int, int)) -> bool {
    exists|k: nat|
        size == #[trigger] doubled_size(k) && size.0 * size.1 >= n && (k > 0 ==> doubled_size(
            (k - 1) as nat,
        ).0 * doubled_size((k - 1) as nat).1 < n)
}

/// The texture size, in tiles, for `n_tiles` tiles.
pub fn texture_size_for(n_tiles: u32) -> (r: (u32, u32))
    requires
        n_tiles <= 0x8000_0000,
    ensures
        is_texture_size(n_tiles as int, (r.0 as int, r.1 as int)),
        r.0 >= 1,
        r.1 >= 1,
        r.0 * r.1 < 2 * n_tiles || (r.0 == 1 && r.1 == 1),
{
    let mut w: u32 = 1;
    let mut h: u32 = 1;
    let ghost mut k: nat = 0;
    while w * h < n_tiles
        invariant
            n_tiles <= 0x8000_0000,
            (w as int, h as int) == doubled_size(k),
            1 <= w,
            1 <= h,
            w * h <= 0xffff_ffff,
            w * h < 2 * n_tiles || (w == 1 && h == 1),
            k > 0 ==> doubled_size((k - 1) as nat).0 * doubled_size((k - 1) as nat).1 < n_tiles,
        decreases 0x1_0000_0000 - w * h,
    {
        let p = w * h;
        assert(2 * p <= 0xffff_ffff);
        assert(w <= p && h <= p) by (nonlinear_arith)
            requires
                p == w * h,
                w >= 1,
                h >= 1,
        ;
        if w <= h {
            assert((2 * w) * h == 2 * p) by (nonlinear_arith)
                requires
                    p == w * h,
            ;
            w = w * 2;
        } else {
            assert(w * (2 * h) == 2 * p) by (nonlinear_arith)
                requires
                    p == w * h,
            ;
            h = h * 2;
        }
        proof {
            k = k + 1;
        }
    }
    (w, h)
}

/// The size, in tiles, of the texture that holds a tile for each letter.
pub fn get_texture_size() -> (r: (u32, u32))
    ensures
        is_texture_size(30, (r.0 as int, r.1 as int)),
        r.0 >= 1,
        r.1 >= 1,
        30 <= r.0 * r.1 < 60,
{
    let letters = tile_letters();
    texture_size_for(letters.len() as u32)
}

/// `e` is one of the first `n` letters with its byte offset.
pub open spec fn entry_of(letters: Seq<char>, e: (usize, char), n: int) -> bool {
    exists|i: int| 0 <= i < n && e.0 == byte_offset(letters, i) && e.1 == #[trigger] letters[i]
}

/// `r` lists each letter with its byte offset, in increasing order of letter.
pub open spec fn sorts_letters(r: Seq<(usize, char)>, letters: Seq<char>) -> bool {
    &&& r.len() == letters.len()
    &&& forall|a: int, b: int|
        0 <= a < b < r.len() ==> #[trigger] r[a].1 < #[trigger] r[b].1
    &&& forall|k: int| 0 <= k < r.len() ==> entry_of(letters, #[trigger] r[k], letters.len() as int)
}

/// The letters with their byte offsets, sorted by letter.
pub fn sorted_letters(letters: &[char]) -> (r: Vec<(usize, char)>)
    requires
        letters@.no_duplicates(),
        byte_offset(letters@, letters@.len() as int) <= usize::MAX,
    ensures
        sorts_letters(r@, letters@),
{
    let mut r: Vec<(usize, char)> = Vec::new();
    let mut offset: usize = 0;
    let mut i: usize = 0;
    while i < letters.len()
        invariant
            i <= letters@.len(),
            letters@.no_duplicates(),
            byte_offset(letters@, letters@.len() as int) <= usize::MAX,
            offset == byte_offset(letters@, i as int),
            r@.len() == i,
            forall|a: int, b: int|
                0 <= a < b < r@.len() ==> #[trigger] r@[a].1 < #[trigger] r@[b].1,
            forall|k: int| 0 <= k < r@.len() ==> entry_of(letters@, #[trigger] r@[k], i as int),
        decreases letters@.len() - i,
    {
        let c = letters[i];
        proof {
            lemma_byte_offset_monotonic(letters@, i + 1, letters@.len() as int);
        }
        let width = len_utf8(c);
        // find the first entry with a greater letter
        let mut pos: usize = 0;
        while pos < r.len() && r[pos].1 < c
            invariant
                pos <= r@.len(),
                forall|a: int| 0 <= a < pos ==> r@[a].1 < c,
                forall|a: int, b: int|
                    0 <= a < b < r@.len() ==> #[trigger] r@[a].1 < #[trigger] r@[b].1,
            decreases r@.len() - pos,
        {
            pos = pos + 1;
        }
        proof {
            assert forall|k: int| 0 <= k < r@.len() implies r@[k].1 != c by {
                assert(entry_of(letters@, r@[k], i as int));
                let j = choose|j: int|
                    0 <= j < i && r@[k].0 == byte_offset(letters@, j) && r@[k].1
                        == #[trigger] letters@[j];
                assert(letters@[j] != letters@[i as int]);
            }
            if pos < r@.len() {
                assert forall|b: int| pos <= b < r@.len() implies c < r@[b].1 by {
                    if b > pos {
                        assert(r@[pos as int].1 < r@[b].1);
                    }
                    assert(r@[b].1 != c);
                }
            }
        }
        let ghost before = r@;
        r.insert(pos, (offset, c));
        proof {
            assert forall|k: int| 0 <= k < r@.len() implies entry_of(letters@, #[trigger] r@[k], i + 1) by {
                if k < pos {
                    assert(r@[k] == before[k]);
                    assert(entry_of(letters@, before[k], i as int));
                } else if k == pos {
                    assert(r@[k].1 == letters@[i as int]);
                } else {
                    assert(r@[k] == before[k - 1]);
                    assert(entry_of(letters@, before[k - 1], i as int));
                }
            }
        }
        offset = offset + width;
        i = i + 1;
    }
    r
}

proof fn lemma_byte_offset_monotonic(letters: Seq<char>, a: int, b: int)
    requires
        0 <= a <= b,
    ensures
        byte_offset(letters, a) <= byte_offset(letters, b),
    decreases b - a,
{
    if a < b {
        lemma_byte_offset_monotonic(letters, a, b - 1);
    }
}

/// Texture coordinates of tile `num` in a texture of `x_tiles` by `y_tiles`,
/// scaled to 0..0xffff.
pub open spec fn tile_coordinates(num: int, x_tiles: int, y_tiles: int) -> (int, int, int, int) {
    let x = num % x_tiles;
    let y = num / x_tiles;
    (x * 0xffff / x_tiles, y * 0xffff / y_tiles, (x + 1) * 0xffff / x_tiles, (y + 1) * 0xffff
        / y_tiles)
}

fn tile(ch: char, s1: u16, t1: u16, s2: u16, t2: u16) -> (r: Letter)
    ensures
        r == (Letter { ch, s1, t1, s2, t2 }),
{
    Letter { ch, s1, t1, s2, t2 }
}

/// The table of letters of the texture: one entry per sorted letter, with the
/// texture coordinates of its tile.
pub fn letter_table(sorted: &[(usize, char)], x_tiles: u32, y_tiles: u32) -> (r: Vec<Letter>)
    requires
        1 <= x_tiles,
        1 <= y_tiles,
        sorted@.len() <= x_tiles * y_tiles,
        x_tiles * y_tiles <= 0x1_0000,
    ensures
        r@.len() == sorted@.len(),
        forall|k: int|
            0 <= k < r@.len() ==> {
                let (s1, t1, s2, t2) = tile_coordinates(k, x_tiles as int, y_tiles as int);
                &&& #[trigger] r@[k].ch == sorted@[k].1
                &&& r@[k].s1 == s1
                &&& r@[k].t1 == t1
                &&& r@[k].s2 == s2
                &&& r@[k].t2 == t2
            },
{
    let mut table: Vec<Letter> = Vec::new();
    let mut num: usize = 0;
    let xt = x_tiles as usize;
    let yt = y_tiles as usize;
    while num < sorted.len()
        invariant
            num <= sorted@.len(),
            xt == x_tiles,
            yt == y_tiles,
            1 <= xt,
            1 <= yt,
            sorted@.len() <= xt * yt,
            xt * yt <= 0x1_0000,
            table@.len() == num,
            forall|k: int|
                0 <= k < num ==> {
                    let (s1, t1, s2, t2) = tile_coordinates(k, x_tiles as int, y_tiles as int);
                    &&& #[trigger] table@[k].ch == sorted@[k].1
                    &&& table@[k].s1 == s1
                    &&& table@[k].t1 == t1
                    &&& table@[k].s2 == s2
                    &&& table@[k].t2 == t2
                },
        decreases sorted@.len() - num,
    {
        let x = num % xt;
        let y = num / xt;
        assert(y < yt) by (nonlinear_arith)
            requires
                y == num / xt,
                num < xt * yt,
                xt >= 1,
        ;
        assert(x < xt);
        assert((x + 1) * 0xffff <= xt * 0xffff) by (nonlinear_arith)
            requires
                x < xt,
        ;
        assert((y + 1) * 0xffff <= yt * 0xffff) by (nonlinear_arith)
            requires
                y < yt,
        ;
        assert(xt * 0xffff <= 0x1_0000 * 0xffff) by (nonlinear_arith)
            requires
                xt * yt <= 0x1_0000,
                yt >= 1,
        ;
        assert(yt * 0xffff <= 0x1_0000 * 0xffff) by (nonlinear_arith)
            requires
                xt * yt <= 0x1_0000,
                xt >= 1,
        ;
        let s1 = x * 0xffff / xt;
        let t1 = y * 0xffff / yt;
        let s2 = (x + 1) * 0xffff / xt;
        let t2 = (y + 1) * 0xffff / yt;
        assert(s2 <= 0xffff) by (nonlinear_arith)
            requires
                s2 == (x + 1) * 0xffff / (xt as int),
                x < xt,
        ;
        assert(t2 <= 0xffff) by (nonlinear_arith)
            requires
                t2 == (y + 1) * 0xffff / (yt as int),
                y < yt,
        ;
        assert(s1 <= s2) by (nonlinear_arith)
            requires
                s1 == x * 0xffff / (xt as int),
                s2 == (x + 1) * 0xffff / (xt as int),
                xt >= 1,
        ;
        assert(t1 <= t2) by (nonlinear_arith)
            requires
                t1 == y * 0xffff / (yt as int),
                t2 == (y + 1) * 0xffff / (yt as int),
                yt >= 1,
        ;
        let letter = tile(sorted[num].1, s1 as u16, t1 as u16, s2 as u16, t2 as u16);
        table.push(letter);
        num = num + 1;
    }
    table
}

/// The letters that get a tile are all different.
pub proof fn lemma_tile_letters_differ()
    ensures
        tile_letters_spec().no_duplicates(),
{
    let t = tile_letters_spec();
    assert forall|i: int, j: int| 0 <= i < t.len() && 0 <= j < t.len() && i != j implies t[i]
        != t[j] by {
        assert(tile_index(t[i]) == i);
        assert(tile_index(t[j]) == j);
    }
}

/// A letter takes at most four bytes.
proof fn lemma_byte_offset_bound(letters: Seq<char>, i: int)
    requires
        0 <= i,
    ensures
        byte_offset(letters, i) <= 4 * i,
    decreases i,
{
    if i > 0 {
        lemma_byte_offset_bound(letters, i - 1);
    }
}

/// The letters of the texture, sorted, each with the coordinates of its tile.
pub fn texture_letters() -> (r: Vec<Letter>)
    ensures
        r@.len() == tile_letters_spec().len(),
        exists|sorted: Seq<(usize, char)>, x_tiles: int, y_tiles: int|
            #![trigger is_texture_size(30, (x_tiles, y_tiles)), sorts_letters(sorted, tile_letters_spec())]
            sorts_letters(sorted, tile_letters_spec()) && is_texture_size(30, (x_tiles, y_tiles))
                && forall|k: int|
                0 <= k < r@.len() ==> {
                    let (s1, t1, s2, t2) = tile_coordinates(k, x_tiles, y_tiles);
                    &&& #[trigger] r@[k].ch == sorted[k].1
                    &&& r@[k].s1 == s1
                    &&& r@[k].t1 == t1
                    &&& r@[k].s2 == s2
                    &&& r@[k].t2 == t2
                },
{
    let letters = tile_letters();
    proof {
        lemma_tile_letters_differ();
        lemma_byte_offset_bound(letters@, letters@.len() as int);
    }
    let sorted = sorted_letters(letters.as_slice());
    let (x_tiles, y_tiles) = get_texture_size();
    letter_table(sorted.as_slice(), x_tiles, y_tiles)
}

} // verus!
