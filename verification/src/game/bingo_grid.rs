use vstd::prelude::*;
use super::random;

verus! {

pub const GRID_WIDTH: usize = 5;
pub const GRID_HEIGHT: usize = 5;
pub const N_SPACES: usize = GRID_WIDTH * GRID_HEIGHT;
pub const N_INITIAL_SPACES_COVERED: usize = 8;
pub const N_INITIAL_SPACES_UNCOVERED: usize = N_SPACES - N_INITIAL_SPACES_COVERED;
// When generating the initial set of covered spaces, no space is covered in a
// row, column or diagonal that already has this many spaces covered.
pub const MAX_INITIAL_COVERED_SPACES_PER_LINE: usize = 2;

// ---------------------------------------------------------------------------
// Bit sets of spaces

/// Space `i` belongs to the bit set `x`.
pub open spec fn is_set(x: u32, i: int) -> bool {
    (x >> (i as u32)) & 1u32 == 1u32
}

/// Number of members of `x` below `n`.
pub open spec fn count_bits(x: u32, n: int) -> int
    decreases n,
{
    if n <= 0 {
        0
    } else {
        count_bits(x, n - 1) + if is_set(x, n - 1) { 1int } else { 0int }
    }
}

/// Every member of `x` is a space of the grid.
pub open spec fn within_grid(x: u32) -> bool {
    forall|i: int| 0 <= i < 32 && #[trigger] is_set(x, i) ==> i < N_SPACES
}

pub(crate) proof fn lemma_bit_or(x: u32, c: u32, i: u32)
    by (bit_vector)
    requires
        c < 32,
        i < 32,
    ensures
        ((x | (1u32 << c)) >> i) & 1u32 == 1u32 <==> ((x >> i) & 1u32 == 1u32 || i == c),
{
}

proof fn lemma_bit_clear(a: u32, m: u32, i: u32)
    by (bit_vector)
    requires
        i < 32,
    ensures
        ((a & !m) >> i) & 1u32 == 1u32 <==> ((a >> i) & 1u32 == 1u32 && !((m >> i) & 1u32 == 1u32)),
{
}

proof fn lemma_bit_and(a: u32, m: u32, i: u32)
    by (bit_vector)
    requires
        i < 32,
    ensures
        ((a & m) >> i) & 1u32 == 1u32 <==> ((a >> i) & 1u32 == 1u32 && (m >> i) & 1u32 == 1u32),
{
}

proof fn lemma_single_member(x: u32, c: u32)
    by (bit_vector)
    requires
        c < 32,
    ensures
        (x & (1u32 << c)) != 0u32 <==> (x >> c) & 1u32 == 1u32,
{
}

proof fn lemma_bit_single(c: u32, i: u32)
    by (bit_vector)
    requires
        c < 32,
        i < 32,
    ensures
        ((1u32 << c) >> i) & 1u32 == 1u32 <==> i == c,
{
}

pub(crate) proof fn lemma_bit_empty(i: u32)
    by (bit_vector)
    requires
        i < 32,
    ensures
        !((0u32 >> i) & 1u32 == 1u32),
{
}

proof fn lemma_bit_all_spaces(i: u32)
    by (bit_vector)
    requires
        i < 32,
    ensures
        (0x1ff_ffffu32 >> i) & 1u32 == 1u32 <==> i < 25,
{
}

proof fn lemma_bit_row_mask(r: u32, i: u32)
    by (bit_vector)
    requires
        r < 5,
        i < 32,
    ensures
        ((0x1fu32 << (r * 5)) >> i) & 1u32 == 1u32 <==> i / 5 == r,
{
}

proof fn lemma_bit_column_mask(c: u32, i: u32)
    by (bit_vector)
    requires
        c < 5,
        i < 32,
    ensures
        ((0x10_8421u32 << c) >> i) & 1u32 == 1u32 <==> (i < 25 && i % 5 == c),
{
}

proof fn lemma_bit_diagonal_a_mask(i: u32)
    by (bit_vector)
    requires
        i < 32,
    ensures
        (0x104_1041u32 >> i) & 1u32 == 1u32 <==> (i < 25 && i / 5 == i % 5),
{
}

proof fn lemma_bit_diagonal_b_mask(i: u32)
    by (bit_vector)
    requires
        i < 32,
    ensures
        (0x11_1110u32 >> i) & 1u32 == 1u32 <==> (i < 25 && i / 5 + i % 5 == 4),
{
}

proof fn lemma_shift_step(x: u32, i: u32)
    by (bit_vector)
    requires
        i < 32,
    ensures
        (x >> i) >> 1u32 == x >> (i + 1),
        ((x >> i) & 1u32 != 0u32) <==> ((x >> i) & 1u32 == 1u32),
{
}

/// Counting members below `n` is monotonic in `n`.
proof fn lemma_count_bits_monotonic(x: u32, a: int, b: int)
    requires
        a <= b,
    ensures
        count_bits(x, a) <= count_bits(x, b),
    decreases b - a,
{
    if a < b {
        lemma_count_bits_monotonic(x, a, b - 1);
    }
}

/// A set with a member below `n` has at least one member below `n`.
proof fn lemma_count_bits_member(x: u32, c: int, n: int)
    requires
        0 <= c < n,
        is_set(x, c),
    ensures
        count_bits(x, n) >= count_bits(x, c) + 1,
{
    lemma_count_bits_monotonic(x, c + 1, n);
}

/// Adding a new member `c` to a set adds one to the count of members below any `n > c`.
pub(crate) proof fn lemma_count_bits_add(x: u32, c: u32, n: int)
    requires
        c < 32,
        0 <= n <= 32,
        !is_set(x, c as int),
    ensures
        count_bits(x | (1u32 << c), n) == count_bits(x, n) + if (c as int) < n { 1int } else { 0int },
    decreases n,
{
    if n > 0 {
        lemma_count_bits_add(x, c, n - 1);
        lemma_bit_or(x, c, (n - 1) as u32);
    }
}

/// No set has more members below `n` than `n`; a set within the grid has no
/// members from the grid's end on.
proof fn lemma_count_bits_bound(x: u32, n: int)
    requires
        0 <= n <= 32,
        within_grid(x),
    ensures
        count_bits(x, n) <= if n < N_SPACES { n } else { N_SPACES as int },
    decreases n,
{
    if n > 0 {
        lemma_count_bits_bound(x, n - 1);
    }
}

/// A non-empty set has a member.
pub(crate) proof fn lemma_count_bits_positive(x: u32, n: int)
    requires
        0 <= n <= 32,
        forall|i: int| 0 <= i < n ==> !#[trigger] is_set(x, i),
    ensures
        count_bits(x, n) == 0,
    decreases n,
{
    if n > 0 {
        lemma_count_bits_positive(x, n - 1);
    }
}

/// The number of members of `x`.
pub(crate) fn count_ones(x: u32) -> (r: u32)
    ensures
        r == count_bits(x, 32),
        r <= 32,
{
    let mut count: u32 = 0;
    let mut i: u32 = 0;
    while i < 32
        invariant
            i <= 32,
            count == count_bits(x, i as int),
            count <= i,
        decreases 32 - i,
    {
        if (x >> i) & 1 == 1 {
            count = count + 1;
        }
        i = i + 1;
    }
    count
}

/// Position of the member of `bits` that has exactly `n` members below it.
pub open spec fn nth_member(bits: u32, n: int) -> int {
    choose|c: int| 0 <= c < 32 && is_set(bits, c) && count_bits(bits, c) == n
}

proof fn lemma_nth_member_unique(bits: u32, n: int, c: int)
    requires
        0 <= c < 32,
        is_set(bits, c),
        count_bits(bits, c) == n,
    ensures
        nth_member(bits, n) == c,
{
    let d = nth_member(bits, n);
    assert(0 <= d < 32 && is_set(bits, d) && count_bits(bits, d) == n);
    if d < c {
        lemma_count_bits_member(bits, d, c);
    } else if c < d {
        lemma_count_bits_member(bits, c, d);
    }
}

fn pick_nth_one_bit(bits: u32, n: u32) -> (r: u32)
    requires
        n < count_bits(bits, 32),
    ensures
        r < 32,
        is_set(bits, r as int),
        count_bits(bits, r as int) == n,
        r == nth_member(bits, n as int),
{
    let mut rest = bits;
    let mut remaining = n;
    let mut i: u32 = 0;
    assert(bits >> 0u32 == bits) by (bit_vector);
    while i < 32
        invariant
            i <= 32,
            rest == bits >> i,
            remaining + count_bits(bits, i as int) == n,
            n < count_bits(bits, 32),
        decreases 32 - i,
    {
        proof {
            lemma_shift_step(bits, i);
        }
        if rest & 1 != 0 {
            if remaining == 0 {
                proof {
                    lemma_nth_member_unique(bits, n as int, i as int);
                }
                return i;
            }
            remaining = remaining - 1;
        }
        rest = rest >> 1;
        i = i + 1;
    }
    proof {
        assert(false);
    }
    32
}

// ---------------------------------------------------------------------------
// Lines of the grid

#[derive(PartialEq, Eq, Structural, Copy, Clone, Debug)]
pub enum Bingo {
    Row(u8),
    Column(u8),
    DiagonalA,
    DiagonalB,
}

/// The line lies on the grid.
pub open spec fn valid_line(line: Bingo) -> bool {
    match line {
        Bingo::Row(r) => r < GRID_HEIGHT,
        Bingo::Column(c) => c < GRID_WIDTH,
        _ => true,
    }
}

/// The space of the line that holds the line's `k`-th letter.
pub open spec fn line_cell(line: Bingo, k: int) -> int {
    match line {
        Bingo::Row(r) => 5 * r + k,
        Bingo::Column(c) => 5 * k + c,
        Bingo::DiagonalA => 6 * k,
        Bingo::DiagonalB => 20 - 4 * k,
    }
}

/// Space `space` lies on `line`.
pub open spec fn on_line(line: Bingo, space: int) -> bool {
    match line {
        Bingo::Row(r) => space / 5 == r,
        Bingo::Column(c) => space % 5 == c,
        Bingo::DiagonalA => space / 5 == space % 5,
        Bingo::DiagonalB => space / 5 + space % 5 == 4,
    }
}

/// Number of members of `x` on the line.
pub open spec fn line_count(x: u32, line: Bingo) -> int {
    (if is_set(x, line_cell(line, 0)) { 1int } else { 0int })
    + (if is_set(x, line_cell(line, 1)) { 1int } else { 0int })
    + (if is_set(x, line_cell(line, 2)) { 1int } else { 0int })
    + (if is_set(x, line_cell(line, 3)) { 1int } else { 0int })
    + (if is_set(x, line_cell(line, 4)) { 1int } else { 0int })
}

/// Every space of the line belongs to `x`.
pub open spec fn line_full(x: u32, line: Bingo) -> bool {
    &&& is_set(x, line_cell(line, 0))
    &&& is_set(x, line_cell(line, 1))
    &&& is_set(x, line_cell(line, 2))
    &&& is_set(x, line_cell(line, 3))
    &&& is_set(x, line_cell(line, 4))
}

/// What `letter_index_for_space` returns.
pub open spec fn letter_index_spec(line: Bingo, space: u8) -> Option<u8> {
    let x = space % 5;
    let y = space / 5;
    match line {
        Bingo::Row(row) => if row == y { Some(x) } else { None },
        Bingo::Column(column) => if column == x { Some(y) } else { None },
        Bingo::DiagonalA => if x == y { Some(x) } else { None },
        Bingo::DiagonalB => if x == 4 - y { Some(x) } else { None },
    }
}

impl Bingo {
    /// Which letter of the word BINGO the space shows when this line is a bingo.
    pub fn letter_index_for_space(self, space: u8) -> (r: Option<u8>)
        requires
            self is DiagonalB ==> space < N_SPACES,
        ensures
            r == letter_index_spec(self, space),
    {
        let x = space % GRID_WIDTH as u8;
        let y = space / GRID_WIDTH as u8;

        match self {
            Bingo::Row(row) => {
                if row == y {
                    Some(x)
                } else {
                    None
                }
            },
            Bingo::Column(column) => {
                if column == x {
                    Some(y)
                } else {
                    None
                }
            },
            Bingo::DiagonalA => {
                if x == y {
                    Some(x)
                } else {
                    None
                }
            },
            Bingo::DiagonalB => {
                if x == GRID_HEIGHT as u8 - 1 - y {
                    Some(x)
                } else {
                    None
                }
            },
        }
    }
}

/// On a line of the grid, the letter index of a space is `k` exactly when the
/// space is the line's `k`-th space, and it is `None` for spaces off the line.
pub proof fn lemma_letter_index_matches_line_cell(line: Bingo, space: u8)
    requires
        valid_line(line),
        space < N_SPACES,
    ensures
        match letter_index_spec(line, space) {
            Some(k) => k < 5 && line_cell(line, k as int) == space,
            None => forall|k: int| 0 <= k < 5 ==> line_cell(line, k) != space,
        },
        letter_index_spec(line, space) is Some <==> on_line(line, space as int),
{
}

// ---------------------------------------------------------------------------
// Masks of the lines

fn mask_for_row(row: u32) -> (m: u32)
    requires
        row < GRID_HEIGHT,
    ensures
        m == 0x1fu32 << (row * 5),
{
    assert((1u32 << 5u32) - 1 == 0x1fu32) by (bit_vector);
    ((1u32 << GRID_WIDTH as u32) - 1) << (row * GRID_WIDTH as u32)
}

spec fn column_partial(n: int) -> u32 {
    if n <= 0 {
        0u32
    } else if n == 1 {
        0x1u32
    } else if n == 2 {
        0x21u32
    } else if n == 3 {
        0x421u32
    } else if n == 4 {
        0x8421u32
    } else {
        0x10_8421u32
    }
}

fn mask_for_column(column: u32) -> (m: u32)
    requires
        column < GRID_WIDTH,
    ensures
        m == 0x10_8421u32 << column,
{
    let mut m: u32 = 0;
    let mut y: u32 = 0;
    assert(0u32 << column == 0u32) by (bit_vector);
    while y < GRID_HEIGHT as u32
        invariant
            y <= 5,
            column < 5,
            m == column_partial(y as int) << column,
        decreases 5 - y,
    {
        assert((column_partial(y as int) << column) | (1u32 << (y * 5 + column)) == column_partial(
            y + 1,
        ) << column) by (bit_vector)
            requires
                y < 5,
                column < 5,
                column_partial(y as int) == (if y == 0 { 0u32 } else if y == 1 { 0x1u32 } else if y
                    == 2 { 0x21u32 } else if y == 3 { 0x421u32 } else { 0x8421u32 }),
                column_partial(y + 1) == (if y == 0 { 0x1u32 } else if y == 1 { 0x21u32 } else if y
                    == 2 { 0x421u32 } else if y == 3 { 0x8421u32 } else { 0x10_8421u32 }),
        ;
        m = m | (1 << (y * GRID_WIDTH as u32 + column));
        y = y + 1;
    }
    m
}

spec fn diagonal_a_partial(n: int) -> u32 {
    if n <= 0 {
        0u32
    } else if n == 1 {
        0x1u32
    } else if n == 2 {
        0x41u32
    } else if n == 3 {
        0x1041u32
    } else if n == 4 {
        0x4_1041u32
    } else {
        0x104_1041u32
    }
}

fn mask_for_diagonal_a() -> (m: u32)
    ensures
        m == 0x104_1041u32,
{
    let mut m: u32 = 0;
    let mut i: u32 = 0;
    while i < GRID_WIDTH as u32
        invariant
            i <= 5,
            m == diagonal_a_partial(i as int),
        decreases 5 - i,
    {
        assert(diagonal_a_partial(i as int) | (1u32 << (i * 5 + i)) == diagonal_a_partial(i + 1))
            by (bit_vector)
            requires
                i < 5,
                diagonal_a_partial(i as int) == (if i == 0 { 0u32 } else if i == 1 { 0x1u32 } else if i
                    == 2 { 0x41u32 } else if i == 3 { 0x1041u32 } else { 0x4_1041u32 }),
                diagonal_a_partial(i + 1) == (if i == 0 { 0x1u32 } else if i == 1 { 0x41u32 } else if i
                    == 2 { 0x1041u32 } else if i == 3 { 0x4_1041u32 } else { 0x104_1041u32 }),
        ;
        m = m | (1u32 << ((i * GRID_WIDTH as u32) + i));
        i = i + 1;
    }
    m
}

spec fn diagonal_b_partial(n: int) -> u32 {
    if n <= 0 {
        0u32
    } else if n == 1 {
        0x10u32
    } else if n == 2 {
        0x110u32
    } else if n == 3 {
        0x1110u32
    } else if n == 4 {
        0x1_1110u32
    } else {
        0x11_1110u32
    }
}

fn mask_for_diagonal_b() -> (m: u32)
    ensures
        m == 0x11_1110u32,
{
    let mut m: u32 = 0;
    let mut i: u32 = 0;
    while i < GRID_WIDTH as u32
        invariant
            i <= 5,
            m == diagonal_b_partial(i as int),
        decreases 5 - i,
    {
        assert(diagonal_b_partial(i as int) | (1u32 << (i * 4 + 4)) == diagonal_b_partial(
            i + 1,
        )) by (bit_vector)
            requires
                i < 5,
                diagonal_b_partial(i as int) == (if i == 0 { 0u32 } else if i == 1 { 0x10u32 } else if i
                    == 2 { 0x110u32 } else if i == 3 { 0x1110u32 } else { 0x1_1110u32 }),
                diagonal_b_partial(i + 1) == (if i == 0 { 0x10u32 } else if i == 1 { 0x110u32 } else if i
                    == 2 { 0x1110u32 } else if i == 3 { 0x1_1110u32 } else { 0x11_1110u32 }),
        ;
        m = m | (1u32 << ((i * GRID_WIDTH as u32) + GRID_WIDTH as u32 - 1 - i));
        i = i + 1;
    }
    m
}

/// The mask of a line of the grid.
pub open spec fn line_mask(line: Bingo) -> u32 {
    match line {
        Bingo::Row(r) => 0x1fu32 << ((r as u32) * 5),
        Bingo::Column(c) => 0x10_8421u32 << (c as u32),
        Bingo::DiagonalA => 0x104_1041u32,
        Bingo::DiagonalB => 0x11_1110u32,
    }
}

/// A member of a line's mask is exactly a space of the grid on the line.
proof fn lemma_line_mask_bit(line: Bingo, i: int)
    requires
        valid_line(line),
        0 <= i < 32,
    ensures
        is_set(line_mask(line), i) <==> (i < N_SPACES && on_line(line, i)),
{
    match line {
        Bingo::Row(r) => lemma_bit_row_mask(r as u32, i as u32),
        Bingo::Column(c) => lemma_bit_column_mask(c as u32, i as u32),
        Bingo::DiagonalA => lemma_bit_diagonal_a_mask(i as u32),
        Bingo::DiagonalB => lemma_bit_diagonal_b_mask(i as u32),
    }
}

proof fn lemma_row_full(x: u32, r: u32)
    by (bit_vector)
    requires
        r < 5,
    ensures
        (x & (0x1fu32 << (r * 5))) == (0x1fu32 << (r * 5)) <==> (
            (x >> (r * 5)) & 1u32 == 1u32
            && (x >> (r * 5 + 1)) & 1u32 == 1u32
            && (x >> (r * 5 + 2)) & 1u32 == 1u32
            && (x >> (r * 5 + 3)) & 1u32 == 1u32
            && (x >> (r * 5 + 4)) & 1u32 == 1u32),
{
}

proof fn lemma_column_full(x: u32, c: u32)
    by (bit_vector)
    requires
        c < 5,
    ensures
        (x & (0x10_8421u32 << c)) == (0x10_8421u32 << c) <==> (
            (x >> c) & 1u32 == 1u32
            && (x >> (c + 5)) & 1u32 == 1u32
            && (x >> (c + 10)) & 1u32 == 1u32
            && (x >> (c + 15)) & 1u32 == 1u32
            && (x >> (c + 20)) & 1u32 == 1u32),
{
}

proof fn lemma_diagonals_full(x: u32)
    by (bit_vector)
    ensures
        (x & 0x104_1041u32) == 0x104_1041u32 <==> (
            (x >> 0u32) & 1u32 == 1u32
            && (x >> 6u32) & 1u32 == 1u32
            && (x >> 12u32) & 1u32 == 1u32
            && (x >> 18u32) & 1u32 == 1u32
            && (x >> 24u32) & 1u32 == 1u32),
        (x & 0x11_1110u32) == 0x11_1110u32 <==> (
            (x >> 20u32) & 1u32 == 1u32
            && (x >> 16u32) & 1u32 == 1u32
            && (x >> 12u32) & 1u32 == 1u32
            && (x >> 8u32) & 1u32 == 1u32
            && (x >> 4u32) & 1u32 == 1u32),
{
}

/// A line is full exactly when its mask is contained in the set.
proof fn lemma_line_full_mask(x: u32, line: Bingo)
    requires
        valid_line(line),
    ensures
        (x & line_mask(line) == line_mask(line)) <==> line_full(x, line),
{
    match line {
        Bingo::Row(r) => lemma_row_full(x, r as u32),
        Bingo::Column(c) => lemma_column_full(x, c as u32),
        _ => lemma_diagonals_full(x),
    }
}

/// The line that covering space `index` completes, checking the row, the
/// column and then the two diagonals.
pub open spec fn bingo_for(x: u32, index: int) -> Option<Bingo> {
    let row = index / 5;
    let column = index % 5;
    if line_full(x, Bingo::Row(row as u8)) {
        Some(Bingo::Row(row as u8))
    } else if line_full(x, Bingo::Column(column as u8)) {
        Some(Bingo::Column(column as u8))
    } else if row == column && line_full(x, Bingo::DiagonalA) {
        Some(Bingo::DiagonalA)
    } else if 4 - row == column && line_full(x, Bingo::DiagonalB) {
        Some(Bingo::DiagonalB)
    } else {
        None
    }
}

/// The line reported for a covered space is a full line of the grid through
/// that space, and no line is reported only when no line through the space is full.
pub proof fn lemma_bingo_for_is_a_full_line(x: u32, index: int)
    requires
        0 <= index < N_SPACES,
    ensures
        match bingo_for(x, index) {
            Some(line) => valid_line(line) && on_line(line, index) && line_full(x, line),
            None => forall|line: Bingo|
                valid_line(line) && on_line(line, index) ==> !#[trigger] line_full(x, line),
        },
{
    assert forall|line: Bingo| valid_line(line) && on_line(line, index) implies (line == Bingo::Row(
        (index / 5) as u8,
    ) || line == Bingo::Column((index % 5) as u8) || (line == Bingo::DiagonalA && index / 5
        == index % 5) || (line == Bingo::DiagonalB && 4 - index / 5 == index % 5)) by {}
}

// ---------------------------------------------------------------------------
// The grid

pub struct Space {
    pub ball: u8,
    pub covered: bool,
}

/// The state of a grid as a mathematical value.
pub struct GridView {
    pub spaces_covered: u32,
    pub spaces: Seq<u8>,
    pub initial_uncovered_space_map: Seq<u8>,
    pub bingo: Option<Bingo>,
}

pub struct BingoGrid {
    spaces_covered: u32,
    spaces: [u8; 25],
    // Mapping from initial uncovered space index to space index
    initial_uncovered_space_map: [u8; 17],
    bingo: Option<Bingo>,
}

impl View for BingoGrid {
    type V = GridView;

    closed spec fn view(&self) -> GridView {
        GridView {
            spaces_covered: self.spaces_covered,
            spaces: self.spaces@,
            initial_uncovered_space_map: self.initial_uncovered_space_map@,
            bingo: self.bingo,
        }
    }
}

/// A valid starting pattern: exactly `N_INITIAL_SPACES_COVERED` spaces of the
/// grid, with no row, column or diagonal holding more than
/// `MAX_INITIAL_COVERED_SPACES_PER_LINE` of them.
pub open spec fn valid_initial_pattern(x: u32) -> bool {
    &&& within_grid(x)
    &&& count_bits(x, 32) == N_INITIAL_SPACES_COVERED
    &&& forall|line: Bingo| valid_line(line) ==> #[trigger] line_count(x, line)
        <= MAX_INITIAL_COVERED_SPACES_PER_LINE
}

/// `map` lists the spaces outside `x`, in increasing order.
pub open spec fn lists_uncovered_spaces(x: u32, map: Seq<u8>) -> bool {
    &&& map.len() == N_INITIAL_SPACES_UNCOVERED
    &&& forall|k: int|
        0 <= k < N_INITIAL_SPACES_UNCOVERED ==> {
            &&& #[trigger] map[k] < N_SPACES
            &&& !is_set(x, map[k] as int)
            &&& map[k] - count_bits(x, map[k] as int) == k
        }
}

/// The balls of a new grid: ball `i` on space `i`.
pub open spec fn numbered_balls() -> Seq<u8> {
    Seq::new(25, |i: int| i as u8)
}

/// The spaces hold the balls 0 to 24, each exactly once, in some order.
pub open spec fn each_ball_once(spaces: Seq<u8>) -> bool {
    spaces.to_multiset() == numbered_balls().to_multiset()
}

impl BingoGrid {
    pub fn new() -> (g: BingoGrid)
        ensures
            each_ball_once(g@.spaces),
            g@.spaces_covered == 0,
            forall|i: int| 0 <= i < N_SPACES ==> #[trigger] g@.spaces[i] == i,
            g@.spaces.len() == N_SPACES,
            g@.initial_uncovered_space_map == Seq::new(17, |k: int| 0u8),
            g@.bingo is None,
    {
        let mut spaces = [0u8; 25];
        let mut space_num: usize = 0;
        while space_num < N_SPACES
            invariant
                space_num <= N_SPACES,
                forall|i: int| 0 <= i < space_num ==> #[trigger] spaces@[i] == i,
            decreases N_SPACES - space_num,
        {
            spaces[space_num] = space_num as u8;
            space_num = space_num + 1;
        }
        let map = [0u8; 17];
        assert(map@ =~= Seq::new(17, |k: int| 0u8));
        assert(spaces@ =~= numbered_balls());
        BingoGrid { spaces_covered: 0, spaces, initial_uncovered_space_map: map, bingo: None }
    }

    /// Shuffles the balls, picks a new starting pattern of covered spaces and
    /// clears the bingo.
    pub fn reset(&mut self)
        ensures
            exists|draws: Seq<usize>|
                random::valid_draws(draws, N_SPACES as int) && final(self)@.spaces
                    == #[trigger] random::fisher_yates(old(self)@.spaces, draws),
            final(self)@.spaces.to_multiset() == old(self)@.spaces.to_multiset(),
            each_ball_once(old(self)@.spaces) ==> each_ball_once(final(self)@.spaces),
            valid_initial_pattern(final(self)@.spaces_covered),
            lists_uncovered_spaces(
                final(self)@.spaces_covered,
                final(self)@.initial_uncovered_space_map,
            ),
            final(self)@.bingo is None,
    {
        let ghost before = self.spaces@;
        random::shuffle(&mut self.spaces);
        let ghost draws = choose|d: Seq<usize>|
            random::valid_draws(d, before.len() as int) && self.spaces@ == random::fisher_yates(
                before,
                d,
            );
        self.bingo = None;
        self.spaces_covered = generate_initial_spaces_covered();
        self.initial_uncovered_space_map = uncovered_space_map(self.spaces_covered);
        assert(self@.spaces == random::fisher_yates(old(self)@.spaces, draws));
    }

    pub fn spaces(&self) -> (it: SpaceIter)
        ensures
            it.index == 0,
            it.spaces@ == self@.spaces,
            it.spaces_covered == self@.spaces_covered,
    {
        SpaceIter { spaces: self.spaces, spaces_covered: self.spaces_covered, index: 0 }
    }

    pub fn space(&self, index: usize) -> (s: Space)
        requires
            index < N_SPACES,
        ensures
            s == space_at(self@.spaces, self@.spaces_covered, index as int),
    {
        let sc = self.spaces_covered;
        let covered = sc & (1u32 << index as u32) != 0;
        proof {
            lemma_single_member(sc, index as u32);
        }
        Space { ball: self.spaces[index], covered }
    }

    pub fn space_for_initial_uncovered_space_index(&self, index: usize) -> (s: usize)
        requires
            index < N_INITIAL_SPACES_UNCOVERED,
        ensures
            s == self@.initial_uncovered_space_map[index as int],
    {
        self.initial_uncovered_space_map[index] as usize
    }

    /// Covers the space and reports the line it completes, if any. A completed
    /// line is also remembered as the grid's bingo.
    pub fn cover_space(&mut self, index: usize) -> (r: Option<Bingo>)
        requires
            index < N_SPACES,
        ensures
            final(self)@.spaces_covered == old(self)@.spaces_covered | (1u32 << index as u32),
            r == bingo_for(final(self)@.spaces_covered, index as int),
            final(self)@.bingo == (if r is Some { r } else { old(self)@.bingo }),
            final(self)@.spaces == old(self)@.spaces,
            each_ball_once(old(self)@.spaces) ==> each_ball_once(final(self)@.spaces),
            final(self)@.initial_uncovered_space_map == old(self)@.initial_uncovered_space_map,
    {
        self.spaces_covered = self.spaces_covered | (1u32 << index as u32);

        let bingo = self.bingo_for_covered_space(index);

        if bingo.is_some() {
            self.bingo = bingo;
        }

        bingo
    }

    pub fn bingo(&self) -> (r: Option<Bingo>)
        ensures
            r == self@.bingo,
    {
        self.bingo
    }

    fn bingo_for_covered_space(&self, index: usize) -> (r: Option<Bingo>)
        requires
            index < N_SPACES,
        ensures
            r == bingo_for(self.spaces_covered, index as int),
    {
        let column = (index % GRID_WIDTH) as u32;
        let row = (index / GRID_WIDTH) as u32;
        proof {
            lemma_line_full_mask(self.spaces_covered, Bingo::Row(row as u8));
            lemma_line_full_mask(self.spaces_covered, Bingo::Column(column as u8));
            lemma_line_full_mask(self.spaces_covered, Bingo::DiagonalA);
            lemma_line_full_mask(self.spaces_covered, Bingo::DiagonalB);
        }

        if self.is_bingo_for_mask(mask_for_row(row)) {
            Some(Bingo::Row(row as u8))
        } else if self.is_bingo_for_mask(mask_for_column(column)) {
            Some(Bingo::Column(column as u8))
        } else if row == column && self.is_bingo_for_mask(mask_for_diagonal_a()) {
            Some(Bingo::DiagonalA)
        } else if GRID_HEIGHT as u32 - 1 - row == column && self.is_bingo_for_mask(
            mask_for_diagonal_b(),
        ) {
            Some(Bingo::DiagonalB)
        } else {
            None
        }
    }

    fn is_bingo_for_mask(&self, mask: u32) -> (r: bool)
        ensures
            r == (self.spaces_covered & mask == mask),
    {
        self.spaces_covered & mask == mask
    }
}

/// Number of spaces below `n` outside `x`.
pub open spec fn rank(x: u32, n: int) -> int {
    n - count_bits(x, n)
}

proof fn lemma_rank_nonnegative(x: u32, n: int)
    requires
        0 <= n,
    ensures
        rank(x, n) >= 0,
    decreases n,
{
    if n > 0 {
        lemma_rank_nonnegative(x, n - 1);
    }
}

proof fn lemma_rank_monotonic(x: u32, a: int, b: int)
    requires
        0 <= a <= b,
    ensures
        rank(x, a) <= rank(x, b),
    decreases b - a,
{
    if a < b {
        lemma_rank_monotonic(x, a, b - 1);
    }
}

/// Distinct spaces outside `x` have distinct ranks.
proof fn lemma_rank_strict(x: u32, s: int, i: int)
    requires
        0 <= s < i,
        !is_set(x, s),
    ensures
        rank(x, i) > rank(x, s),
{
    lemma_rank_monotonic(x, s + 1, i);
}

/// Every rank below `rank(x, s)` is the rank of some space below `s` outside `x`.
proof fn lemma_rank_reached(x: u32, s: int, r: int)
    requires
        0 <= s,
        0 <= r < rank(x, s),
    ensures
        exists|j: int| 0 <= j < s && !is_set(x, j) && rank(x, j) == r,
    decreases s,
{
    assert(s > 0);
    if rank(x, s - 1) > r {
        lemma_rank_reached(x, s - 1, r);
        let j = choose|j: int| 0 <= j < s - 1 && !is_set(x, j) && rank(x, j) == r;
        assert(0 <= j < s && !is_set(x, j) && rank(x, j) == r);
    } else {
        assert(!is_set(x, s - 1) && rank(x, s - 1) == r);
    }
}

proof fn lemma_count_bits_tail(x: u32, n: int)
    requires
        25 <= n <= 32,
        within_grid(x),
    ensures
        count_bits(x, n) == count_bits(x, 25),
    decreases n,
{
    if n > 25 {
        lemma_count_bits_tail(x, n - 1);
        assert(!is_set(x, n - 1));
    }
}

/// The spaces outside `covered`, in increasing order.
fn uncovered_space_map(covered: u32) -> (map: [u8; 17])
    requires
        valid_initial_pattern(covered),
    ensures
        lists_uncovered_spaces(covered, map@),
{
    let mut map = [0u8; 17];
    let all: u32 = 0x1ff_ffff;
    let mut spaces_uncovered = !covered & all;
    let mut index: usize = 0;
    proof {
        lemma_count_bits_tail(covered, 32);
        assert(rank(covered, 25) == 17);
        assert(!covered & all == all & !covered) by (bit_vector);
        assert forall|i: int| 0 <= i < 32 implies #[trigger] is_set(spaces_uncovered, i) <==> (i
            < N_SPACES && !is_set(covered, i) && rank(covered, i) >= 0) by {
            lemma_bit_clear(all, covered, i as u32);
            lemma_bit_all_spaces(i as u32);
            lemma_rank_nonnegative(covered, i);
        }
    }
    while index < N_INITIAL_SPACES_UNCOVERED
        invariant
            index <= N_INITIAL_SPACES_UNCOVERED,
            valid_initial_pattern(covered),
            rank(covered, 25) == 17,
            // the uncovered spaces not yet listed are the members of `spaces_uncovered`
            forall|i: int| 0 <= i < 32 ==> (#[trigger] is_set(spaces_uncovered, i) <==> (i
                < N_SPACES && !is_set(covered, i) && rank(covered, i) >= index)),
            forall|k: int|
                0 <= k < index ==> {
                    &&& #[trigger] map@[k] < N_SPACES
                    &&& !is_set(covered, map@[k] as int)
                    &&& map@[k] - count_bits(covered, map@[k] as int) == k
                },
        decreases N_INITIAL_SPACES_UNCOVERED - index,
    {
        let ghost rest = spaces_uncovered;
        proof {
            // the uncovered space of rank `index` is still to be listed
            lemma_rank_reached(covered, 25, index as int);
            let j = choose|j: int| 0 <= j < 25 && !is_set(covered, j) && rank(covered, j) == index;
            assert(is_set(rest, j));
            if rest == 0 {
                lemma_bit_empty(j as u32);
            }
        }
        let space = spaces_uncovered.trailing_zeros();
        proof {
            broadcast use vstd::std_specs::bits::axiom_u32_trailing_zeros;

            assert(space < 32);
            assert(is_set(rest, space as int));
            assert forall|i: int| 0 <= i < space implies !#[trigger] is_set(rest, i) by {
                assert((rest >> (i as u32)) & 1u32 == 0u32);
            }
            // the smallest remaining space has rank exactly `index`
            if rank(covered, space as int) > index {
                lemma_rank_reached(covered, space as int, index as int);
                let j = choose|j: int|
                    0 <= j < space && !is_set(covered, j) && rank(covered, j) == index;
                assert(is_set(rest, j));
            }
            assert(rank(covered, space as int) == index);
        }

        map[index] = space as u8;

        proof {
            assert forall|i: int| 0 <= i < 32 implies #[trigger] is_set(
                rest & !(1u32 << space),
                i,
            ) <==> (i < N_SPACES && !is_set(covered, i) && rank(covered, i) >= index + 1) by {
                lemma_bit_clear(rest, 1u32 << space, i as u32);
                lemma_bit_single(space, i as u32);
                assert(is_set(rest & !(1u32 << space), i) <==> (is_set(rest, i) && i != space));
                if !is_set(covered, i) && i != space {
                    if i < space {
                        lemma_rank_strict(covered, i, space as int);
                    } else {
                        lemma_rank_strict(covered, space as int, i);
                    }
                }
            }
        }
        spaces_uncovered = spaces_uncovered & !(1u32 << space);
        index = index + 1;
    }
    map
}

impl Default for BingoGrid {
    fn default() -> (g: BingoGrid)
        ensures
            g@.spaces_covered == 0,
            forall|i: int| 0 <= i < N_SPACES ==> #[trigger] g@.spaces[i] == i,
            g@.spaces.len() == N_SPACES,
            g@.bingo is None,
    {
        BingoGrid::new()
    }
}

/// The space at `index` of a grid with balls `spaces` and covered set `covered`.
pub open spec fn space_at(spaces: Seq<u8>, covered: u32, index: int) -> Space {
    Space { ball: spaces[index], covered: is_set(covered, index) }
}

pub struct SpaceIter {
    pub spaces: [u8; 25],
    pub spaces_covered: u32,
    pub index: usize,
}

/// The spaces the iterator has still to yield, in order.
pub open spec fn items_left(it: SpaceIter) -> Seq<Space> {
    Seq::new(
        if it.index < N_SPACES { (N_SPACES - it.index) as nat } else { 0 },
        |k: int| space_at(it.spaces@, it.spaces_covered, it.index + k),
    )
}

/// The iterator that `spaces()` starts from yields the grid's 25 spaces in
/// order, each the space that `space(i)` gives.
pub proof fn lemma_iterator_yields_each_space(g: GridView, it: SpaceIter)
    requires
        it.index == 0,
        it.spaces@ == g.spaces,
        it.spaces_covered == g.spaces_covered,
    ensures
        items_left(it).len() == N_SPACES,
        forall|i: int| 0 <= i < N_SPACES ==> #[trigger] items_left(it)[i] == space_at(
            g.spaces,
            g.spaces_covered,
            i,
        ),
{
}

/// A grid made by `new` and changed only by `reset` and `cover_space` holds
/// each ball once (`new` establishes it, the other two keep it), so its
/// iterator yields 25 spaces whose balls are 0 to 24, each once.
pub proof fn lemma_iterator_yields_each_ball_once(it: SpaceIter)
    requires
        it.index == 0,
        each_ball_once(it.spaces@),
    ensures
        items_left(it).len() == N_SPACES,
        items_left(it).map_values(|sp: Space| sp.ball).to_multiset()
            == numbered_balls().to_multiset(),
{
    assert(items_left(it).map_values(|sp: Space| sp.ball) =~= it.spaces@);
}

impl SpaceIter {
    pub fn next(&mut self) -> (r: Option<Space>)
        ensures
            r == (if items_left(*old(self)).len() > 0 {
                Some(items_left(*old(self))[0])
            } else {
                None::<Space>
            }),
            items_left(*final(self)) == (if items_left(*old(self)).len() > 0 {
                items_left(*old(self)).drop_first()
            } else {
                items_left(*old(self))
            }),
            old(self).index < N_SPACES ==> {
                &&& r matches Some(s) && s.ball == old(self).spaces@[old(self).index as int]
                    && s.covered == is_set(old(self).spaces_covered, old(self).index as int)
                &&& final(self).index == old(self).index + 1
            },
            old(self).index >= N_SPACES ==> r is None && final(self).index == old(self).index,
            final(self).spaces == old(self).spaces,
            final(self).spaces_covered == old(self).spaces_covered,
    {
        if self.index < N_SPACES {
            let index = self.index;
            let sc = self.spaces_covered;
            let covered = sc & (1u32 << index as u32) != 0;
            proof {
                lemma_single_member(sc, index as u32);
            }
            self.index = index + 1;
            assert(items_left(*self) =~= items_left(*old(self)).drop_first());
            Some(Space { ball: self.spaces[index], covered })
        } else {
            None
        }
    }
}

// ---------------------------------------------------------------------------
// Generating the starting pattern

/// Space `i` can be covered next: it is an uncovered space of the grid and no
/// line through it already holds `MAX_INITIAL_COVERED_SPACES_PER_LINE` covered
/// spaces.
pub open spec fn can_cover(covered: u32, i: int) -> bool {
    &&& 0 <= i < N_SPACES
    &&& !is_set(covered, i)
    &&& line_count(covered, Bingo::Row((i / 5) as u8)) < 2
    &&& line_count(covered, Bingo::Column((i % 5) as u8)) < 2
    &&& (i / 5 == i % 5 ==> line_count(covered, Bingo::DiagonalA) < 2)
    &&& (4 - i / 5 == i % 5 ==> line_count(covered, Bingo::DiagonalB) < 2)
}

/// The set `x` with space `i` added.
pub open spec fn with_space(x: u32, i: int) -> u32 {
    x | (1u32 << (i as u32))
}

/// `n` more spaces can be covered one after the other from `covered`, taking
/// them in increasing order from space `start` on.
pub open spec fn completable(covered: u32, n: nat, start: int) -> bool
    decreases n, 26 - start,
{
    if n == 0 {
        true
    } else if start < 0 || start >= 25 {
        false
    } else if can_cover(covered, start) && completable(
        with_space(covered, start),
        (n - 1) as nat,
        start + 1,
    ) {
        true
    } else {
        completable(covered, n, start + 1)
    }
}

/// Space `i` can be covered next and still leave `remaining - 1` more to cover
/// after it.
pub open spec fn keeps_completable(covered: u32, remaining: nat, i: int) -> bool {
    &&& remaining > 0
    &&& can_cover(covered, i)
    &&& completable(with_space(covered, i), (remaining - 1) as nat, 0)
}

/// Number of spaces still to cover.
pub open spec fn remaining_spaces(covered: u32) -> int {
    N_INITIAL_SPACES_COVERED - count_bits(covered, 32)
}

/// A generator's state: no line holds more than two covered spaces; while
/// spaces remain to be covered the pattern can still be completed; and the
/// available spaces are exactly those that keep it so.
pub open spec fn generator_ok(covered: u32, available: u32) -> bool {
    &&& within_grid(covered)
    &&& forall|line: Bingo| valid_line(line) ==> #[trigger] line_count(covered, line) <= 2
    &&& remaining_spaces(covered) >= 0
    &&& remaining_spaces(covered) > 0 ==> completable(covered, remaining_spaces(covered) as nat, 0)
    &&& forall|i: int|
        0 <= i < 32 ==> (#[trigger] is_set(available, i) <==> keeps_completable(
            covered,
            remaining_spaces(covered) as nat,
            i,
        ))
}

/// A covering that reaches `n` more spaces from `w` on also reaches them from
/// any earlier starting space.
proof fn lemma_completable_witness(covered: u32, n: nat, start: int, w: int)
    requires
        n > 0,
        0 <= start <= w < 25,
        can_cover(covered, w),
        completable(with_space(covered, w), (n - 1) as nat, w + 1),
    ensures
        completable(covered, n, start),
    decreases w - start,
{
    if start < w {
        lemma_completable_witness(covered, n, start + 1, w);
    }
}

/// A completable state has a first space to cover.
proof fn lemma_completable_first(covered: u32, n: nat, start: int) -> (w: int)
    requires
        n > 0,
        0 <= start,
        completable(covered, n, start),
    ensures
        start <= w < 25,
        can_cover(covered, w),
        completable(with_space(covered, w), (n - 1) as nat, w + 1),
    decreases 25 - start,
{
    if can_cover(covered, start) && completable(with_space(covered, start), (n - 1) as nat, start + 1) {
        start
    } else {
        lemma_completable_first(covered, n, start + 1)
    }
}

/// Starting from an earlier space leaves more ways to complete the pattern.
proof fn lemma_completable_earlier(covered: u32, n: nat, early: int, late: int)
    requires
        0 <= early <= late,
        completable(covered, n, late),
    ensures
        completable(covered, n, early),
{
    if n > 0 {
        let w = lemma_completable_first(covered, n, late);
        lemma_completable_witness(covered, n, early, w);
    }
}

/// Membership of a set with one more space.
proof fn lemma_add_member(x: u32, c: int)
    requires
        0 <= c < 32,
    ensures
        forall|i: int| 0 <= i < 32 ==> #[trigger] is_set(with_space(x, c), i) == (is_set(x, i) || i == c),
{
    assert forall|i: int| 0 <= i < 32 implies #[trigger] is_set(with_space(x, c), i) == (is_set(x, i)
        || i == c) by {
        lemma_bit_or(x, c as u32, i as u32);
    }
}

/// An empty grid can be given a full starting pattern, for example spaces
/// 0, 1, 5, 6, 13, 14, 17 and 19.
proof fn lemma_start_completable(s0: u32)
    requires
        forall|i: int| 0 <= i < 32 ==> !#[trigger] is_set(s0, i),
    ensures
        completable(s0, N_INITIAL_SPACES_COVERED as nat, 0),
{
    let s1 = with_space(s0, 0);
    let s2 = with_space(s1, 1);
    let s3 = with_space(s2, 5);
    let s4 = with_space(s3, 6);
    let s5 = with_space(s4, 13);
    let s6 = with_space(s5, 14);
    let s7 = with_space(s6, 17);
    let s8 = with_space(s7, 19);
    lemma_add_member(s0, 0);
    lemma_add_member(s1, 1);
    lemma_add_member(s2, 5);
    lemma_add_member(s3, 6);
    lemma_add_member(s4, 13);
    lemma_add_member(s5, 14);
    lemma_add_member(s6, 17);
    lemma_add_member(s7, 19);
    assert(completable(s8, 0, 20));
    lemma_completable_witness(s7, 1, 18, 19);
    lemma_completable_witness(s6, 2, 15, 17);
    lemma_completable_witness(s5, 3, 14, 14);
    lemma_completable_witness(s4, 4, 7, 13);
    lemma_completable_witness(s3, 5, 6, 6);
    lemma_completable_witness(s2, 6, 2, 5);
    lemma_completable_witness(s1, 7, 1, 1);
    lemma_completable_witness(s0, 8, 0, 0);
}

/// The lines through a space are its row, its column and the diagonals it lies on.
proof fn lemma_lines_through(i: int)
    requires
        0 <= i < N_SPACES,
    ensures
        forall|line: Bingo|
            valid_line(line) && #[trigger] on_line(line, i) ==> (line == Bingo::Row((i / 5) as u8)
                || line == Bingo::Column((i % 5) as u8) || (line == Bingo::DiagonalA && i / 5 == i
                % 5) || (line == Bingo::DiagonalB && 4 - i / 5 == i % 5)),
{
}

/// Whether space `i` can be covered next.
fn can_cover_now(covered: u32, i: u32) -> (r: bool)
    requires
        i < N_SPACES,
    ensures
        r == can_cover(covered, i as int),
{
    proof {
        lemma_single_member(covered, i);
    }
    if covered & (1u32 << i) != 0 {
        return false;
    }
    let row = i / 5;
    let column = i % 5;
    let row_mask = mask_for_row(row);
    proof {
        lemma_masked_count(covered, Bingo::Row(row as u8));
    }
    if count_ones(covered & row_mask) as usize >= MAX_INITIAL_COVERED_SPACES_PER_LINE {
        return false;
    }
    let column_mask = mask_for_column(column);
    proof {
        lemma_masked_count(covered, Bingo::Column(column as u8));
    }
    if count_ones(covered & column_mask) as usize >= MAX_INITIAL_COVERED_SPACES_PER_LINE {
        return false;
    }
    if row == column {
        let mask = mask_for_diagonal_a();
        proof {
            lemma_masked_count(covered, Bingo::DiagonalA);
        }
        if count_ones(covered & mask) as usize >= MAX_INITIAL_COVERED_SPACES_PER_LINE {
            return false;
        }
    }
    if 4 - row == column {
        let mask = mask_for_diagonal_b();
        proof {
            lemma_masked_count(covered, Bingo::DiagonalB);
        }
        if count_ones(covered & mask) as usize >= MAX_INITIAL_COVERED_SPACES_PER_LINE {
            return false;
        }
    }
    true
}

/// Whether `n` more spaces can be covered from `covered`, taking them in
/// increasing order from `start` on.
fn is_completable(covered: u32, n: u32, start: u32) -> (r: bool)
    requires
        start <= 25,
    ensures
        r == completable(covered, n as nat, start as int),
    decreases n,
{
    if n == 0 {
        return true;
    }
    let mut i: u32 = start;
    while i < 25
        invariant
            n > 0,
            start <= i <= 25,
            completable(covered, n as nat, start as int) == completable(covered, n as nat, i as int),
        decreases 25 - i,
    {
        if can_cover_now(covered, i) && is_completable(covered | (1u32 << i), n - 1, i + 1) {
            return true;
        }
        i = i + 1;
    }
    false
}

/// The spaces that can be covered next with `remaining - 1` more to follow.
fn next_choices(covered: u32, remaining: u32) -> (r: u32)
    ensures
        forall|i: int|
            0 <= i < 32 ==> (#[trigger] is_set(r, i) <==> keeps_completable(
                covered,
                remaining as nat,
                i,
            )),
{
    let mut choices: u32 = 0;
    proof {
        assert forall|j: int| 0 <= j < 32 implies !#[trigger] is_set(0u32, j) by {
            lemma_bit_empty(j as u32);
        }
    }
    if remaining == 0 {
        return choices;
    }
    let mut i: u32 = 0;
    while i < 25
        invariant
            remaining > 0,
            i <= 25,
            forall|j: int|
                0 <= j < 32 ==> (#[trigger] is_set(choices, j) <==> (j < i && keeps_completable(
                    covered,
                    remaining as nat,
                    j,
                ))),
        decreases 25 - i,
    {
        if can_cover_now(covered, i) && is_completable(covered | (1u32 << i), remaining - 1, 0) {
            proof {
                lemma_add_member(choices, i as int);
            }
            let ghost old_choices = choices;
            choices = choices | (1u32 << i);
            assert(choices == with_space(old_choices, i as int));
        }
        i = i + 1;
    }
    choices
}

#[derive(Clone, PartialEq, Eq, Hash, Debug)]
pub struct CoveredSpacesGenerator {
    spaces_covered: u32,
    available: u32,
}

impl CoveredSpacesGenerator {
    pub closed spec fn covered_spec(&self) -> u32 {
        self.spaces_covered
    }

    pub closed spec fn available_spec(&self) -> u32 {
        self.available
    }

    /// A generator with nothing covered yet.
    pub fn new() -> (g: CoveredSpacesGenerator)
        ensures
            g.covered_spec() == 0,
            count_bits(g.covered_spec(), 32) == 0,
            generator_ok(g.covered_spec(), g.available_spec()),
    {
        proof {
            assert forall|i: int| 0 <= i < 32 implies !#[trigger] is_set(0u32, i) by {
                lemma_bit_empty(i as u32);
            }
            lemma_start_completable(0u32);
            lemma_count_bits_positive(0u32, 32);
        }
        let available = next_choices(0, N_INITIAL_SPACES_COVERED as u32);
        CoveredSpacesGenerator { spaces_covered: 0, available }
    }

    pub fn spaces_covered(&self) -> (r: u32)
        ensures
            r == self.covered_spec(),
    {
        self.spaces_covered
    }

    pub fn available(&self) -> (r: u32)
        ensures
            r == self.available_spec(),
    {
        self.available
    }

    /// The number of spaces still available: random numbers for the next step
    /// are drawn below it.
    pub fn next_random_number_range(&self) -> (n: usize)
        requires
            generator_ok(self.covered_spec(), self.available_spec()),
        ensures
            n == count_bits(self.available_spec(), 32),
            n <= N_SPACES,
            remaining_spaces(self.covered_spec()) > 0 ==> n > 0,
    {
        proof {
            lemma_available_within_grid(self.spaces_covered, self.available);
            lemma_count_bits_bound(self.available, 32);
            if remaining_spaces(self.spaces_covered) > 0 {
                lemma_generator_never_runs_out(self.spaces_covered, self.available);
            }
        }
        count_ones(self.available) as usize
    }

    /// Covers the available space with `random_number` available spaces below
    /// it, then makes available the spaces that keep the pattern completable.
    pub fn cover_next_space(&mut self, random_number: usize)
        requires
            generator_ok(old(self).covered_spec(), old(self).available_spec()),
            remaining_spaces(old(self).covered_spec()) > 0,
            random_number < count_bits(old(self).available_spec(), 32),
        ensures
            ({
                let c = nth_member(old(self).available_spec(), random_number as int);
                &&& 0 <= c < N_SPACES
                &&& is_set(old(self).available_spec(), c)
                &&& final(self).covered_spec() == old(self).covered_spec() | (1u32 << (c as u32))
            }),
            generator_ok(final(self).covered_spec(), final(self).available_spec()),
            count_bits(final(self).covered_spec(), 32) == count_bits(old(self).covered_spec(), 32)
                + 1,
    {
        let ghost old_covered = self.spaces_covered;
        let ghost old_available = self.available;
        let ghost remaining = remaining_spaces(old_covered);
        proof {
            lemma_available_within_grid(old_covered, old_available);
            lemma_count_bits_bound(old_available, 32);
        }
        let chosen = pick_nth_one_bit(self.available, random_number as u32);
        assert(is_set(old_available, chosen as int));
        assert(keeps_completable(old_covered, remaining as nat, chosen as int));
        proof {
            lemma_count_bits_add(old_covered, chosen, 32);
            lemma_nth_member_unique(old_available, random_number as int, chosen as int);
        }
        self.spaces_covered = self.spaces_covered | (1u32 << chosen);
        let ghost x = self.spaces_covered;
        proof {
            lemma_add_member(old_covered, chosen as int);
            lemma_line_counts_after_cover(old_covered, x, chosen as int);
            lemma_lines_through(chosen as int);
            assert forall|line: Bingo| valid_line(line) implies #[trigger] line_count(x, line)
                <= 2 by {
                if on_line(line, chosen as int) {
                    assert(line_count(old_covered, line) < 2);
                } else {
                    assert(line_count(old_covered, line) <= 2);
                }
            }
        }
        let left = N_INITIAL_SPACES_COVERED as u32 - count_ones(self.spaces_covered);
        self.available = next_choices(self.spaces_covered, left);
    }
}

/// Available spaces are spaces of the grid.
proof fn lemma_available_within_grid(covered: u32, available: u32)
    requires
        generator_ok(covered, available),
    ensures
        within_grid(available),
{
}

/// While spaces remain to be covered, some space is available.
pub proof fn lemma_generator_never_runs_out(covered: u32, available: u32)
    requires
        generator_ok(covered, available),
        remaining_spaces(covered) > 0,
    ensures
        count_bits(available, 32) > 0,
{
    let n = remaining_spaces(covered) as nat;
    let w = lemma_completable_first(covered, n, 0);
    lemma_completable_earlier(with_space(covered, w), (n - 1) as nat, 0, w + 1);
    assert(is_set(available, w));
    lemma_count_bits_member(available, w, 32);
    lemma_count_bits_nonnegative(available, w);
}

/// A generator made by `new` and given fewer than `N_INITIAL_SPACES_COVERED`
/// spaces by `cover_next_space` (`new` establishes `generator_ok` with no
/// space covered, and each call keeps it and covers one more) always has
/// between 1 and 25 spaces to draw from.
pub proof fn lemma_next_range_positive(g: CoveredSpacesGenerator)
    requires
        generator_ok(g.covered_spec(), g.available_spec()),
        count_bits(g.covered_spec(), 32) < N_INITIAL_SPACES_COVERED,
    ensures
        1 <= count_bits(g.available_spec(), 32) <= N_SPACES,
{
    lemma_generator_never_runs_out(g.covered_spec(), g.available_spec());
    lemma_available_within_grid(g.covered_spec(), g.available_spec());
    lemma_count_bits_bound(g.available_spec(), 32);
}

/// Every available space is one the line rule allows (uncovered, and no line
/// through it holds two covered spaces); of those, exactly the ones after
/// which the pattern can still be completed are available. For the last
/// space to cover, that is every space the line rule allows.
pub proof fn lemma_available_within_line_rule(covered: u32, available: u32)
    requires
        generator_ok(covered, available),
    ensures
        forall|i: int| 0 <= i < 32 && #[trigger] is_set(available, i) ==> can_cover(covered, i),
        forall|i: int|
            0 <= i < 32 && remaining_spaces(covered) > 0 && can_cover(covered, i) ==> (
            #[trigger] is_set(available, i) <==> completable(
                with_space(covered, i),
                (remaining_spaces(covered) - 1) as nat,
                0,
            )),
        remaining_spaces(covered) == 1 ==> forall|i: int|
            0 <= i < 32 ==> (#[trigger] is_set(available, i) <==> can_cover(covered, i)),
{
}

/// A line that already holds two covered spaces offers no available space.
pub proof fn lemma_full_lines_closed(covered: u32, available: u32, line: Bingo, i: int)
    requires
        generator_ok(covered, available),
        valid_line(line),
        line_count(covered, line) == MAX_INITIAL_COVERED_SPACES_PER_LINE,
        0 <= i < 32,
        on_line(line, i),
    ensures
        !is_set(available, i),
{
    if is_set(available, i) {
        lemma_lines_through(i);
    }
}

/// A space that can be covered once `c` is covered could be covered before.
proof fn lemma_can_cover_before(x: u32, c: int, i: int)
    requires
        0 <= c < N_SPACES,
        !is_set(x, c),
        can_cover(with_space(x, c), i),
    ensures
        can_cover(x, i),
{
    lemma_add_member(x, c);
    lemma_line_counts_after_cover(x, with_space(x, c), c);
}

/// Two spaces that can be covered one after the other can be covered in the
/// other order.
proof fn lemma_can_cover_swapped(x: u32, c: int, i: int)
    requires
        can_cover(x, c),
        can_cover(with_space(x, c), i),
    ensures
        can_cover(with_space(x, i), c),
{
    lemma_add_member(x, c);
    lemma_add_member(x, i);
    lemma_line_counts_after_cover(x, with_space(x, c), c);
    lemma_line_counts_after_cover(x, with_space(x, i), i);
}

/// Adding two spaces gives the same set in either order.
proof fn lemma_with_space_commutes(x: u32, c: int, i: int)
    requires
        0 <= c < 32,
        0 <= i < 32,
    ensures
        with_space(with_space(x, c), i) == with_space(with_space(x, i), c),
{
    let cu = c as u32;
    let iu = i as u32;
    assert((x | (1u32 << cu)) | (1u32 << iu) == (x | (1u32 << iu)) | (1u32 << cu)) by (bit_vector);
}

/// A space that can be covered now may be covered first: if `n` more spaces
/// can be covered after it, then `n + 1` can be covered without it.
proof fn lemma_completable_insert(x: u32, c: int, n: nat, s: int)
    requires
        0 <= s <= c,
        can_cover(x, c),
        completable(with_space(x, c), n, s),
    ensures
        completable(x, n + 1, s),
    decreases n,
{
    if n == 0 {
        lemma_completable_witness(x, 1, s, c);
    } else {
        let w = lemma_completable_first(with_space(x, c), n, s);
        lemma_add_member(x, c);
        if w < c {
            lemma_can_cover_before(x, c, w);
            lemma_can_cover_swapped(x, c, w);
            lemma_with_space_commutes(x, c, w);
            lemma_completable_insert(with_space(x, w), c, (n - 1) as nat, w + 1);
            lemma_completable_witness(x, n + 1, s, w);
        } else {
            lemma_completable_witness(with_space(x, c), n, c + 1, w);
            lemma_completable_witness(x, n + 1, s, c);
        }
    }
}

/// Covering a space never makes another space available: the spaces
/// available afterwards were all available before.
pub proof fn lemma_available_only_shrinks(
    covered: u32,
    available: u32,
    c: int,
    next_available: u32,
)
    requires
        generator_ok(covered, available),
        remaining_spaces(covered) > 0,
        0 <= c < 32,
        is_set(available, c),
        generator_ok(with_space(covered, c), next_available),
    ensures
        forall|i: int|
            0 <= i < 32 && #[trigger] is_set(next_available, i) ==> is_set(available, i),
{
    let m = remaining_spaces(covered);
    assert(keeps_completable(covered, m as nat, c));
    lemma_count_bits_add(covered, c as u32, 32);
    assert(remaining_spaces(with_space(covered, c)) == m - 1);
    assert forall|i: int| 0 <= i < 32 && #[trigger] is_set(next_available, i) implies is_set(
        available,
        i,
    ) by {
        assert(keeps_completable(with_space(covered, c), (m - 1) as nat, i));
        lemma_can_cover_before(covered, c, i);
        lemma_can_cover_swapped(covered, c, i);
        lemma_with_space_commutes(covered, c, i);
        lemma_completable_insert(with_space(covered, i), c, (m - 2) as nat, 0);
        assert(keeps_completable(covered, m as nat, i));
    }
}

pub(crate) proof fn lemma_count_bits_nonnegative(x: u32, n: int)
    ensures
        count_bits(x, n) >= 0,
    decreases n,
{
    if n > 0 {
        lemma_count_bits_nonnegative(x, n - 1);
    }
}

/// Popcount of a set restricted to a line is the number of the line's members.
proof fn lemma_masked_count(x: u32, line: Bingo)
    requires
        valid_line(line),
    ensures
        count_bits(x & line_mask(line), 32) == line_count(x, line),
{
    let y = x & line_mask(line);
    assert forall|i: int| 0 <= i < 32 implies #[trigger] is_set(y, i) == (is_set(x, i) && i
        < N_SPACES && on_line(line, i)) by {
        lemma_bit_and(x, line_mask(line), i as u32);
        lemma_line_mask_bit(line, i);
    }
    lemma_count_line_members(x, y, line, 32);
}

/// The members of `y` below `n` are those of `x` on the line below `n`.
spec fn line_count_below(x: u32, line: Bingo, n: int) -> int {
    (if line_cell(line, 0) < n && is_set(x, line_cell(line, 0)) { 1int } else { 0int })
    + (if line_cell(line, 1) < n && is_set(x, line_cell(line, 1)) { 1int } else { 0int })
    + (if line_cell(line, 2) < n && is_set(x, line_cell(line, 2)) { 1int } else { 0int })
    + (if line_cell(line, 3) < n && is_set(x, line_cell(line, 3)) { 1int } else { 0int })
    + (if line_cell(line, 4) < n && is_set(x, line_cell(line, 4)) { 1int } else { 0int })
}

proof fn lemma_count_line_members(x: u32, y: u32, line: Bingo, n: int)
    requires
        valid_line(line),
        0 <= n <= 32,
        forall|i: int| 0 <= i < 32 ==> #[trigger] is_set(y, i) == (is_set(x, i) && i < N_SPACES
            && on_line(line, i)),
    ensures
        count_bits(y, n) == line_count_below(x, line, n),
    decreases n,
{
    if n > 0 {
        lemma_count_line_members(x, y, line, n - 1);
        let i = n - 1;
        // space i is on the line exactly when it is one of the line's five spaces
        assert((i < N_SPACES && on_line(line, i)) <==> (i == line_cell(line, 0) || i == line_cell(
            line,
            1,
        ) || i == line_cell(line, 2) || i == line_cell(line, 3) || i == line_cell(line, 4)));
    }
}

/// Covering `c` adds one to the count of each line through `c`, and leaves the
/// other lines' counts as they were.
proof fn lemma_line_count_after_cover(old_x: u32, x: u32, c: int, line: Bingo)
    requires
        0 <= c < N_SPACES,
        valid_line(line),
        !is_set(old_x, c),
        forall|i: int| 0 <= i < 32 ==> #[trigger] is_set(x, i) == (is_set(old_x, i) || i == c),
    ensures
        line_count(x, line) == line_count(old_x, line) + if on_line(line, c) { 1int } else { 0int },
{
    assert(on_line(line, c) <==> (c == line_cell(line, 0) || c == line_cell(line, 1) || c
        == line_cell(line, 2) || c == line_cell(line, 3) || c == line_cell(line, 4)));
}

proof fn lemma_line_counts_after_cover(old_x: u32, x: u32, c: int)
    requires
        0 <= c < N_SPACES,
        !is_set(old_x, c),
        forall|i: int| 0 <= i < 32 ==> #[trigger] is_set(x, i) == (is_set(old_x, i) || i == c),
    ensures
        forall|line: Bingo|
            valid_line(line) ==> #[trigger] line_count(x, line) == line_count(old_x, line)
                + if on_line(line, c) { 1int } else { 0int },
{
    assert forall|line: Bingo| valid_line(line) implies #[trigger] line_count(x, line)
        == line_count(old_x, line) + if on_line(line, c) { 1int } else { 0int } by {
        lemma_line_count_after_cover(old_x, x, c, line);
    }
}


// ---------------------------------------------------------------------------

/// Picks the starting pattern of covered spaces with random numbers from
/// `random_range`.
pub fn generate_initial_spaces_covered() -> (r: u32)
    ensures
        valid_initial_pattern(r),
{
    let mut generator = CoveredSpacesGenerator::new();
    let mut n: usize = 0;
    while n < N_INITIAL_SPACES_COVERED
        invariant
            n <= N_INITIAL_SPACES_COVERED,
            generator_ok(generator.covered_spec(), generator.available_spec()),
            count_bits(generator.covered_spec(), 32) == n,
        decreases N_INITIAL_SPACES_COVERED - n,
    {
        let random_range = generator.next_random_number_range();
        generator.cover_next_space(random::random_range(random_range));
        n = n + 1;
    }
    generator.spaces_covered()
}

} // verus!

