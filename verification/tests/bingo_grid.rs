use diveno::game::bingo_grid::{
    Bingo, BingoGrid, CoveredSpacesGenerator, GRID_HEIGHT, GRID_WIDTH,
    MAX_INITIAL_COVERED_SPACES_PER_LINE, N_INITIAL_SPACES_COVERED, N_INITIAL_SPACES_UNCOVERED,
    N_SPACES,
};
use std::collections::HashSet;

fn test_grid() -> BingoGrid {
    BingoGrid::new()
}

#[test]
fn bingo() {
    let mut grid = test_grid();
    assert!(grid.cover_space(0).is_none());
    assert!(grid.bingo().is_none());
    assert!(grid.cover_space(1).is_none());
    assert!(grid.cover_space(2).is_none());
    assert!(grid.cover_space(3).is_none());
    if let Some(Bingo::Row(row)) = grid.cover_space(4) {
        assert_eq!(row, 0);
    } else {
        unreachable!();
    }
    assert!(grid.bingo() == Some(Bingo::Row(0)));

    let mut grid = test_grid();
    assert!(grid.cover_space(20).is_none());
    assert!(grid.cover_space(21).is_none());
    assert!(grid.cover_space(22).is_none());
    assert!(grid.cover_space(23).is_none());
    if let Some(Bingo::Row(row)) = grid.cover_space(24) {
        assert_eq!(row, 4);
    } else {
        unreachable!();
    }

    let mut grid = test_grid();
    assert!(grid.cover_space(0).is_none());
    assert!(grid.cover_space(5).is_none());
    assert!(grid.cover_space(10).is_none());
    assert!(grid.cover_space(15).is_none());
    if let Some(Bingo::Column(column)) = grid.cover_space(20) {
        assert_eq!(column, 0);
    } else {
        unreachable!();
    }

    let mut grid = test_grid();
    assert!(grid.cover_space(4).is_none());
    assert!(grid.cover_space(9).is_none());
    assert!(grid.cover_space(14).is_none());
    assert!(grid.cover_space(19).is_none());
    if let Some(Bingo::Column(column)) = grid.cover_space(24) {
        assert_eq!(column, 4);
    } else {
        unreachable!();
    }

    let mut grid = test_grid();
    assert!(grid.cover_space(0).is_none());
    assert!(grid.cover_space(6).is_none());
    assert!(grid.cover_space(12).is_none());
    assert!(grid.cover_space(18).is_none());
    assert!(matches!(grid.cover_space(24), Some(Bingo::DiagonalA)));

    let mut grid = test_grid();
    assert!(grid.cover_space(4).is_none());
    assert!(grid.cover_space(8).is_none());
    assert!(grid.cover_space(12).is_none());
    assert!(grid.cover_space(16).is_none());
    assert!(matches!(grid.cover_space(20), Some(Bingo::DiagonalB)));
}

#[test]
fn letter_index_for_space() {
    let bingo = Bingo::Row(0);
    assert_eq!(bingo.letter_index_for_space(0), Some(0));
    assert_eq!(bingo.letter_index_for_space(1), Some(1));
    assert_eq!(bingo.letter_index_for_space(2), Some(2));
    assert_eq!(bingo.letter_index_for_space(3), Some(3));
    assert_eq!(bingo.letter_index_for_space(4), Some(4));
    assert_eq!(bingo.letter_index_for_space(5), None);

    let bingo = Bingo::Row(4);
    assert_eq!(bingo.letter_index_for_space(20), Some(0));
    assert_eq!(bingo.letter_index_for_space(21), Some(1));
    assert_eq!(bingo.letter_index_for_space(22), Some(2));
    assert_eq!(bingo.letter_index_for_space(23), Some(3));
    assert_eq!(bingo.letter_index_for_space(24), Some(4));
    assert_eq!(bingo.letter_index_for_space(0), None);
    assert_eq!(bingo.letter_index_for_space(12), None);

    let bingo = Bingo::Column(0);
    assert_eq!(bingo.letter_index_for_space(0), Some(0));
    assert_eq!(bingo.letter_index_for_space(5), Some(1));
    assert_eq!(bingo.letter_index_for_space(10), Some(2));
    assert_eq!(bingo.letter_index_for_space(15), Some(3));
    assert_eq!(bingo.letter_index_for_space(20), Some(4));
    assert_eq!(bingo.letter_index_for_space(6), None);

    let bingo = Bingo::Column(4);
    assert_eq!(bingo.letter_index_for_space(4), Some(0));
    assert_eq!(bingo.letter_index_for_space(9), Some(1));
    assert_eq!(bingo.letter_index_for_space(14), Some(2));
    assert_eq!(bingo.letter_index_for_space(19), Some(3));
    assert_eq!(bingo.letter_index_for_space(24), Some(4));
    assert_eq!(bingo.letter_index_for_space(6), None);
    assert_eq!(bingo.letter_index_for_space(0), None);

    let bingo = Bingo::DiagonalA;
    assert_eq!(bingo.letter_index_for_space(0), Some(0));
    assert_eq!(bingo.letter_index_for_space(6), Some(1));
    assert_eq!(bingo.letter_index_for_space(12), Some(2));
    assert_eq!(bingo.letter_index_for_space(18), Some(3));
    assert_eq!(bingo.letter_index_for_space(24), Some(4));
    assert_eq!(bingo.letter_index_for_space(4), None);
    assert_eq!(bingo.letter_index_for_space(8), None);
    assert_eq!(bingo.letter_index_for_space(20), None);

    let bingo = Bingo::DiagonalB;
    assert_eq!(bingo.letter_index_for_space(20), Some(0));
    assert_eq!(bingo.letter_index_for_space(16), Some(1));
    assert_eq!(bingo.letter_index_for_space(12), Some(2));
    assert_eq!(bingo.letter_index_for_space(8), Some(3));
    assert_eq!(bingo.letter_index_for_space(4), Some(4));
    assert_eq!(bingo.letter_index_for_space(0), None);
    assert_eq!(bingo.letter_index_for_space(6), None);
    assert_eq!(bingo.letter_index_for_space(24), None);
}

struct StackEntry {
    next_random_number: usize,
    state: CoveredSpacesGenerator,
}

fn print_grid(spaces_covered: u32) {
    for y in 0..GRID_HEIGHT {
        let mut line = String::new();
        for x in 0..GRID_WIDTH {
            let pos = x + y * GRID_WIDTH;
            let ch = if spaces_covered & (1 << pos) != 0 { '#' } else { '.' };
            line.push(ch);
        }
        println!("{}", line);
    }
}

fn validate_initial_spaces_covered(spaces_covered: u32) {
    assert_eq!(spaces_covered.count_ones() as usize, N_INITIAL_SPACES_COVERED);

    for row in 0..GRID_HEIGHT {
        let n_spaces = (0..GRID_WIDTH)
            .filter(|x| spaces_covered & (1 << ((row * GRID_WIDTH) + x)) != 0)
            .count();
        assert!(n_spaces <= MAX_INITIAL_COVERED_SPACES_PER_LINE);
    }

    for col in 0..GRID_WIDTH {
        let n_spaces = (0..GRID_HEIGHT)
            .filter(|y| spaces_covered & (1 << ((y * GRID_WIDTH) + col)) != 0)
            .count();
        assert!(n_spaces <= MAX_INITIAL_COVERED_SPACES_PER_LINE);
    }

    let n_spaces = (0..GRID_WIDTH)
        .filter(|i| spaces_covered & (1 << ((i * GRID_WIDTH) + i)) != 0)
        .count();
    assert!(n_spaces <= MAX_INITIAL_COVERED_SPACES_PER_LINE);

    let n_spaces = (0..GRID_WIDTH)
        .filter(|i| spaces_covered & (1 << ((i * GRID_WIDTH) + (GRID_WIDTH - 1 - i))) != 0)
        .count();
    assert!(n_spaces <= MAX_INITIAL_COVERED_SPACES_PER_LINE);
}

#[test]
fn generate_all_initial_grids() {
    let mut stack = vec![StackEntry {
        next_random_number: 0,
        state: CoveredSpacesGenerator::new(),
    }];

    let mut visited_states = HashSet::new();

    while let Some(mut entry) = stack.pop() {
        if entry.state.available() == 0 {
            println!("no spaces left:");
            print_grid(entry.state.spaces_covered());
            unreachable!();
        }

        let range = entry.state.next_random_number_range();

        if entry.next_random_number >= range {
            continue;
        }

        let mut next_state = entry.state.clone();
        next_state.cover_next_space(entry.next_random_number);

        entry.next_random_number += 1;

        stack.push(entry);

        if stack.len() >= N_INITIAL_SPACES_COVERED {
            validate_initial_spaces_covered(next_state.spaces_covered());
        } else if visited_states.insert(next_state.clone()) {
            stack.push(StackEntry {
                next_random_number: 0,
                state: next_state,
            });
        }
    }
}

#[test]
fn reset_gives_a_valid_starting_grid() {
    for _ in 0..50 {
        let mut grid = BingoGrid::new();
        grid.reset();
        let mut covered: u32 = 0;
        let mut balls = Vec::new();
        let mut spaces = grid.spaces();
        let mut index = 0;
        while let Some(space) = spaces.next() {
            if space.covered {
                covered |= 1 << index;
            }
            balls.push(space.ball);
            index += 1;
        }
        assert_eq!(index, N_SPACES);
        validate_initial_spaces_covered(covered);
        balls.sort();
        assert_eq!(balls, (0..N_SPACES as u8).collect::<Vec<u8>>());
        assert!(grid.bingo().is_none());
        let mut previous = None;
        for k in 0..N_INITIAL_SPACES_UNCOVERED {
            let space = grid.space_for_initial_uncovered_space_index(k);
            assert!(!grid.space(space).covered);
            if let Some(p) = previous {
                assert!(space > p);
            }
            previous = Some(space);
        }
    }
}

#[test]
fn new_grid_puts_balls_in_order() {
    let grid = BingoGrid::new();
    for i in 0..N_SPACES {
        let space = grid.space(i);
        assert_eq!(space.ball as usize, i);
        assert!(!space.covered);
    }
    assert!(grid.bingo().is_none());
}

#[test]
fn generator_starts_empty_with_spaces_to_choose() {
    let generator = CoveredSpacesGenerator::new();
    assert_eq!(generator.spaces_covered(), 0);
    assert_eq!(generator.next_random_number_range(), N_SPACES);
}

#[test]
fn generator_avoids_dead_ends() {
    // covering 0, 1, 9, 12, 14, 20 and 22 would leave no space free for the
    // eighth cover, so the generator must not offer the last of them
    let mut generator = CoveredSpacesGenerator::new();
    let wanted = [0u32, 1, 9, 12, 14, 20];
    for &space in wanted.iter() {
        let available = generator.available();
        assert!(available & (1 << space) != 0);
        let rank = (available & ((1u32 << space) - 1)).count_ones() as usize;
        generator.cover_next_space(rank);
    }
    assert_eq!(generator.spaces_covered().count_ones(), 6);
    assert_eq!(generator.available() & (1 << 22), 0);
    assert!(generator.available() != 0);
}

#[test]
fn available_spaces_only_shrink() {
    // cover space 0, then space 1: neither step makes a space available
    // that was not available before; after both, the rest of row 0 is closed
    let mut generator = CoveredSpacesGenerator::new();
    let before = generator.available();
    generator.cover_next_space(0);
    let after_first = generator.available();
    assert_eq!(after_first & !before, 0);
    assert_eq!(after_first & 1, 0);
    generator.cover_next_space(0);
    let after_second = generator.available();
    assert_eq!(generator.spaces_covered(), 0b11);
    assert_eq!(after_second & !after_first, 0);
    assert_eq!(after_second & 0b11111, 0);
}

#[test]
fn iterator_yields_what_space_gives() {
    let mut grid = BingoGrid::new();
    grid.reset();
    grid.cover_space(3);
    grid.reset();
    grid.cover_space(17);
    let mut spaces = grid.spaces();
    let mut balls = Vec::new();
    for i in 0..N_SPACES {
        let item = spaces.next().unwrap();
        let space = grid.space(i);
        assert_eq!(item.ball, space.ball);
        assert_eq!(item.covered, space.covered);
        balls.push(item.ball);
    }
    assert!(spaces.next().is_none());
    assert!(grid.space(17).covered);
    balls.sort();
    assert_eq!(balls, (0..N_SPACES as u8).collect::<Vec<u8>>());
}

#[test]
fn next_range_stays_positive_until_the_pattern_is_complete() {
    let mut generator = CoveredSpacesGenerator::new();
    for step in 0..N_INITIAL_SPACES_COVERED {
        let range = generator.next_random_number_range();
        assert!(range >= 1 && range <= N_SPACES);
        generator.cover_next_space((step * 7) % range);
    }
    assert_eq!(generator.spaces_covered().count_ones() as usize, N_INITIAL_SPACES_COVERED);
}
