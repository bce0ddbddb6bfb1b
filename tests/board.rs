use life::board::{Board, Cell, State};
use life::snapshot::SnapshotError;
use rand::{Rng, SeedableRng};

fn grid(text: &[&str]) -> Vec<Vec<Cell>> {
    text.iter()
        .map(|row| {
            row.chars()
                .map(|c| Cell::new(if c == 'X' { State::Alive } else { State::Dead }))
                .collect()
        })
        .collect()
}

fn load(text: &str) -> Board {
    Board::from_snapshot(text).unwrap()
}

fn live_cells(b: &Board) -> Vec<(usize, usize)> {
    let mut out = Vec::new();
    for i in 0..b.height() {
        for j in 0..b.width() {
            if b.is_alive(i, j) {
                out.push((i, j));
            }
        }
    }
    out
}

#[test]
fn neighbors_of_isolated_cell_are_zero() {
    let cells = grid(&["   ", " X ", "   "]);
    assert_eq!(Board::count_alive_neightbors(&cells, 1, 1), 0);
    assert_eq!(Board::count_alive_neightbors(&cells, 0, 0), 1);
    assert_eq!(Board::count_alive_neightbors(&cells, 2, 1), 1);
}

#[test]
fn neighbors_of_full_grid() {
    let cells = grid(&["XXX", "XXX", "XXX"]);
    assert_eq!(Board::count_alive_neightbors(&cells, 1, 1), 8);
    assert_eq!(Board::count_alive_neightbors(&cells, 0, 1), 5);
    assert_eq!(Board::count_alive_neightbors(&cells, 2, 2), 3);
}

#[test]
fn corner_has_at_most_three_neighbors() {
    let cells = grid(&["XXXX", "XXXX", "XXXX", "XXXX"]);
    assert_eq!(Board::count_alive_neightbors(&cells, 0, 0), 3);
    assert_eq!(Board::count_alive_neightbors(&cells, 0, 3), 3);
    assert_eq!(Board::count_alive_neightbors(&cells, 3, 0), 3);
    assert_eq!(Board::count_alive_neightbors(&cells, 3, 3), 3);
}

#[test]
fn neighbors_do_not_wrap() {
    let cells = grid(&["X  X", "    ", "X  X"]);
    assert_eq!(Board::count_alive_neightbors(&cells, 0, 0), 0);
    assert_eq!(Board::count_alive_neightbors(&cells, 1, 0), 2);
}

#[test]
fn single_cell_dies() {
    let mut b = load("   \n X \n   \n");
    b.next_generation(3, 2, 3);
    assert_eq!(b.width(), 3);
    assert_eq!(b.height(), 3);
    assert!(live_cells(&b).is_empty());
}

#[test]
fn blinker_oscillates() {
    let mut b = load("     \n     \n XXX \n     \n     \n");
    b.next_generation(3, 2, 3);
    assert_eq!(live_cells(&b), vec![(1, 2), (2, 2), (3, 2)]);
    b.next_generation(3, 2, 3);
    assert_eq!(live_cells(&b), vec![(2, 1), (2, 2), (2, 3)]);
}

#[test]
fn block_is_still() {
    let mut b = load("    \n XX \n XX \n    \n");
    b.next_generation(3, 2, 3);
    assert_eq!(b.to_snapshot(), "    \n XX \n XX \n    \n");
}

#[test]
fn glider_moves_diagonally() {
    let mut b = load(" X      \n  X     \nXXX     \n        \n        \n        \n        \n        \n");
    let start = live_cells(&b);
    assert_eq!(start.len(), 5);
    for _ in 0..4 {
        b.next_generation(3, 2, 3);
        assert_eq!(live_cells(&b).len(), 5);
    }
    let moved: Vec<(usize, usize)> = start.iter().map(|&(i, j)| (i + 1, j + 1)).collect();
    assert_eq!(live_cells(&b), moved);
}

#[test]
fn next_generation_on_wide_board() {
    let mut b = load("      \n XXX  \n      \n");
    b.next_generation(3, 2, 3);
    assert_eq!(live_cells(&b), vec![(0, 2), (1, 2), (2, 2)]);
}

#[test]
fn thresholds_are_inclusive() {
    // The centre has four living neighbours.
    let mut b = load("X X\n X \nX X\n");
    b.next_generation(4, 4, 9);
    assert!(b.is_alive(1, 1));
    let mut b = load("X X\n X \nX X\n");
    b.next_generation(3, 2, 9);
    assert!(!b.is_alive(1, 1));
}

#[test]
fn dead_cell_born_on_exact_count() {
    let mut b = load("X X\n   \n X \n");
    b.next_generation(3, 2, 3);
    assert!(b.is_alive(1, 1));
    let mut b = load("X X\n   \n X \n");
    b.next_generation(3, 2, 2);
    assert!(!b.is_alive(1, 1));
}

#[test]
fn snapshot_round_trip() {
    let text = "X X \n XX \n    \nXXXX\n";
    let b = load(text);
    assert_eq!((b.width(), b.height()), (4, 4));
    let saved = b.to_snapshot();
    assert_eq!(saved, text);
    let again = load(&saved);
    assert_eq!(again.to_snapshot(), saved);
    assert_eq!(live_cells(&again), live_cells(&b));
}

#[test]
fn snapshot_without_final_newline() {
    let b = load("X \n X");
    assert_eq!((b.width(), b.height()), (2, 2));
    assert_eq!(b.to_snapshot(), "X \n X\n");
}

#[test]
fn short_rows_are_padded_with_dead_cells() {
    let b = load("XXX\nX\n\n");
    assert_eq!((b.width(), b.height()), (3, 3));
    assert_eq!(b.to_snapshot(), "XXX\nX  \n   \n");
}

#[test]
fn zero_width_snapshot() {
    let b = load("\n\n");
    assert_eq!((b.width(), b.height()), (0, 2));
    assert_eq!(b.to_snapshot(), "\n\n");
}

#[test]
fn invalid_character_is_rejected() {
    assert_eq!(
        Board::from_snapshot("X X\nXoX\n").err(),
        Some(SnapshotError::InvalidCharacter('o'))
    );
    assert_eq!(
        Board::from_snapshot("XX\nXXX\n.\n").err(),
        Some(SnapshotError::InvalidCharacter('.'))
    );
    assert_eq!(
        Board::from_snapshot("X\r\n").err(),
        Some(SnapshotError::InvalidCharacter('\r'))
    );
}

#[test]
fn long_row_is_rejected() {
    assert_eq!(
        Board::from_snapshot("XX\nX\nXXX\nXXXX\n").err(),
        Some(SnapshotError::RowTooLong(2))
    );
}

#[test]
fn empty_snapshot_is_rejected() {
    assert_eq!(Board::from_snapshot("").err(), Some(SnapshotError::Empty));
}

#[test]
fn render_draws_blocks() {
    let b = load("X \n X\n");
    assert_eq!(b.render(), "\u{2588}\u{2588}  \n  \u{2588}\u{2588}\n");
}

#[test]
fn init_has_requested_dimensions() {
    let b = Board::init(7, 4, 1, 2, 9);
    assert_eq!((b.width(), b.height()), (7, 4));
    let b = Board::init(0, 3, 1, 2, 0);
    assert_eq!((b.width(), b.height()), (0, 3));
}

#[test]
fn init_with_extreme_ratios() {
    let b = Board::init(6, 5, 0, 10, 0);
    assert!(live_cells(&b).is_empty());
    let b = Board::init(6, 5, 10, 10, 0);
    assert_eq!(live_cells(&b).len(), 30);
    let b = Board::init(6, 5, 0, 10, 77);
    assert!(live_cells(&b).is_empty());
    let b = Board::init(6, 5, 3, 3, 77);
    assert_eq!(live_cells(&b).len(), 30);
}

#[test]
fn seeded_init_is_deterministic() {
    let a = Board::init(20, 15, 1, 2, 12345);
    let b = Board::init(20, 15, 1, 2, 12345);
    assert_eq!(a.to_snapshot(), b.to_snapshot());
    let n = live_cells(&a).len();
    assert!(n > 0 && n < 300);
}

#[test]
fn seeded_init_follows_per_cell_seed() {
    let seed: u64 = 42;
    let b = Board::init(9, 6, 1, 3, seed);
    for i in 0..6 {
        for j in 0..9 {
            let expected = rand::rngs::StdRng::seed_from_u64(seed * i as u64 + j as u64).gen_ratio(1, 3);
            assert_eq!(b.is_alive(i, j), expected);
        }
    }
}

#[test]
fn seeded_init_keeps_seed_collisions() {
    // With seed 1, (0, 5) and (1, 4) share the derived seed 5.
    for _ in 0..3 {
        let b = Board::init(8, 8, 1, 2, 1);
        assert_eq!(b.is_alive(0, 5), b.is_alive(1, 4));
        assert_eq!(b.is_alive(0, 7), b.is_alive(1, 6));
    }
}

#[test]
fn seeded_init_wraps_derived_seed() {
    let seed: u64 = u64::MAX;
    let b = Board::init(3, 3, 1, 2, seed);
    for i in 0..3usize {
        for j in 0..3usize {
            let derived = seed.wrapping_mul(i as u64).wrapping_add(j as u64);
            let expected = rand::rngs::StdRng::seed_from_u64(derived).gen_ratio(1, 2);
            assert_eq!(b.is_alive(i, j), expected);
        }
    }
}
