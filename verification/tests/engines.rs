use life::cell::Coord;
use life::delta::{apply_changes, can_advance, compute_changes, neighbors, next, seed, Board};
use life::dense::{can_tick, tick};
use life::live_set::LiveSet;
use life::rule::{die, ignored, live, Change, Destiny};

fn set(cells: &[Coord]) -> LiveSet {
    LiveSet::from_cells(&cells.to_vec())
}

fn sorted(mut cells: Vec<Coord>) -> Vec<Coord> {
    cells.sort();
    cells
}

/// The changes as (cell, is a birth), in the order of the cells.
fn listed(changes: &Vec<Change>) -> Vec<(Coord, bool)> {
    let mut out: Vec<(Coord, bool)> = Vec::new();
    for c in changes {
        match c.destiny {
            Destiny::Live => out.push((c.coord, true)),
            Destiny::Die => out.push((c.coord, false)),
            Destiny::Ignored => panic!("an ignored cell among the changes"),
        }
    }
    out.sort();
    out
}

fn ticks(start: &LiveSet, count: usize) -> LiveSet {
    let mut state = start.clone();
    for _ in 0..count {
        assert!(can_tick(&state));
        state = tick(state);
    }
    state
}

/// The board after the seed was born and `count` generations have passed.
fn steps(cells: &[Coord], count: usize) -> Board {
    let mut board = seed(&cells.to_vec());
    for _ in 0..count + 1 {
        assert!(can_advance(&board));
        board = next(board);
    }
    board
}

fn shifted(cells: &[Coord], dx: i64, dy: i64) -> LiveSet {
    let moved: Vec<Coord> = cells.iter().map(|c| (c.0 + dx, c.1 + dy)).collect();
    LiveSet::from_cells(&moved)
}

const BLOCK: [Coord; 4] = [(0, 0), (0, 1), (1, 0), (1, 1)];
const BLINKER: [Coord; 3] = [(0, -1), (0, 0), (0, 1)];
const GLIDER: [Coord; 5] = [(0, 2), (1, 0), (1, 2), (2, 1), (2, 2)];
const R_PENTOMINO: [Coord; 5] = [(0, 0), (0, 1), (1, 1), (-1, 0), (0, -1)];

#[test]
fn tick_of_the_empty_set_is_empty() {
    assert_eq!(tick(LiveSet::new()), LiveSet::new());
    assert!(ticks(&LiveSet::new(), 25).is_empty());
}

#[test]
fn tick_kills_a_lone_cell() {
    assert!(tick(set(&[(5, 5)])).is_empty());
}

#[test]
fn tick_kills_a_pair() {
    assert!(tick(set(&[(0, 0), (1, 0)])).is_empty());
}

#[test]
fn tick_leaves_a_block_as_it_is() {
    let block = set(&BLOCK);
    assert_eq!(tick(block.clone()), block);
    for count in [2usize, 3, 10, 50] {
        assert_eq!(ticks(&block, count), block);
    }
}

#[test]
fn tick_turns_a_blinker() {
    let blinker = set(&BLINKER);
    let turned = tick(blinker.clone());
    assert_eq!(turned, set(&[(-1, 0), (0, 0), (1, 0)]));
    assert_ne!(turned, blinker);
    assert_eq!(tick(turned), blinker);
}

#[test]
fn tick_moves_a_glider_one_cell_diagonally_in_four_generations() {
    let glider = set(&GLIDER);
    assert_eq!(ticks(&glider, 1), set(&[(0, 1), (1, 2), (1, 3), (2, 1), (2, 2)]));
    assert_eq!(ticks(&glider, 2), set(&[(0, 2), (1, 3), (2, 1), (2, 2), (2, 3)]));
    assert_eq!(ticks(&glider, 3), set(&[(1, 1), (1, 3), (2, 2), (2, 3), (3, 2)]));
    assert_eq!(ticks(&glider, 4), shifted(&GLIDER, 1, 1));
    assert_ne!(ticks(&glider, 3), shifted(&GLIDER, 1, 1));
    assert_eq!(ticks(&glider, 40), shifted(&GLIDER, 10, 10));
}

#[test]
fn tick_grows_the_r_pentomino() {
    let start = set(&R_PENTOMINO);
    assert_eq!(
        ticks(&start, 1),
        set(&[(-1, -1), (-1, 0), (-1, 1), (0, -1), (0, 1), (1, 1)])
    );
    assert_eq!(
        ticks(&start, 2),
        set(&[(-2, 0), (-1, -1), (-1, 1), (0, -1), (0, 1), (0, 2), (1, 0)])
    );
    let expected = [5usize, 6, 7, 9, 8, 9, 12, 11, 18, 11, 11, 10, 13, 16, 19, 19, 23, 25, 35, 25, 32];
    let mut state = start;
    for population in expected {
        assert_eq!(state.len(), population);
        state = tick(state);
    }
    assert_eq!(ticks(&set(&R_PENTOMINO), 100).len(), 121);
}

#[test]
fn tick_works_far_from_the_origin() {
    let far = shifted(&BLINKER, i64::MAX - 1, i64::MIN + 2);
    assert!(can_tick(&far));
    let turned = tick(far.clone());
    assert_eq!(
        turned,
        set(&[
            (i64::MAX - 2, i64::MIN + 2),
            (i64::MAX - 1, i64::MIN + 2),
            (i64::MAX, i64::MIN + 2)
        ])
    );
    assert!(!can_tick(&turned));
}

#[test]
fn can_tick_asks_for_interior_cells() {
    assert!(can_tick(&LiveSet::new()));
    assert!(can_tick(&set(&[(0, 0), (i64::MAX - 1, i64::MIN + 1)])));
    assert!(!can_tick(&set(&[(0, 0), (i64::MAX, 0)])));
    assert!(!can_tick(&set(&[(0, i64::MIN)])));
    assert!(!can_tick(&set(&[(i64::MIN, 7)])));
    assert!(!can_tick(&set(&[(7, i64::MAX)])));
}

#[test]
fn seed_marks_every_cell_as_born() {
    let board = seed(&R_PENTOMINO.to_vec());
    assert!(board.0.is_empty());
    assert_eq!(
        board.1,
        vec![live(&(0, 0)), live(&(0, 1)), live(&(1, 1)), live(&(-1, 0)), live(&(0, -1))]
    );
}

#[test]
fn seed_of_nothing_is_the_empty_board() {
    let board = seed(&Vec::new());
    assert!(board.0.is_empty());
    assert!(board.1.is_empty());
}

#[test]
fn apply_changes_removes_the_dying_and_adds_the_born() {
    let board: Board = (
        set(&[(0, 0), (1, 0), (2, 0)]),
        vec![die(&(0, 0)), live(&(5, 5)), die(&(2, 0)), live(&(6, 6))],
    );
    assert_eq!(apply_changes(&board), set(&[(1, 0), (5, 5), (6, 6)]));
    assert_eq!(board.0, set(&[(0, 0), (1, 0), (2, 0)]));
}

#[test]
fn apply_changes_passes_over_ignored_cells() {
    let board: Board = (set(&[(0, 0)]), vec![ignored(&(0, 0)), ignored(&(3, 3))]);
    assert_eq!(apply_changes(&board), set(&[(0, 0)]));
}

#[test]
fn apply_changes_adds_after_it_removes() {
    let board: Board = (set(&[(0, 0)]), vec![live(&(0, 0)), die(&(0, 0))]);
    assert_eq!(apply_changes(&board), set(&[(0, 0)]));
}

#[test]
fn apply_changes_takes_a_death_of_a_dead_cell_and_a_birth_of_a_live_one() {
    let board: Board = (set(&[(0, 0)]), vec![die(&(9, 9)), live(&(0, 0))]);
    assert_eq!(apply_changes(&board), set(&[(0, 0)]));
}

#[test]
fn apply_changes_without_changes_copies_the_set() {
    let board: Board = (set(&BLOCK), Vec::new());
    assert_eq!(apply_changes(&board), set(&BLOCK));
}

#[test]
fn neighbors_of_no_change_is_empty() {
    assert!(neighbors(&Vec::new()).is_empty());
}

#[test]
fn neighbors_of_one_change_are_its_eight() {
    let frontier = neighbors(&vec![die(&(0, 0))]);
    assert_eq!(
        sorted(frontier.cells()),
        vec![(-1, -1), (-1, 0), (-1, 1), (0, -1), (0, 1), (1, -1), (1, 0), (1, 1)]
    );
    assert!(!frontier.contains(&(0, 0)));
}

#[test]
fn neighbors_joins_the_neighbourhoods() {
    let frontier = neighbors(&vec![live(&(0, 0)), die(&(1, 0)), ignored(&(10, 10))]);
    assert_eq!(frontier.len(), 12 + 8);
    assert!(frontier.contains(&(0, 0)));
    assert!(frontier.contains(&(1, 0)));
    assert!(frontier.contains(&(2, 1)));
    assert!(frontier.contains(&(-1, -1)));
    assert!(frontier.contains(&(11, 9)));
    assert!(!frontier.contains(&(10, 10)));
    assert!(!frontier.contains(&(3, 0)));
}

#[test]
fn every_frontier_cell_is_next_to_a_change() {
    let board = steps(&R_PENTOMINO, 20);
    let changed: Vec<Coord> = board.1.iter().map(|c| c.coord).collect();
    let frontier = neighbors(&board.1);
    assert!(!frontier.is_empty());
    for cell in frontier.cells() {
        assert!(changed
            .iter()
            .any(|c| (c.0 - cell.0).abs() <= 1 && (c.1 - cell.1).abs() <= 1));
    }
    let after = next(board);
    for c in &after.1 {
        assert!(frontier.contains(&c.coord));
    }
}

#[test]
fn compute_changes_keeps_births_and_deaths() {
    let blinker = set(&BLINKER);
    let mut everywhere = LiveSet::new();
    for x in -3..4 {
        for y in -3..4 {
            everywhere.insert((x, y));
        }
    }
    let changes = compute_changes(&blinker, &everywhere);
    assert_eq!(
        listed(&changes),
        vec![((-1, 0), true), ((0, -1), false), ((0, 1), false), ((1, 0), true)]
    );
}

#[test]
fn compute_changes_looks_at_the_affected_cells_only() {
    let blinker = set(&BLINKER);
    let changes = compute_changes(&blinker, &set(&[(1, 0), (0, 1), (0, 0), (2, 2)]));
    assert_eq!(listed(&changes), vec![((0, 1), false), ((1, 0), true)]);
    assert!(compute_changes(&blinker, &LiveSet::new()).is_empty());
}

#[test]
fn compute_changes_of_a_still_life_is_empty() {
    let block = set(&BLOCK);
    let mut everywhere = LiveSet::new();
    for x in -2..4 {
        for y in -2..4 {
            everywhere.insert((x, y));
        }
    }
    assert!(compute_changes(&block, &everywhere).is_empty());
}

#[test]
fn next_lets_the_seed_be_born_first() {
    let board = next(seed(&BLINKER.to_vec()));
    assert_eq!(board.0, set(&BLINKER));
    assert_eq!(
        listed(&board.1),
        vec![((-1, 0), true), ((0, -1), false), ((0, 1), false), ((1, 0), true)]
    );
}

#[test]
fn next_turns_a_blinker_and_turns_it_back() {
    let one = steps(&BLINKER, 1);
    assert_eq!(one.0, set(&[(-1, 0), (0, 0), (1, 0)]));
    assert_eq!(
        listed(&one.1),
        vec![((-1, 0), false), ((0, -1), true), ((0, 1), true), ((1, 0), false)]
    );
    let two = steps(&BLINKER, 2);
    assert_eq!(two.0, set(&BLINKER));
    assert_ne!(one.0, two.0);
}

#[test]
fn next_leaves_a_block_as_it_is() {
    let first = steps(&BLOCK, 0);
    assert_eq!(first.0, set(&BLOCK));
    assert!(first.1.is_empty());
    for count in [1usize, 2, 10, 50] {
        let board = steps(&BLOCK, count);
        assert_eq!(board.0, set(&BLOCK));
        assert!(board.1.is_empty());
    }
}

#[test]
fn next_moves_a_glider_one_cell_diagonally_in_four_generations() {
    assert_eq!(steps(&GLIDER, 0).0, set(&GLIDER));
    assert_eq!(steps(&GLIDER, 1).0, set(&[(0, 1), (1, 2), (1, 3), (2, 1), (2, 2)]));
    assert_ne!(steps(&GLIDER, 3).0, shifted(&GLIDER, 1, 1));
    assert_eq!(steps(&GLIDER, 4).0, shifted(&GLIDER, 1, 1));
    assert_eq!(steps(&GLIDER, 40).0, shifted(&GLIDER, 10, 10));
}

#[test]
fn next_on_the_empty_board_changes_nothing() {
    let mut board: Board = (LiveSet::new(), Vec::new());
    for _ in 0..10 {
        board = next(board);
        assert!(board.0.is_empty());
        assert!(board.1.is_empty());
    }
}

#[test]
fn next_lists_no_change_twice() {
    let board = steps(&R_PENTOMINO, 30);
    let mut cells: Vec<Coord> = board.1.iter().map(|c| c.coord).collect();
    let before = cells.len();
    cells.sort();
    cells.dedup();
    assert_eq!(cells.len(), before);
    assert!(before > 0);
}

#[test]
fn the_engines_agree_on_the_r_pentomino() {
    let mut dense = set(&R_PENTOMINO);
    let mut delta = next(seed(&R_PENTOMINO.to_vec()));
    for _ in 0..120 {
        assert_eq!(delta.0, dense);
        dense = tick(dense);
        delta = next(delta);
    }
    assert_eq!(delta.0, dense);
    assert_eq!(dense.len(), 148);
}

#[test]
fn the_changes_of_a_step_are_those_that_the_next_step_applies() {
    let mut board = next(seed(&R_PENTOMINO.to_vec()));
    for _ in 0..40 {
        let expected = tick(board.0.clone());
        let births = board.1.iter().filter(|c| c.destiny == Destiny::Live).count();
        let deaths = board.1.iter().filter(|c| c.destiny == Destiny::Die).count();
        assert_eq!(board.0.len() + births - deaths, expected.len());
        assert_eq!(apply_changes(&board), expected);
        board = next(board);
    }
}

#[test]
fn a_seed_cell_without_neighbours_is_never_classified() {
    let board = steps(&[(0, 0)], 0);
    assert_eq!(board.0, set(&[(0, 0)]));
    assert!(board.1.is_empty());
    assert_eq!(steps(&[(0, 0)], 5).0, set(&[(0, 0)]));
    assert!(tick(set(&[(0, 0)])).is_empty());
}

#[test]
fn can_advance_asks_for_two_cells_of_room() {
    assert!(can_advance(&(LiveSet::new(), Vec::new())));
    assert!(can_advance(&seed(&R_PENTOMINO.to_vec())));
    assert!(can_advance(&seed(&vec![(i64::MAX - 2, i64::MIN + 2)])));
    assert!(!can_advance(&seed(&vec![(0, 0), (i64::MAX - 1, 0)])));
    assert!(!can_advance(&seed(&vec![(0, i64::MIN + 1)])));
    assert!(!can_advance(&(LiveSet::new(), vec![ignored(&(i64::MIN, 0))])));
    assert!(can_advance(&(set(&[(i64::MAX, i64::MAX)]), vec![die(&(0, 0))])));
}

#[test]
fn next_works_two_cells_from_the_edge() {
    let cells = [
        (i64::MAX - 2, i64::MAX - 3),
        (i64::MAX - 2, i64::MAX - 2),
        (i64::MAX - 3, i64::MAX - 2),
        (i64::MAX - 3, i64::MAX - 3),
    ];
    let board = next(seed(&cells.to_vec()));
    assert_eq!(board.0, set(&cells));
    assert!(board.1.is_empty());
}
