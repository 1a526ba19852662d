use life::cell::{eight, is_inset, Coord};
use life::key::{pack, unpack, BIAS, SPAN};
use life::live_set::LiveSet;

fn sorted(mut cells: Vec<Coord>) -> Vec<Coord> {
    cells.sort();
    cells
}

#[test]
fn eight_lists_the_neighbours_in_order() {
    assert_eq!(
        eight(&(0, 0)),
        vec![(-1, -1), (-1, 0), (-1, 1), (0, -1), (0, 1), (1, -1), (1, 0), (1, 1)]
    );
}

#[test]
fn eight_is_relative_to_the_cell() {
    assert_eq!(
        eight(&(10, -5)),
        vec![(9, -6), (9, -5), (9, -4), (10, -6), (10, -4), (11, -6), (11, -5), (11, -4)]
    );
}

#[test]
fn eight_leaves_the_cell_itself_out() {
    let around = eight(&(3, 4));
    assert_eq!(around.len(), 8);
    assert!(!around.contains(&(3, 4)));
}

#[test]
fn eight_reaches_the_edge_from_the_last_interior_cell() {
    let around = eight(&(i64::MAX - 1, i64::MIN + 1));
    assert_eq!(around[0], (i64::MAX - 2, i64::MIN));
    assert_eq!(around[7], (i64::MAX, i64::MIN + 2));
}

#[test]
fn is_inset_measures_the_distance_to_the_edge() {
    assert!(is_inset(&(0, 0), 2));
    assert!(is_inset(&(i64::MAX, i64::MIN), 0));
    assert!(!is_inset(&(i64::MAX, 0), 1));
    assert!(is_inset(&(i64::MAX - 1, i64::MIN + 1), 1));
    assert!(!is_inset(&(i64::MAX - 1, 0), 2));
    assert!(!is_inset(&(0, i64::MIN + 1), 2));
    assert!(is_inset(&(i64::MAX - 2, i64::MIN + 2), 2));
}

#[test]
fn pack_puts_x_above_y() {
    assert_eq!(BIAS, 1u128 << 63);
    assert_eq!(SPAN, 1u128 << 64);
    assert_eq!(pack((i64::MIN, i64::MIN)), 0);
    assert_eq!(pack((i64::MIN, i64::MIN + 1)), 1);
    assert_eq!(pack((i64::MIN + 1, i64::MIN)), 1u128 << 64);
    assert_eq!(pack((0, 0)), (1u128 << 127) + (1u128 << 63));
    assert_eq!(pack((i64::MAX, i64::MAX)), u128::MAX);
}

#[test]
fn unpack_undoes_pack() {
    let cells = [
        (0, 0),
        (1, -1),
        (-1, 1),
        (i64::MIN, i64::MAX),
        (i64::MAX, i64::MIN),
        (123456789, -987654321),
    ];
    for c in cells {
        assert_eq!(unpack(pack(c)), c);
    }
    assert_eq!(unpack(0), (i64::MIN, i64::MIN));
    assert_eq!(unpack(u128::MAX), (i64::MAX, i64::MAX));
}

#[test]
fn new_set_is_empty() {
    let set = LiveSet::new();
    assert!(set.is_empty());
    assert_eq!(set.len(), 0);
    assert!(!set.contains(&(0, 0)));
    assert_eq!(set.cells(), Vec::<Coord>::new());
}

#[test]
fn with_capacity_is_empty_too() {
    let set = LiveSet::with_capacity(64);
    assert!(set.is_empty());
    assert_eq!(set, LiveSet::new());
}

#[test]
fn insert_reports_whether_the_cell_is_new() {
    let mut set = LiveSet::new();
    assert!(set.insert((2, 3)));
    assert!(!set.insert((2, 3)));
    assert!(set.insert((3, 2)));
    assert_eq!(set.len(), 2);
    assert!(set.contains(&(2, 3)));
    assert!(set.contains(&(3, 2)));
    assert!(!set.contains(&(2, 2)));
    assert!(!set.is_empty());
}

#[test]
fn remove_reports_whether_the_cell_was_live() {
    let mut set = LiveSet::from_cells(&vec![(1, 1), (2, 2)]);
    assert!(set.remove(&(1, 1)));
    assert!(!set.remove(&(1, 1)));
    assert!(!set.remove(&(5, 5)));
    assert_eq!(set.len(), 1);
    assert!(!set.contains(&(1, 1)));
    assert!(set.contains(&(2, 2)));
}

#[test]
fn from_cells_keeps_each_cell_once() {
    let set = LiveSet::from_cells(&vec![(0, 0), (1, 0), (0, 0), (1, 0), (0, 1)]);
    assert_eq!(set.len(), 3);
    assert_eq!(sorted(set.cells()), vec![(0, 0), (0, 1), (1, 0)]);
}

#[test]
fn cells_lists_every_cell() {
    let mut set = LiveSet::new();
    for x in -3..4 {
        for y in -2..3 {
            set.insert((x, y));
        }
    }
    let listed = sorted(set.cells());
    assert_eq!(listed.len(), 35);
    assert_eq!(listed[0], (-3, -2));
    assert_eq!(listed[34], (3, 2));
    for c in &listed {
        assert!(set.contains(c));
    }
}

#[test]
fn the_set_tells_x_from_y() {
    let set = LiveSet::from_cells(&vec![(1, 2)]);
    assert!(set.contains(&(1, 2)));
    assert!(!set.contains(&(2, 1)));
    assert!(!set.contains(&(-1, 2)));
    assert!(!set.contains(&(1, -2)));
}

#[test]
fn the_set_holds_the_corners_of_the_plane() {
    let corners = vec![
        (i64::MIN, i64::MIN),
        (i64::MIN, i64::MAX),
        (i64::MAX, i64::MIN),
        (i64::MAX, i64::MAX),
    ];
    let set = LiveSet::from_cells(&corners);
    assert_eq!(set.len(), 4);
    for c in &corners {
        assert!(set.contains(c));
    }
    assert!(!set.contains(&(0, 0)));
    assert_eq!(sorted(set.cells()), sorted(corners));
}

#[test]
fn clone_holds_the_same_cells() {
    let set = LiveSet::from_cells(&vec![(4, 4), (-4, 4), (0, 0)]);
    let mut copy = set.clone();
    assert_eq!(copy, set);
    copy.insert((9, 9));
    assert_eq!(set.len(), 3);
    assert_eq!(copy.len(), 4);
    assert!(!set.contains(&(9, 9)));
}

#[test]
fn sets_are_equal_whatever_the_order_of_insertion() {
    let a = LiveSet::from_cells(&vec![(1, 1), (2, 2), (3, 3)]);
    let b = LiveSet::from_cells(&vec![(3, 3), (1, 1), (2, 2)]);
    let c = LiveSet::from_cells(&vec![(3, 3), (1, 1)]);
    assert_eq!(a, b);
    assert_ne!(a, c);
}
