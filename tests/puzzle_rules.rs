use slide_puzzle::puzzle::{
    apply_move, blank_tile_num, find_blank, generate_tiles, is_permutation, is_solvable,
};
use slide_puzzle::Direction;

#[test]
fn generated_starts_are_solvable_permutations() {
    for n in 2..6usize {
        for _ in 0..1000 {
            let tiles = generate_tiles(n);
            assert!(is_permutation(&tiles, n * n));
            assert!(is_solvable(n, &tiles));
        }
    }
}

#[test]
fn generated_starts_are_shuffled() {
    let home: Vec<usize> = (0..16).collect();
    let moved = (0..50).any(|_| generate_tiles(4) != home);
    assert!(moved);
}

#[test]
fn blank_marker_is_last_value() {
    assert_eq!(blank_tile_num(2), 3);
    assert_eq!(blank_tile_num(4), 15);
}

#[test]
fn finds_the_gap() {
    assert_eq!(find_blank(2, &vec![0, 3, 1, 2]), 1);
    assert_eq!(find_blank(3, &vec![8, 0, 1, 2, 3, 4, 5, 6, 7]), 0);
}

#[test]
fn parity_rule_on_odd_board() {
    // one inversion (2 before 1)
    assert!(!is_solvable(3, &vec![0, 2, 1, 3, 4, 5, 6, 7, 8]));
    assert!(is_solvable(3, &vec![0, 1, 2, 3, 4, 5, 6, 7, 8]));
    // the gap is not counted
    assert!(is_solvable(3, &vec![8, 0, 1, 2, 3, 4, 5, 6, 7]));
}

#[test]
fn parity_rule_on_even_board() {
    // gap in the bottom row (row one from the bottom), no inversions
    assert!(is_solvable(2, &vec![0, 1, 2, 3]));
    // gap in the top row (row two from the bottom), no inversions
    assert!(!is_solvable(2, &vec![0, 3, 1, 2]));
    // gap in the top row, one inversion
    assert!(is_solvable(2, &vec![3, 1, 0, 2]));
    // swapping two tiles of the home board makes it unsolvable
    let mut t: Vec<usize> = (0..16).collect();
    t.swap(0, 1);
    assert!(!is_solvable(4, &t));
}

#[test]
fn permutation_check() {
    assert!(is_permutation(&vec![2, 0, 1], 3));
    assert!(!is_permutation(&vec![2, 0, 0], 3));
    assert!(!is_permutation(&vec![0, 1, 3], 3));
    assert!(!is_permutation(&vec![0, 1], 3));
    assert!(is_permutation(&vec![], 0));
}

#[test]
fn moves_follow_the_offsets() {
    // gap at position 4, the centre of a 3 x 3 board
    let start = vec![0, 1, 2, 3, 8, 4, 5, 6, 7];
    let mut t = start.clone();
    assert_eq!(apply_move(3, &mut t, Direction::Up), Some((4, 7)));
    assert_eq!(t, vec![0, 1, 2, 3, 6, 4, 5, 8, 7]);
    let mut t = start.clone();
    assert_eq!(apply_move(3, &mut t, Direction::Down), Some((4, 1)));
    let mut t = start.clone();
    assert_eq!(apply_move(3, &mut t, Direction::Left), Some((4, 5)));
    let mut t = start.clone();
    assert_eq!(apply_move(3, &mut t, Direction::Right), Some((4, 3)));
}

#[test]
fn move_then_opposite_restores() {
    let start = vec![0, 1, 2, 3, 8, 4, 5, 6, 7];
    for (d, o) in [
        (Direction::Up, Direction::Down),
        (Direction::Down, Direction::Up),
        (Direction::Left, Direction::Right),
        (Direction::Right, Direction::Left),
    ] {
        let mut t = start.clone();
        assert!(apply_move(3, &mut t, d).is_some());
        assert!(apply_move(3, &mut t, o).is_some());
        assert_eq!(t, start);
    }
}

#[test]
fn moves_against_an_edge_do_nothing() {
    // gap in the top-left corner
    let start = vec![8, 0, 1, 2, 3, 4, 5, 6, 7];
    for d in [Direction::Down, Direction::Right] {
        let mut t = start.clone();
        assert_eq!(apply_move(3, &mut t, d), None);
        assert_eq!(t, start);
    }
    // gap in the bottom-right corner
    let start: Vec<usize> = (0..9).collect();
    for d in [Direction::Up, Direction::Left] {
        let mut t = start.clone();
        assert_eq!(apply_move(3, &mut t, d), None);
        assert_eq!(t, start);
    }
}

#[test]
fn move_sequences_keep_a_permutation() {
    let mut t = generate_tiles(4);
    let dirs = [Direction::Up, Direction::Left, Direction::Left, Direction::Down, Direction::Right];
    for k in 0..500usize {
        apply_move(4, &mut t, dirs[(k * 7 + k / 3) % 5]);
        assert!(is_permutation(&t, 16));
    }
}
