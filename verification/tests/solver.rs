use bishop_puzzle::geometry::{bishop_delta, bishop_for_each, Dimensions};
use bishop_puzzle::board::{attacked_spaces, board_after_move, hash_board, starting_board, winning_board};
use bishop_puzzle::search::{is_legal_move, solve, Game, SearchOutcome};

fn dims(rows: usize, cols: usize) -> Dimensions {
    Dimensions { rows, cols }
}

fn count(b: &Vec<u8>, v: u8) -> usize {
    b.iter().filter(|&&c| c == v).count()
}

#[test]
fn bishop_targets_from_corner() {
    // 4 rows, 5 cols; from cell 0 only the down-right diagonal exists.
    let d = dims(4, 5);
    let mut t = bishop_for_each(&d, 0);
    t.sort();
    assert_eq!(t, vec![6, 12, 18]);
}

#[test]
fn bishop_targets_cross_both_families() {
    // From cell 7 (row 1, col 2) of a 4x5 board.
    let d = dims(4, 5);
    let mut t = bishop_for_each(&d, 7);
    t.sort();
    assert_eq!(t, vec![1, 3, 11, 13, 15, 19]);
}

#[test]
fn bishop_delta_follows_the_family() {
    let d = dims(4, 5);
    assert_eq!(bishop_delta(&d, 0, 12), 6);
    assert_eq!(bishop_delta(&d, 12, 0), -6);
    assert_eq!(bishop_delta(&d, 4, 8), 4);
    assert_eq!(bishop_delta(&d, 8, 4), -4);
}

#[test]
fn hash_is_base_four_packing() {
    // Digits 1, 0, 2 in base 4: 1*16 + 0*4 + 2.
    assert_eq!(hash_board(&vec![1u8, 0, 2]), 18);
    assert_eq!(hash_board(&vec![0u8, 0, 0]), 0);
}

#[test]
fn hash_tells_distinct_boards_apart() {
    let b1 = vec![1u8, 0, 2, 0];
    let b2 = vec![1u8, 2, 0, 0];
    assert_ne!(hash_board(&b1), hash_board(&b2));
}

#[test]
fn starting_and_winning_hashes() {
    // 2x2 starting board is [1,2,1,2]; winning is [2,1,2,1].
    let mut game = Game::new(2, 2).ok().unwrap();
    let root = game.starting_move();
    assert_eq!(root.board, vec![1u8, 2, 1, 2]);
    assert_eq!(root.hash, 1 * 64 + 2 * 16 + 1 * 4 + 2);
    assert_eq!(game.winning_hash(), 2 * 64 + 1 * 16 + 2 * 4 + 1);
}

#[test]
fn winning_is_cellwise_flip_of_starting() {
    let d = dims(4, 5);
    let s = starting_board(&d);
    let w = winning_board(&d);
    assert_eq!(s.len(), w.len());
    for k in 0..s.len() {
        let expect = if s[k] == 0 { 0 } else { 3 - s[k] };
        assert_eq!(w[k], expect);
    }
    assert_ne!(s, w);
}

#[test]
fn starting_board_places_sides_on_outer_columns() {
    let d = dims(4, 5);
    let s = starting_board(&d);
    for r in 0..4 {
        for c in 0..5 {
            let expect = if c == 0 { 1 } else if c == 4 { 2 } else { 0 };
            assert_eq!(s[r * 5 + c], expect);
        }
    }
}

#[test]
fn attack_overlay_includes_pieces_and_rays() {
    // 2x2 board with a single side-A piece on cell 0: it attacks cell 3.
    let d = dims(2, 2);
    let b = vec![1u8, 0, 0, 0];
    let o = attacked_spaces(&d, &b);
    assert_eq!(o, vec![1u8, 0, 0, 1]);
}

#[test]
fn attack_overlay_merges_both_sides() {
    // 2x2 starting board: A on 0 and 2, B on 1 and 3; every cell ends up
    // occupied or attacked by both sides (value 3).
    let d = dims(2, 2);
    let b = vec![1u8, 2, 1, 2];
    let o = attacked_spaces(&d, &b);
    assert_eq!(o, vec![3u8, 3, 3, 3]);
}

#[test]
fn blocked_and_illegal_moves_are_rejected() {
    let d = dims(2, 2);
    let b = vec![1u8, 2, 1, 2];
    // Destination occupied by the other side (and attacked): illegal.
    assert!(!is_legal_move(&d, &b, 0, 3));
    // Not a diagonal.
    assert!(!is_legal_move(&d, &b, 0, 1));
    // Source empty.
    let e = vec![0u8, 0, 0, 0];
    assert!(!is_legal_move(&d, &e, 0, 3));
}

#[test]
fn a_free_diagonal_move_is_accepted() {
    // Lone A piece on a 3x3 board may take any free diagonal.
    let d = dims(3, 3);
    let mut b = vec![0u8; 9];
    b[0] = 1;
    assert!(is_legal_move(&d, &b, 0, 4));
    assert!(is_legal_move(&d, &b, 0, 8));
    // Put a blocker on the middle cell: the long move is now blocked.
    b[4] = 1;
    assert!(!is_legal_move(&d, &b, 0, 8));
    assert!(!is_legal_move(&d, &b, 0, 4));
}

#[test]
fn moving_into_enemy_attack_is_rejected() {
    // B on cell 8 of a 3x3 board attacks the main diagonal; A on cell 2 may
    // not step onto cell 4.
    let d = dims(3, 3);
    let mut b = vec![0u8; 9];
    b[2] = 1;
    b[8] = 2;
    assert!(!is_legal_move(&d, &b, 2, 4));
    // Cell 6 completes A's anti-diagonal and is not attacked by B.
    assert!(is_legal_move(&d, &b, 2, 6));
}

#[test]
fn legal_move_preserves_piece_counts() {
    let d = dims(3, 3);
    let mut b = vec![0u8; 9];
    b[0] = 1;
    b[2] = 2;
    let a_before = count(&b, 1);
    let b_before = count(&b, 2);
    // Cell 4 is on B's anti-diagonal, so A must go the long way to cell 8.
    assert!(!is_legal_move(&d, &b, 0, 4));
    assert!(is_legal_move(&d, &b, 0, 8));
    let nb = board_after_move(&b, 0, 8);
    assert_eq!(count(&nb, 1), a_before);
    assert_eq!(count(&nb, 2), b_before);
    assert_eq!(count(&nb, 1) + count(&nb, 2), a_before + b_before);
}

#[test]
fn degenerate_dimensions_are_rejected() {
    assert!(solve(1, 1).is_err());
    assert!(solve(3, 1).is_err());
    assert!(solve(0, 5).is_err());
    assert!(solve(5, 0).is_err());
    // Too many cells for the 64-bit hash.
    assert!(solve(6, 6).is_err());
    assert!(Game::new(0, 2).is_err());
    assert!(Game::new(4, 5).is_ok());
}

#[test]
fn tiny_boards_exhaust() {
    match solve(1, 2).ok().unwrap() {
        SearchOutcome::Exhausted => {}
        SearchOutcome::Solved(_) => panic!("a 1x2 board has no legal move"),
    }
    match solve(2, 2).ok().unwrap() {
        SearchOutcome::Exhausted => {}
        SearchOutcome::Solved(_) => panic!("a 2x2 board has no legal move"),
    }
}

#[test]
fn square_board_terminates() {
    // 3x3: the solver must terminate; for this layout the frontier dies out.
    match solve(3, 3).ok().unwrap() {
        SearchOutcome::Exhausted => {}
        SearchOutcome::Solved(path) => {
            assert!(!path.is_empty());
        }
    }
}

#[test]
fn canonical_board_solves_in_thirty_six_moves() {
    let path = match solve(4, 5).ok().unwrap() {
        SearchOutcome::Solved(path) => path,
        SearchOutcome::Exhausted => panic!("the 4x5 board is solvable"),
    };
    assert_eq!(path.len(), 36);
}

#[test]
fn reconstructed_path_is_legal_and_reaches_the_winning_board() {
    let d = dims(4, 5);
    let path = match solve(4, 5).ok().unwrap() {
        SearchOutcome::Solved(path) => path,
        SearchOutcome::Exhausted => panic!("the 4x5 board is solvable"),
    };
    assert!(!path.is_empty());
    let mut b = starting_board(&d);
    for &(i, j) in path.iter() {
        assert!(is_legal_move(&d, &b, i, j));
        b = board_after_move(&b, i, j);
    }
    assert_eq!(b, winning_board(&d));
}
