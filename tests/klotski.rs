use klotski::generic_solver::Puzzle;
use klotski::klotski::{Direction, Klotski, Move, MoveSet, Piece};

#[test]
fn move_indices_round_trip() {
    for n in 0..40u64 {
        assert_eq!(Move::from_u64(n).to_u64(), n);
    }
    let m = Move { piece: Piece::S0, direction: Direction::West };
    assert_eq!(m.to_u64(), 25);
    assert_eq!(Move::from_u64(25), m);
}

#[test]
fn move_set_removes_moves() {
    let mut set = MoveSet::new();
    let m = Move { piece: Piece::H0, direction: Direction::East };
    let other = Move { piece: Piece::H0, direction: Direction::West };
    assert!(set.is_allowed(m));
    set.remove(m);
    assert!(!set.is_allowed(m));
    assert!(set.is_allowed(other));
}

#[test]
fn move_set_iterates_in_index_order() {
    let mut set = MoveSet::new();
    for n in 0..40u64 {
        if n != 3 && n != 17 {
            set.remove(Move::from_u64(n));
        }
    }
    let mut it = set.into_iter();
    assert_eq!(it.next(), Some(Move::from_u64(3)));
    assert_eq!(it.next(), Some(Move::from_u64(17)));
    assert_eq!(it.next(), None);
}

#[test]
fn neighbours_stay_on_board() {
    assert_eq!(Direction::North.from(0, 0), None);
    assert_eq!(Direction::South.from(2, 3), Some((2, 4)));
    assert_eq!(Direction::South.from(2, 4), None);
    assert_eq!(Direction::West.from(0, 2), None);
    assert_eq!(Direction::East.from(3, 1), None);
    assert_eq!(Direction::East.from(1, 1), Some((2, 1)));
}

#[test]
fn initial_board_moves() {
    let board = Klotski::initial();
    assert!(!board.is_final());
    let moves = board.get_possible_moves();
    assert_eq!(
        moves,
        vec![
            Move { piece: Piece::C0, direction: Direction::South },
            Move { piece: Piece::C1, direction: Direction::South },
            Move { piece: Piece::C3, direction: Direction::West },
            Move { piece: Piece::C2, direction: Direction::East },
        ]
    );
}

#[test]
fn making_a_move_slides_the_piece() {
    let board = Klotski::initial();
    let m = Move { piece: Piece::C0, direction: Direction::South };
    let next = board.make_move(m);
    assert_ne!(next, board);
    let back = Move { piece: Piece::C0, direction: Direction::North };
    assert!(next.get_possible_moves().contains(&back));
    assert_eq!(next.make_move(back), board);
}
