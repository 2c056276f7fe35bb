use klotski::generic_solver::{Confined, Puzzle, Solver, VisitedSet};
use std::collections::{BTreeSet, HashSet};

fn solve_i32_game() -> Option<Vec<i32>> {
    let config = Solver::<i32>::new(1);
    config.solve()
}

#[test]
fn i32_game_test() {
    assert_eq!(solve_i32_game(), Some(vec![1, 0, 2, 4, 6, 8, 10]));
}

#[test]
fn i32_game_with_ordered_set() {
    let solver = Solver::<i32, BTreeSet<i32>>::new(1);
    assert_eq!(solver.solve(), Some(vec![1, 0, 2, 4, 6, 8, 10]));
}

#[test]
fn i32_game_is_deterministic() {
    let first = Solver::<i32>::new(1).solve();
    let second = Solver::<i32>::new(1).solve();
    assert_eq!(first, second);
}

#[test]
fn i32_game_starting_at_goal() {
    assert_eq!(Solver::<i32>::new(10).solve(), Some(vec![10]));
}

#[test]
fn i32_game_from_above() {
    assert_eq!(Solver::<i32>::new(12).solve(), Some(vec![12, 11, 10]));
}

#[test]
fn i32_moves_and_steps() {
    assert_eq!(5i32.get_possible_moves(), vec![-1, 2]);
    assert_eq!(5i32.make_move(-1), 4);
    assert_eq!(5i32.make_move(2), 7);
    assert_eq!(i32::MAX.get_possible_moves(), vec![-1]);
    assert_eq!(i32::MIN.get_possible_moves(), vec![2]);
    assert!(10i32.is_final());
    assert!(!9i32.is_final());
}

#[test]
fn visited_sets_track_membership() {
    let mut h: HashSet<i32> = VisitedSet::new();
    assert!(!h.mem(&3));
    h.add(3);
    assert!(h.mem(&3));
    assert!(!h.mem(&4));
    let mut b: BTreeSet<i32> = VisitedSet::new();
    assert!(!b.mem(&3));
    b.add(3);
    b.add(3);
    assert!(b.mem(&3));
    assert_eq!(b.len(), 1);
}

#[test]
fn unreachable_goal_gives_no_solution() {
    let solver = Solver::<Confined>::new(Confined { value: 1, low: -5, high: 50, goal: 1000000 });
    assert_eq!(solver.solve(), None);
}

#[test]
fn confined_game_reaches_goal_inside_window() {
    let solver = Solver::<Confined>::new(Confined { value: 1, low: 0, high: 20, goal: 7 });
    let path = solver.solve().expect("a solution");
    let values: Vec<i32> = path.iter().map(|c| c.value).collect();
    assert_eq!(values, vec![1, 3, 5, 7]);
}

#[test]
fn confined_game_respects_window() {
    let at_edge = Confined { value: 0, low: 0, high: 1, goal: 5 };
    assert_eq!(at_edge.get_possible_moves(), Vec::<i32>::new());
    let inside = Confined { value: 1, low: 0, high: 3, goal: 5 };
    assert_eq!(inside.get_possible_moves(), vec![-1, 2]);
    assert_eq!(inside.make_move(2).value, 3);
}
