use sliding_puzzle::puzzle::{ActionType, Puzzle, PuzzleError};
use sliding_puzzle::vector::Vector2;

fn grid(v: Vec<u8>) -> Puzzle {
    Puzzle::from_vec(Vector2::new(3, 3), v).unwrap()
}

fn goal_grid() -> Puzzle {
    grid(vec![1, 2, 3, 4, 5, 6, 7, 8, 0])
}

#[test]
fn goal() {
    let dimension = Vector2::new(3, 3);
    let goal = Puzzle::from_vec(dimension, vec![1, 2, 3, 4, 5, 6, 7, 8, 0]).unwrap();
    let puzzle = Puzzle::from_vec(dimension, vec![4, 5, 0, 6, 1, 8, 7, 3, 2]).unwrap();
    assert_ne!(goal, puzzle);
}

#[test]
fn heuristics() {
    let dimension = Vector2::new(3, 3);
    let goal = Puzzle::from_vec(dimension, vec![1, 2, 3, 4, 5, 6, 7, 8, 0]).unwrap();
    let puzzle = Puzzle::from_vec(dimension, vec![4, 5, 0, 6, 1, 8, 7, 3, 2]).unwrap();
    assert_eq!(goal.heuristic_misplaced(&goal), 0);
    assert_eq!(goal.heuristic_distances(&goal), 0);
    assert_eq!(puzzle.heuristic_misplaced(&goal), 7);
    assert_eq!(puzzle.heuristic_distances(&goal), 14);
}

#[test]
fn act() {
    let dimension = Vector2::new(3, 3);
    let goal = Puzzle::from_vec(dimension, vec![
        1, 2, 3,
        4, 5, 6,
        7, 8, 0]).unwrap();

    let new = Puzzle::from_vec(dimension, vec![
        1, 2, 3,
        4, 5, 0,
        7, 8, 6]).unwrap();
    let act = goal.act(ActionType::Up);
    assert_eq!(act, new);

    let new2 = Puzzle::from_vec(dimension, vec![
        1, 2, 3,
        4, 0, 5,
        7, 8, 6]).unwrap();
    let act2 = act.act(ActionType::Left);
    assert_eq!(new2, act2);
}

#[test]
fn solvable() {
    let dimension = Vector2::new(3, 3);
    let mut puzzle = vec![
        Puzzle::from_vec(dimension, vec![1, 2, 3, 4, 5, 6, 7, 8, 0]).unwrap(),
        Puzzle::from_vec(dimension, vec![4, 5, 0, 6, 1, 8, 7, 3, 2]).unwrap(),
        Puzzle::from_vec(dimension, vec![4, 1, 3, 0, 2, 6, 7, 5, 8]).unwrap(),
    ];
    let mut random_puzzle = Puzzle::new(dimension);
    while !random_puzzle.test_solvable() {
        random_puzzle = Puzzle::new(dimension);
    }
    puzzle.push(random_puzzle);

    assert!(puzzle[0].test_solvable());
    assert!(!puzzle[1].test_solvable());
    assert!(puzzle[2].test_solvable());
    assert!(puzzle[3].test_solvable());
}

#[test]
fn construction_keeps_the_arrangement() {
    let p = Puzzle::from_vec(Vector2::new(2, 3), vec![3, 0, 5, 1, 2, 4]).unwrap();
    assert_eq!(p.to_vec(), vec![3, 0, 5, 1, 2, 4]);
    assert_eq!(p.dimension(), Vector2::new(2, 3));
    assert_eq!(p.read_at_pos(Vector2::new(0, 1)), 0);
    assert_eq!(p.read_at_pos(Vector2::new(1, 2)), 4);
}

#[test]
fn construction_rejects_wrong_length() {
    let r = Puzzle::from_vec(Vector2::new(3, 3), vec![1, 2, 3, 4, 5, 6, 7, 0]);
    assert_eq!(r.err(), Some(PuzzleError::InvalidArrangement));
}

#[test]
fn construction_rejects_duplicate_label() {
    let r = Puzzle::from_vec(Vector2::new(3, 3), vec![1, 1, 3, 4, 5, 6, 7, 8, 0]);
    assert_eq!(r.err(), Some(PuzzleError::InvalidArrangement));
}

#[test]
fn construction_rejects_missing_blank() {
    let r = Puzzle::from_vec(Vector2::new(3, 3), vec![1, 2, 3, 4, 5, 6, 7, 8, 9]);
    assert_eq!(r.err(), Some(PuzzleError::InvalidArrangement));
}

#[test]
fn construction_rejects_empty_dimension() {
    let r = Puzzle::from_vec(Vector2::new(0, 3), vec![]);
    assert_eq!(r.err(), Some(PuzzleError::InvalidArrangement));
}

#[test]
fn random_grid_is_a_permutation() {
    let mut seen_other_order = false;
    for _ in 0..20 {
        let p = Puzzle::new(Vector2::new(3, 3));
        let mut labels = p.to_vec();
        if labels != vec![0, 1, 2, 3, 4, 5, 6, 7, 8] {
            seen_other_order = true;
        }
        labels.sort();
        assert_eq!(labels, vec![0, 1, 2, 3, 4, 5, 6, 7, 8]);
        assert!(Puzzle::from_vec(Vector2::new(3, 3), p.to_vec()).is_ok());
    }
    assert!(seen_other_order);
}

#[test]
fn boundary_move_is_a_no_op() {
    let g = goal_grid();
    assert_eq!(g.act(ActionType::Down).to_vec(), g.to_vec());
    assert_eq!(g.act(ActionType::Right).to_vec(), g.to_vec());
    assert_eq!(g.act(ActionType::NoMove).to_vec(), g.to_vec());
    let corner = grid(vec![0, 1, 2, 3, 4, 5, 6, 7, 8]);
    assert_eq!(corner.act(ActionType::Up).to_vec(), corner.to_vec());
    assert_eq!(corner.act(ActionType::Left).to_vec(), corner.to_vec());
}

#[test]
fn opposite_moves_cancel() {
    let p = grid(vec![4, 1, 3, 0, 2, 6, 7, 5, 8]);
    assert_eq!(p.act(ActionType::Up).act(ActionType::Down), p);
    assert_eq!(p.act(ActionType::Down).act(ActionType::Up), p);
    assert_eq!(p.act(ActionType::Right).act(ActionType::Left), p);
    let q = grid(vec![4, 1, 3, 2, 0, 6, 7, 5, 8]);
    assert_eq!(q.act(ActionType::Left).act(ActionType::Right), q);
}

#[test]
fn misplaced_is_zero_only_at_goal() {
    let g = goal_grid();
    let one_off = grid(vec![1, 2, 3, 4, 5, 0, 7, 8, 6]);
    assert_eq!(g.heuristic_misplaced(&g), 0);
    assert!(g.is_goal(&g));
    assert_eq!(one_off.heuristic_misplaced(&g), 1);
    assert!(!one_off.is_goal(&g));
}

#[test]
fn manhattan_is_zero_only_at_goal() {
    let g = goal_grid();
    let one_off = grid(vec![1, 2, 3, 4, 5, 0, 7, 8, 6]);
    assert_eq!(g.heuristic_distances(&g), 0);
    assert_eq!(one_off.heuristic_distances(&g), 1);
    let far = grid(vec![0, 8, 7, 6, 5, 4, 3, 2, 1]);
    assert_eq!(far.heuristic_distances(&g), 20);
    assert_eq!(far.heuristic_misplaced(&g), 7);
}

#[test]
fn inversion_counts() {
    assert_eq!(goal_grid().inversions(), 0);
    assert_eq!(grid(vec![4, 5, 0, 6, 1, 8, 7, 3, 2]).inversions(), 15);
    assert_eq!(grid(vec![0, 8, 7, 6, 5, 4, 3, 2, 1]).inversions(), 28);
}

#[test]
fn parity_is_kept_by_moves_on_odd_width() {
    let p = grid(vec![4, 1, 3, 0, 2, 6, 7, 5, 8]);
    for m in [ActionType::Up, ActionType::Down, ActionType::Left, ActionType::Right] {
        assert_eq!(p.act(m).test_solvable(), p.test_solvable());
    }
    let q = grid(vec![4, 5, 0, 6, 1, 8, 7, 3, 2]);
    for m in [ActionType::Up, ActionType::Down, ActionType::Left, ActionType::Right] {
        assert_eq!(q.act(m).test_solvable(), q.test_solvable());
    }
}

#[test]
fn parity_flips_on_vertical_moves_of_even_width() {
    let p = Puzzle::from_vec(Vector2::new(2, 2), vec![1, 2, 3, 0]).unwrap();
    assert!(p.test_solvable());
    assert!(!p.act(ActionType::Up).test_solvable());
    assert!(p.act(ActionType::Left).test_solvable());
}

#[test]
fn vector_distance_and_index() {
    let a = Vector2::new(2, -1);
    let b = Vector2::new(-3, 4);
    assert_eq!(a.distance_ortho(&b), 10);
    assert_eq!(b.distance_ortho(&a), 10);
    assert_eq!(Vector2::new(1, 2).index(), (1, 2));
    assert_eq!(Vector2::new(7, 9).x, 7);
}

#[test]
fn rendering_small_grid() {
    assert_eq!(goal_grid().to_string(), "1 2 3 \n4 5 6 \n7 8 _ \n");
}

#[test]
fn rendering_wide_grid() {
    let p = Puzzle::from_vec(
        Vector2::new(4, 4),
        vec![1, 2, 3, 4, 5, 6, 7, 8, 9, 10, 11, 12, 13, 14, 15, 0],
    )
    .unwrap();
    assert_eq!(
        p.to_string(),
        " 1  2  3  4 \n 5  6  7  8 \n 9 10 11 12 \n13 14 15  _ \n"
    );
}

#[test]
fn vector_dim() {
    assert_eq!(Vector2::new(3, 4).dim(), (3, 4));
}
