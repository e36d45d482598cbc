use std::cmp::Reverse;
use priority_queue::PriorityQueue;
use sliding_puzzle::agent::{
    get_heuristic, Agent, Heuristic, Path, SearchOutcome, SearchStrategy, StepOutcome,
};
use sliding_puzzle::puzzle::{ActionType, Puzzle};
use sliding_puzzle::vector::Vector2;

fn grid(v: Vec<u8>) -> Puzzle {
    Puzzle::from_vec(Vector2::new(3, 3), v).unwrap()
}

fn goal_grid() -> Puzzle {
    grid(vec![1, 2, 3, 4, 5, 6, 7, 8, 0])
}

#[test]
fn priority() {
    let dimension = Vector2::new(3, 3);
    let goal = Puzzle::from_vec(dimension, vec![
        1, 2, 3,
        4, 5, 6,
        7, 8, 0]).unwrap();
    let puzzle = Puzzle::from_vec(dimension, vec![
        4, 5, 0,
        6, 1, 8,
        7, 3, 2]).unwrap();
    let puzzle2 = Puzzle::from_vec(dimension, vec![
        1, 2, 3,
        4, 5, 0,
        7, 8, 6]).unwrap();

    let mut frontier = PriorityQueue::<usize, Reverse<u32>>::new();
    let root_id: usize = 0;
    frontier.push(root_id, Reverse(puzzle.heuristic_distances(&goal)));

    let distance = puzzle2.heuristic_distances(&goal);
    let node_id: usize = 1;
    frontier.push(node_id, Reverse(distance));

    let pop1 = frontier.pop().unwrap();
    assert_eq!(pop1.1, Reverse(1));
    assert_eq!(frontier.pop().unwrap().1, Reverse(14));
}

#[test]
fn solved_at_once_when_initial_is_goal() {
    let mut agent = Agent::new(goal_grid(), goal_grid());
    match agent.uniform_cost_search(SearchStrategy::AStar, Heuristic::OrthoDistance, 10) {
        SearchOutcome::Solved(sol) => {
            assert_eq!(sol.steps, 0);
            assert_eq!(sol.state_path.len(), 1);
            assert_eq!(sol.state_path[0], goal_grid());
        },
        _ => panic!("expected a solution"),
    }
}

#[test]
fn solved_in_one_step() {
    let initial = grid(vec![1, 2, 3, 4, 5, 0, 7, 8, 6]);
    let mut agent = Agent::new(initial.clone(), goal_grid());
    match agent.uniform_cost_search(SearchStrategy::AStar, Heuristic::OrthoDistance, 100) {
        SearchOutcome::Solved(sol) => {
            assert_eq!(sol.steps, 1);
            assert_eq!(sol.state_path.len(), 2);
            assert_eq!(sol.state_path[0], goal_grid());
            assert_eq!(sol.state_path[1], initial);
            assert_eq!(sol.state_path[1].act(ActionType::Down), sol.state_path[0]);
        },
        _ => panic!("expected a solution"),
    }
}

#[test]
fn unsolvable_start_exhausts_the_frontier() {
    let initial = grid(vec![4, 5, 0, 6, 1, 8, 7, 3, 2]);
    let mut agent = Agent::new(initial, goal_grid());
    let outcome = agent.uniform_cost_search(SearchStrategy::AStar, Heuristic::Misplaced, 1_000_000);
    assert!(matches!(outcome, SearchOutcome::Exhausted));
    assert_eq!(agent.frontier_len(), 0);
}

#[test]
fn small_budget_is_exceeded() {
    let initial = grid(vec![4, 5, 0, 6, 1, 8, 7, 3, 2]);
    let mut agent = Agent::new(initial, goal_grid());
    let outcome = agent.uniform_cost_search(SearchStrategy::BestFirst, Heuristic::Misplaced, 50);
    assert!(matches!(outcome, SearchOutcome::BudgetExceeded));
    let mut idle = Agent::new(goal_grid(), goal_grid());
    assert!(matches!(
        idle.uniform_cost_search(SearchStrategy::AStar, Heuristic::Misplaced, 0),
        SearchOutcome::BudgetExceeded
    ));
}

fn check_path(initial: &Puzzle, sol: &sliding_puzzle::agent::Solution) {
    assert_eq!(sol.state_path[0], goal_grid());
    assert_eq!(sol.state_path.last().unwrap(), initial);
    assert_eq!(sol.steps as usize + 1, sol.state_path.len());
    for w in sol.state_path.windows(2) {
        let moves = [ActionType::Up, ActionType::Down, ActionType::Left, ActionType::Right];
        assert!(moves.iter().any(|m| w[1].act(*m) == w[0]));
    }
}

fn solves_a_solvable_start(strategy: SearchStrategy, heuristic: Heuristic) {
    let initial = grid(vec![4, 1, 3, 0, 2, 6, 7, 5, 8]);
    let mut agent = Agent::new(initial.clone(), goal_grid());
    match agent.uniform_cost_search(strategy, heuristic, 1_000_000) {
        SearchOutcome::Solved(sol) => check_path(&initial, &sol),
        _ => panic!("expected a solution"),
    }
}

#[test]
fn best_first_misplaced_solves() {
    solves_a_solvable_start(SearchStrategy::BestFirst, Heuristic::Misplaced);
}

#[test]
fn best_first_manhattan_solves() {
    solves_a_solvable_start(SearchStrategy::BestFirst, Heuristic::OrthoDistance);
}

#[test]
fn best_first_inversions_solves() {
    solves_a_solvable_start(SearchStrategy::BestFirst, Heuristic::Inversions);
}

#[test]
fn astar_misplaced_solves() {
    solves_a_solvable_start(SearchStrategy::AStar, Heuristic::Misplaced);
}

#[test]
fn astar_manhattan_solves() {
    solves_a_solvable_start(SearchStrategy::AStar, Heuristic::OrthoDistance);
}

#[test]
fn astar_inversions_solves() {
    solves_a_solvable_start(SearchStrategy::AStar, Heuristic::Inversions);
}

#[test]
fn astar_manhattan_finds_a_shortest_path() {
    let initial = grid(vec![4, 1, 3, 0, 2, 6, 7, 5, 8]);
    let mut agent = Agent::new(initial.clone(), goal_grid());
    match agent.uniform_cost_search(SearchStrategy::AStar, Heuristic::OrthoDistance, 1_000_000) {
        SearchOutcome::Solved(sol) => {
            check_path(&initial, &sol);
            assert_eq!(sol.steps, 5);
        },
        _ => panic!("expected a solution"),
    }
}

#[test]
fn cheaper_path_replaces_the_pending_entry() {
    let root = grid(vec![1, 2, 3, 4, 0, 5, 7, 8, 6]);
    let mut agent = Agent::new(root.clone(), goal_grid());
    assert!(matches!(
        agent.search_step(SearchStrategy::AStar, Heuristic::Inversions),
        StepOutcome::Expanded
    ));
    let s = root.act(ActionType::Up);
    assert_eq!(agent.frontier_len(), 4);
    assert_eq!(agent.frontier_cost(&s), Some(5));
    assert!(agent.replace_if_better(0, Path::new(s.clone(), ActionType::Up, 3)));
    assert_eq!(agent.frontier_len(), 4);
    assert_eq!(agent.frontier_cost(&s), Some(3));
    assert!(!agent.replace_if_better(0, Path::new(s.clone(), ActionType::Up, 4)));
    assert_eq!(agent.frontier_cost(&s), Some(3));
    assert_eq!(agent.frontier_cost(&root), None);
}

#[test]
fn one_step_at_a_time() {
    let initial = grid(vec![1, 2, 3, 4, 5, 0, 7, 8, 6]);
    let mut agent = Agent::new(initial.clone(), goal_grid());
    assert!(matches!(
        agent.search_step(SearchStrategy::AStar, Heuristic::OrthoDistance),
        StepOutcome::Expanded
    ));
    assert_eq!(agent.frontier_cost(&goal_grid()), Some(1));
    match agent.search_step(SearchStrategy::AStar, Heuristic::OrthoDistance) {
        StepOutcome::Goal(sol) => {
            assert_eq!(sol.steps, 1);
            assert_eq!(sol.state_path, vec![goal_grid(), initial]);
        },
        _ => panic!("expected the goal"),
    }
    let mut done = Agent::new(goal_grid(), goal_grid());
    assert!(matches!(
        done.search_step(SearchStrategy::BestFirst, Heuristic::Misplaced),
        StepOutcome::Goal(_)
    ));
    assert!(matches!(
        done.search_step(SearchStrategy::BestFirst, Heuristic::Misplaced),
        StepOutcome::Empty
    ));
}

#[test]
fn heuristic_selection() {
    let g = goal_grid();
    let p = grid(vec![4, 5, 0, 6, 1, 8, 7, 3, 2]);
    assert_eq!(get_heuristic(&p, &g, Heuristic::Misplaced), 7);
    assert_eq!(get_heuristic(&p, &g, Heuristic::OrthoDistance), 14);
    assert_eq!(get_heuristic(&p, &g, Heuristic::Inversions), 15);
}

#[test]
fn configuration_names() {
    assert_eq!(SearchStrategy::BestFirst.to_string(), "Best First");
    assert_eq!(SearchStrategy::AStar.to_string(), "AStar");
    assert_eq!(Heuristic::Misplaced.to_string(), "Misplaced");
    assert_eq!(Heuristic::OrthoDistance.to_string(), "Orthogonal Distance");
    assert_eq!(Heuristic::Inversions.to_string(), "Inversions");
}

#[test]
fn pending_cost_lookup() {
    let root = grid(vec![1, 2, 3, 4, 0, 5, 7, 8, 6]);
    let agent = Agent::new(root.clone(), goal_grid());
    assert_eq!(agent.frontier_len(), 1);
    assert_eq!(agent.frontier_cost(&root), Some(0));
    assert_eq!(agent.frontier_cost(&goal_grid()), None);
}
