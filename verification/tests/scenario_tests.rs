use npuzzle::algorithm::Algorithm;
use npuzzle::dfs::Dfs;
use npuzzle::direction::Dir;
use npuzzle::node::Node;
use npuzzle::order::Order;
use npuzzle::problem::Problem;
use npuzzle::solver::{AStarSolver, BfsSolver, DfsSolver};

// A 2x2 board that is already solved: every strategy returns at once
// with result length 0 and reached depth 0.
#[test]
fn test_solved_board_returns_immediately() {
    let board = vec![vec![1, 2], vec![3, 0]];

    let mut bfs = BfsSolver::new(Order::Perm(Dir::values()));
    let s = bfs.solve(Problem::new(board.clone())).unwrap();
    assert_eq!(s.result_len, 0);
    assert_eq!(s.reached_depth, 0);
    assert!(s.path.is_empty());

    let mut dfs = DfsSolver::new(Order::Perm(Dir::values()));
    let s = dfs.solve(Problem::new(board.clone())).unwrap();
    assert_eq!(s.result_len, 0);
    assert_eq!(s.reached_depth, 0);

    let mut astar = AStarSolver::new(Order::Manh);
    let s = astar.solve(Problem::new(board)).unwrap();
    assert_eq!(s.result_len, 0);
    assert_eq!(s.reached_depth, 0);
}

// A 2x2 board one move from solved: every strategy returns a single
// move, the one that swaps the blank with tile 2.
#[test]
fn test_one_move_board() {
    let board = vec![vec![1, 0], vec![3, 2]];

    let mut bfs = BfsSolver::new(Order::Perm(Dir::values()));
    let s = bfs.solve(Problem::new(board.clone())).unwrap();
    assert_eq!(s.result_len, 1);
    assert_eq!(s.path, vec![Dir::Down]);

    let mut dfs = DfsSolver::new(Order::Perm(Dir::values()));
    let s = dfs.solve(Problem::new(board.clone())).unwrap();
    assert_eq!(s.result_len, 1);
    assert_eq!(s.path, vec![Dir::Down]);

    let mut astar = AStarSolver::new(Order::Hamm);
    let s = astar.solve(Problem::new(board)).unwrap();
    assert_eq!(s.result_len, 1);
    assert_eq!(s.path, vec![Dir::Down]);
}

// The solved 4x4 arrangement passes the solved check.
#[test]
fn test_solved_4x4_check() {
    let state = Node::new(vec![
        vec![1, 2, 3, 4],
        vec![5, 6, 7, 8],
        vec![9, 10, 11, 12],
        vec![13, 14, 15, 0],
    ]);
    assert!(state.is_solved());
}

// Best-first with Manhattan solves a 4x4 instance and reports positive
// counters and a non-negative reached depth.
#[test]
fn test_astar_manhattan_4x4_metrics() {
    let problem = Problem::new(vec![
        vec![5, 1, 2, 3],
        vec![0, 6, 7, 4],
        vec![9, 10, 11, 8],
        vec![13, 14, 15, 12],
    ]);
    let mut astar = AStarSolver::new(Order::Manh);
    let s = astar.solve(problem).unwrap();
    assert!(s.visited_count > 0);
    assert!(s.processed_count > 0);
    assert!(s.reached_depth >= 0);
}

// An empty board is rejected before any search begins.
#[test]
fn test_empty_board_rejected() {
    let empty: Vec<u8> = Vec::new();
    assert!(!Node::is_board_valid(&empty));
    assert!(Problem::from_string("").is_err());
}

// A 3x3 instance whose Manhattan estimate already exceeds the depth
// bound cannot be solved within it: depth-first reports the failure
// sentinel instead of a wrong answer.
#[test]
fn test_dfs_fails_beyond_depth_bound() {
    let board = vec![vec![8, 6, 7], vec![2, 5, 4], vec![3, 0, 1]];
    let flat: Vec<u8> = board.clone().into_iter().flatten().collect();
    // The Manhattan estimate never overestimates, so a score above the
    // bound certifies that no solution exists within it.
    assert!(Order::Manh.get_heuristic(&flat, 0) > 20);

    let mut dfs = Dfs::new();
    let result = dfs.run(Problem::new(board), &Order::Perm(Dir::values()));
    assert!(result.is_none());
    assert_eq!(dfs.get_reached_depth(), -1);
}
