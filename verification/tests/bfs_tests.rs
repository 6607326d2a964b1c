use npuzzle::algorithm::Algorithm;
use npuzzle::bfs::Bfs;
use npuzzle::direction::Dir;
use npuzzle::order::Order;
use npuzzle::problem::Problem;

// Helper function to set up a solved state
fn solved_state() -> Problem {
    Problem::new(vec![
        vec![1, 2, 3, 4],
        vec![5, 6, 7, 8],
        vec![9, 10, 11, 12], // Correct final state
        vec![13, 14, 15, 0], // Correct final state
    ])
}

// Helper function to set up an unsolved state
fn unsolved_state() -> Problem {
    Problem::new(vec![
        vec![5, 1, 2, 3],
        vec![0, 6, 7, 4],
        vec![9, 10, 11, 8],   // Correct final state
        vec![13, 14, 15, 12], // Correct final state
    ])
}

// Test if BFS finds a solved state immediately
#[test]
fn test_bfs_immediate_solution() {
    let solved_state = solved_state();
    let mut bfs = Bfs::new();

    // Since the initial state is solved, BFS should return the solved state immediately
    let result = bfs.run(solved_state.clone(), &Order::Perm(Dir::values()));
    assert!(result.is_some());
    assert_eq!(
        *result.unwrap().get_board(),
        solved_state
            .get()
            .iter()
            .flatten()
            .copied()
            .collect::<Vec<u8>>()
    );
}

// Test if BFS can solve a puzzle
#[test]
fn test_bfs_solving_puzzle() {
    let unsolved_state = unsolved_state();
    let mut bfs = Bfs::new();

    // BFS should be able to find the solved state
    let result = bfs.run(unsolved_state.clone(), &Order::Perm(Dir::values()));
    assert!(result.is_some());
    assert_eq!(
        *result.unwrap().get_board(),
        solved_state()
            .get()
            .iter()
            .flatten()
            .copied()
            .collect::<Vec<u8>>()
    );
}

// Test BFS on a very small puzzle (e.g., 2x2)
#[test]
fn test_bfs_small_puzzle() {
    let small_unsolved_board = Problem::new(vec![
        vec![1, 0],
        vec![3, 2], // Misplaced pieces
    ]);
    let small_solved_board = Problem::new(vec![
        vec![1, 2],
        vec![3, 0], // Correct final state
    ]);
    let unsolved_state = small_unsolved_board;
    let solved_state = small_solved_board;
    let mut bfs = Bfs::new();

    // BFS should return the solved state for the 2x2 puzzle
    let result = bfs.run(unsolved_state, &Order::Perm(Dir::values()));
    assert!(result.is_some());
    assert_eq!(
        *result.unwrap().get_board(),
        solved_state
            .get()
            .iter()
            .flatten()
            .copied()
            .collect::<Vec<u8>>()
    );
}
