use npuzzle::algorithm::Algorithm;
use npuzzle::astar::AStar;
use npuzzle::order::Order;
use npuzzle::problem::Problem;

// Helper function to set up a solved state
fn solved_state() -> Problem {
    Problem::new(vec![
        vec![1, 2, 3, 4],
        vec![5, 6, 7, 8],
        vec![9, 10, 11, 12], // Correct final state
        vec![13, 14, 15, 0], // Correct final state
    ])
}

// Helper function to set up an unsolved state
fn unsolved_state() -> Problem {
    Problem::new(vec![
        vec![1, 2, 3, 4],
        vec![5, 6, 7, 8],
        vec![9, 10, 11, 0],
        vec![13, 14, 15, 12], // Correct final state
    ])
}

// Test if BFS finds a solved state immediately
#[test]
fn test_astar_immediate_solution() {
    let solved_state = solved_state();
    let mut astar = AStar::new();

    // Since the initial state is solved, Astar should return the solved state immediately
    let result = astar.run(solved_state.clone(), &Order::Manh);
    assert!(result.is_some());
    assert_eq!(
        *result.unwrap().get_board(),
        solved_state
            .get()
            .iter()
            .flatten()
            .copied()
            .collect::<Vec<u8>>()
    );
}

// Test if Astar can solve a puzzle
#[test]
fn test_astar_solving_puzzle() {
    let unsolved_state = unsolved_state();
    let mut astar = AStar::new();

    // Astar should be able to find the solved state
    let result = astar.run(unsolved_state.clone(), &Order::Manh);
    assert!(result.is_some());
    assert_eq!(
        *result.unwrap().get_board(),
        solved_state()
            .get()
            .iter()
            .flatten()
            .copied()
            .collect::<Vec<u8>>()
    );
}

// Test Astar on a very small puzzle (e.g., 2x2)
#[test]
fn test_astar_small_puzzle() {
    let small_unsolved_board = Problem::new(vec![
        vec![1, 0],
        vec![3, 2], // Misplaced pieces
    ]);
    let small_solved_board = vec![
        vec![1, 2],
        vec![3, 0], // Correct final state
    ];
    let unsolved_state = small_unsolved_board;
    let solved_state = small_solved_board;
    let mut astar = AStar::new();

    // Astar should return the solved state for the 2x2 puzzle
    let result = astar.run(unsolved_state.clone(), &Order::Manh);
    assert!(result.is_some());
    assert_eq!(
        *result.unwrap().get_board(),
        solved_state.iter().flatten().copied().collect::<Vec<u8>>()
    );
}
