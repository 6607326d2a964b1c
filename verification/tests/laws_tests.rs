use npuzzle::astar::AStar;
use npuzzle::command::{HeuristicType, SearchOrder};
use npuzzle::direction::Dir;
use npuzzle::node::Node;
use npuzzle::order::Order;
use npuzzle::problem::Problem;
use npuzzle::solver::{AStarSolver, BfsSolver, Solver};
use npuzzle::study::So;

// Children sit one move deeper than their parent, there are at most
// four of them, and each differs from the parent by exactly one swap of
// the blank with an adjacent tile.
#[test]
fn test_children_shape() {
    let parent = Node::new(vec![vec![1, 2, 3], vec![4, 0, 5], vec![6, 7, 8]]);
    let children = parent.get_child_nodes(Dir::values());
    assert!(children.len() <= 4);
    for child in &children {
        assert_eq!(child.depth(), parent.depth() + 1);
        let pb = parent.get_board();
        let cb = child.get_board();
        let mut diff = Vec::new();
        for i in 0..pb.len() {
            if pb[i] != cb[i] {
                diff.push(i);
            }
        }
        // Exactly two cells changed: the blank's and one neighbour's,
        // with their contents swapped.
        assert_eq!(diff.len(), 2);
        assert_eq!(pb[diff[0]], cb[diff[1]]);
        assert_eq!(pb[diff[1]], cb[diff[0]]);
        assert!(pb[diff[0]] == 0 || pb[diff[1]] == 0);
    }
}

// Equal boards hash identically; a hash is a function of the contents
// alone, not of depth or parentage.
#[test]
fn test_hash_of_equal_boards() {
    let a = Node::new(vec![vec![1, 0], vec![3, 2]]);
    let b = a.get_node_for_move(Dir::Down).unwrap();
    let c = b.get_node_for_move(Dir::Up).unwrap();
    // c has depth 2 and a parent chain, yet holds a's board again.
    assert_eq!(a.get_board(), c.get_board());
    assert_eq!(a.hash_code(), c.hash_code());
    assert_eq!(a, c);
    assert_ne!(a.get_board(), b.get_board());
    assert_ne!(a.hash_code(), b.hash_code());
}

// Breadth-first returns a shortest path: on an instance whose Manhattan
// estimate equals a known solution length, that length is optimal.
#[test]
fn test_bfs_optimal_length() {
    let board = vec![
        vec![5, 1, 2, 3],
        vec![0, 6, 7, 4],
        vec![9, 10, 11, 8],
        vec![13, 14, 15, 12],
    ];
    let flat: Vec<u8> = board.clone().into_iter().flatten().collect();
    // The Manhattan estimate is a lower bound on the true distance.
    assert_eq!(Order::Manh.get_heuristic(&flat, 0), 7);
    let mut bfs = BfsSolver::new(Order::Perm(Dir::values()));
    let s = bfs.solve(Problem::new(board)).unwrap();
    assert_eq!(s.result_len, 7);
}

// Best-first with an admissible heuristic matches breadth-first's path
// length, and Manhattan expands no more nodes than Hamming.
#[test]
fn test_astar_matches_bfs_and_manhattan_beats_hamming() {
    let board = vec![
        vec![5, 1, 2, 3],
        vec![0, 6, 7, 4],
        vec![9, 10, 11, 8],
        vec![13, 14, 15, 12],
    ];

    let mut bfs = BfsSolver::new(Order::Perm(Dir::values()));
    let bfs_len = bfs.solve(Problem::new(board.clone())).unwrap().result_len;

    let mut manh = AStarSolver::new(Order::Manh);
    let manh_sol = manh.solve(Problem::new(board.clone())).unwrap();

    let mut hamm = AStarSolver::new(Order::Hamm);
    let hamm_sol = hamm.solve(Problem::new(board)).unwrap();

    assert_eq!(manh_sol.result_len, bfs_len);
    assert_eq!(hamm_sol.result_len, bfs_len);
    assert!(manh_sol.processed_count <= hamm_sol.processed_count);
}

// Replaying a returned path from the start board reproduces the
// canonical solved board.
#[test]
fn test_path_round_trip() {
    let board = vec![
        vec![5, 1, 2, 3],
        vec![0, 6, 7, 4],
        vec![9, 10, 11, 8],
        vec![13, 14, 15, 12],
    ];
    let mut astar = AStarSolver::new(Order::Manh);
    let s = astar.solve(Problem::new(board.clone())).unwrap();

    let mut state = Node::new(board);
    for d in &s.path {
        state = state.get_node_for_move(*d).expect("path move must be legal");
    }
    assert!(state.is_solved());
    assert_eq!(s.path.len() as u8, s.result_len);
}

// The exact heuristic scores of a small instance: depth plus the
// misplaced-tile count, and depth plus the summed grid distances.
#[test]
fn test_heuristic_values() {
    // Board [[1,0],[3,2]]: tile 2 is one cell from its goal.
    let flat = vec![1, 0, 3, 2];
    assert_eq!(Order::Hamm.get_heuristic(&flat, 0), 1);
    assert_eq!(Order::Manh.get_heuristic(&flat, 0), 1);
    assert_eq!(Order::Hamm.get_heuristic(&flat, 3), 4);

    // A solved board scores exactly its depth.
    let solved = vec![1, 2, 3, 0];
    assert_eq!(Order::Hamm.get_heuristic(&solved, 5), 5);
    assert_eq!(Order::Manh.get_heuristic(&solved, 5), 5);

    // Board [[0,2],[3,1]]: tile 1 is two cells away, tiles 2 and 3 sit
    // on their goal cells.
    let diag = vec![0, 2, 3, 1];
    assert_eq!(Order::Hamm.get_heuristic(&diag, 0), 1);
    assert_eq!(Order::Manh.get_heuristic(&diag, 0), 2);
}

#[test]
fn test_board_validity() {
    assert!(Node::is_board_valid(&[1, 2, 3, 0]));
    assert!(Node::is_board_valid(&[0]));
    // Not a permutation: a value repeats.
    assert!(!Node::is_board_valid(&[1, 1, 3, 0]));
    // A value out of range.
    assert!(!Node::is_board_valid(&[1, 2, 9, 0]));
    // No blank.
    assert!(!Node::is_board_valid(&[1, 2, 3, 4]));
    // Not square.
    assert!(!Node::is_board_valid(&[1, 2, 0]));
}

#[test]
fn test_default_board() {
    assert_eq!(
        Node::default_board(3),
        vec![vec![1, 2, 3], vec![4, 5, 6], vec![7, 8, 0]]
    );
    assert_eq!(Node::default_board(1), vec![vec![0]]);
    let four = Node::default_board(4);
    assert!(Node::new(four).is_solved());
}

// The dedup key never depends on the path: the same board reached along
// two different move sequences lands on the same hash, so a search
// visits it once.
#[test]
fn test_dedup_uses_board_identity() {
    let start = Node::new(vec![vec![1, 2, 3], vec![4, 0, 5], vec![6, 7, 8]]);
    // Two different two-move walks that both return to the start board.
    let a = start
        .get_node_for_move(Dir::Left)
        .unwrap()
        .get_node_for_move(Dir::Right)
        .unwrap();
    let b = start
        .get_node_for_move(Dir::Up)
        .unwrap()
        .get_node_for_move(Dir::Down)
        .unwrap();
    assert_ne!(a.next_move(), b.next_move());
    assert_eq!(a.get_board(), b.get_board());
    assert_eq!(a.get_board(), start.get_board());
    assert_eq!(a.hash_code(), b.hash_code());
    assert_eq!(a.hash_code(), start.hash_code());
}

#[test]
fn test_path_iterator_walks_to_root() {
    let start = Node::new(vec![vec![1, 0], vec![3, 2]]);
    let goal = start.get_node_for_move(Dir::Down).unwrap();
    let mut it = goal.dir_iter();
    assert_eq!(it.next(), Some(Dir::Down));
    assert_eq!(it.next(), None);
    assert_eq!(it.next(), None);

    let path = Solver::<AStar>::make_path(goal);
    assert_eq!(path, vec![Dir::Down]);
}

#[test]
fn test_solution_add_discards_path() {
    let mut astar = AStarSolver::new(Order::Manh);
    let s1 = astar
        .solve(Problem::new(vec![vec![1, 0], vec![3, 2]]))
        .unwrap();
    let s2 = s1.clone();
    assert!(s2.path.is_empty());
    assert_eq!(s2.result_len, s1.result_len);
    let sum = s1.add(s2);
    assert_eq!(sum.result_len, 2);
    assert_eq!(sum.reached_depth, 2);
    assert!(sum.path.is_empty());
}

#[test]
fn test_search_order_selection() {
    let o = SearchOrder::Rdul.to_order();
    match o {
        Order::Perm(ds) => assert_eq!(ds, [Dir::Right, Dir::Down, Dir::Up, Dir::Left]),
        _ => panic!("expected a fixed permutation"),
    }
    match HeuristicType::Manh.to_order() {
        Order::Manh => {}
        _ => panic!("expected the Manhattan heuristic"),
    }
    match HeuristicType::Hamm.to_order() {
        Order::Hamm => {}
        _ => panic!("expected the Hamming heuristic"),
    }
}

#[test]
fn test_study_orders() {
    let all = So::values();
    assert_eq!(all.len(), 8);
    match So::Ludr.to_order() {
        Order::Perm(ds) => assert_eq!(ds, [Dir::Left, Dir::Up, Dir::Down, Dir::Right]),
        _ => panic!("expected a fixed permutation"),
    }
}
