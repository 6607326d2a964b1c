use npuzzle::direction::Dir;
use npuzzle::node::Node;

#[test]
fn test_new_valid_board() {
    let board = vec![vec![1, 2, 3], vec![4, 5, 6], vec![7, 8, 0]];
    let state = Node::new(board.clone());
    assert_eq!(
        *state.get_board(),
        board.into_iter().flatten().collect::<Vec<u8>>()
    );
}

#[test]
fn test_find_zero() {
    let board = vec![vec![1, 2, 3], vec![4, 0, 5], vec![6, 7, 8]];
    let state = Node::new(board);
    assert_eq!(state.find_zero(), 4);
}

#[test]
fn test_get_valid_moves() {
    let board = vec![
        vec![0, 2, 3],
        vec![4, 5, 6],
        vec![7, 8, 1], // Zero at (2,2)
    ];
    let state = Node::new(board);
    let moves = state.get_valid_moves(Dir::values());

    assert!(moves.contains(&Dir::Down)); // Can move left
    assert!(moves.contains(&Dir::Right)); // Can move up
    assert_eq!(moves.len(), 2); // Only two valid moves
}

#[test]
fn test_get_state_for_move() {
    let board = vec![
        vec![0, 2, 3],
        vec![4, 5, 6],
        vec![7, 8, 1], // Zero at (2,2)
    ];
    let state = Node::new(board);

    // Move left
    if let Some(new_state) = state.get_node_for_move(Dir::Right) {
        let expected_board = vec![
            vec![2, 0, 3],
            vec![4, 5, 6],
            vec![7, 8, 1], // Zero moved left
        ];
        assert_eq!(
            *new_state.get_board(),
            expected_board.into_iter().flatten().collect::<Vec<u8>>()
        );
    } else {
        panic!("Expected a valid state after move");
    }
}

#[test]
fn test_get_child_states() {
    let board = vec![
        vec![1, 2, 3],
        vec![4, 0, 5], // Zero at (1,1)
        vec![6, 7, 8],
    ];
    let state = Node::new(board);
    let child_states = state.get_child_nodes(Dir::values());

    assert_eq!(child_states.len(), 4); // Can move up, down, left, right
}

#[test]
fn test_is_solved() {
    let solved_board = vec![
        vec![1, 2, 3],
        vec![4, 5, 6],
        vec![7, 8, 0], // Correct final state
    ];
    let unsolved_board = vec![
        vec![1, 2, 3],
        vec![4, 5, 6],
        vec![7, 0, 8], // Wrong position
    ];
    let solved_state = Node::new(solved_board);
    let unsolved_state = Node::new(unsolved_board);
    assert!(solved_state.is_solved());
    assert!(!unsolved_state.is_solved());
}

#[test]
fn test_valid_moves_initial_state() {
    // Create initial state with zero at (0,0)
    let state = Node::new(vec![
        vec![0, 1, 2, 11],
        vec![3, 4, 5, 12],
        vec![6, 7, 8, 13],
        vec![10, 9, 15, 14],
    ]);

    // Expected valid moves: Down, Right
    let expected = vec![Dir::Down, Dir::Right];
    assert_eq!(state.get_valid_moves(Dir::values()), expected);
}

#[test]
fn test_get_valid_moves_from_top_left() {
    // Arrange
    let board = vec![vec![0, 2, 3], vec![4, 5, 6], vec![7, 8, 1]];
    let state = Node::new(board); // Act
    let moves = state.get_valid_moves(Dir::values());

    // Assert
    assert!(moves.contains(&Dir::Down), "Should be able to move Down");
    assert!(moves.contains(&Dir::Right), "Should be able to move Right");
    assert_eq!(moves.len(), 2, "Expected two valid moves");
}

#[test]
fn test_get_valid_moves_from_bottom_right() {
    // Arrange
    let board = vec![vec![1, 2, 3], vec![4, 5, 6], vec![7, 8, 0]];
    let state = Node::new(board);

    // Act
    let moves = state.get_valid_moves(Dir::values());

    // Assert
    assert!(moves.contains(&Dir::Up), "Should be able to move Up");
    assert!(moves.contains(&Dir::Left), "Should be able to move Left");
    assert_eq!(moves.len(), 2, "Expected two valid moves");
}

#[test]
fn test_get_valid_moves_from_center() {
    // Arrange
    let board = vec![vec![1, 2, 3], vec![4, 0, 5], vec![6, 7, 8]];
    let state = Node::new(board);
    // Act
    let moves = state.get_valid_moves(Dir::values());

    // Assert
    assert!(moves.contains(&Dir::Up), "Should be able to move Up");
    assert!(moves.contains(&Dir::Down), "Should be able to move Down");
    assert!(moves.contains(&Dir::Left), "Should be able to move Left");
    assert!(moves.contains(&Dir::Right), "Should be able to move Right");
    assert_eq!(moves.len(), 4, "Expected four valid moves");
}

#[test]
fn test_get_state_for_move_right() {
    // Arrange
    let board = vec![vec![0, 2, 3], vec![4, 5, 6], vec![7, 8, 1]];
    let state = Node::new(board);

    // Act
    let new_state = state.get_node_for_move(Dir::Right).unwrap();

    // Assert
    let expected_board = vec![vec![2, 0, 3], vec![4, 5, 6], vec![7, 8, 1]]
        .into_iter()
        .flatten()
        .collect::<Vec<u8>>();
    assert_eq!(
        *new_state.get_board(),
        expected_board,
        "Zero should have moved right"
    );
    assert_eq!(
        new_state.parent.as_ref().unwrap().board,
        state.board,
        "Parent should be the original state"
    );
    assert_eq!(
        new_state.next_move,
        Some(Dir::Right),
        "Next move should be Right"
    );
}

#[test]
fn test_get_state_for_move_invalid() {
    // Arrange
    let board = vec![vec![0, 1, 2], vec![3, 4, 5], vec![6, 7, 8]];
    let state = Node::new(board);

    // Act
    let new_state = state.get_node_for_move(Dir::Left);

    // Assert
    assert!(
        new_state.is_none(),
        "Moving left from the left edge should return None"
    );
}

#[test]
fn test_make_hash() {
    // Arrange
    let board1 = vec![1, 2, 3, 4, 5, 6, 7, 8, 0];
    let board2 = vec![1, 2, 3, 4, 5, 6, 7, 0, 8];

    // Act
    let hash1 = Node::make_hash(&board1);
    let hash2 = Node::make_hash(&board2);

    // Assert
    assert_ne!(
        hash1, hash2,
        "Different boards should produce different hashes"
    );

    // Test that the same board produces the same hash
    let board3 = vec![1, 2, 3, 4, 5, 6, 7, 8, 0];
    let hash3 = Node::make_hash(&board3);
    assert_eq!(hash1, hash3, "Same boards should produce the same hash");
}

#[test]
fn test_with_parent() {
    // Arrange
    let initial_state = Node::new(vec![vec![1, 2, 3], vec![4, 0, 5], vec![6, 7, 8]]);

    // Act
    let new_board = vec![1, 2, 3, 0, 4, 5, 6, 7, 8];
    let moved_state = Node::with_parent(new_board, &initial_state, Dir::Left);

    // Assert
    assert_eq!(
        moved_state.parent.unwrap().board,
        initial_state.board,
        "Parent board should match"
    );
    assert_eq!(moved_state.depth, 1, "Depth should be incremented");
    assert_eq!(
        moved_state.next_move,
        Some(Dir::Left),
        "Next move should be set"
    );
}
