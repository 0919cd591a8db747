use mcts::engine::Tree;
use mcts::find_next_move;
use mcts::tic_tac_toe::Board;
use mcts::tic_tac_toe::Player;
use mcts::GameState;
use mcts::Status;

/// O threatens to complete the first row at cell 2; X holds the centre and a
/// corner but has no immediate win. X is about to move.
fn blocking_position() -> Board {
    Board::new(Player::X)
        .place(4, Player::X)
        .unwrap()
        .place(8, Player::X)
        .unwrap()
        .place(0, Player::O)
        .unwrap()
        .place(1, Player::O)
        .unwrap()
}

#[test]
fn expansion_creates_every_continuation_with_fresh_counters() {
    let board = Board::new(Player::O).place(4, Player::O).unwrap();
    let continuations = board.next_states();
    let mut tree = Tree::new(board, Player::O);
    tree.expand_node(0);

    let children = tree.nodes[0].children.clone();
    assert_eq!(children.len(), continuations.len());
    assert_eq!(children.len(), 8);
    for (offset, &child) in children.iter().enumerate() {
        assert_eq!(child, 1 + offset);
        assert_eq!(tree.nodes[child].state, continuations[offset]);
        assert_eq!(tree.nodes[child].visited, 0);
        assert_eq!(tree.nodes[child].score, 0);
        assert_eq!(tree.nodes[child].parent, Some(0));
        assert_eq!(tree.nodes[child].player, Player::X);
        assert!(tree.nodes[child].children.is_empty());
    }
    // The continuations are pairwise distinct legal successors.
    for a in 0..children.len() {
        for b in (a + 1)..children.len() {
            assert_ne!(tree.nodes[children[a]].state, tree.nodes[children[b]].state);
        }
    }
}

#[test]
fn backpropagation_counts_the_path_and_nothing_else() {
    let board = Board::new(Player::O);
    let mut tree = Tree::new(board, Player::O);
    tree.expand_node(0);
    let child = tree.nodes[0].children[3];
    tree.expand_node(child);
    let grandchild = tree.nodes[child].children[0];

    // Root tracks O, its children track X, the grandchildren track O again.
    tree.back_propagation(grandchild, Status::Winner(Player::X));

    assert_eq!(tree.nodes[grandchild].visited, 1);
    assert_eq!(tree.nodes[grandchild].score, 0);
    assert_eq!(tree.nodes[child].visited, 1);
    assert_eq!(tree.nodes[child].score, 1);
    assert_eq!(tree.nodes[0].visited, 1);
    assert_eq!(tree.nodes[0].score, 0);
    for idx in 1..tree.nodes.len() {
        if idx != child && idx != grandchild {
            assert_eq!(tree.nodes[idx].visited, 0);
            assert_eq!(tree.nodes[idx].score, 0);
        }
    }

    // A draw outcome counts a visit everywhere on the path but no score.
    tree.back_propagation(grandchild, Status::Draw);
    assert_eq!(tree.nodes[grandchild].visited, 2);
    assert_eq!(tree.nodes[grandchild].score, 0);
    assert_eq!(tree.nodes[child].visited, 2);
    assert_eq!(tree.nodes[child].score, 1);
    assert_eq!(tree.nodes[0].visited, 2);
    assert_eq!(tree.nodes[0].score, 0);
}

#[test]
fn returned_move_is_always_legal() {
    let board = Board::new(Player::O).place(4, Player::O).unwrap();
    let legal = board.next_states();
    let chosen = find_next_move(board, Player::X);
    assert!(legal.contains(&chosen));
}

#[test]
fn search_blocks_the_open_row() {
    let board = blocking_position();
    let expected = board.place(2, Player::X).unwrap();
    let chosen = find_next_move(board, Player::X);
    assert_eq!(chosen, expected);
}

#[test]
fn search_returns_on_a_nearly_full_board() {
    // A single legal continuation: the search must terminate and take it.
    let marks = [
        (0, Player::X),
        (1, Player::O),
        (2, Player::X),
        (3, Player::X),
        (4, Player::O),
        (5, Player::O),
        (6, Player::O),
        (7, Player::X),
    ];
    let mut board = Board::new(Player::X);
    for (pos, player) in marks {
        board = board.place(pos, player).unwrap();
    }
    // Make it O's turn to move: X placed the last mark above.
    let only_move = board.next_states();
    assert_eq!(only_move.len(), 1);
    let chosen = find_next_move(board, Player::O);
    assert_eq!(chosen, only_move[0]);
}
