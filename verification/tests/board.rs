use mcts::tic_tac_toe::is_finished;
use mcts::tic_tac_toe::parse_move;
use mcts::tic_tac_toe::Board;
use mcts::tic_tac_toe::Player;
use mcts::tic_tac_toe::State;
use mcts::GameState;
use mcts::Status;

#[test]
fn new_board_is_empty_and_in_progress() {
    let board = Board::new(Player::O);
    assert_eq!(board.free_fields(), 9);
    assert_eq!(board.status(), Status::InProgress);
    assert!(is_finished(&board).is_none());
}

#[test]
fn place_rejects_taken_cells() {
    let board = Board::new(Player::O);
    let board = board.place(4, Player::O).unwrap();
    assert!(board.place(4, Player::X).is_none());
    assert!(board.place(3, Player::X).is_some());
}

#[test]
fn parse_move_accepts_the_grid_and_rejects_the_rest() {
    assert_eq!(parse_move('a', '1'), Some(0));
    assert_eq!(parse_move('b', '2'), Some(4));
    assert_eq!(parse_move('c', '3'), Some(8));
    assert_eq!(parse_move('d', '1'), None);
    assert_eq!(parse_move('a', '4'), None);
    assert_eq!(parse_move(' ', ' '), None);
}

#[test]
fn status_reports_row_column_and_diagonal_wins() {
    let row = Board::new(Player::O)
        .place(0, Player::X)
        .unwrap()
        .place(1, Player::X)
        .unwrap()
        .place(2, Player::X)
        .unwrap();
    assert_eq!(row.status(), Status::Winner(Player::X));
    assert_eq!(is_finished(&row), Some(Some(Player::X)));

    let column = Board::new(Player::O)
        .place(1, Player::O)
        .unwrap()
        .place(4, Player::O)
        .unwrap()
        .place(7, Player::O)
        .unwrap();
    assert_eq!(column.status(), Status::Winner(Player::O));

    let diagonal = Board::new(Player::O)
        .place(2, Player::X)
        .unwrap()
        .place(4, Player::X)
        .unwrap()
        .place(6, Player::X)
        .unwrap();
    assert_eq!(diagonal.status(), Status::Winner(Player::X));
}

#[test]
fn won_board_with_free_cells_offers_no_continuations() {
    // X completes the top row while six cells stay empty: the game is over,
    // so the free cells must not be offered as moves.
    let won = Board::new(Player::O)
        .place(0, Player::X)
        .unwrap()
        .place(4, Player::O)
        .unwrap()
        .place(1, Player::X)
        .unwrap()
        .place(5, Player::O)
        .unwrap()
        .place(2, Player::X)
        .unwrap();
    assert_eq!(won.status(), Status::Winner(Player::X));
    assert_eq!(won.free_fields(), 4);
    assert!(won.next_states().is_empty());
}

#[test]
fn full_board_without_winner_is_a_draw() {
    // Rows X O X / X O O / O X X: a full grid with no three in a row.
    let marks = [
        (0, Player::X),
        (1, Player::O),
        (2, Player::X),
        (3, Player::X),
        (4, Player::O),
        (5, Player::O),
        (6, Player::O),
        (7, Player::X),
        (8, Player::X),
    ];
    let mut board = Board::new(Player::O);
    for (pos, player) in marks {
        board = board.place(pos, player).unwrap();
    }
    assert_eq!(board.status(), Status::Draw);
    assert_eq!(is_finished(&board), Some(None));
    assert!(board.next_states().is_empty());
}

#[test]
fn next_states_offers_one_continuation_per_free_cell() {
    let board = Board::new(Player::O).place(4, Player::O).unwrap();
    let continuations = board.next_states();
    assert_eq!(continuations.len(), 8);
    for next in &continuations {
        assert_eq!(next.active_player, Player::X);
        assert_eq!(next.free_fields(), 7);
    }
}

#[test]
fn random_play_fills_the_single_free_cell() {
    // Only cell 8 is free, and nobody has won, so a single random play must
    // mark exactly that cell with the active player's mark.
    let marks = [
        (0, Player::X),
        (1, Player::O),
        (2, Player::X),
        (3, Player::X),
        (4, Player::O),
        (5, Player::O),
        (6, Player::O),
        (7, Player::X),
    ];
    let mut board = Board::new(Player::O);
    for (pos, player) in marks {
        board = board.place(pos, player).unwrap();
    }
    assert_eq!(board.status(), Status::InProgress);
    let mut played = board;
    played.next_random_play();
    assert_eq!(played.free_fields(), 0);
    assert!(matches!(played.board[8], State::X));
}

#[test]
fn random_playout_round_trip_keeps_status_consistent() {
    let original = Board::new(Player::O).place(0, Player::O).unwrap();
    let mut rollout = original;
    while is_finished(&rollout).is_none() {
        rollout.toggle_player();
        rollout.next_random_play();
    }
    // The playout ended: the finished position must offer no continuation,
    // whether it ended in a win (free cells may remain) or in a draw.
    assert!(rollout.status() != Status::InProgress);
    assert!(rollout.next_states().is_empty());
    // While the game was still going, continuations were on offer.
    assert_eq!(original.status(), Status::InProgress);
    assert!(!original.next_states().is_empty());
    // The rollout worked on a clone: the original position is untouched.
    assert_eq!(original, Board::new(Player::O).place(0, Player::O).unwrap());
}
