use mcts::game::{Game, IllegalMove, Player};
use mcts::tictactoe::TicTacToeBoard;
use mcts::TicTacToe;

const BEGIN_BOARD: [[Option<Player>; 3]; 3] = [
    [None, None, None],
    [None, Some(Player::One), None],
    [None, None, None],
];

const END_BOARD: [[Option<Player>; 3]; 3] = [
    [Some(Player::One), None, Some(Player::Two)],
    [None, Some(Player::One), Some(Player::Two)],
    [None, None, Some(Player::One)],
];

const DRAWN_BOARD: [[Option<Player>; 3]; 3] = [
    [Some(Player::One), Some(Player::Two), Some(Player::One)],
    [Some(Player::One), Some(Player::Two), Some(Player::Two)],
    [Some(Player::Two), Some(Player::One), Some(Player::One)],
];

fn convert_board(board: [[Option<Player>; 3]; 3]) -> TicTacToeBoard {
    board.to_vec().iter().map(|r| r.to_vec()).collect()
}

#[test]
fn test_first_move() {
    let g = TicTacToe::new();
    assert_eq!(Player::One, g.get_player());
}

#[test]
fn test_later_move() {
    let mut g = TicTacToe::new();
    g.set_state(convert_board(BEGIN_BOARD));
    assert_eq!(Player::Two, g.get_player());
}

#[test]
fn test_moves() {
    assert_eq!(
        vec![(0, 1), (1, 0), (2, 0), (2, 1)],
        TicTacToe::moves(&convert_board(END_BOARD), Player::One)
    );
}

#[test]
fn test_winner_exists() {
    assert!(TicTacToe::won(&convert_board(END_BOARD), Player::One));
}

#[test]
fn test_no_winner_exists() {
    assert!(!TicTacToe::won(&convert_board(BEGIN_BOARD), Player::One));
    assert!(!TicTacToe::won(&convert_board(END_BOARD), Player::Two));
}

#[test]
fn new_board_is_empty() {
    let g = TicTacToe::new();
    assert_eq!(g.get_state(), &vec![vec![None; 3]; 3]);
    assert_eq!(TicTacToe::moves(g.get_state(), Player::One).len(), 9);
}

#[test]
fn get_state_returns_what_was_set() {
    let mut g = TicTacToe::new();
    g.set_state(convert_board(END_BOARD));
    assert_eq!(g.get_state(), &convert_board(END_BOARD));
}

#[test]
fn listed_moves_are_distinct_and_accepted() {
    let board = convert_board(BEGIN_BOARD);
    let moves = TicTacToe::moves(&board, Player::Two);
    assert_eq!(moves.len(), 8);
    for (i, m) in moves.iter().enumerate() {
        assert!(!moves[i + 1..].contains(m));
        assert!(TicTacToe::evaluate(&board, Player::Two, *m).is_ok());
    }
}

#[test]
fn evaluate_places_the_mark() {
    let board = convert_board(BEGIN_BOARD);
    let next = TicTacToe::evaluate(&board, Player::Two, (0, 2)).unwrap();
    let mut expected = convert_board(BEGIN_BOARD);
    expected[0][2] = Some(Player::Two);
    assert_eq!(next, expected);
    assert_eq!(board, convert_board(BEGIN_BOARD));
}

#[test]
fn evaluate_twice_gives_the_same_board() {
    let board = convert_board(BEGIN_BOARD);
    let a = TicTacToe::evaluate(&board, Player::Two, (2, 1));
    let b = TicTacToe::evaluate(&board, Player::Two, (2, 1));
    assert_eq!(a, b);
}

#[test]
fn evaluate_rejects_occupied_cell() {
    let board = convert_board(BEGIN_BOARD);
    assert_eq!(TicTacToe::evaluate(&board, Player::Two, (1, 1)), Err(IllegalMove));
}

#[test]
fn evaluate_rejects_cell_off_the_board() {
    let board = convert_board(BEGIN_BOARD);
    assert_eq!(TicTacToe::evaluate(&board, Player::Two, (3, 0)), Err(IllegalMove));
    assert_eq!(TicTacToe::evaluate(&board, Player::Two, (0, 3)), Err(IllegalMove));
}

#[test]
fn every_winning_line_is_seen() {
    let lines: [[(usize, usize); 3]; 8] = [
        [(0, 0), (0, 1), (0, 2)],
        [(1, 0), (1, 1), (1, 2)],
        [(2, 0), (2, 1), (2, 2)],
        [(0, 0), (1, 0), (2, 0)],
        [(0, 1), (1, 1), (2, 1)],
        [(0, 2), (1, 2), (2, 2)],
        [(0, 0), (1, 1), (2, 2)],
        [(0, 2), (1, 1), (2, 0)],
    ];
    for line in lines.iter() {
        let mut board = vec![vec![None; 3]; 3];
        for &(x, y) in line.iter() {
            board[x][y] = Some(Player::Two);
        }
        assert!(TicTacToe::won(&board, Player::Two));
        assert!(!TicTacToe::won(&board, Player::One));
    }
}

#[test]
fn drawn_board_has_no_winner_and_no_moves() {
    let board = convert_board(DRAWN_BOARD);
    assert!(!TicTacToe::won(&board, Player::One));
    assert!(!TicTacToe::won(&board, Player::Two));
    assert!(TicTacToe::moves(&board, Player::One).is_empty());
    assert!(TicTacToe::moves(&board, Player::Two).is_empty());
}

#[test]
fn opponent_swaps_players() {
    assert_eq!(Player::One.opponent(), Player::Two);
    assert_eq!(Player::Two.opponent(), Player::One);
}
