use quantum_tictactoe::board::{Board, Position, Token, TurnToken};

fn create_board(spooky_marks: Vec<((usize, usize), (usize, usize))>) -> Board {
    let tokens = [Token::X, Token::O];

    let mut board = Board::new();

    for (turn, (position_1, position_2)) in spooky_marks.into_iter().enumerate() {
        board.do_turn(
            Position::new(position_1.0, position_1.1),
            Position::new(position_2.0, position_2.1),
            tokens[turn % 2],
        );
    }

    board
}

fn scores(board: &Board) -> (f32, f32) {
    let (score_x, score_o) = board.get_score();
    (score_x as f32 / 2.0, score_o as f32 / 2.0)
}

#[test]
fn test_get_rows_columns_and_diagonals() {
    let rows_columns_and_diagonals = Board::get_rows_columns_and_diagonals();
    assert_eq!(8, rows_columns_and_diagonals.len());
}

#[test]
fn test_collapse_loop_size_two() {
    let position0 = Position::new(0, 0);
    let position1 = Position::new(1, 1);

    let mut board = Board::new();
    board.do_turn(position0, position1, Token::X);
    board.do_turn(position1, position0, Token::O);

    board.collapse_loop();

    let option1 = board.get_mark(position0) == Some(TurnToken::X(1))
        && board.get_mark(position1) == Some(TurnToken::O(2));
    let option2 = board.get_mark(position0) == Some(TurnToken::O(2))
        && board.get_mark(position1) == Some(TurnToken::X(1));

    assert!(option1 || option2);
}

#[test]
fn test_collapse_loop_size_three() {
    let position0 = Position::new(0, 0);
    let position1 = Position::new(1, 1);
    let position2 = Position::new(2, 2);

    let mut board = Board::new();
    board.do_turn(position0, position1, Token::X);
    board.do_turn(position1, position2, Token::O);
    board.do_turn(position2, position0, Token::X);

    board.collapse_loop();

    let option1 = board.get_mark(position0) == Some(TurnToken::X(1))
        && board.get_mark(position1) == Some(TurnToken::O(2))
        && board.get_mark(position2) == Some(TurnToken::X(3));

    let option2 = board.get_mark(position0) == Some(TurnToken::X(3))
        && board.get_mark(position1) == Some(TurnToken::X(1))
        && board.get_mark(position2) == Some(TurnToken::O(2));

    assert!(option1 || option2);
}

#[test]
fn test_mixed_loop_size_two() {
    let mut board = create_board(vec![
        ((0, 0), (1, 0)),
        ((0, 0), (2, 2)),
        ((0, 1), (2, 1)),
        ((0, 0), (2, 2)),
    ]);

    board.collapse_loop();
}

#[test]
fn test_wikipedia_collapse() {
    let mut board = create_board(vec![
        ((0, 0), (0, 0)),
        ((2, 0), (1, 1)),
        ((0, 1), (1, 1)),
        ((2, 1), (1, 1)),
        ((1, 0), (2, 0)),
        ((2, 2), (2, 2)),
        ((0, 1), (0, 2)),
        ((0, 2), (1, 1)),
    ]);

    board.collapse_loop();

    let (score_x, score_o) = scores(&board);
    assert!(score_x == 0.0 || score_x == 0.5);
    assert_eq!(1.0, score_o);
}

#[test]
fn test_self_fulfilling_loop() {
    let mut board = create_board(vec![
        ((0, 1), (0, 1)),
        ((0, 2), (1, 2)),
        ((0, 0), (1, 0)),
        ((1, 1), (1, 2)),
        ((0, 0), (2, 2)),
        ((2, 0), (0, 2)),
        ((2, 1), (2, 2)),
        ((1, 1), (0, 2)),
    ]);

    board.collapse_loop();

    assert_eq!(None, board.get_mark(Position::new(0, 0)));
    assert_eq!(
        Token::X,
        Token::from(&board.get_mark(Position::new(0, 1)).unwrap())
    );
    assert_eq!(
        Token::O,
        Token::from(&board.get_mark(Position::new(0, 2)).unwrap())
    );

    assert_eq!(None, board.get_mark(Position::new(1, 0)));
    assert_eq!(
        Token::O,
        Token::from(&board.get_mark(Position::new(1, 1)).unwrap())
    );
    assert_eq!(
        Token::O,
        Token::from(&board.get_mark(Position::new(1, 2)).unwrap())
    );

    assert_eq!(
        Token::O,
        Token::from(&board.get_mark(Position::new(2, 0)).unwrap())
    );
    assert_eq!(None, board.get_mark(Position::new(2, 1)));
    assert_eq!(None, board.get_mark(Position::new(2, 2)));

    let (score_x, score_o) = scores(&board);
    assert_eq!(0.0, score_x);
    assert_eq!(1.0, score_o);
}

#[test]
fn turn_numbers_increase_with_every_move() {
    let mut board = Board::new();
    assert_eq!(1, board.turn);
    board.do_turn(Position::new(0, 0), Position::new(0, 0), Token::X);
    assert_eq!(2, board.turn);
    assert_eq!(Some(TurnToken::X(1)), board.get_mark(Position::new(0, 0)));
    board.do_turn(Position::new(0, 1), Position::new(1, 1), Token::O);
    assert_eq!(3, board.turn);
    board.do_turn(Position::new(2, 2), Position::new(2, 2), Token::X);
    assert_eq!(4, board.turn);
    assert_eq!(Some(TurnToken::X(3)), board.get_mark(Position::new(2, 2)));
    assert_eq!(TurnToken::O(2), board.spooky_marks[0].2);
}

#[test]
fn direct_placement_never_leaves_an_edge() {
    let mut board = Board::new();
    board.do_turn(Position::new(1, 2), Position::new(1, 2), Token::O);
    assert_eq!(0, board.spooky_marks.len());
    assert_eq!(Some(TurnToken::O(1)), board.get_mark(Position::new(1, 2)));
}

#[test]
fn collapse_leaves_no_edge_on_classical_cells_and_is_idempotent() {
    let mut board = create_board(vec![
        ((0, 0), (1, 1)),
        ((1, 1), (0, 0)),
        ((2, 0), (2, 1)),
    ]);

    board.collapse_loop();

    for mark in &board.spooky_marks {
        assert_eq!(None, board.get_mark(mark.0));
        assert_eq!(None, board.get_mark(mark.1));
    }

    let marks_before: Vec<Option<TurnToken>> = (0..3)
        .flat_map(|row| (0..3).map(move |column| (row, column)))
        .map(|(row, column)| board.get_mark(Position::new(row, column)))
        .collect();
    let edges_before = board.spooky_marks.clone();
    let turn_before = board.turn;

    board.collapse_loop();

    let marks_after: Vec<Option<TurnToken>> = (0..3)
        .flat_map(|row| (0..3).map(move |column| (row, column)))
        .map(|(row, column)| board.get_mark(Position::new(row, column)))
        .collect();

    assert_eq!(marks_before, marks_after);
    assert_eq!(edges_before, board.spooky_marks);
    assert_eq!(turn_before, board.turn);
}

#[test]
fn detector_finds_nothing_on_an_acyclic_board() {
    let board = create_board(vec![((0, 0), (1, 0)), ((1, 0), (2, 0)), ((0, 1), (1, 1))]);
    assert_eq!(None, board.depth_first_search());
}

#[test]
fn detector_reports_a_parallel_pair() {
    let board = create_board(vec![((0, 0), (2, 2)), ((2, 2), (0, 0))]);
    let pair = board.depth_first_search().unwrap();
    let cells = [pair.0, pair.1];
    assert!(cells.contains(&Position::new(0, 0)));
    assert!(cells.contains(&Position::new(2, 2)));
}

#[test]
fn empty_board_scores_zero() {
    let board = Board::new();
    assert_eq!((0.0, 0.0), scores(&board));
}

#[test]
fn lone_completed_line_scores_one_point() {
    let mut board = Board::new();
    board.do_turn(Position::new(0, 0), Position::new(0, 0), Token::X);
    board.do_turn(Position::new(1, 0), Position::new(1, 0), Token::O);
    board.do_turn(Position::new(0, 1), Position::new(0, 1), Token::X);
    board.do_turn(Position::new(1, 1), Position::new(1, 1), Token::O);
    board.do_turn(Position::new(0, 2), Position::new(0, 2), Token::X);

    assert_eq!(Some(5), board.find_win(Token::X));
    assert_eq!(None, board.find_win(Token::O));
    assert_eq!((1.0, 0.0), scores(&board));
}

#[test]
fn earlier_winning_turn_takes_the_full_point() {
    let mut board = Board::new();
    board.do_turn(Position::new(0, 0), Position::new(0, 0), Token::X);
    board.do_turn(Position::new(0, 1), Position::new(0, 1), Token::X);
    board.do_turn(Position::new(0, 2), Position::new(0, 2), Token::X);
    board.do_turn(Position::new(1, 0), Position::new(1, 0), Token::O);
    board.do_turn(Position::new(1, 1), Position::new(1, 1), Token::O);
    board.do_turn(Position::new(1, 2), Position::new(1, 2), Token::O);

    assert_eq!(Some(3), board.find_win(Token::X));
    assert_eq!(Some(6), board.find_win(Token::O));
    assert_eq!((1.0, 0.5), scores(&board));
}

#[test]
fn later_winning_turn_takes_the_half_point() {
    let mut board = Board::new();
    board.do_turn(Position::new(1, 0), Position::new(1, 0), Token::O);
    board.do_turn(Position::new(1, 1), Position::new(1, 1), Token::O);
    board.do_turn(Position::new(1, 2), Position::new(1, 2), Token::O);
    board.do_turn(Position::new(0, 0), Position::new(0, 0), Token::X);
    board.do_turn(Position::new(0, 1), Position::new(0, 1), Token::X);
    board.do_turn(Position::new(0, 2), Position::new(0, 2), Token::X);

    assert_eq!((0.5, 1.0), scores(&board));
}

#[test]
fn position_validity_matches_the_grid_bounds() {
    assert!(Position::new(0, 0).is_valid());
    assert!(Position::new(2, 2).is_valid());
    assert!(!Position::new(3, 0).is_valid());
    assert!(!Position::new(0, 3).is_valid());
}
