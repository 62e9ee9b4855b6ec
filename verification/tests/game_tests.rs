use quantum_tictactoe::board::{Board, Position, Token};
use quantum_tictactoe::bot::{legal_moves, Bot, RandomBot};
use quantum_tictactoe::game::Game;

struct StubbornBot {
    answer: (Position, Position),
}

impl Bot for StubbornBot {
    fn get_next_move(&mut self, _board: &Board, _token: Token) -> (Position, Position) {
        self.answer
    }
}

fn play_seeded_game(seed: u64) -> Game<RandomBot> {
    let random_bot = RandomBot::new(seed);
    let mut game = Game::new(random_bot);
    let finished = game.play_whole_game();
    assert!(finished);
    game
}

#[test]
fn whole_games_run_to_completion() {
    for seed in [0, 1, 2, 13, 42, 100, 31415] {
        let game = play_seeded_game(seed);
        assert!(game.board.turn <= 10);
    }
}

#[test]
fn scores_never_tie_on_a_decided_board() {
    for seed in [0, 1, 2, 13, 42, 100, 31415] {
        let game = play_seeded_game(seed);
        let score = game.board.get_score();
        assert!(
            score == (0, 0)
                || score == (2, 0)
                || score == (0, 2)
                || score == (2, 1)
                || score == (1, 2)
        );
    }
}

#[test]
fn random_bot_answers_with_a_lawful_move() {
    let mut board = Board::new();
    board.do_turn(Position::new(0, 0), Position::new(0, 0), Token::X);
    board.do_turn(Position::new(0, 1), Position::new(1, 1), Token::O);

    let mut bot = RandomBot::new(7);
    let moves = legal_moves(&board);
    for _ in 0..20 {
        let choice = bot.get_next_move(&board, Token::X);
        assert!(moves.contains(&choice));
        assert!(choice.0.is_valid() && choice.1.is_valid());
        assert_eq!(None, board.get_mark(choice.0));
        assert_eq!(None, board.get_mark(choice.1));
        if choice.0 == choice.1 {
            assert!(board.is_untangled(choice.0));
        }
    }
}

#[test]
fn legal_moves_excludes_marked_and_entangled_cells() {
    let mut board = Board::new();
    board.do_turn(Position::new(0, 0), Position::new(0, 0), Token::X);
    board.do_turn(Position::new(0, 1), Position::new(1, 1), Token::O);

    let moves = legal_moves(&board);
    for (p1, p2) in &moves {
        assert_ne!(Position::new(0, 0), *p1);
        assert_ne!(Position::new(0, 0), *p2);
        if p1 == p2 {
            assert_ne!(Position::new(0, 1), *p1);
            assert_ne!(Position::new(1, 1), *p1);
        }
    }
    // a direct move on an untangled free cell is lawful
    assert!(moves.contains(&(Position::new(2, 2), Position::new(2, 2))));
    // a superposed move may reuse entangled cells
    assert!(moves.contains(&(Position::new(0, 1), Position::new(2, 0))));
}

#[test]
fn unlawful_answers_leave_the_board_untouched() {
    let out_of_bounds = StubbornBot { answer: (Position::new(3, 3), Position::new(3, 3)) };
    let mut game = Game::new(out_of_bounds);
    assert!(!game.play_turn());
    assert_eq!(1, game.board.turn);

    let occupied = StubbornBot { answer: (Position::new(0, 0), Position::new(0, 0)) };
    let mut game = Game::new(occupied);
    game.board.do_turn(Position::new(0, 0), Position::new(0, 0), Token::X);
    assert!(!game.play_turn());
    assert_eq!(2, game.board.turn);

    let entangled_direct = StubbornBot { answer: (Position::new(1, 1), Position::new(1, 1)) };
    let mut game = Game::new(entangled_direct);
    game.board.do_turn(Position::new(1, 1), Position::new(2, 1), Token::X);
    assert!(!game.play_turn());
    assert_eq!(2, game.board.turn);
    assert_eq!(1, game.board.spooky_marks.len());
}

#[test]
fn lawful_answers_advance_the_game() {
    let fine = StubbornBot { answer: (Position::new(0, 0), Position::new(2, 2)) };
    let mut game = Game::new(fine);
    assert!(game.play_turn());
    assert_eq!(2, game.board.turn);
    assert_eq!(1, game.board.spooky_marks.len());
}
