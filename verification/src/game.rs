//! The game loop driver: alternates turns until the board is decided.

use vstd::prelude::*;

use crate::board::{Board, Position, Token};
use crate::bot::Bot;

verus! {

/// The symbol on the move at a given turn counter: X on odd turns, O on even.
pub open spec fn token_for(turn: u8) -> Token {
    if (turn - 1) % 2 == 0 {
        Token::X
    } else {
        Token::O
    }
}

/// One running game: a board together with the policy that plays both sides.
pub struct Game<B: Bot> {
    pub bot: B,
    pub board: Board,
}

impl<B: Bot> Game<B> {
    /// The board is well formed and no live edge touches a classical cell:
    /// what every turn preserves.
    pub open spec fn wf(self) -> bool {
        self.board.wf() && self.board.edges_clear()
    }

    pub fn new(bot: B) -> (g: Game<B>)
        ensures
            g.wf(),
            g.bot == bot,
            g.board.turn == 1,
            g.board.spooky_marks@.len() == 0,
            forall|i: int| 0 <= i < 9 ==> #[trigger] g.board.board@[i] is None,
    {
        Game { bot, board: Board::new() }
    }

    /// Ask the policy for one move; when it is lawful, record it with place
    /// semantics and resolve any collapse it caused: the board steps to a
    /// `do_turn` of the validated answer followed by one `collapse_loop`,
    /// advancing the turn counter by one. An unlawful or impossible move
    /// leaves the board untouched and reports `false`.
    pub fn play_turn(&mut self) -> (played: bool)
        requires
            old(self).wf(),
        ensures
            final(self).wf(),
            played ==> final(self).board.turn == old(self).board.turn + 1,
            played ==> exists|p1: Position, p2: Position, mid: Board|
                {
                    &&& crate::bot::move_allowed(old(self).board, p1, p2)
                    &&& #[trigger] Board::place_rel(
                        old(self).board,
                        mid,
                        p1,
                        p2,
                        token_for(old(self).board.turn),
                    )
                    &&& Board::collapse_rel(mid, final(self).board)
                },
            !played ==> final(self).board == old(self).board,
    {
        if self.board.turn == u8::MAX {
            return false;
        }
        let token = if (self.board.turn - 1) % 2 == 0 {
            Token::X
        } else {
            Token::O
        };
        let (position_1, position_2) = self.bot.get_next_move(&self.board, token);
        // The policy's answer is untrusted: check the move before recording it.
        if !position_1.is_valid() || !position_2.is_valid() {
            return false;
        }
        if self.board.get_mark(position_1).is_some() || self.board.get_mark(position_2).is_some() {
            return false;
        }
        if position_1 == position_2 && !self.board.is_untangled(position_1) {
            return false;
        }
        proof {
            assert(crate::bot::move_allowed(old(self).board, position_1, position_2));
            assert(token == token_for(old(self).board.turn));
        }
        self.board.do_turn(position_1, position_2, token);
        let ghost mid = self.board;
        self.board.collapse_loop();
        proof {
            assert(Board::place_rel(
                old(self).board,
                mid,
                position_1,
                position_2,
                token_for(old(self).board.turn),
            ));
            assert(Board::collapse_rel(mid, self.board));
        }
        true
    }

    /// Drive the policy until the board is decided or the ninth turn has been
    /// played, resolving collapses after every move. Reports whether a stop
    /// condition was reached: `true` exactly when the board is decided or the
    /// ninth turn has been played; `false` only when the policy's answer was
    /// rejected as unlawful before that.
    pub fn play_whole_game(&mut self) -> (finished: bool)
        requires
            old(self).wf(),
        ensures
            final(self).wf(),
            final(self).board.turn >= old(self).board.turn,
            old(self).board.turn <= 10 ==> final(self).board.turn <= 10,
            finished <==> (final(self).board.turn > 9 || final(self).board.score_spec() != (
                0u8,
                0u8,
            )),
    {
        let ghost turn0 = self.board.turn;
        while self.board.turn <= 9
            invariant_except_break
                self.wf(),
                self.board.turn >= turn0,
                turn0 <= 10 ==> self.board.turn <= 10,
            ensures
                self.wf(),
                self.board.turn >= turn0,
                turn0 <= 10 ==> self.board.turn <= 10,
            decreases 10 - self.board.turn,
        {
            let score = self.board.get_score();
            if score.0 != 0 || score.1 != 0 {
                break ;
            }
            let played = self.play_turn();
            if !played {
                break ;
            }
        }
        if self.board.turn > 9 {
            true
        } else {
            let score = self.board.get_score();
            score.0 != 0 || score.1 != 0
        }
    }
}

} // verus!
