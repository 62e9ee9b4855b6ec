//! Move policies that choose the next pair of cells to play.

use rand::RngExt;
use rand::SeedableRng;
use vstd::prelude::*;

use crate::board::{Board, Position, Token};

verus! {

/// A move policy: asked for the next pair of cells to superpose (or, when the
/// two coincide, to mark directly). Implementations outside this crate are
/// free to answer anything; the game loop validates every answer before it
/// touches the board.
pub trait Bot {
    fn get_next_move(&mut self, board: &Board, token: Token) -> (r: (Position, Position))
        requires
            board.wf(),
    ;
}

/// The move `(p1, p2)` is lawful on `board`: both cells on the grid and
/// classically empty, and a direct move only on a cell free of entanglements.
pub open spec fn move_allowed(board: Board, p1: Position, p2: Position) -> bool {
    &&& p1.spec_valid()
    &&& p2.spec_valid()
    &&& board.cell(p1) is None
    &&& board.cell(p2) is None
    &&& p1 == p2 ==> board.pos_untangled(p1)
}

/// The rank of a move in the cell-by-cell enumeration order.
pub open spec fn pair_code(m: (Position, Position)) -> int {
    m.0.idx() * 9 + m.1.idx()
}

/// All lawful moves, enumerated cell by cell: exactly the pairs that
/// `move_allowed` admits, each once, in strictly increasing enumeration order.
pub fn legal_moves(board: &Board) -> (moves: Vec<(Position, Position)>)
    requires
        board.wf(),
    ensures
        forall|t: int|
            0 <= t < moves@.len() ==> move_allowed(
                *board,
                (#[trigger] moves@[t]).0,
                moves@[t].1,
            ),
        forall|p1: Position, p2: Position|
            move_allowed(*board, p1, p2) ==> #[trigger] moves@.contains((p1, p2)),
        forall|t1: int, t2: int|
            0 <= t1 < t2 < moves@.len() ==> pair_code(#[trigger] moves@[t1]) < pair_code(
                #[trigger] moves@[t2],
            ),
{
    let mut moves: Vec<(Position, Position)> = Vec::new();
    for a in 0..9usize
        invariant
            board.wf(),
            forall|t: int|
                0 <= t < moves@.len() ==> move_allowed(
                    *board,
                    (#[trigger] moves@[t]).0,
                    moves@[t].1,
                ),
            forall|p1: Position, p2: Position|
                move_allowed(*board, p1, p2) && p1.idx() < a ==> #[trigger] moves@.contains(
                    (p1, p2),
                ),
            forall|t1: int, t2: int|
                0 <= t1 < t2 < moves@.len() ==> pair_code(#[trigger] moves@[t1]) < pair_code(
                    #[trigger] moves@[t2],
                ),
            forall|t: int| 0 <= t < moves@.len() ==> pair_code(#[trigger] moves@[t]) < a * 9,
    {
        let position_1 = board.positions[a];
        proof {
            assert(position_1 == crate::board::pos_at(a as int));
            crate::board::lemma_pos_idx(position_1);
        }
        if board.get_mark(position_1).is_none() {
            for b in 0..9usize
                invariant
                    board.wf(),
                    a < 9,
                    position_1 == crate::board::pos_at(a as int),
                    position_1.spec_valid(),
                    position_1.idx() == a,
                    board.cell(position_1) is None,
                    forall|t: int|
                        0 <= t < moves@.len() ==> move_allowed(
                            *board,
                            (#[trigger] moves@[t]).0,
                            moves@[t].1,
                        ),
                    forall|p1: Position, p2: Position|
                        move_allowed(*board, p1, p2) && (p1.idx() < a || (p1.idx() == a
                            && p2.idx() < b)) ==> #[trigger] moves@.contains((p1, p2)),
                    forall|t1: int, t2: int|
                        0 <= t1 < t2 < moves@.len() ==> pair_code(#[trigger] moves@[t1])
                            < pair_code(#[trigger] moves@[t2]),
                    forall|t: int|
                        0 <= t < moves@.len() ==> pair_code(#[trigger] moves@[t]) < a * 9 + b,
            {
                let position_2 = board.positions[b];
                proof {
                    assert(position_2 == crate::board::pos_at(b as int));
                    crate::board::lemma_pos_idx(position_2);
                }
                let ghost moves_pre = moves@;
                if board.get_mark(position_2).is_none() {
                    let allowed = if position_1 == position_2 {
                        board.is_untangled(position_1)
                    } else {
                        true
                    };
                    if allowed {
                        moves.push((position_1, position_2));
                    }
                }
                proof {
                    assert forall|p1: Position, p2: Position|
                        move_allowed(*board, p1, p2) && (p1.idx() < a || (p1.idx() == a
                            && p2.idx() < b + 1)) implies #[trigger] moves@.contains(
                        (p1, p2),
                    ) by {
                        crate::board::lemma_pos_idx(p1);
                        crate::board::lemma_pos_idx(p2);
                        if p1.idx() == a && p2.idx() == b {
                            assert(p1 == position_1 && p2 == position_2);
                            assert(moves@[moves@.len() - 1] == (p1, p2));
                        } else {
                            assert(moves_pre.contains((p1, p2)));
                            let t0 = choose|t: int|
                                0 <= t < moves_pre.len() && moves_pre[t] == (p1, p2);
                            assert(moves@[t0] == (p1, p2));
                        }
                    }
                }
            }
        }
        proof {
            assert forall|p1: Position, p2: Position|
                move_allowed(*board, p1, p2) && p1.idx() < a + 1 implies #[trigger] moves@.contains(
                (p1, p2),
            ) by {
                crate::board::lemma_pos_idx(p1);
                if p1.idx() == a {
                    assert(p1 == position_1);
                    assert(board.cell(p1) is None);
                }
            }
        }
    }
    proof {
        assert forall|p1: Position, p2: Position| move_allowed(*board, p1, p2) implies #[trigger] moves@.contains(
            (p1, p2),
        ) by {
            crate::board::lemma_pos_idx(p1);
        }
    }
    moves
}

/// Declares rand's seedable standard generator so the policy can own one.
#[verifier::external_type_specification]
#[verifier::external_body]
pub struct ExStdRng(rand::rngs::StdRng);

/// Relies on rand's `SeedableRng::seed_from_u64`: builds a generator from the
/// seed. Nothing is assumed about the stream it will produce.
#[verifier::external_body]
fn seed_rng(seed: u64) -> rand::rngs::StdRng {
    rand::rngs::StdRng::seed_from_u64(seed)
}

/// Relies on rand's `RngExt::random_range` over `0..len`: the sampled index
/// lies in that range, which the precondition keeps nonempty.
#[verifier::external_body]
fn random_index(rng: &mut rand::rngs::StdRng, len: usize) -> (i: usize)
    requires
        len > 0,
    ensures
        i < len,
{
    rng.random_range(0..len)
}

/// A policy that draws uniformly among the lawful moves, from a seeded
/// generator so games can be replayed.
pub struct RandomBot {
    rng: rand::rngs::StdRng,
}

impl RandomBot {
    pub fn new(seed: u64) -> Self {
        Self { rng: seed_rng(seed) }
    }
}

impl Bot for RandomBot {
    fn get_next_move(&mut self, board: &Board, token: Token) -> (r: (Position, Position)) {
        let possible_moves = legal_moves(board);
        if possible_moves.len() == 0 {
            // no lawful move is left; hand back a pair the game loop rejects
            (Position::new(0, 0), Position::new(0, 0))
        } else {
            let i = random_index(&mut self.rng, possible_moves.len());
            possible_moves[i]
        }
    }
}

} // verus!
