//! The board: classical grid, live entangled marks, and the turn counter.

use rand::RngExt;
use vstd::prelude::*;

verus! {

/// Side length of the square grid.
pub const BOARD_SIZE: usize = 3;

/// A (row, column) cell coordinate on the grid.
#[derive(Clone, Copy, Debug, Eq, Hash, PartialEq, Structural)]
pub struct Position {
    pub row: usize,
    pub column: usize,
}

impl Position {
    pub fn new(row: usize, column: usize) -> (p: Position)
        ensures
            p.row == row,
            p.column == column,
    {
        Self { row, column }
    }

    /// Both components lie in `[0, BOARD_SIZE)`.
    pub open spec fn spec_valid(self) -> bool {
        self.row < BOARD_SIZE && self.column < BOARD_SIZE
    }

    /// Index of this cell in the row-major grid sequence.
    pub open spec fn idx(self) -> int {
        self.row * BOARD_SIZE + self.column
    }

    pub fn is_valid(&self) -> (r: bool)
        ensures
            r == self.spec_valid(),
    {
        self.row < BOARD_SIZE && self.column < BOARD_SIZE
    }
}

/// The cell at row-major index `i`.
pub open spec fn pos_at(i: int) -> Position {
    Position { row: (i / 3) as usize, column: (i % 3) as usize }
}

/// One of the two players' symbols.
#[derive(Clone, Copy, Debug, Eq, PartialEq, Structural)]
pub enum Token {
    X,
    O,
}

/// A symbol together with the turn number of the move that produced it.
#[derive(Clone, Copy, Debug, Eq, PartialEq, Structural)]
pub enum TurnToken {
    X(u8),
    O(u8),
}

impl TurnToken {
    /// The symbol carried by this mark.
    pub open spec fn token(self) -> Token {
        match self {
            TurnToken::X(_) => Token::X,
            TurnToken::O(_) => Token::O,
        }
    }

    /// The turn number carried by this mark.
    pub open spec fn turn(self) -> u8 {
        match self {
            TurnToken::X(n) => n,
            TurnToken::O(n) => n,
        }
    }
}

impl From<&TurnToken> for Token {
    fn from(token: &TurnToken) -> (r: Token) {
        match token {
            TurnToken::X(_) => Token::X,
            TurnToken::O(_) => Token::O,
        }
    }
}

impl vstd::std_specs::convert::FromSpecImpl<&TurnToken> for Token {
    open spec fn obeys_from_spec() -> bool {
        true
    }

    open spec fn from_spec(token: &TurnToken) -> Token {
        token.token()
    }
}

/// A still-unresolved superposed placement: two distinct cells sharing one mark.
#[derive(Clone, Copy, Debug, Eq, PartialEq, Structural)]
pub struct SpookyMark(pub Position, pub Position, pub TurnToken);

/// The turn number of the mark in an optional cell; `0` when the cell is empty.
pub open spec fn cell_turn(c: Option<TurnToken>) -> int {
    match c {
        Option::Some(m) => m.turn() as int,
        Option::None => 0,
    }
}

/// The eight winning lines: the three rows and three columns interleaved,
/// then the two diagonals, in the order the board precomputes them.
pub open spec fn winning_lines() -> Seq<(Position, Position, Position)> {
    seq![
        (pos_at(0), pos_at(1), pos_at(2)),
        (pos_at(0), pos_at(3), pos_at(6)),
        (pos_at(3), pos_at(4), pos_at(5)),
        (pos_at(1), pos_at(4), pos_at(7)),
        (pos_at(6), pos_at(7), pos_at(8)),
        (pos_at(2), pos_at(5), pos_at(8)),
        (pos_at(0), pos_at(4), pos_at(8)),
        (pos_at(2), pos_at(4), pos_at(6)),
    ]
}

pub struct Board {
    pub positions: Vec<Position>,
    pub rows_columns_and_diagonals: Vec<(Position, Position, Position)>,
    /// Row-major classical grid; only updated on direct placements and collapses.
    pub board: Vec<Option<TurnToken>>,
    pub turn: u8,
    pub spooky_marks: Vec<SpookyMark>,
}

impl Board {
    /// The classical mark at `p`, as a mathematical value.
    pub open spec fn cell(self, p: Position) -> Option<TurnToken> {
        self.board@[p.idx()]
    }

    /// A live edge is a pair of distinct valid cells whose mark was assigned
    /// an earlier turn than the counter now stands at.
    pub open spec fn edge_wf(self, e: SpookyMark) -> bool {
        &&& e.0.spec_valid()
        &&& e.1.spec_valid()
        &&& e.0 != e.1
        &&& 1 <= e.2.turn() < self.turn
    }

    /// No two marks anywhere on the board share a turn number.
    pub open spec fn marks_distinct(self) -> bool {
        &&& forall|i: int, j: int|
            0 <= i < j < 9 && #[trigger] self.board@[i] is Some && #[trigger] self.board@[j] is Some
                ==> cell_turn(self.board@[i]) != cell_turn(self.board@[j])
        &&& forall|i: int, k: int|
            0 <= i < 9 && 0 <= k < self.spooky_marks@.len() && #[trigger] self.board@[i] is Some
                ==> cell_turn(self.board@[i]) != (#[trigger] self.spooky_marks@[k]).2.turn()
        &&& forall|k1: int, k2: int|
            0 <= k1 < k2 < self.spooky_marks@.len()
                ==> (#[trigger] self.spooky_marks@[k1]).2.turn()
                    != (#[trigger] self.spooky_marks@[k2]).2.turn()
    }

    /// Structural well-formedness of the whole board.
    pub open spec fn wf(self) -> bool {
        &&& self.board@.len() == 9
        &&& self.turn >= 1
        &&& self.positions@.len() == 9
        &&& forall|i: int| 0 <= i < 9 ==> #[trigger] self.positions@[i] == pos_at(i)
        &&& self.rows_columns_and_diagonals@ == winning_lines()
        &&& forall|k: int|
            0 <= k < self.spooky_marks@.len() ==> self.edge_wf(#[trigger] self.spooky_marks@[k])
        &&& forall|i: int|
            0 <= i < 9 && #[trigger] self.board@[i] is Some
                ==> 1 <= cell_turn(self.board@[i]) < self.turn
        &&& self.marks_distinct()
    }

    /// No live edge touches a classically marked cell.
    pub open spec fn edges_clear(self) -> bool {
        forall|k: int|
            0 <= k < self.spooky_marks@.len() ==> {
                let e = #[trigger] self.spooky_marks@[k];
                self.board@[e.0.idx()] is None && self.board@[e.1.idx()] is None
            }
    }

    /// `p` is not an endpoint of any live edge.
    pub open spec fn pos_untangled(self, p: Position) -> bool {
        forall|k: int|
            0 <= k < self.spooky_marks@.len()
                ==> (#[trigger] self.spooky_marks@[k]).0 != p && self.spooky_marks@[k].1 != p
    }

    pub fn new() -> (b: Board)
        ensures
            b.wf(),
            b.turn == 1,
            b.spooky_marks@.len() == 0,
            forall|i: int| 0 <= i < 9 ==> #[trigger] b.board@[i] is None,
            b.edges_clear(),
    {
        let mut positions: Vec<Position> = Vec::new();
        for i in 0..9
            invariant
                positions@.len() == i,
                forall|j: int| 0 <= j < i ==> #[trigger] positions@[j] == pos_at(j),
        {
            positions.push(Position::new(i / 3, i % 3));
        }
        let mut board: Vec<Option<TurnToken>> = Vec::new();
        for i in 0..9
            invariant
                board@.len() == i,
                forall|j: int| 0 <= j < i ==> #[trigger] board@[j] is None,
        {
            board.push(None);
        }
        Self {
            positions,
            rows_columns_and_diagonals: Self::get_rows_columns_and_diagonals(),
            board,
            turn: 1,
            spooky_marks: Vec::new(),
        }
    }

    /// The precomputed winning lines, built once per board instance.
    /// The grid is a fixed 3-by-3 square, so the eight lines are written out.
    pub fn get_rows_columns_and_diagonals() -> (lines: Vec<(Position, Position, Position)>)
        ensures
            lines@ == winning_lines(),
    {
        let mut lines: Vec<(Position, Position, Position)> = Vec::new();
        lines.push((Position::new(0, 0), Position::new(0, 1), Position::new(0, 2)));
        lines.push((Position::new(0, 0), Position::new(1, 0), Position::new(2, 0)));
        lines.push((Position::new(1, 0), Position::new(1, 1), Position::new(1, 2)));
        lines.push((Position::new(0, 1), Position::new(1, 1), Position::new(2, 1)));
        lines.push((Position::new(2, 0), Position::new(2, 1), Position::new(2, 2)));
        lines.push((Position::new(0, 2), Position::new(1, 2), Position::new(2, 2)));
        lines.push((Position::new(0, 0), Position::new(1, 1), Position::new(2, 2)));
        lines.push((Position::new(0, 2), Position::new(1, 1), Position::new(2, 0)));
        proof {
            assert(lines@ =~= winning_lines());
        }
        lines
    }

    pub fn get_mark(&self, position: Position) -> (r: Option<TurnToken>)
        requires
            self.wf(),
            position.spec_valid(),
        ensures
            r == self.cell(position),
    {
        self.board[position.row * BOARD_SIZE + position.column]
    }

    fn set_mark(&mut self, position: Position, turn_token: TurnToken)
        requires
            old(self).board@.len() == 9,
            position.spec_valid(),
            old(self).board@[position.idx()] is None,
        ensures
            final(self).board@ == old(self).board@.update(position.idx(), Some(turn_token)),
            final(self).positions@ == old(self).positions@,
            final(self).rows_columns_and_diagonals@ == old(self).rows_columns_and_diagonals@,
            final(self).turn == old(self).turn,
            final(self).spooky_marks@ == old(self).spooky_marks@,
    {
        let i = position.row * BOARD_SIZE + position.column;
        self.board.set(i, Some(turn_token));
    }

    fn set_spooky_mark(&mut self, position_1: Position, position_2: Position, turn_token: TurnToken)
        ensures
            final(self).spooky_marks@ == old(self).spooky_marks@.push(
                SpookyMark(position_1, position_2, turn_token),
            ),
            final(self).positions@ == old(self).positions@,
            final(self).rows_columns_and_diagonals@ == old(self).rows_columns_and_diagonals@,
            final(self).board@ == old(self).board@,
            final(self).turn == old(self).turn,
    {
        self.spooky_marks.push(SpookyMark(position_1, position_2, turn_token));
    }

    /// The mark that `do_turn` assigns when called with `token` at counter `turn`.
    pub open spec fn mark_for(token: Token, turn: u8) -> TurnToken {
        match token {
            Token::X => TurnToken::X(turn),
            Token::O => TurnToken::O(turn),
        }
    }

    /// The full placement relation: everything one `do_turn(p1, p2, token)`
    /// call guarantees between the board `pre` it started from and the board
    /// `post` it left behind.
    pub open spec fn place_rel(
        pre: Board,
        post: Board,
        position_1: Position,
        position_2: Position,
        token: Token,
    ) -> bool {
        &&& post.wf()
        &&& post.turn == pre.turn + 1
        &&& post.positions@ == pre.positions@
        &&& post.rows_columns_and_diagonals@ == pre.rows_columns_and_diagonals@
        &&& position_1 == position_2 ==> {
            &&& post.board@ == pre.board@.update(
                position_1.idx(),
                Some(Self::mark_for(token, pre.turn)),
            )
            &&& post.spooky_marks@ == pre.spooky_marks@
        }
        &&& position_1 != position_2 ==> {
            &&& post.board@ == pre.board@
            &&& post.spooky_marks@ == pre.spooky_marks@.push(
                SpookyMark(position_1, position_2, Self::mark_for(token, pre.turn)),
            )
        }
        &&& pre.edges_clear() && pre.cell(position_1) is None && pre.cell(position_2) is None && (
        position_1 == position_2 ==> pre.pos_untangled(position_1)) ==> post.edges_clear()
    }

    /// Record one move: a direct classical mark when the two cells coincide,
    /// otherwise a new live entangled edge. Either way the turn counter
    /// advances by exactly one, and the assigned turn number is strictly
    /// greater than every turn number already on the board.
    pub fn do_turn(&mut self, position_1: Position, position_2: Position, token: Token)
        requires
            old(self).wf(),
            position_1.spec_valid(),
            position_2.spec_valid(),
            old(self).turn < u8::MAX,
            position_1 == position_2 ==> old(self).cell(position_1) is None,
        ensures
            Self::place_rel(*old(self), *final(self), position_1, position_2, token),
    {
        let turn_token = match token {
            Token::X => TurnToken::X(self.turn),
            Token::O => TurnToken::O(self.turn),
        };
        if position_1 == position_2 {
            self.set_mark(position_1, turn_token);
        } else {
            self.set_spooky_mark(position_1, position_2, turn_token);
        }
        self.turn = self.turn + 1;
    }

    /// One fresh sequence of nine cleared cell flags.
    fn new_flags() -> (v: Vec<bool>)
        ensures
            v@.len() == 9,
            forall|i: int| 0 <= i < 9 ==> !(#[trigger] v@[i]),
    {
        let mut v: Vec<bool> = Vec::new();
        for i in 0..9
            invariant
                v@.len() == i,
                forall|j: int| 0 <= j < i ==> !(#[trigger] v@[j]),
        {
            v.push(false);
        }
        v
    }

    /// Scan all pairs of distinct live edges for two joining the same pair of
    /// cells: a length-two cycle that a predecessor-skipping traversal would
    /// miss, so this check must run before the traversal.
    fn find_parallel_pair(&self) -> (r: Option<(Position, Position)>)
        requires
            self.wf(),
        ensures
            r matches Some(pair) ==> pair.0.spec_valid() && pair.1.spec_valid() && pair.0
                != pair.1 && joined_twice(self.spooky_marks@, pair.0, pair.1),
            r is None ==> !has_parallel_pair(self.spooky_marks@),
    {
        let n = self.spooky_marks.len();
        for j in 0..n
            invariant
                self.wf(),
                n == self.spooky_marks@.len(),
                forall|j2: int, k: int|
                    0 <= j2 < j && 0 <= k < n && j2 != k ==> !(#[trigger] connects(
                        self.spooky_marks@[j2],
                        self.spooky_marks@[k].0,
                        self.spooky_marks@[k].1,
                    )),
        {
            for k in 0..n
                invariant
                    self.wf(),
                    n == self.spooky_marks@.len(),
                    j < n,
                    forall|j2: int, k2: int|
                        0 <= j2 < j && 0 <= k2 < n && j2 != k2 ==> !(#[trigger] connects(
                            self.spooky_marks@[j2],
                            self.spooky_marks@[k2].0,
                            self.spooky_marks@[k2].1,
                        )),
                    forall|k2: int|
                        0 <= k2 < k && k2 != j ==> !(#[trigger] connects(
                            self.spooky_marks@[j as int],
                            self.spooky_marks@[k2].0,
                            self.spooky_marks@[k2].1,
                        )),
            {
                if k != j {
                    let e1 = self.spooky_marks[j];
                    let e2 = self.spooky_marks[k];
                    if (e1.0 == e2.0 && e1.1 == e2.1) || (e1.0 == e2.1 && e1.1 == e2.0) {
                        proof {
                            assert(self.edge_wf(self.spooky_marks@[j as int]));
                            assert(connects(self.spooky_marks@[j as int], e1.0, e1.1));
                            assert(connects(self.spooky_marks@[k as int], e1.0, e1.1));
                            assert((j as int) != (k as int));
                            assert(joined_twice(self.spooky_marks@, e1.0, e1.1));
                        }
                        return Some((e1.0, e1.1));
                    }
                }
            }
        }
        None
    }

    /// Depth-first traversal of every component of the entanglement graph,
    /// skipping only the edge each cell was discovered through: reaching an
    /// already-visited cell over a fresh edge closes a cycle, and that edge's
    /// endpoints are reported. When nothing is reported, every live edge is a
    /// discovery edge of the traversal forest, which proves the edge set
    /// holds no cycle of any length.
    #[verifier::spinoff_prover]
    #[verifier::rlimit(100)]
    fn traverse_for_cycle(&self) -> (r: Option<(Position, Position)>)
        requires
            self.wf(),
        ensures
            r matches Some(pair) ==> pair.0.spec_valid() && pair.1.spec_valid() && pair.0
                != pair.1 && exists|j: int|
                0 <= j < self.spooky_marks@.len() && #[trigger] connects(
                    self.spooky_marks@[j],
                    pair.0,
                    pair.1,
                ),
            r is None ==> !has_cycle(self.spooky_marks@),
    {
        let n = self.spooky_marks.len();
        let mut visited = Self::new_flags();
        let ghost mut pe: Seq<int> = Seq::new(9, |v: int| -1);
        let ghost mut par: Seq<int> = Seq::new(9, |v: int| -1);
        let ghost mut disc: Seq<int> = Seq::new(9, |v: int| -1);
        let ghost mut done: Seq<bool> = Seq::new(9, |v: int| false);
        let ghost mut stamp: int = 0;
        for root in 0..9usize
            invariant
                self.wf(),
                n == self.spooky_marks@.len(),
                visited@.len() == 9,
                done.len() == 9,
                forest_cert(self.spooky_marks@, pe, par, disc),
                forall|v: int| 0 <= v < 9 ==> (visited@[v] <==> #[trigger] disc[v] >= 0),
                forall|v: int| 0 <= v < 9 ==> #[trigger] disc[v] < stamp,
                stamp >= 0,
                forall|v: int| 0 <= v < 9 ==> (visited@[v] <==> #[trigger] done[v]),
                forall|j2: int|
                    0 <= j2 < n && (done[(#[trigger] self.spooky_marks@[j2]).0.idx()]
                        || done[self.spooky_marks@[j2].1.idx()]) ==> in_tree(
                        self.spooky_marks@,
                        pe,
                        j2,
                    ),
                forall|v: int| 0 <= v < 9 && #[trigger] pe[v] != -1 ==> done[par[v]],
                forall|v: int| 0 <= v < root ==> visited@[v],
        {
            if !visited[root] {
                let root_pos = self.positions[root];
                proof {
                    assert(root_pos == pos_at(root as int));
                    lemma_pos_at_idx(root as int);
                    disc = disc.update(root as int, stamp);
                    stamp = stamp + 1;
                }
                visited.set(root, true);
                let mut stack: Vec<(Position, usize)> = Vec::new();
                stack.push((root_pos, n));
                proof {
                    assert(stack@[0] == (root_pos, n));
                    assert(stack@[0].0.idx() == root as int);
                }
                while stack.len() > 0
                    invariant
                        self.wf(),
                        n == self.spooky_marks@.len(),
                        visited@.len() == 9,
                        done.len() == 9,
                        forest_cert(self.spooky_marks@, pe, par, disc),
                        forall|v: int| 0 <= v < 9 ==> (visited@[v] <==> #[trigger] disc[v] >= 0),
                        forall|v: int| 0 <= v < 9 ==> #[trigger] disc[v] < stamp,
                        stamp >= 0,
                        root < 9,
                        visited@[root as int],
                        forall|v: int| 0 <= v < root ==> visited@[v],
                        forall|v: int| 0 <= v < 9 ==> (#[trigger] done[v] ==> visited@[v]),
                        forall|v: int|
                            0 <= v < 9 && visited@[v] && !(#[trigger] done[v]) ==> exists|si: int|
                                0 <= si < stack@.len() && (#[trigger] stack@[si]).0.idx() == v,
                        forall|si: int|
                            0 <= si < stack@.len() ==> {
                                let p = (#[trigger] stack@[si]).0;
                                let pj = stack@[si].1;
                                &&& p.spec_valid()
                                &&& visited@[p.idx()]
                                &&& !done[p.idx()]
                                &&& ((pj == n && pe[p.idx()] == -1) || ((pj as int) < n && pe[
                                    p.idx()
                                ] == pj as int))
                            },
                        forall|s1: int, s2: int|
                            0 <= s1 < s2 < stack@.len() ==> (#[trigger] stack@[s1]).0.idx() != (
                            #[trigger] stack@[s2]).0.idx(),
                        forall|j2: int|
                            0 <= j2 < n && (done[(#[trigger] self.spooky_marks@[j2]).0.idx()]
                                || done[self.spooky_marks@[j2].1.idx()]) ==> in_tree(
                                self.spooky_marks@,
                                pe,
                                j2,
                            ),
                        forall|v: int| 0 <= v < 9 && #[trigger] pe[v] != -1 ==> done[par[v]],
                    decreases count_false(visited@), stack@.len(),
                {
                    let ghost stack_pre = stack@;
                    let (cur, pedge) = stack.pop().unwrap();
                    let ghost c0 = count_false(visited@);
                    let ghost s0 = stack@.len();
                    proof {
                        lemma_pos_idx(cur);
                        assert(stack_pre[stack_pre.len() - 1] == (cur, pedge));
                        assert forall|v: int|
                            0 <= v < 9 && visited@[v] && !done[v] && v != cur.idx() implies exists|
                            si: int,
                        |
                            0 <= si < stack@.len() && (#[trigger] stack@[si]).0.idx() == v by {
                            let si0 = choose|si: int|
                                0 <= si < stack_pre.len() && (#[trigger] stack_pre[si]).0.idx()
                                    == v;
                            assert(si0 < stack_pre.len() - 1);
                            assert(stack@[si0] == stack_pre[si0]);
                        }
                    }
                    for j in 0..n
                        invariant
                            self.wf(),
                            n == self.spooky_marks@.len(),
                            visited@.len() == 9,
                            done.len() == 9,
                            forest_cert(self.spooky_marks@, pe, par, disc),
                            forall|v: int|
                                0 <= v < 9 ==> (visited@[v] <==> #[trigger] disc[v] >= 0),
                            forall|v: int| 0 <= v < 9 ==> #[trigger] disc[v] < stamp,
                            stamp >= 0,
                            root < 9,
                            visited@[root as int],
                            forall|v: int| 0 <= v < root ==> visited@[v],
                            forall|v: int| 0 <= v < 9 ==> (#[trigger] done[v] ==> visited@[v]),
                            cur.spec_valid(),
                            visited@[cur.idx()],
                            !done[cur.idx()],
                            ((pedge == n && pe[cur.idx()] == -1) || ((pedge as int) < n && pe[
                                cur.idx()
                            ] == pedge as int)),
                            forall|v: int|
                                0 <= v < 9 && visited@[v] && !(#[trigger] done[v]) && v
                                    != cur.idx() ==> exists|si: int|
                                    0 <= si < stack@.len() && (#[trigger] stack@[si]).0.idx() == v,
                            forall|si: int|
                                0 <= si < stack@.len() ==> {
                                    let p = (#[trigger] stack@[si]).0;
                                    let pj = stack@[si].1;
                                    &&& p.spec_valid()
                                    &&& visited@[p.idx()]
                                    &&& !done[p.idx()]
                                    &&& p.idx() != cur.idx()
                                    &&& ((pj == n && pe[p.idx()] == -1) || ((pj as int) < n && pe[
                                        p.idx()
                                    ] == pj as int))
                                },
                            forall|s1: int, s2: int|
                                0 <= s1 < s2 < stack@.len() ==> (#[trigger] stack@[s1]).0.idx()
                                    != (#[trigger] stack@[s2]).0.idx(),
                            forall|j2: int|
                                0 <= j2 < n && (done[(#[trigger] self.spooky_marks@[j2]).0.idx()]
                                    || done[self.spooky_marks@[j2].1.idx()]) ==> in_tree(
                                    self.spooky_marks@,
                                    pe,
                                    j2,
                                ),
                            forall|j2: int|
                                0 <= j2 < j && ((#[trigger] self.spooky_marks@[j2]).0.idx()
                                    == cur.idx() || self.spooky_marks@[j2].1.idx() == cur.idx())
                                    ==> in_tree(self.spooky_marks@, pe, j2),
                            forall|v: int|
                                0 <= v < 9 && #[trigger] pe[v] != -1 ==> done[par[v]] || (par[v]
                                    == cur.idx() && pe[v] < j),
                            count_false(visited@) + stack@.len() == c0 + s0,
                            count_false(visited@) <= c0,
                    {
                        let e = self.spooky_marks[j];
                        proof {
                            assert(self.edge_wf(self.spooky_marks@[j as int]));
                            lemma_pos_idx(e.0);
                            lemma_pos_idx(e.1);
                        }
                        if j != pedge {
                            if e.0 == cur || e.1 == cur {
                                let target = if e.0 == cur {
                                    e.1
                                } else {
                                    e.0
                                };
                                let ti = target.row * BOARD_SIZE + target.column;
                                if visited[ti] {
                                    proof {
                                        assert(e == self.spooky_marks@[j as int]);
                                        assert(cur.spec_valid() && target.spec_valid());
                                        assert(cur != target);
                                        assert(0 <= (j as int) && (j as int)
                                            < self.spooky_marks@.len());
                                        assert(connects(self.spooky_marks@[j as int], cur, target));
                                        assert(exists|j2: int|
                                            0 <= j2 < self.spooky_marks@.len()
                                                && #[trigger] connects(
                                                self.spooky_marks@[j2],
                                                cur,
                                                target,
                                            ));
                                    }
                                    return Some((cur, target));
                                }
                                let ghost vpre = visited@;
                                visited.set(ti, true);
                                proof {
                                    pe = pe.update(ti as int, j as int);
                                    par = par.update(ti as int, cur.idx());
                                    disc = disc.update(ti as int, stamp);
                                    stamp = stamp + 1;
                                    lemma_count_false_update(vpre, ti as int);
                                    lemma_pos_idx(target);
                                    assert(pos_at(ti as int) == target);
                                    assert(pos_at(cur.idx()) == cur);
                                    assert(connects(self.spooky_marks@[j as int], cur, target));
                                    assert(connects(
                                        self.spooky_marks@[pe[ti as int]],
                                        pos_at(ti as int),
                                        pos_at(par[ti as int]),
                                    ));
                                }
                                let ghost stack_mid = stack@;
                                stack.push((target, j));
                                proof {
                                    assert(stack@[stack@.len() - 1] == (target, j));
                                    assert forall|v: int|
                                        0 <= v < 9 && visited@[v] && !done[v] && v != cur.idx()
                                        implies exists|si: int|
                                        0 <= si < stack@.len() && (#[trigger] stack@[si]).0.idx()
                                            == v by {
                                        if v == ti as int {
                                            assert(stack@[stack@.len() - 1].0.idx() == v);
                                        } else {
                                            let si0 = choose|si: int|
                                                0 <= si < stack_mid.len() && (
                                                #[trigger] stack_mid[si]).0.idx() == v;
                                            assert(stack@[si0] == stack_mid[si0]);
                                        }
                                    }
                                }
                            }
                        }
                    }
                    proof {
                        done = done.update(cur.idx(), true);
                    }
                }
            }
        }
        proof {
            assert forall|j2: int| 0 <= j2 < n implies in_tree(self.spooky_marks@, pe, j2) by {
                assert(self.edge_wf(self.spooky_marks@[j2]));
                lemma_pos_idx(self.spooky_marks@[j2].0);
                assert(done[self.spooky_marks@[j2].0.idx()]);
            }
            assert forall|j2: int| 0 <= j2 < self.spooky_marks@.len() implies {
                let e = #[trigger] self.spooky_marks@[j2];
                e.0.spec_valid() && e.1.spec_valid() && e.0 != e.1
            } by {
                assert(self.edge_wf(self.spooky_marks@[j2]));
            }
            lemma_forest_no_cycle(self.spooky_marks@, pe, par, disc);
        }
        None
    }

    /// Find one live edge whose endpoints lie on a cycle of the entanglement
    /// graph, if any cycle exists.
    ///
    /// Two phases: first a pairwise scan for two distinct edges joining the
    /// same pair of cells (a length-two cycle that the traversal below would
    /// skip as its own predecessor), then a depth-first traversal of every
    /// component that reports an edge reaching an already-visited cell.
    /// A returned pair always names the endpoints of some live edge; when a
    /// parallel pair exists the returned pair is joined by two distinct
    /// edges; and when nothing is returned the edge set surely holds no
    /// cycle of any length.
    pub fn depth_first_search(&self) -> (r: Option<(Position, Position)>)
        requires
            self.wf(),
        ensures
            r matches Some(pair) ==> pair.0.spec_valid() && pair.1.spec_valid() && pair.0
                != pair.1 && exists|j: int|
                0 <= j < self.spooky_marks@.len() && #[trigger] connects(
                    self.spooky_marks@[j],
                    pair.0,
                    pair.1,
                ),
            r is None ==> !has_parallel_pair(self.spooky_marks@),
            r is None ==> !has_cycle(self.spooky_marks@),
            has_parallel_pair(self.spooky_marks@) ==> r is Some && joined_twice(
                self.spooky_marks@,
                r->Some_0.0,
                r->Some_0.1,
            ),
    {
        let pair = self.find_parallel_pair();
        if pair.is_some() {
            return pair;
        }
        self.traverse_for_cycle()
    }

    /// Whether `p` is an endpoint of no live edge, by one scan of the edges.
    pub fn is_untangled(&self, p: Position) -> (r: bool)
        requires
            self.wf(),
        ensures
            r == self.pos_untangled(p),
    {
        let n = self.spooky_marks.len();
        let mut touched = false;
        for k in 0..n
            invariant
                n == self.spooky_marks@.len(),
                touched <==> exists|q: int|
                    0 <= q < k && ((#[trigger] self.spooky_marks@[q]).0 == p
                        || self.spooky_marks@[q].1 == p),
        {
            let e = self.spooky_marks[k];
            if e.0 == p || e.1 == p {
                touched = true;
            }
        }
        !touched
    }

    /// `e` has an endpoint among the cells collapsed by the current resolution.
    pub open spec fn touches(e: SpookyMark, collapsed: Seq<bool>) -> bool {
        collapsed[e.0.idx()] || collapsed[e.1.idx()]
    }

    /// Invariant of the cascade: relates the running state to `base`, the
    /// state on entry to `collapse_loop`, with `seed` the resolved edge and
    /// `collapsed` flagging the cells written during this resolution.
    spec fn cascade_inv(self, base: Board, seed: SpookyMark, collapsed: Seq<bool>) -> bool {
        &&& base.wf()
        &&& base.edges_clear()
        &&& base.edge_wf(seed)
        &&& self.wf()
        &&& self.turn == base.turn
        &&& self.positions@ == base.positions@
        &&& self.rows_columns_and_diagonals@ == base.rows_columns_and_diagonals@
        &&& collapsed.len() == 9
        &&& forall|i: int|
            0 <= i < 9 && base.board@[i] is Some ==> self.board@[i] == base.board@[i]
        &&& forall|i: int|
            0 <= i < 9 ==> (#[trigger] collapsed[i] <==> self.board@[i] != base.board@[i])
        &&& forall|i: int|
            0 <= i < 9 && #[trigger] collapsed[i] ==> base.board@[i] is None
                && self.board@[i] is Some
        &&& forall|i: int|
            0 <= i < 9 && #[trigger] collapsed[i] ==> exists|j: int|
                0 <= j < base.spooky_marks@.len() && edge_writes(
                    #[trigger] base.spooky_marks@[j],
                    i,
                    self.board@[i],
                ) && !self.spooky_marks@.contains(base.spooky_marks@[j])
        &&& forall|k: int|
            0 <= k < self.spooky_marks@.len() ==> base.spooky_marks@.contains(
                #[trigger] self.spooky_marks@[k],
            )
        &&& self.spooky_marks@.len() < base.spooky_marks@.len()
        &&& !self.spooky_marks@.contains(seed)
        &&& self.board@[seed.0.idx()] == Some(seed.2) || self.board@[seed.1.idx()] == Some(
            seed.2,
        )
        &&& forall|j: int|
            0 <= j < base.spooky_marks@.len() && base.spooky_marks@[j] != seed
                && !self.spooky_marks@.contains(#[trigger] base.spooky_marks@[j])
                ==> self.board@[base.spooky_marks@[j].0.idx()] is Some
                    && self.board@[base.spooky_marks@[j].1.idx()] is Some
    }

    /// The full resolution relation: everything one `collapse_loop` call
    /// guarantees between the board `pre` it started from and the board
    /// `post` it left behind. The grid only gains marks, each new mark is the
    /// mark of a consumed edge at one of its endpoints, edges are only
    /// consumed, a consumed edge other than the resolved one leaves both its
    /// endpoints classical, the resolved edge's own mark stands at one of its
    /// endpoints, and a parallel pair both forces a resolution and makes the
    /// resolved edge one side of a two-edge cycle.
    pub open spec fn collapse_rel(pre: Board, post: Board) -> bool {
        &&& post.wf()
        &&& post.edges_clear()
        &&& post.turn == pre.turn
        &&& post.positions@ == pre.positions@
        &&& post.rows_columns_and_diagonals@ == pre.rows_columns_and_diagonals@
        &&& forall|i: int| 0 <= i < 9 && pre.board@[i] is Some ==> post.board@[i] == pre.board@[i]
        &&& forall|i: int|
            0 <= i < 9 && post.board@[i] != pre.board@[i] ==> pre.board@[i] is None && exists|
                j: int,
            |
                0 <= j < pre.spooky_marks@.len() && edge_writes(
                    #[trigger] pre.spooky_marks@[j],
                    i,
                    post.board@[i],
                ) && !post.spooky_marks@.contains(pre.spooky_marks@[j])
        &&& forall|k: int|
            0 <= k < post.spooky_marks@.len() ==> pre.spooky_marks@.contains(
                #[trigger] post.spooky_marks@[k],
            )
        &&& post.spooky_marks@.len() <= pre.spooky_marks@.len()
        &&& post.spooky_marks@ == pre.spooky_marks@ ==> post.board@ == pre.board@
        &&& has_parallel_pair(pre.spooky_marks@) ==> post.spooky_marks@.len()
            < pre.spooky_marks@.len()
        &&& has_cycle(pre.spooky_marks@) ==> post.spooky_marks@.len() < pre.spooky_marks@.len()
        &&& post.spooky_marks@.len() == pre.spooky_marks@.len() || exists|j0: int|
            {
                &&& 0 <= j0 < pre.spooky_marks@.len()
                &&& !post.spooky_marks@.contains(#[trigger] pre.spooky_marks@[j0])
                &&& (post.board@[pre.spooky_marks@[j0].0.idx()] == Some(pre.spooky_marks@[j0].2)
                    || post.board@[pre.spooky_marks@[j0].1.idx()] == Some(
                    pre.spooky_marks@[j0].2,
                ))
                &&& has_parallel_pair(pre.spooky_marks@) ==> joined_twice(
                    pre.spooky_marks@,
                    pre.spooky_marks@[j0].0,
                    pre.spooky_marks@[j0].1,
                )
                &&& forall|j: int|
                    0 <= j < pre.spooky_marks@.len() && j != j0 && !post.spooky_marks@.contains(
                        #[trigger] pre.spooky_marks@[j],
                    ) ==> post.board@[pre.spooky_marks@[j].0.idx()] is Some
                        && post.board@[pre.spooky_marks@[j].1.idx()] is Some
            }
    }

    /// Resolve one entanglement cycle, if the detector finds one: write the
    /// resolved edge's mark at one of its endpoints chosen by a single random
    /// draw, consume that edge, and cascade the forced collapses until no
    /// remaining edge touches a classical cell. Whenever the entanglement
    /// graph holds any cycle, a resolution surely happens; with no cycle
    /// detected the board is left untouched.
    #[verifier::rlimit(100)]
    pub fn collapse_loop(&mut self)
        requires
            old(self).wf(),
            old(self).edges_clear(),
        ensures
            Self::collapse_rel(*old(self), *final(self)),
    {
        let loop_edge = self.depth_first_search();
        if loop_edge.is_none() {
            return ;
        }
        let ghost base = *old(self);
        let (start_loop, end_loop) = loop_edge.unwrap();
        // The detector handed back the endpoints of some live edge; resolve
        // the first edge joining them.
        let n = self.spooky_marks.len();
        let mut idx: usize = 0;
        while idx < n
            invariant_except_break
                idx <= n,
                *self == base,
                base.wf(),
                n == self.spooky_marks@.len(),
                exists|j: int|
                    0 <= j < n && #[trigger] connects(self.spooky_marks@[j], start_loop, end_loop),
                forall|k2: int|
                    0 <= k2 < idx ==> !(#[trigger] connects(
                        self.spooky_marks@[k2],
                        start_loop,
                        end_loop,
                    )),
            ensures
                *self == base,
                n == self.spooky_marks@.len(),
                idx < n,
                connects(self.spooky_marks@[idx as int], start_loop, end_loop),
            decreases n - idx,
        {
            let e = self.spooky_marks[idx];
            if (e.0 == start_loop && e.1 == end_loop) || (e.0 == end_loop && e.1 == start_loop) {
                break ;
            }
            idx = idx + 1;
        }
        let first = self.spooky_marks[idx];
        let ghost seed = first;
        let ghost seed_idx = idx as int;
        let choice = coin_flip();
        let position = if choice {
            first.0
        } else {
            first.1
        };
        proof {
            assert(base.edge_wf(base.spooky_marks@[seed_idx]));
            assert(base.board@[position.idx()] is None);
        }
        let pi = position.row * BOARD_SIZE + position.column;
        self.board.set(pi, Some(first.2));
        self.spooky_marks.remove(idx);
        let mut collapsed = Self::new_flags();
        collapsed.set(pi, true);
        proof {
            lemma_edge_removed(base.spooky_marks@, self.spooky_marks@, seed_idx);
            assert(self.cascade_inv(base, seed, collapsed@));
        }
        loop
            invariant_except_break
                self.cascade_inv(base, seed, collapsed@),
            ensures
                self.cascade_inv(base, seed, collapsed@),
                forall|k: int|
                    0 <= k < self.spooky_marks@.len() ==> !Self::touches(
                        #[trigger] self.spooky_marks@[k],
                        collapsed@,
                    ),
            decreases self.spooky_marks@.len(),
        {
            let m = self.spooky_marks.len();
            let mut hit: Option<usize> = None;
            for k2 in 0..m
                invariant
                    self.cascade_inv(base, seed, collapsed@),
                    m == self.spooky_marks@.len(),
                    hit matches Some(kk) ==> 0 <= (kk as int) < m && Self::touches(
                        self.spooky_marks@[kk as int],
                        collapsed@,
                    ),
                    hit is None ==> forall|q: int|
                        0 <= q < k2 ==> !Self::touches(#[trigger] self.spooky_marks@[q], collapsed@),
            {
                if hit.is_none() {
                    let e = self.spooky_marks[k2];
                    proof {
                        assert(self.edge_wf(self.spooky_marks@[k2 as int]));
                    }
                    let i0 = e.0.row * BOARD_SIZE + e.0.column;
                    let i1 = e.1.row * BOARD_SIZE + e.1.column;
                    if collapsed[i0] || collapsed[i1] {
                        hit = Some(k2);
                    }
                }
            }
            match hit {
                None => {
                    break ;
                },
                Some(kk) => {
                    let e = self.spooky_marks[kk];
                    let ghost pre = *self;
                    let ghost cpre = collapsed@;
                    self.spooky_marks.remove(kk);
                    proof {
                        assert(pre.edge_wf(e));
                        lemma_edge_removed(pre.spooky_marks@, self.spooky_marks@, kk as int);
                    }
                    let i0 = e.0.row * BOARD_SIZE + e.0.column;
                    let i1 = e.1.row * BOARD_SIZE + e.1.column;
                    let c0 = self.board[i0].is_some();
                    let c1 = self.board[i1].is_some();
                    if c0 && c1 {
                        // both endpoints already collapsed by earlier steps:
                        // the edge has become moot and is simply dropped
                        proof {
                            assert(self.cascade_inv(base, seed, collapsed@));
                        }
                    } else if c0 {
                        self.board.set(i1, Some(e.2));
                        collapsed.set(i1, true);
                        proof {
                            assert(self.cascade_inv(base, seed, collapsed@));
                        }
                    } else {
                        proof {
                            assert(Self::touches(e, collapsed@));
                            assert(c1);
                        }
                        self.board.set(i0, Some(e.2));
                        collapsed.set(i0, true);
                        proof {
                            assert(self.cascade_inv(base, seed, collapsed@));
                        }
                    }
                },
            }
        }
        proof {
            assert forall|i: int| 0 <= i < 9 && self.board@[i] != base.board@[i] implies base.board@[i] is None
                && exists|j: int|
                0 <= j < base.spooky_marks@.len() && edge_writes(
                    #[trigger] base.spooky_marks@[j],
                    i,
                    self.board@[i],
                ) && !self.spooky_marks@.contains(base.spooky_marks@[j]) by {
                assert(collapsed@[i]);
            }
            assert forall|k: int| 0 <= k < self.spooky_marks@.len() implies {
                let e = #[trigger] self.spooky_marks@[k];
                self.board@[e.0.idx()] is None && self.board@[e.1.idx()] is None
            } by {
                let e = self.spooky_marks@[k];
                let j = choose|j: int|
                    0 <= j < base.spooky_marks@.len() && base.spooky_marks@[j] == e;
                assert(base.board@[e.0.idx()] is None && base.board@[e.1.idx()] is None);
                assert(!collapsed@[e.0.idx()] && !collapsed@[e.1.idx()]);
            }
            assert forall|j: int| 0 <= j < base.spooky_marks@.len() && j != seed_idx implies (
            #[trigger] base.spooky_marks@[j]) != seed by {
                if j < seed_idx {
                    assert(base.spooky_marks@[j].2.turn() != base.spooky_marks@[seed_idx].2.turn());
                } else {
                    assert(base.spooky_marks@[seed_idx].2.turn() != base.spooky_marks@[j].2.turn());
                }
            }
            if has_parallel_pair(base.spooky_marks@) {
                assert(joined_twice(base.spooky_marks@, start_loop, end_loop));
                let (j, k) = choose|j: int, k: int|
                    0 <= j < base.spooky_marks@.len() && 0 <= k < base.spooky_marks@.len() && j
                        != k && #[trigger] connects(base.spooky_marks@[j], start_loop, end_loop)
                        && #[trigger] connects(base.spooky_marks@[k], start_loop, end_loop);
                assert(connects(base.spooky_marks@[seed_idx], start_loop, end_loop));
                assert(connects(base.spooky_marks@[j], seed.0, seed.1));
                assert(connects(base.spooky_marks@[k], seed.0, seed.1));
                assert(joined_twice(base.spooky_marks@, seed.0, seed.1));
            }
            assert(final(self).spooky_marks@.len() == old(self).spooky_marks@.len() || exists|
                j0: int,
            |
                {
                    &&& 0 <= j0 < old(self).spooky_marks@.len()
                    &&& !final(self).spooky_marks@.contains(#[trigger] old(self).spooky_marks@[j0])
                    &&& (final(self).board@[old(self).spooky_marks@[j0].0.idx()] == Some(
                        old(self).spooky_marks@[j0].2,
                    ) || final(self).board@[old(self).spooky_marks@[j0].1.idx()] == Some(
                        old(self).spooky_marks@[j0].2,
                    ))
                    &&& has_parallel_pair(old(self).spooky_marks@) ==> joined_twice(
                        old(self).spooky_marks@,
                        old(self).spooky_marks@[j0].0,
                        old(self).spooky_marks@[j0].1,
                    )
                    &&& forall|j: int|
                        0 <= j < old(self).spooky_marks@.len() && j != j0 && !final(self).spooky_marks@.contains(#[trigger] old(self).spooky_marks@[j]) ==> final(self).board@[old(self).spooky_marks@[j].0.idx()] is Some && final(self).board@[old(self).spooky_marks@[j].1.idx()] is Some
                }) by {
                assert(!final(self).spooky_marks@.contains(base.spooky_marks@[seed_idx]));
                assert(base.spooky_marks@[seed_idx] == seed);
            };
        }
    }

    /// The winning turn a line yields for `token`: the greatest turn number on
    /// the line if every cell of the line holds a mark of `token`, else nothing.
    pub open spec fn line_win(
        grid: Seq<Option<TurnToken>>,
        line: (Position, Position, Position),
        token: Token,
    ) -> Option<u8> {
        match (grid[line.0.idx()], grid[line.1.idx()], grid[line.2.idx()]) {
            (Some(m0), Some(m1), Some(m2)) => if m0.token() == token && m1.token() == token
                && m2.token() == token {
                Some(max3(m0.turn(), m1.turn(), m2.turn()))
            } else {
                None
            },
            _ => None,
        }
    }

    /// The best (greatest) winning turn for `token` among the first `n` lines.
    pub open spec fn best_win_upto(
        grid: Seq<Option<TurnToken>>,
        lines: Seq<(Position, Position, Position)>,
        token: Token,
        n: int,
    ) -> Option<u8>
        decreases n,
    {
        if n <= 0 {
            None
        } else {
            opt_max(
                Self::best_win_upto(grid, lines, token, n - 1),
                Self::line_win(grid, lines[n - 1], token),
            )
        }
    }

    /// `token`'s winning turn: the greatest per-line maximum turn over all
    /// lines fully occupied by `token`, or nothing if no such line exists.
    pub open spec fn find_win_spec(self, token: Token) -> Option<u8> {
        Self::best_win_upto(
            self.board@,
            self.rows_columns_and_diagonals@,
            token,
            self.rows_columns_and_diagonals@.len() as int,
        )
    }

    pub fn find_win(&self, token: Token) -> (r: Option<u8>)
        requires
            self.wf(),
        ensures
            r == self.find_win_spec(token),
    {
        proof {
            lemma_winning_lines_wf();
        }
        let mut best: Option<u8> = None;
        let len = self.rows_columns_and_diagonals.len();
        for li in 0..len
            invariant
                self.wf(),
                len == self.rows_columns_and_diagonals@.len(),
                best == Self::best_win_upto(
                    self.board@,
                    self.rows_columns_and_diagonals@,
                    token,
                    li as int,
                ),
        {
            proof {
                lemma_winning_lines_wf();
            }
            let line = self.rows_columns_and_diagonals[li];
            let m0 = self.get_mark(line.0);
            let m1 = self.get_mark(line.1);
            let m2 = self.get_mark(line.2);
            let line_result: Option<u8> = match (m0, m1, m2) {
                (Some(a), Some(b), Some(c)) => {
                    if Token::from(&a) == token && Token::from(&b) == token && Token::from(&c)
                        == token {
                        let t0 = a.turn_number();
                        let t1 = b.turn_number();
                        let t2 = c.turn_number();
                        let m = if t0 >= t1 && t0 >= t2 {
                            t0
                        } else if t1 >= t2 {
                            t1
                        } else {
                            t2
                        };
                        Some(m)
                    } else {
                        None
                    }
                },
                _ => None,
            };
            best = match (best, line_result) {
                (None, x) => x,
                (x, None) => x,
                (Some(x), Some(y)) => Some(
                    if x >= y {
                        x
                    } else {
                        y
                    },
                ),
            };
        }
        best
    }

    /// The score pair in half-point units (a win counts 2, a late win 1),
    /// so that the scores stay exact integers.
    pub open spec fn score_spec(self) -> (u8, u8) {
        match (self.find_win_spec(Token::X), self.find_win_spec(Token::O)) {
            (None, None) => (0u8, 0u8),
            (Some(tx), None) => (2u8, 0u8),
            (None, Some(to)) => (0u8, 2u8),
            (Some(tx), Some(to)) => if tx < to {
                (2u8, 1u8)
            } else {
                (1u8, 2u8)
            },
        }
    }

    /// Score the board, in half-point units: 2 stands for one point and 1 for
    /// half a point. Undecided play scores (0, 0); a lone winner scores (2, 0)
    /// or (0, 2); when both symbols complete lines, the earlier winning turn
    /// takes 2 and the later takes 1. Equal winning turns cannot arise on a
    /// well-formed board (`lemma_no_equal_winning_turns`).
    pub fn get_score(&self) -> (r: (u8, u8))
        requires
            self.wf(),
        ensures
            r == self.score_spec(),
    {
        let x_wins = self.find_win(Token::X);
        let o_wins = self.find_win(Token::O);
        match (x_wins, o_wins) {
            (None, None) => (0, 0),
            (Some(_), None) => (2, 0),
            (None, Some(_)) => (0, 2),
            (Some(turn_x), Some(turn_o)) => if turn_x < turn_o {
                (2, 1)
            } else {
                (1, 2)
            },
        }
    }
}

/// Relies on rand's `rng()` and `RngExt::random::<bool>`: one draw from the
/// standard uniform distribution over `bool`, the engine's single random
/// decision per resolved cycle. Nothing can be promised of its value.
#[verifier::external_body]
fn coin_flip() -> bool {
    rand::rng().random::<bool>()
}

/// `e` would write its mark `c` when collapsing onto cell `i`.
pub open spec fn edge_writes(e: SpookyMark, i: int, c: Option<TurnToken>) -> bool {
    (e.0.idx() == i || e.1.idx() == i) && c == Some(e.2)
}

/// `e` joins cells `a` and `b`, in either orientation.
pub open spec fn connects(e: SpookyMark, a: Position, b: Position) -> bool {
    (e.0 == a && e.1 == b) || (e.0 == b && e.1 == a)
}

/// Two materially different edges both join the cells `a` and `b`.
pub open spec fn joined_twice(edges: Seq<SpookyMark>, a: Position, b: Position) -> bool {
    exists|j: int, k: int|
        0 <= j < edges.len() && 0 <= k < edges.len() && j != k && #[trigger] connects(
            edges[j],
            a,
            b,
        ) && #[trigger] connects(edges[k], a, b)
}

/// A closed walk through pairwise distinct live edges: the shape of an
/// entanglement cycle, of any length from a parallel pair upwards.
pub open spec fn is_cycle_walk(edges: Seq<SpookyMark>, idxs: Seq<int>, verts: Seq<Position>) -> bool {
    &&& idxs.len() >= 2
    &&& verts.len() == idxs.len() + 1
    &&& verts[0] == verts[idxs.len() as int]
    &&& forall|m1: int, m2: int| 0 <= m1 < m2 < idxs.len() ==> idxs[m1] != idxs[m2]
    &&& forall|m: int| 0 <= m < idxs.len() ==> 0 <= #[trigger] idxs[m] < edges.len()
    &&& forall|m: int|
        0 <= m < idxs.len() ==> connects(edges[#[trigger] idxs[m]], verts[m], verts[m + 1])
}

/// The entanglement graph holds a cycle: some closed walk reuses no edge.
pub open spec fn has_cycle(edges: Seq<SpookyMark>) -> bool {
    exists|idxs: Seq<int>, verts: Seq<Position>| is_cycle_walk(edges, idxs, verts)
}

/// Edge `j` is a discovery edge of the traversal: the parent edge of one of
/// its two endpoint cells.
spec fn in_tree(edges: Seq<SpookyMark>, pe: Seq<int>, j: int) -> bool {
    pe[edges[j].0.idx()] == j || pe[edges[j].1.idx()] == j
}

/// A well-formed discovery forest: `pe[v]` is the edge through which cell `v`
/// was discovered from its parent `par[v]`, and the discovery time `disc`
/// grows strictly along every discovery edge.
spec fn forest_cert(edges: Seq<SpookyMark>, pe: Seq<int>, par: Seq<int>, disc: Seq<int>) -> bool {
    &&& pe.len() == 9
    &&& par.len() == 9
    &&& disc.len() == 9
    &&& forall|v: int|
        0 <= v < 9 && #[trigger] pe[v] != -1 ==> {
            &&& 0 <= pe[v] < edges.len()
            &&& 0 <= par[v] < 9
            &&& disc[v] >= 0
            &&& disc[par[v]] >= 0
            &&& disc[par[v]] < disc[v]
            &&& connects(edges[pe[v]], pos_at(v), pos_at(par[v]))
        }
}

/// Index of a greatest element of a nonempty integer sequence.
proof fn seq_max_index(s: Seq<int>) -> (m: int)
    requires
        s.len() > 0,
    ensures
        0 <= m < s.len(),
        forall|i: int| 0 <= i < s.len() ==> s[i] <= s[m],
    decreases s.len(),
{
    if s.len() == 1 {
        0
    } else {
        let m2 = seq_max_index(s.drop_last());
        assert(forall|i: int| 0 <= i < s.len() - 1 ==> #[trigger] s[i] == s.drop_last()[i]);
        if s.last() >= s[m2] {
            s.len() - 1
        } else {
            m2
        }
    }
}

/// A graph whose every edge is a discovery edge of some well-formed forest is
/// acyclic: a closed walk with distinct edges would have to reach its
/// latest-discovered cell through two different discovery edges of that one
/// cell.
proof fn lemma_forest_no_cycle(edges: Seq<SpookyMark>, pe: Seq<int>, par: Seq<int>, disc: Seq<int>)
    requires
        forall|j: int|
            0 <= j < edges.len() ==> {
                let e = #[trigger] edges[j];
                e.0.spec_valid() && e.1.spec_valid() && e.0 != e.1
            },
        forest_cert(edges, pe, par, disc),
        forall|j: int| 0 <= j < edges.len() ==> in_tree(edges, pe, j),
    ensures
        !has_cycle(edges),
{
    if has_cycle(edges) {
        let (idxs, verts) = choose|idxs: Seq<int>, verts: Seq<Position>|
            is_cycle_walk(edges, idxs, verts);
        let k = idxs.len() as int;
        assert forall|m: int| 0 <= m < k + 1 implies (#[trigger] verts[m]).spec_valid() by {
            if m < k {
                assert(connects(edges[idxs[m]], verts[m], verts[m + 1]));
                assert(edges[idxs[m]].0.spec_valid() && edges[idxs[m]].1.spec_valid());
            } else {
                assert(verts[k] == verts[0]);
                assert(connects(edges[idxs[0]], verts[0], verts[1]));
                assert(edges[idxs[0]].0.spec_valid() && edges[idxs[0]].1.spec_valid());
            }
        }
        let s = Seq::new(k as nat, |m: int| disc[verts[m].idx()]);
        let mstar = seq_max_index(s);
        let prev: int = if mstar == 0 {
            k - 1
        } else {
            mstar - 1
        };
        let vs = verts[mstar];
        lemma_pos_idx(vs);
        let a = idxs[mstar];
        let b = idxs[prev];
        assert(connects(edges[a], verts[mstar], verts[mstar + 1]));
        assert(connects(edges[b], verts[prev], verts[prev + 1]));
        assert(verts[prev + 1] == verts[mstar]);
        // the successor edge `a` is the parent edge of `vs` itself: were it
        // the parent edge of the far endpoint, that endpoint would have been
        // discovered later than the latest-discovered walk cell
        let wa = verts[mstar + 1];
        lemma_pos_idx(wa);
        assert(in_tree(edges, pe, a));
        if pe[wa.idx()] == a {
            assert(connects(edges[a], pos_at(wa.idx()), pos_at(par[wa.idx()])));
            assert(pos_at(par[wa.idx()]).idx() == par[wa.idx()]) by {
                lemma_pos_at_idx(par[wa.idx()]);
            }
            assert(pos_at(par[wa.idx()]) == vs);
            assert(par[wa.idx()] == vs.idx());
            assert(disc[vs.idx()] < disc[wa.idx()]);
            assert(disc[wa.idx()] <= s[mstar]) by {
                if mstar + 1 < k {
                    assert(s[mstar + 1] == disc[wa.idx()]);
                } else {
                    assert(wa == verts[0]);
                    assert(s[0] == disc[wa.idx()]);
                }
            }
            assert(false);
        }
        assert(pe[vs.idx()] == a);
        let wb = verts[prev];
        lemma_pos_idx(wb);
        assert(in_tree(edges, pe, b));
        if pe[wb.idx()] == b && wb != vs {
            assert(connects(edges[b], pos_at(wb.idx()), pos_at(par[wb.idx()])));
            assert(pos_at(par[wb.idx()]).idx() == par[wb.idx()]) by {
                lemma_pos_at_idx(par[wb.idx()]);
            }
            assert(pos_at(par[wb.idx()]) == vs);
            assert(par[wb.idx()] == vs.idx());
            assert(disc[vs.idx()] < disc[wb.idx()]);
            assert(s[prev] == disc[wb.idx()]);
            assert(false);
        }
        assert(pe[vs.idx()] == b);
        assert(a == b);
        assert(mstar != prev);
        assert(idxs[mstar] != idxs[prev]);
        assert(false);
    }
}

/// A cell index round-trips through its coordinates.
proof fn lemma_pos_at_idx(i: int)
    requires
        0 <= i < 9,
    ensures
        pos_at(i).idx() == i,
        pos_at(i).spec_valid(),
{
}

/// Two materially different edges join the same pair of cells: the smallest
/// possible cycle, invisible to a traversal that only skips its predecessor.
pub open spec fn has_parallel_pair(edges: Seq<SpookyMark>) -> bool {
    exists|j: int, k: int|
        0 <= j < edges.len() && 0 <= k < edges.len() && j != k && #[trigger] connects(
            edges[j],
            edges[k].0,
            edges[k].1,
        )
}

/// How many cells a visited-flag sequence still leaves unvisited.
pub open spec fn count_false(s: Seq<bool>) -> nat
    decreases s.len(),
{
    if s.len() == 0 {
        0
    } else {
        count_false(s.drop_last()) + (if s.last() {
            0nat
        } else {
            1nat
        })
    }
}

/// Newly visiting one cell lowers the unvisited count by exactly one.
proof fn lemma_count_false_update(s: Seq<bool>, i: int)
    requires
        0 <= i < s.len(),
        !s[i],
    ensures
        count_false(s.update(i, true)) + 1 == count_false(s),
    decreases s.len(),
{
    if i == s.len() - 1 {
        assert(s.update(i, true).drop_last() =~= s.drop_last());
    } else {
        assert(s.update(i, true).drop_last() =~= s.drop_last().update(i, true));
        lemma_count_false_update(s.drop_last(), i);
        assert(s.update(i, true).last() == s.last());
    }
}

/// Removing the edge at index `kk` from an edge list whose marks all carry
/// pairwise distinct turn numbers: the other edges survive, in order, and the
/// removed edge is gone for good.
proof fn lemma_edge_removed(pre: Seq<SpookyMark>, post: Seq<SpookyMark>, kk: int)
    requires
        0 <= kk < pre.len(),
        post == pre.remove(kk),
        forall|k1: int, k2: int|
            0 <= k1 < k2 < pre.len() ==> (#[trigger] pre[k1]).2.turn() != (
            #[trigger] pre[k2]).2.turn(),
    ensures
        post.len() == pre.len() - 1,
        forall|k: int|
            0 <= k < post.len() ==> #[trigger] post[k] == (if k < kk {
                pre[k]
            } else {
                pre[k + 1]
            }),
        forall|k: int| 0 <= k < post.len() ==> pre.contains(#[trigger] post[k]),
        forall|k: int| 0 <= k < post.len() ==> (#[trigger] post[k]) != pre[kk],
        !post.contains(pre[kk]),
        forall|j: int| 0 <= j < pre.len() && j != kk ==> post.contains(#[trigger] pre[j]),
{
    pre.remove_ensures(kk);
    assert forall|k: int| 0 <= k < post.len() implies pre.contains(#[trigger] post[k]) by {
        if k < kk {
            assert(post[k] == pre[k]);
        } else {
            assert(post[k] == pre[k + 1]);
        }
    }
    assert forall|k: int| 0 <= k < post.len() implies (#[trigger] post[k]) != pre[kk] by {
        if k < kk {
            assert(pre[k].2.turn() != pre[kk].2.turn());
        } else {
            assert(pre[kk].2.turn() != pre[k + 1].2.turn());
        }
    }
    assert forall|j: int| 0 <= j < pre.len() && j != kk implies post.contains(
        #[trigger] pre[j],
    ) by {
        if j < kk {
            assert(post[j] == pre[j]);
        } else {
            assert(post[j - 1] == pre[j]);
        }
    }
}

/// A valid position is exactly the cell its row-major index names.
pub proof fn lemma_pos_idx(p: Position)
    requires
        p.spec_valid(),
    ensures
        0 <= p.idx() < 9,
        pos_at(p.idx()) == p,
{
}

/// The greatest of three turn numbers.
pub open spec fn max3(a: u8, b: u8, c: u8) -> u8 {
    if a >= b && a >= c {
        a
    } else if b >= c {
        b
    } else {
        c
    }
}

/// The greater of two optional winning turns; an absent side never wins.
pub open spec fn opt_max(a: Option<u8>, b: Option<u8>) -> Option<u8> {
    match (a, b) {
        (None, x) => x,
        (x, None) => x,
        (Some(x), Some(y)) => Some(
            if x >= y {
                x
            } else {
                y
            },
        ),
    }
}

/// Every winning line consists of three distinct valid cells.
pub proof fn lemma_winning_lines_wf()
    ensures
        winning_lines().len() == 8,
        forall|k: int|
            0 <= k < 8 ==> {
                let l = #[trigger] winning_lines()[k];
                l.0.spec_valid() && l.1.spec_valid() && l.2.spec_valid()
            },
{
}

impl TurnToken {
    /// The turn number carried by this mark, as a run-time value.
    pub fn turn_number(&self) -> (t: u8)
        ensures
            t == self.turn(),
    {
        match self {
            TurnToken::X(n) => *n,
            TurnToken::O(n) => *n,
        }
    }
}

/// Every turn number already on a well-formed board, classical or entangled,
/// lies strictly below the counter; since `do_turn` assigns the counter's
/// value and then advances it, each assigned turn number is strictly greater
/// than all previously assigned ones.
pub proof fn lemma_turns_bounded(b: Board)
    requires
        b.wf(),
    ensures
        forall|i: int| 0 <= i < 9 && #[trigger] b.board@[i] is Some ==> cell_turn(b.board@[i]) < b.turn,
        forall|k: int|
            0 <= k < b.spooky_marks@.len() ==> (#[trigger] b.spooky_marks@[k]).2.turn() < b.turn,
{
}

/// Cell `i` of `grid` holds a mark of `token` made on turn `t`.
pub open spec fn token_cell_at(grid: Seq<Option<TurnToken>>, i: int, token: Token, t: u8) -> bool {
    &&& grid[i] is Some
    &&& grid[i]->Some_0.token() == token
    &&& grid[i]->Some_0.turn() == t
}

/// A winning turn for `token` is always the turn number of one of `token`'s
/// own cells: `best_win_upto` only ever reports turn numbers read off the grid.
proof fn lemma_best_win_witness(
    grid: Seq<Option<TurnToken>>,
    lines: Seq<(Position, Position, Position)>,
    token: Token,
    n: int,
    t: u8,
)
    requires
        grid.len() == 9,
        0 <= n <= lines.len(),
        forall|k: int|
            0 <= k < lines.len() ==> {
                let l = #[trigger] lines[k];
                l.0.spec_valid() && l.1.spec_valid() && l.2.spec_valid()
            },
        Board::best_win_upto(grid, lines, token, n) == Some(t),
    ensures
        exists|i: int| 0 <= i < 9 && #[trigger] token_cell_at(grid, i, token, t),
    decreases n,
{
    if Board::line_win(grid, lines[n - 1], token) == Some(t) {
        let l = lines[n - 1];
        let m0 = grid[l.0.idx()]->Some_0;
        let m1 = grid[l.1.idx()]->Some_0;
        let m2 = grid[l.2.idx()]->Some_0;
        if m0.turn() == t {
            assert(0 <= l.0.idx() < 9 && token_cell_at(grid, l.0.idx(), token, t));
        } else if m1.turn() == t {
            assert(0 <= l.1.idx() < 9 && token_cell_at(grid, l.1.idx(), token, t));
        } else {
            assert(0 <= l.2.idx() < 9 && token_cell_at(grid, l.2.idx(), token, t));
        }
    } else {
        lemma_best_win_witness(grid, lines, token, n - 1, t);
    }
}

/// Both symbols can never share a winning turn: on a well-formed board every
/// mark carries a unique turn number, and each symbol's winning turn is the
/// turn number of one of its own cells, which belong to different cells for
/// different symbols. This is why the scoring tie-break is total.
pub proof fn lemma_no_equal_winning_turns(b: Board)
    requires
        b.wf(),
    ensures
        b.find_win_spec(Token::X) is Some && b.find_win_spec(Token::O) is Some
            ==> b.find_win_spec(Token::X)->Some_0 != b.find_win_spec(Token::O)->Some_0,
{
    if b.find_win_spec(Token::X) is Some && b.find_win_spec(Token::O) is Some
        && b.find_win_spec(Token::X)->Some_0 == b.find_win_spec(Token::O)->Some_0 {
        let tx = b.find_win_spec(Token::X)->Some_0;
        let to = b.find_win_spec(Token::O)->Some_0;
        lemma_winning_lines_wf();
        let lines = b.rows_columns_and_diagonals@;
        lemma_best_win_witness(b.board@, lines, Token::X, lines.len() as int, tx);
        lemma_best_win_witness(b.board@, lines, Token::O, lines.len() as int, to);
        let i = choose|i: int| 0 <= i < 9 && #[trigger] token_cell_at(b.board@, i, Token::X, tx);
        let j = choose|j: int| 0 <= j < 9 && #[trigger] token_cell_at(b.board@, j, Token::O, to);
        assert(i != j);
        assert(cell_turn(b.board@[i]) != cell_turn(b.board@[j]));
    }
}

} // verus!
