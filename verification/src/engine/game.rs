//! A game played on a mutable board: moves, their retraction, and the result after each move.

use std::collections::HashMap;

use vstd::prelude::*;

use crate::engine::attack::{analysable, analyze_cycle, conduct, rewinding, rewound};
use crate::engine::board::{index_board, Board, PieceIndexBoard};
use crate::engine::constants::{MAX_TOTAL_PLIES, NO_CAPTURE_DRAW_PLIES};
use crate::engine::layout::{
    fen_describes, fen_error, fen_fits, law_moves_keep_boards_well_formed, law_undo_restores,
    Layout,
};
use crate::engine::move_gen::{is_in_check, legal_moves};
use crate::engine::types::{Color, GameStatus, GameStatusReason, Move, MoveInfo};

verus! {

broadcast use vstd::std_specs::hash::group_hash_axioms;

/// A game: the board, the moves made so far and the piece types on the board after each of them.
#[verifier::ext_equal]
pub struct Play {
    pub board: Layout,
    pub infos: Seq<MoveInfo>,
    pub history: Seq<PieceIndexBoard>,
}

/// The winner and the reason when each side has behaved in a cycle as given: the worse conduct
/// loses, equal conduct draws.
pub open spec fn verdict(red: Option<GameStatusReason>, black: Option<GameStatusReason>) -> GameStatus {
    if severity(red) > severity(black) {
        GameStatus::spec_terminal(red.unwrap(), Some(Color::Black))
    } else if severity(black) > severity(red) {
        GameStatus::spec_terminal(black.unwrap(), Some(Color::Red))
    } else {
        GameStatus::spec_terminal(GameStatusReason::MutualPerpetual, None)
    }
}

/// How bad a conduct is: perpetual check is worse than perpetual chase, which is worse than none.
pub open spec fn severity(reason: Option<GameStatusReason>) -> int {
    match reason {
        Some(GameStatusReason::PerpetualCheck) => 2,
        Some(GameStatusReason::PerpetualChase) => 1,
        _ => 0,
    }
}

impl Play {
    /// The board after the first `i` moves.
    pub open spec fn layout_at(self, i: int) -> Layout {
        rewound(self.board, self.infos, (self.infos.len() - i) as nat)
    }

    /// Move `i` could be made and was noted as it was made.
    pub open spec fn linked(self, i: int) -> bool {
        let mv = self.infos[i].mv;
        &&& self.layout_at(i).can_make(mv)
        &&& self.infos[i] == self.layout_at(i).info(mv)
        &&& self.layout_at(i + 1) == self.layout_at(i).after(mv)
    }

    /// The moves lead to the board, and the history shows the boards on the way.
    pub open spec fn wf(self) -> bool {
        &&& forall|i: int| 0 <= i <= self.infos.len() ==> (#[trigger] self.layout_at(i)).wf()
        &&& forall|i: int| 0 <= i < self.infos.len() ==> #[trigger] self.linked(i)
        &&& self.history.len() == self.infos.len() + 1
        &&& forall|i: int|
            0 <= i <= self.infos.len() ==> index_board(
                self.layout_at(i).cells,
                #[trigger] self.history[i],
            )
    }

    /// The numbers, below `n`, of the boards with the given hash.
    pub open spec fn indices(self, hash: u64, n: nat) -> Seq<u32>
        decreases n,
    {
        if n == 0 {
            Seq::empty()
        } else {
            let rest = self.indices(hash, (n - 1) as nat);
            if self.layout_at(n - 1).hash == hash {
                rest.push((n - 1) as u32)
            } else {
                rest
            }
        }
    }

    /// The boards, the current one included, that have the hash of the current one.
    pub open spec fn recurrences(self) -> Seq<u32> {
        self.indices(self.board.hash, self.infos.len() + 1)
    }

    /// The moves since the hash of the current board last occurred.
    pub open spec fn cycle(self) -> Seq<MoveInfo> {
        self.infos.subrange(
            self.recurrences()[self.recurrences().len() - 2] as int,
            self.infos.len() as int,
        )
    }

    /// Number of plies by the number of the move.
    pub open spec fn plies(self) -> int {
        (self.board.fullmove - 1) * 2 + if self.board.side == Color::Black {
            1int
        } else {
            0
        }
    }

    pub open spec fn stuck(self) -> bool {
        self.board.legal_list(self.board.side, false).len() == 0
    }

    /// The result after a move: a side without a legal move has lost; a board met for the third
    /// time is judged by the conduct in the cycle; else the game is drawn after too many plies
    /// without a capture or in all.
    pub open spec fn outcome(self) -> GameStatus {
        let side = self.board.side;
        if self.stuck() {
            GameStatus::spec_terminal(
                if self.board.in_check(side) {
                    GameStatusReason::Checkmate
                } else {
                    GameStatusReason::Stalemate
                },
                Some(side.opposite()),
            )
        } else if self.recurrences().len() >= 3 {
            let boards = rewinding(self.board, self.cycle());
            verdict(conduct(boards, Color::Red), conduct(boards, Color::Black))
        } else if self.board.quiet >= NO_CAPTURE_DRAW_PLIES {
            GameStatus::spec_terminal(GameStatusReason::MaxNonCapture, None)
        } else if self.plies() >= MAX_TOTAL_PLIES {
            GameStatus::spec_terminal(GameStatusReason::MaxMoves, None)
        } else {
            GameStatus::spec_ongoing()
        }
    }

    /// The result can be found without a counter overflowing.
    pub open spec fn judgeable(self) -> bool {
        &&& self.board.all_judgeable(self.board.side)
        &&& !self.stuck() && self.recurrences().len() >= 3 ==> self.board.fullmove < u32::MAX
        &&& !self.stuck() && self.recurrences().len() < 3 && self.board.quiet
            < NO_CAPTURE_DRAW_PLIES ==> 1 <= self.board.fullmove && self.plies() <= u32::MAX
    }

    /// `next` is this game after the move `mv`.
    pub open spec fn extended(self, mv: Move, next: Play) -> bool {
        &&& next.board == self.board.after(mv)
        &&& next.infos == self.infos.push(self.board.info(mv))
        &&& next.history.len() == self.history.len() + 1
        &&& next.history.drop_last() == self.history
        &&& index_board(next.board.cells, next.history.last())
    }
}

proof fn lemma_rewound_push(l: Layout, infos: Seq<MoveInfo>, mv: Move, k: nat)
    requires
        l.wf(),
        mv.valid(),
        l.cells.contains_key(mv.from.at()),
        k <= infos.len(),
    ensures
        rewound(l.after(mv), infos.push(l.info(mv)), k + 1) == rewound(l, infos, k),
    decreases k,
{
    let more = infos.push(l.info(mv));
    if k == 0 {
        law_undo_restores(l, mv);
        assert(rewound(l.after(mv), more, 0) == l.after(mv));
    } else {
        lemma_rewound_push(l, infos, mv, (k - 1) as nat);
        assert(more[more.len() - (k + 1)] == infos[infos.len() - k]);
    }
}

/// A move extends a game: the earlier boards stay as they are, and the game stays well formed.
pub proof fn law_move_extends_game(p: Play, mv: Move, next: Play)
    requires
        p.wf(),
        p.board.can_make(mv),
        p.extended(mv, next),
    ensures
        next.wf(),
        forall|i: int|
            0 <= i <= p.infos.len() ==> #[trigger] next.layout_at(i) == p.layout_at(i),
        next.layout_at(p.infos.len() as int + 1) == p.board.after(mv),
{
    let len = p.infos.len();
    assert(p.layout_at(len as int) == p.board);
    assert(p.layout_at(len as int).wf());
    law_moves_keep_boards_well_formed(p.board, mv);
    assert forall|i: int| 0 <= i <= len implies #[trigger] next.layout_at(i) == p.layout_at(i) by {
        lemma_rewound_push(p.board, p.infos, mv, (len - i) as nat);
    }
    assert(next.layout_at(len as int + 1) == next.board);
    assert forall|i: int| 0 <= i <= len + 1 implies (#[trigger] next.layout_at(i)).wf() by {
        if i <= len {
            assert(p.layout_at(i).wf());
        }
    }
    assert forall|i: int| 0 <= i < len + 1 implies #[trigger] next.linked(i) by {
        if i < len {
            assert(p.linked(i));
            assert(next.layout_at(i) == p.layout_at(i));
            assert(next.layout_at(i + 1) == p.layout_at(i + 1));
        } else {
            assert(next.layout_at(i) == p.layout_at(i));
        }
    }
    assert forall|i: int| 0 <= i <= len + 1 implies index_board(
        next.layout_at(i).cells,
        #[trigger] next.history[i],
    ) by {
        if i <= len {
            assert(next.history[i] == p.history[i]);
            assert(next.layout_at(i) == p.layout_at(i));
        }
    }
}

/// The moves of a game can be taken back one by one: the boards and moves before stay.
pub proof fn law_undo_shortens_game(p: Play, prev: Play)
    requires
        p.wf(),
        p.infos.len() > 0,
        prev.board == p.layout_at(p.infos.len() - 1),
        prev.infos == p.infos.drop_last(),
        prev.history == p.history.drop_last(),
    ensures
        prev.wf(),
        forall|i: int| 0 <= i < p.infos.len() ==> #[trigger] prev.layout_at(i) == p.layout_at(i),
{
    let len = p.infos.len();
    assert(rewound(p.board, p.infos, 0) == p.board);
    assert(rewound(p.board, p.infos, 1) == p.board.undone(p.infos.last()));
    assert forall|i: int| 0 <= i < len implies #[trigger] prev.layout_at(i) == p.layout_at(i) by {
        lemma_rewound_pop(p.board, p.infos, (len - 1 - i) as nat);
    }
    assert forall|i: int| 0 <= i <= len - 1 implies (#[trigger] prev.layout_at(i)).wf() by {
        assert(p.layout_at(i).wf());
    }
    assert forall|i: int| 0 <= i < len - 1 implies #[trigger] prev.linked(i) by {
        assert(p.linked(i));
        assert(prev.layout_at(i) == p.layout_at(i));
        assert(prev.layout_at(i + 1) == p.layout_at(i + 1));
    }
    assert forall|i: int| 0 <= i <= len - 1 implies index_board(
        prev.layout_at(i).cells,
        #[trigger] prev.history[i],
    ) by {
        assert(prev.history[i] == p.history[i]);
    }
}

proof fn lemma_rewound_pop(l: Layout, infos: Seq<MoveInfo>, k: nat)
    requires
        k < infos.len(),
    ensures
        rewound(l.undone(infos.last()), infos.drop_last(), k) == rewound(l, infos, k + 1),
    decreases k,
{
    let less = infos.drop_last();
    if k == 0 {
        assert(rewound(l, infos, 0) == l);
    } else {
        lemma_rewound_pop(l, infos, (k - 1) as nat);
        assert(less[less.len() - k] == infos[infos.len() - (k + 1)]);
    }
}

/// The numbers of boards with a hash are below `n`, and increase.
proof fn lemma_indices(p: Play, hash: u64, n: nat)
    requires
        n <= u32::MAX,
    ensures
        forall|j: int|
            0 <= j < p.indices(hash, n).len() ==> (#[trigger] p.indices(hash, n)[j]) < n,
        forall|i: int, j: int|
            0 <= i < j < p.indices(hash, n).len() ==> #[trigger] p.indices(hash, n)[i]
                < #[trigger] p.indices(hash, n)[j],
    decreases n,
{
    if n > 0 {
        let rest = p.indices(hash, (n - 1) as nat);
        let all = p.indices(hash, n);
        lemma_indices(p, hash, (n - 1) as nat);
        assert forall|j: int| 0 <= j < all.len() implies (#[trigger] all[j]) < n by {
            if j < rest.len() {
                assert(all[j] == rest[j]);
            }
        }
        assert forall|i: int, j: int| 0 <= i < j < all.len() implies #[trigger] all[i]
            < #[trigger] all[j] by {
            assert(all[i] == rest[i]);
            if j < rest.len() {
                assert(all[j] == rest[j]);
            }
        }
    }
}

/// Games that agree on the first `n` boards have the same numbers below `n`.
proof fn lemma_indices_agree(p: Play, q: Play, hash: u64, n: nat)
    requires
        forall|i: int| 0 <= i < n ==> #[trigger] p.layout_at(i) == q.layout_at(i),
    ensures
        p.indices(hash, n) == q.indices(hash, n),
    decreases n,
{
    if n > 0 {
        lemma_indices_agree(p, q, hash, (n - 1) as nat);
        assert(p.layout_at(n - 1) == q.layout_at(n - 1));
    }
}

/// The number of the move never falls.
proof fn lemma_fullmove_mono(p: Play, i: int)
    requires
        p.wf(),
        0 <= i <= p.infos.len(),
    ensures
        p.layout_at(i).fullmove <= p.board.fullmove,
    decreases p.infos.len() - i,
{
    if i < p.infos.len() {
        lemma_fullmove_mono(p, i + 1);
        assert(p.linked(i));
    }
}

/// Taking back the moves of a cycle meets the same boards as taking back those of the game.
proof fn lemma_rewound_tail(l: Layout, infos: Seq<MoveInfo>, start: int, k: nat)
    requires
        0 <= start <= infos.len(),
        k <= infos.len() - start,
    ensures
        rewound(l, infos.subrange(start, infos.len() as int), k) == rewound(l, infos, k),
    decreases k,
{
    let tail = infos.subrange(start, infos.len() as int);
    if k > 0 {
        lemma_rewound_tail(l, infos, start, (k - 1) as nat);
        assert(tail[tail.len() - k] == infos[infos.len() - k]);
    }
}

#[derive(Debug)]
pub struct GameState {
    pub board: Board,
    pub status: GameStatus,
    pub history: Vec<PieceIndexBoard>,
    /// The numbers of the boards with each hash.
    pub zobrist_hash_history: HashMap<u64, Vec<u32>>,
    pub move_info_history: Vec<MoveInfo>,
}

impl View for GameState {
    type V = Play;

    open spec fn view(&self) -> Play {
        Play {
            board: self.board@,
            infos: self.move_info_history@,
            history: self.history@,
        }
    }
}

/// The map lists, for each hash that occurs, the numbers of the boards with it.
pub open spec fn hashes_ok(p: Play, m: Map<u64, Vec<u32>>) -> bool {
    forall|h: u64|
        #![trigger m.contains_key(h)]
        #![trigger m[h]]
        {
            &&& m.contains_key(h) <==> p.indices(h, p.infos.len() + 1).len() > 0
            &&& m.contains_key(h) ==> m[h]@ == p.indices(h, p.infos.len() + 1)
        }
}

impl GameState {
    /// The game is well formed, the boards are listed by their hashes, and their numbers fit.
    pub open spec fn wf(&self) -> bool {
        &&& self@.wf()
        &&& self@.infos.len() < u32::MAX
        &&& hashes_ok(self@, self.zobrist_hash_history@)
    }

    pub fn new(board: Board) -> (r: GameState)
        ensures
            r@.board == board@,
            r.status == GameStatus::spec_ongoing(),
            r@.infos == Seq::<MoveInfo>::empty(),
            r@.history.len() == 1,
            index_board(board@.cells, r@.history[0]),
            board@.wf() ==> r.wf(),
    {
        let mut history: Vec<PieceIndexBoard> = Vec::new();
        history.push(board.get_piece_index_board());
        let mut zobrist_hash_history: HashMap<u64, Vec<u32>> = HashMap::new();
        let mut first: Vec<u32> = Vec::new();
        first.push(0);
        zobrist_hash_history.insert(board.zobrist_hash, first);
        let r = GameState {
            board,
            status: GameStatus::ongoing(),
            history,
            zobrist_hash_history,
            move_info_history: Vec::new(),
        };
        proof {
            let p = r@;
            assert(p.infos =~= Seq::<MoveInfo>::empty());
            assert(p.layout_at(0) == p.board);
            assert forall|h: u64| p.indices(h, 1) == if h == p.board.hash {
                seq![0u32]
            } else {
                Seq::empty()
            } by {
                assert(p.indices(h, 0) =~= Seq::empty());
                assert(p.layout_at(0).hash == p.board.hash);
                if h == p.board.hash {
                    assert(p.indices(h, 1) =~= seq![0u32]);
                } else {
                    assert(p.indices(h, 1) =~= Seq::empty());
                }
            }
            assert(first@ =~= seq![0u32]);
            if p.board.wf() {
                assert forall|i: int| 0 <= i <= 0 implies (#[trigger] p.layout_at(i)).wf() by {}
            }
        }
        r
    }

    pub fn from_fen(fen: &str) -> (r: Result<GameState, String>)
        requires
            fen_fits(fen@),
        ensures
            match r {
                Ok(g) => {
                    &&& fen_describes(fen@, g@.board)
                    &&& g.status == GameStatus::spec_ongoing()
                    &&& g@.infos == Seq::<MoveInfo>::empty()
                    &&& g@.board.wf() ==> g.wf()
                },
                Err(e) => fen_error(fen@) == Some(e@),
            },
    {
        match Board::from_fen(fen) {
            Ok(board) => Ok(GameState::new(board)),
            Err(e) => Err(e),
        }
    }

    pub fn start_pos() -> (r: GameState)
        ensures
            fen_describes(
                "rnbakabnr/9/1c5c1/p1p1p1p1p/9/9/P1P1P1P1P/1C5C1/9/RNBAKABNR w - - 0 1"@,
                r@.board,
            ),
            r.status == GameStatus::spec_ongoing(),
            r@.infos == Seq::<MoveInfo>::empty(),
            r.wf(),
    {
        GameState::new(Board::start_pos())
    }

    /// The legal moves of the side to move, square by square from the top left.
    pub fn legal_moves(&mut self) -> (r: Vec<Move>)
        requires
            old(self)@.board.wf(),
            old(self)@.board.all_judgeable(old(self)@.board.side),
        ensures
            final(self)@ == old(self)@,
            final(self).status == old(self).status,
            final(self).zobrist_hash_history == old(self).zobrist_hash_history,
            r@ == old(self)@.board.legal_list(old(self)@.board.side, false),
    {
        let side_to_move = self.board.side_to_move;
        legal_moves(&mut self.board, side_to_move)
    }

    /// Makes a move, legal or not, and finds the result.
    pub fn make_move(&mut self, mv: Move)
        requires
            old(self).wf(),
            old(self)@.board.can_make(mv),
            old(self)@.infos.len() + 1 < u32::MAX,
            forall|next: Play| #[trigger] old(self)@.extended(mv, next) ==> next.judgeable(),
        ensures
            final(self).wf(),
            old(self)@.extended(mv, final(self)@),
            final(self).status == final(self)@.outcome(),
    {
        let ghost p = self@;
        let ghost map = self.zobrist_hash_history@;
        proof {
            assert(p.layout_at(p.infos.len() as int) == p.board);
        }
        let move_info = self.board.make_move(mv);
        self.move_info_history.push(move_info);
        self.history.push(self.board.get_piece_index_board());
        let state_idx: u32 = self.move_info_history.len() as u32;
        let hash = self.board.zobrist_hash;
        let ghost q = self@;
        proof {
            assert(q.history.drop_last() =~= p.history);
            law_move_extends_game(p, mv, q);
            assert(q.layout_at(q.infos.len() as int) == q.board);
            assert forall|h: u64| #[trigger] q.indices(h, q.infos.len() + 1) == if h == hash {
                p.indices(h, p.infos.len() + 1).push(state_idx)
            } else {
                p.indices(h, p.infos.len() + 1)
            } by {
                assert forall|i: int| 0 <= i < p.infos.len() + 1 implies #[trigger] q.layout_at(i)
                    == p.layout_at(i) by {}
                lemma_indices_agree(q, p, h, p.infos.len() + 1);
            }
        }
        let mut indices = match self.zobrist_hash_history.remove(&hash) {
            Some(v) => v,
            None => Vec::new(),
        };
        proof {
            assert(map.contains_key(hash) <==> p.indices(hash, p.infos.len() + 1).len() > 0);
            assert(indices@ =~= p.indices(hash, p.infos.len() + 1));
        }
        indices.push(state_idx);
        self.zobrist_hash_history.insert(hash, indices);
        proof {
            assert forall|h: u64|
                #![trigger self.zobrist_hash_history@.contains_key(h)]
                #![trigger self.zobrist_hash_history@[h]]
                {
                    &&& self.zobrist_hash_history@.contains_key(h) <==> q.indices(
                        h,
                        q.infos.len() + 1,
                    ).len() > 0
                    &&& self.zobrist_hash_history@.contains_key(h)
                        ==> self.zobrist_hash_history@[h]@ == q.indices(h, q.infos.len() + 1)
                } by {
                assert(map.contains_key(h) <==> p.indices(h, p.infos.len() + 1).len() > 0);
            }
            assert(hashes_ok(q, self.zobrist_hash_history@));
            assert(self@ == q);
            assert(old(self)@.extended(mv, q));
        }
        let status = self.check_status();
        self.status = status;
    }

    /// Takes back the last move, if there is one; the game then goes on.
    pub fn undo_move(&mut self)
        requires
            old(self).wf(),
        ensures
            final(self).wf(),
            old(self)@.infos.len() == 0 ==> final(self)@ == old(self)@ && final(self).status
                == old(self).status,
            old(self)@.infos.len() > 0 ==> {
                &&& final(self)@.board == old(self)@.layout_at(old(self)@.infos.len() - 1)
                &&& final(self)@.infos == old(self)@.infos.drop_last()
                &&& final(self)@.history == old(self)@.history.drop_last()
                &&& final(self).status == GameStatus::spec_ongoing()
            },
    {
        let ghost p = self@;
        let ghost map = self.zobrist_hash_history@;
        if let Some(move_info) = self.move_info_history.pop() {
            let hash = self.board.zobrist_hash;
            let ghost len = p.infos.len();
            proof {
                assert(p.linked(len - 1));
                assert(rewound(p.board, p.infos, 0) == p.board);
                assert(p.layout_at(len as int) == p.board);
                assert(p.layout_at(len - 1) == p.board.undone(p.infos.last()));
                assert(p.indices(hash, len + 1) == p.indices(hash, len).push(len as u32));
                assert(map.contains_key(hash) <==> p.indices(hash, len + 1).len() > 0);
            }
            let mut indices = self.zobrist_hash_history.remove(&hash).unwrap();
            indices.pop();
            assert(indices@ =~= p.indices(hash, len));
            if indices.len() > 0 {
                self.zobrist_hash_history.insert(hash, indices);
            }
            self.history.pop();
            self.board.undo_move(&move_info);
            self.status = GameStatus::ongoing();
            proof {
                let q = self@;
                law_undo_shortens_game(p, q);
                assert forall|h: u64|
                    #![trigger self.zobrist_hash_history@.contains_key(h)]
                    #![trigger self.zobrist_hash_history@[h]]
                    {
                        &&& self.zobrist_hash_history@.contains_key(h) <==> q.indices(
                            h,
                            q.infos.len() + 1,
                        ).len() > 0
                        &&& self.zobrist_hash_history@.contains_key(h)
                            ==> self.zobrist_hash_history@[h]@ == q.indices(h, q.infos.len() + 1)
                    } by {
                    assert(map.contains_key(h) <==> p.indices(h, len + 1).len() > 0);
                    assert forall|i: int| 0 <= i < len implies #[trigger] q.layout_at(i)
                        == p.layout_at(i) by {}
                    lemma_indices_agree(q, p, h, len);
                }
            }
        }
    }

    /// The result of the game after a move.
    fn check_status(&mut self) -> (r: GameStatus)
        requires
            old(self).wf(),
            old(self)@.judgeable(),
        ensures
            final(self)@ == old(self)@,
            final(self).zobrist_hash_history == old(self).zobrist_hash_history,
            r == old(self)@.outcome(),
    {
        let ghost p = self@;
        proof {
            assert(p.layout_at(p.infos.len() as int) == p.board);
            assert(p.board.wf());
        }
        let side_to_move = self.board.side_to_move;
        let moves = legal_moves(&mut self.board, side_to_move);
        if moves.len() == 0 {
            let reason = if is_in_check(&self.board, side_to_move) {
                GameStatusReason::Checkmate
            } else {
                GameStatusReason::Stalemate
            };
            return GameStatus::terminal(reason, Some(side_to_move.opposite()));
        }
        if let Some(status) = self.check_cycle() {
            return status;
        }
        if self.board.no_capture_plies >= NO_CAPTURE_DRAW_PLIES {
            return GameStatus::terminal(GameStatusReason::MaxNonCapture, None);
        }
        let black: u32 = if self.board.side_to_move == Color::Black {
            1
        } else {
            0
        };
        let total_plies: u32 = (self.board.fullmove_number - 1) * 2 + black;
        if total_plies >= MAX_TOTAL_PLIES {
            return GameStatus::terminal(GameStatusReason::MaxMoves, None);
        }
        GameStatus::ongoing()
    }

    /// The result if the board has occurred three times, by the conduct of both sides since it last
    /// occurred.
    fn check_cycle(&self) -> (r: Option<GameStatus>)
        requires
            self.wf(),
            self@.recurrences().len() >= 3 ==> self@.board.fullmove < u32::MAX,
        ensures
            r == if self@.recurrences().len() >= 3 {
                let boards = rewinding(self@.board, self@.cycle());
                Some(verdict(conduct(boards, Color::Red), conduct(boards, Color::Black)))
            } else {
                None
            },
    {
        let ghost p = self@;
        let ghost len = p.infos.len();
        let ghost map = self.zobrist_hash_history@;
        let hash = self.board.zobrist_hash;
        proof {
            assert(p.layout_at(len as int) == p.board);
            assert(map.contains_key(hash) <==> p.indices(hash, len + 1).len() > 0);
            lemma_indices(p, hash, len + 1);
        }
        let indices = match self.zobrist_hash_history.get(&hash) {
            Some(v) => v,
            None => {
                return None;
            },
        };
        assert(indices@ == p.recurrences());
        let n: usize = indices.len();
        if n < 3 {
            return None;
        }
        let current_idx: usize = indices[n - 1] as usize;
        let prev_idx: usize = indices[n - 2] as usize;
        proof {
            assert(p.indices(hash, len + 1) == p.indices(hash, len).push(len as u32));
            assert(current_idx == len);
        }
        let cycle_moves = vstd::slice::slice_subrange(
            self.move_info_history.as_slice(),
            prev_idx,
            current_idx,
        );
        proof {
            assert(cycle_moves@ == p.cycle());
            assert forall|k: nat| k <= cycle_moves@.len() implies analysable(
                #[trigger] rewound(p.board, cycle_moves@, k),
            ) by {
                lemma_rewound_tail(p.board, p.infos, prev_idx as int, k);
                assert(p.layout_at(len - k).wf());
                lemma_fullmove_mono(p, len - k);
            }
            assert forall|i: int| 0 <= i < cycle_moves@.len() implies (
            #[trigger] cycle_moves@[i]).mv.valid() by {
                assert(p.linked(prev_idx + i));
            }
        }
        let violations = analyze_cycle(self.board.clone(), cycle_moves);
        let red = *violations.get(Color::Red);
        let black = *violations.get(Color::Black);
        Some(judge(red, black))
    }
}

/// The result of a cycle, given how each side broke the rules.
fn judge(red: Option<GameStatusReason>, black: Option<GameStatusReason>) -> (r: GameStatus)
    requires
        red is Some ==> severity(red) > 0,
        black is Some ==> severity(black) > 0,
    ensures
        r == verdict(red, black),
{
    match (red, black) {
        (Some(reason), None) => GameStatus::terminal(reason, Some(Color::Black)),
        (None, Some(reason)) => GameStatus::terminal(reason, Some(Color::Red)),
        (Some(r), Some(b)) => {
            let r_severity: u8 = violation_severity(r);
            let b_severity: u8 = violation_severity(b);
            if r_severity > b_severity {
                GameStatus::terminal(r, Some(Color::Black))
            } else if b_severity > r_severity {
                GameStatus::terminal(b, Some(Color::Red))
            } else {
                GameStatus::terminal(GameStatusReason::MutualPerpetual, None)
            }
        },
        (None, None) => GameStatus::terminal(GameStatusReason::MutualPerpetual, None),
    }
}

/// How bad a conduct is; larger is worse.
fn violation_severity(reason: GameStatusReason) -> (r: u8)
    ensures
        r == severity(Some(reason)),
{
    match reason {
        GameStatusReason::PerpetualCheck => 2,
        GameStatusReason::PerpetualChase => 1,
        _ => 0,
    }
}

impl Clone for GameState {
    fn clone(&self) -> (r: GameState)
        ensures
            r@ == self@,
            r.status == self.status,
            self.wf() ==> r.wf(),
    {
        let mut history: Vec<PieceIndexBoard> = Vec::new();
        let mut i: usize = 0;
        while i < self.history.len()
            invariant
                i <= self.history@.len(),
                history@ == self.history@.take(i as int),
            decreases self.history@.len() - i,
        {
            history.push(self.history[i]);
            i += 1;
            assert(history@ =~= self.history@.take(i as int));
        }
        assert(history@ =~= self.history@);
        let mut infos: Vec<MoveInfo> = Vec::new();
        i = 0;
        while i < self.move_info_history.len()
            invariant
                i <= self.move_info_history@.len(),
                infos@ == self.move_info_history@.take(i as int),
            decreases self.move_info_history@.len() - i,
        {
            infos.push(self.move_info_history[i]);
            i += 1;
            assert(infos@ =~= self.move_info_history@.take(i as int));
        }
        assert(infos@ =~= self.move_info_history@);
        GameState {
            board: self.board.clone(),
            status: self.status,
            history,
            zobrist_hash_history: self.zobrist_hash_history.clone(),
            move_info_history: infos,
        }
    }
}

} // verus!
