//! What calls leave behind of a game, of the counts of a server and of the shards.

use vstd::prelude::*;

use crate::engine::board::Board;
use crate::engine::data::{
    sample_views, shard_bytes, shard_file_name, Shard, ShardWriter, TrainingSample,
};
use crate::engine::game::GameState;
use crate::engine::infer::EvalServer;
use crate::engine::move_gen::{is_legal_move, legal_capture_moves, legal_moves};
use crate::engine::selfplay::Collector;
use crate::engine::tactics::law_legal_list_exact;
use crate::engine::types::{Color, Move};
use crate::text::{all_digits, number};

verus! {

/// Every position that is evaluated is counted, and a report comes whenever the count reaches or
/// passes a multiple of ten thousand; it covers what was counted since the one before.
pub proof fn law_evaluations_counted(n: usize, r: Option<u64>)
    ensures
        forall|s: &mut EvalServer| #[trigger]
            call_ensures(EvalServer::count_batch, (s, n), r) && s.recent_evals <= s.total_evals
                && s.total_evals + n <= u64::MAX ==> {
                let (a, b) = (*s, *final(s));
                &&& b.total_evals == a.total_evals + n
                &&& r is Some <==> a.total_evals / 10000 != b.total_evals / 10000
                &&& r is Some ==> r.unwrap() == a.recent_evals + n && b.recent_evals == 0
                &&& r is None ==> b.recent_evals == a.recent_evals + n
                &&& b.generation == a.generation && b.max_batch_size == a.max_batch_size
            },
{
}

/// The games are written in shards of equal size, in the order in which they came, and what is left
/// over waits: nothing is lost and nothing is written twice.
pub proof fn law_samples_written(samples: Vec<TrainingSample>, r: Vec<Shard>, k: int)
    ensures
        forall|w: &mut ShardWriter| #[trigger]
            call_ensures(ShardWriter::add_game_samples, (w, samples), r) && w.wf() ==> {
                let b = *final(w);
                &&& b.waiting().len() < b.size() && b.size() == w.size()
                &&& b.written() + b.waiting().len() == w.written() + w.waiting().len()
                    + samples@.len()
                &&& b.written() == w.written() + r@.len() * w.size()
                &&& b.index() == w.index() + r@.len()
                &&& w.waiting().len() + samples@.len() < w.size() ==> r@.len() == 0
                &&& 0 <= k < r@.len() ==> r@[k].name@ == shard_file_name((w.index() + k) as nat)
            },
{
    assert forall|w: &mut ShardWriter| #[trigger]
        call_ensures(ShardWriter::add_game_samples, (w, samples), r) && w.wf() implies {
        let b = *final(w);
        &&& b.written() + b.waiting().len() == w.written() + w.waiting().len() + samples@.len()
        &&& w.waiting().len() + samples@.len() < w.size() ==> r@.len() == 0
    } by {
        let all = w.waiting() + samples@;
        let n = all.len() as int;
        let size = w.size() as int;
        vstd::arithmetic::div_mod::lemma_fundamental_div_mod(n, size);
        vstd::arithmetic::div_mod::lemma_mod_bound(n, size);
        assert(size * (n / size) == (n / size) * size) by (nonlinear_arith);
        if n < size {
            vstd::arithmetic::div_mod::lemma_small_mod(n as nat, size as nat);
            assert(n / size == 0) by (nonlinear_arith)
                requires
                    size * (n / size) == 0,
                    size > 0,
            ;
        }
        assert(0 <= (n / size) * size <= n) by (nonlinear_arith)
            requires
                n == size * (n / size) + n % size,
                0 <= n % size,
                n >= 0,
                size > 0,
        ;
    }
}

/// The last shard holds what still waits, if anything does, and nothing waits after it.
pub proof fn law_rest_written(r: Option<Shard>)
    ensures
        forall|w: &mut ShardWriter| #[trigger]
            call_ensures(ShardWriter::flush, (w,), r) ==> {
                let b = *final(w);
                &&& r is Some <==> w.waiting().len() > 0
                &&& b.waiting().len() == 0
                &&& b.written() == w.written() + w.waiting().len()
                &&& r is Some ==> r.unwrap().bytes@ == shard_bytes(sample_views(w.waiting()))
                    && r.unwrap().name@ == shard_file_name(w.index()) && b.index() == w.index() + 1
                &&& r is None ==> b.index() == w.index()
            },
{
}

/// Shards are named by their number in at least six digits between `shard_` and `.bin`.
pub proof fn law_shard_named(index: nat)
    ensures
        ({
            let name = shard_file_name(index);
            let digits = name.subrange(6, name.len() - 4);
            &&& name.len() >= 16
            &&& name.take(6) == seq!['s', 'h', 'a', 'r', 'd', '_']
            &&& name.skip(name.len() - 4) == seq!['.', 'b', 'i', 'n']
            &&& all_digits(digits)
            &&& number(digits) == index
        }),
{
    reveal_strlit("shard_");
    reveal_strlit(".bin");
    crate::text::law_padded_readable(index, 6);
    let name = shard_file_name(index);
    let d = crate::text::padded(index, 6);
    assert(name.take(6) =~= seq!['s', 'h', 'a', 'r', 'd', '_']);
    assert(name.skip(name.len() - 4) =~= seq!['.', 'b', 'i', 'n']);
    assert(name.subrange(6, name.len() - 4) =~= d);
}

/// A collected game is counted once, with all its samples.
pub proof fn law_game_collected(samples: Vec<TrainingSample>, r: Vec<Shard>)
    ensures
        forall|c: &mut Collector| #[trigger]
            call_ensures(Collector::add_game, (c, samples), r) ==> {
                let b = *final(c);
                &&& b.games() == c.games() + 1
                &&& b.game_samples() == c.game_samples() + samples@.len()
                &&& b.shards().written() == c.shards().written() + r@.len() * c.shards().size()
                &&& b.shards().written() + b.shards().waiting().len() == b.game_samples()
                &&& b.target() == c.target()
            },
{
}

/// At the end every sample of every game has been written.
pub proof fn law_collection_finished(r: Option<Shard>)
    ensures
        forall|c: &mut Collector| #[trigger]
            call_ensures(Collector::finish, (c,), r) ==> {
                let b = *final(c);
                &&& b.shards().written() == c.game_samples() && b.shards().waiting().len() == 0
                &&& r is Some <==> c.shards().waiting().len() > 0
                &&& b.games() == c.games()
            },
{
}

/// A move changes the side to move and adds one to the game; taking it back gives the board, the
/// moves and the history from before.
pub proof fn law_move_taken_back(mv: Move)
    ensures
        forall|g: &mut GameState, h: &mut GameState|
            #[trigger] call_ensures(GameState::make_move, (g, mv), ()) && #[trigger] call_ensures(
                GameState::undo_move,
                (h,),
                (),
            ) && *h == *final(g) && g.wf() && g@.board.can_make(mv) ==> {
                &&& (*final(g))@.board.side == g@.board.side.opposite()
                &&& (*final(g))@.infos.len() == g@.infos.len() + 1
                &&& (*final(h))@.board == g@.board
                &&& (*final(h))@.infos == g@.infos
                &&& (*final(h))@.history == g@.history
            },
{
    assert forall|g: &mut GameState, h: &mut GameState|
        #[trigger] call_ensures(GameState::make_move, (g, mv), ()) && #[trigger] call_ensures(
            GameState::undo_move,
            (h,),
            (),
        ) && *h == *final(g) && g.wf() && g@.board.can_make(mv) implies {
        &&& (*final(g))@.board.side == g@.board.side.opposite()
        &&& (*final(g))@.infos.len() == g@.infos.len() + 1
        &&& (*final(h))@.board == g@.board
        &&& (*final(h))@.infos == g@.infos
        &&& (*final(h))@.history == g@.history
    } by {
        crate::engine::laws::law_undo_after_make(g@, mv, (*final(g))@);
    }
}

/// Asking which moves are legal leaves the board as it is. A move is in the list exactly if it is said
/// to be legal when asked about it alone, and among the captures exactly if it takes a man besides.
pub proof fn law_legal_moves_agree(
    side: Color,
    mv: Move,
    moves: Vec<Move>,
    captures: Vec<Move>,
    r: bool,
)
    ensures
        forall|b: &mut Board, c: &mut Board, d: &mut Board|
            #[trigger] call_ensures(legal_moves, (b, side), moves) && #[trigger] call_ensures(
                legal_capture_moves,
                (c, side),
                captures,
            ) && #[trigger] call_ensures(is_legal_move, (d, mv, Some(side)), r) && b@.wf() && c@ == b@
                && d@ == b@ ==> {
                &&& (*final(b))@ == b@ && (*final(c))@ == b@ && (*final(d))@ == b@
                &&& moves@.contains(mv) <==> r
                &&& captures@.contains(mv) <==> r && b@.cells.contains_key(
                    (mv.to.x as int, mv.to.y as int),
                )
            },
{
    assert forall|b: &mut Board, c: &mut Board, d: &mut Board|
        #[trigger] call_ensures(legal_moves, (b, side), moves) && #[trigger] call_ensures(
            legal_capture_moves,
            (c, side),
            captures,
        ) && #[trigger] call_ensures(is_legal_move, (d, mv, Some(side)), r) && b@.wf() && c@ == b@
            && d@ == b@ implies (moves@.contains(mv) <==> r) && (captures@.contains(mv) <==> r
        && b@.cells.contains_key((mv.to.x as int, mv.to.y as int))) by {
        law_legal_list_exact(b@, side, false);
        law_legal_list_exact(b@, side, true);
        assert(moves@ == b@.legal_list(side, false));
        assert(captures@ == b@.legal_list(side, true));
        assert(b@.legal(mv, side) == r);
    }
}

} // verus!
