//! What calls leave behind: of a game with a person, of the settings, of a batch, of a tree and of a
//! worker.

use vstd::prelude::*;

use crate::kernel::arena::{attempt_seed, playable, replayed};
use crate::kernel::config::{apply_overrides, Overrides, RunConfig};
use crate::kernel::game::{GameState, GameView};
use crate::kernel::infer::{asks, uniform, Batch, EvalInput, EvalReply, InferRequest};
use crate::kernel::mcts::Mcts;
use crate::kernel::pipeline::{names_shard, Worker};
use crate::kernel::play::{AiResult, PlayGui};
use crate::kernel::selfplay::Sample;
use crate::kernel::types::{Color, Move};

verus! {

/// A new game begins with the choice of a side: Red, the person, moves first, and if the person has
/// Black the search is to move.
pub proof fn law_new_game(human: Color, starts: bool)
    ensures
        forall|gui: &mut PlayGui| #[trigger]
            call_ensures(PlayGui::reset, (gui, human), starts) ==> {
                let g = *final(gui);
                &&& g.human == human
                &&& g.state@.position.side == Color::Red
                &&& g.state@.history.len() == 0
                &&& g.selected is None
                &&& starts <==> human == Color::Black
                &&& g.ai_thinking <==> human == Color::Black
            },
{
    assert forall|gui: &mut PlayGui| #[trigger]
        call_ensures(PlayGui::reset, (gui, human), starts) implies (
    *final(gui)).state@.position.side == Color::Red by {
        let s = (*final(gui)).state@.position;
        crate::kernel::setup::law_starting_fen(s);
        reveal_strlit("rheakaehr/9/1c5c1/p1p1p1p1p/9/9/P1P1P1P1P/1C5C1/9/RHEAKAEHR r");
        assert(s.fen().last() == s.side.side_char());
    }
}

/// The search is asked for a move exactly when it does not think yet, the game goes on and the other
/// side than the person's is to move; the game stays as it is.
pub proof fn law_search_asked(starts: bool)
    ensures
        forall|gui: &mut PlayGui| #[trigger]
            call_ensures(PlayGui::maybe_start_ai, (gui,), starts) ==> {
                let (a, b) = (*gui, *final(gui));
                let g = a.state@;
                &&& starts <==> !a.ai_thinking && !g.outcome().is_terminal && g.position.side
                    == a.human.opposite()
                &&& b.state == a.state && b.human == a.human
                &&& starts ==> b.ai_thinking
            },
{
}

/// The answer of the search is played if it is a legal move that came without an error; else the game
/// stays as it is. Either way the search does not think any more.
pub proof fn law_answer_played(result: AiResult)
    ensures
        forall|gui: &mut PlayGui| #[trigger]
            call_ensures(PlayGui::poll_ai, (gui, result), ()) ==> {
                let (a, b) = (*gui, *final(gui));
                let g = a.state@;
                let good = result.error is None && result.mv is Some && g.position.legal(
                    result.mv.unwrap(),
                );
                &&& !b.ai_thinking
                &&& b.human == a.human
                &&& good ==> b.state@ == g.after(result.mv.unwrap()) && b.last_ai_move == result.mv
                    && b.last_model_version == result.model_version
                &&& !good ==> b.state == a.state && b.last_ai_move == a.last_ai_move
                    && b.last_model_version == a.last_model_version
            },
{
}

/// What is given on the command line replaces what the settings say, and nothing else does.
pub proof fn law_overrides(cli: Overrides)
    ensures
        forall|rc: &mut RunConfig| #[trigger]
            call_ensures(apply_overrides, (rc, &cli), ()) ==> {
                let (a, b) = (*rc, *final(rc));
                &&& b.total_samples == if cli.total_samples is Some {
                    cli.total_samples.unwrap()
                } else {
                    a.total_samples
                }
                &&& b.mcts.n_simulations == if cli.n_simulations is Some {
                    cli.n_simulations.unwrap()
                } else {
                    a.mcts.n_simulations
                }
                &&& b.datagen.num_workers == if cli.workers is Some {
                    cli.workers.unwrap()
                } else {
                    a.datagen.num_workers
                }
                &&& b.datagen.games_per_worker == if cli.games_per_worker is Some {
                    cli.games_per_worker.unwrap()
                } else {
                    a.datagen.games_per_worker
                }
                &&& b.datagen.eval_batch_size == if cli.eval_batch_size is Some {
                    cli.eval_batch_size.unwrap()
                } else {
                    a.datagen.eval_batch_size
                }
                &&& b.datagen.inference_timeout_ms == if cli.inference_timeout_ms is Some {
                    cli.inference_timeout_ms.unwrap()
                } else {
                    a.datagen.inference_timeout_ms
                }
                &&& b.datagen.shard_games == if cli.shard_games is Some {
                    cli.shard_games.unwrap()
                } else {
                    a.datagen.shard_games
                }
                &&& b.datagen.max_pending_shards == a.datagen.max_pending_shards
                &&& b.mcts.c_puct == a.mcts.c_puct && b.mcts.temperature_moves
                    == a.mcts.temperature_moves
                &&& b.network == a.network && b.train == a.train
                &&& cli.device is None ==> b.device@ == a.device@
                &&& cli.device is Some ==> b.device@ == cli.device.unwrap()@
            },
{
}

/// A single request finds its question in the batch at the place it is told.
pub proof fn law_request_placed<T, U>(input: EvalInput, reply: T)
    ensures
        forall|b: &mut Batch<T, U>| #[trigger]
            call_ensures(
                Batch::<T, U>::extend_infer_msg,
                (b, InferRequest::One { input, reply }),
                (),
            ) && b.inputs@.len() <= usize::MAX ==> {
                let after = *final(b);
                &&& after.ones@.len() == b.ones@.len() + 1
                &&& after.ones@.last().1 == reply
                &&& after.inputs@[after.ones@.last().0 as int] == input
                &&& after.inputs@.len() == b.inputs@.len() + 1
                &&& after.batches@ == b.batches@
            },
{
}

/// A request about several positions finds its questions in the batch in their order.
pub proof fn law_requests_placed<T, U>(inputs: Vec<EvalInput>, replies: U, k: int)
    requires
        0 <= k < inputs@.len(),
    ensures
        forall|b: &mut Batch<T, U>| #[trigger]
            call_ensures(
                Batch::<T, U>::extend_infer_msg,
                (b, InferRequest::WorkerBatch { inputs, replies }),
                (),
            ) && b.inputs@.len() <= usize::MAX ==> {
                let after = *final(b);
                let group = after.batches@.last();
                &&& after.batches@.len() == b.batches@.len() + 1
                &&& group.reply == replies
                &&& group.len == inputs@.len()
                &&& after.inputs@[group.start_idx + k] == inputs@[k]
                &&& after.inputs@.len() == b.inputs@.len() + inputs@.len()
                &&& after.ones@ == b.ones@
            },
{
    assert(inputs.len() == inputs@.len());
}

/// A question about a game lists its legal moves and numbers each of them as the side to move sees
/// it.
pub proof fn law_question(q: EvalInput, g: GameView, j: int)
    requires
        asks(q, g),
        0 <= j < q.moves@.len(),
    ensures
        q.moves@ == g.position.legal_list(),
        q.legal_ids@.len() == q.moves@.len(),
        ({
            let m = q.moves@[j];
            let (a, b) = if g.position.side == Color::Red {
                (m.sy as int, m.ty as int)
            } else {
                (9 - m.sy, 9 - m.ty)
            };
            m.on_board() ==> q.legal_ids@[j] == 90 * (9 * a + m.sx) + 9 * b + m.tx
        }),
{
    if q.moves@[j].on_board() {
        crate::kernel::reading::law_action_formula(q.moves@[j], g.position.side);
    }
}

/// Without a network every move is as likely as any other and no side is better off.
pub proof fn law_even_evaluation<S: Fn(usize) -> u64>(
    share: S,
    moves: Seq<Move>,
    r: EvalReply,
    i: int,
    j: int,
)
    requires
        uniform(share, moves, r),
        0 <= i < moves.len(),
        0 <= j < moves.len(),
    ensures
        r.1 == 0,
        r.0@.len() == moves.len(),
        r.0@[i].0 == moves[i],
        r.0@[i].1 == r.0@[j].1,
        call_ensures(share, (moves.len() as usize,), r.0@[i].1),
{
    let all = crate::kernel::tree::prior_moves(r.0@);
    assert(all.len() == r.0@.len());
    assert(all[i] == r.0@[i].0);
    let p = choose|p: u64|
        call_ensures(share, (moves.len() as usize,), p) && #[trigger] crate::kernel::infer::all_priors(
            r.0@,
            p,
        );
    assert(r.0@[i].1 == p && r.0@[j].1 == p);
}

/// After a move the tree is the one below the edge of the move, and without a tree there stays none.
pub proof fn law_tree_advanced(mv: Move, j: int)
    ensures
        forall|m: &mut Mcts| #[trigger]
            call_ensures(Mcts::advance, (m, mv), ()) ==> {
                &&& m.spec_root() is None ==> (*final(m)).spec_root() is None
                &&& m.spec_root() is Some ==> {
                    let edges = m.spec_root().unwrap().edges@;
                    0 <= j < edges.len() && edges[j].mv == mv && (forall|i: int|
                        0 <= i < j ==> (#[trigger] edges[i]).mv != mv) ==> (edges[j].child is Some
                        ==> (*final(m)).spec_root() == Some(*edges[j].child.unwrap())) && (
                    edges[j].child is None ==> (*final(m)).spec_root() is None)
                }
                &&& (*final(m)).spec_config() == m.spec_config()
            },
{
    assert forall|m: &mut Mcts| #[trigger]
        call_ensures(Mcts::advance, (m, mv), ()) && m.spec_root() is Some implies {
        let edges = m.spec_root().unwrap().edges@;
        0 <= j < edges.len() && edges[j].mv == mv && (forall|i: int|
            0 <= i < j ==> (#[trigger] edges[i]).mv != mv) ==> (edges[j].child is Some ==> (
        *final(m)).spec_root() == Some(*edges[j].child.unwrap())) && (edges[j].child is None ==> (
        *final(m)).spec_root() is None)
    } by {
        let edges = m.spec_root().unwrap().edges@;
        if 0 <= j < edges.len() && edges[j].mv == mv && (forall|i: int|
            0 <= i < j ==> (#[trigger] edges[i]).mv != mv) {
            crate::kernel::growth::law_subtree_kept(edges, mv, j);
        }
    }
}

/// A root that is set stands for the game, waits for its evaluation exactly if it has none yet, and
/// no simulation counts for it.
pub proof fn law_root_set(s: GameState, needs: bool)
    requires
        s.wf(),
    ensures
        forall|m: &mut Mcts| #[trigger]
            call_ensures(Mcts::init_root, (m, s), needs) && m.spec_root() is None ==> {
                let root = (*final(m)).spec_root().unwrap();
                &&& (*final(m)).spec_root() is Some
                &&& root.state@ == s@
                &&& root.to_play == s@.position.side
                &&& needs && !root.is_expanded && root.edges@.len() == 0
                &&& (*final(m)).done() == 0
            },
{
}

/// A worker writes a shard exactly when enough games wait for it. A written shard leaves none
/// waiting, and the next one gets the next number; what was counted stays counted.
pub proof fn law_shard_taken(
    shard_games: u32,
    version: i64,
    worker: usize,
    r: Result<Option<(String, Vec<u8>)>, String>,
)
    ensures
        forall|w: &mut Worker| #[trigger]
            call_ensures(Worker::take_shard, (w, shard_games, version, worker), r) ==> {
                let after = *final(w);
                &&& (r is Ok && r->Ok_0 is None) <==> w.out.games_in_shard < shard_games
                &&& r is Ok && r->Ok_0 is None ==> after == *w
                &&& r is Ok && r->Ok_0 is Some ==> after.out.buffer@.len() == 0
                    && after.out.games_in_shard == 0 && after.shard_seq == w.shard_seq + 1
                &&& after.out.produced == w.out.produced && after.out.games == w.out.games
                &&& after.slots == w.slots
            },
{
}

/// At the end a worker writes what still waits, if anything does.
pub proof fn law_last_shard(
    w: Worker,
    version: i64,
    worker: usize,
    r: Result<Option<(String, Vec<u8>)>, String>,
)
    requires
        call_ensures(Worker::finish, (&w, version, worker), r),
    ensures
        (r is Ok && r->Ok_0 is None) <==> w.out.buffer@.len() == 0,
        r is Ok && r->Ok_0 is Some ==> names_shard(
            r->Ok_0.unwrap().0@,
            version,
            worker,
            w.shard_seq,
        ),
{
}

/// A shard has a name that is counted as that of a shard and ends in its number, in six digits or
/// more; two shards of one worker have different names.
pub proof fn law_shard_names(
    a: Seq<char>,
    b: Seq<char>,
    version: i64,
    worker: usize,
    seq: u64,
    other: u64,
)
    requires
        names_shard(a, version, worker, seq),
        names_shard(b, version, worker, other),
    ensures
        crate::store::is_shard(a),
        a == b ==> seq == other,
        a.take(6) == seq!['s', 'h', 'a', 'r', 'd', '_'],
        exists|k: int|
            0 <= k <= a.len() - 9 && a[k - 1] == '_' && #[trigger] crate::text::number(
                a.subrange(k, a.len() - 3),
            ) == seq,
{
    reveal_strlit("shard_");
    reveal_strlit("_w");
    reveal_strlit("_");
    reveal_strlit(".st");
    let front = "shard_"@ + crate::store::padded_signed(version as int, 6) + "_w"@
        + crate::text::padded(worker as nat, 2) + "_"@;
    let (m, n) = (crate::text::padded(seq as nat, 6), crate::text::padded(other as nat, 6));
    crate::text::law_padded_readable(seq as nat, 6);
    crate::text::law_padded_readable(other as nat, 6);
    crate::store::law_shard_names_count(front + m);
    assert(a =~= front + m + ".st"@);
    assert(b =~= front + n + ".st"@);
    let k = front.len() as int;
    assert(a.subrange(k, a.len() - 3) =~= m);
    assert(b.subrange(k, b.len() - 3) =~= n);
    assert(a[k - 1] == '_');
    assert(crate::text::number(a.subrange(k, a.len() - 3)) == seq);
    assert(a.take(6) =~= seq!['s', 'h', 'a', 'r', 'd', '_']);
}

/// A batch waits for more requests exactly as long as it is not full and there is time.
pub proof fn law_batch_waits<T, U>(b: Batch<T, U>, size: usize, time_left: bool, r: bool)
    requires
        call_ensures(Batch::<T, U>::wants_more, (&b, size, time_left), r),
    ensures
        !time_left ==> !r,
        b.inputs@.len() >= size ==> !r,
        time_left && b.inputs@.len() < size ==> r,
{
}

/// Noise is wanted once for a root with at least two moves.
pub proof fn law_noise_wanted(m: Mcts, r: bool)
    requires
        m.spec_root() is Some,
        call_ensures(Mcts::wants_noise, (&m,), r),
    ensures
        r ==> m.spec_root().unwrap().edges@.len() > 1 && !m.spec_root().unwrap().noise_added,
        !r ==> m.spec_root().unwrap().edges@.len() <= 1 || m.spec_root().unwrap().noise_added,
{
}

/// A finished game waits behind those that wait already, and is counted once.
pub proof fn law_game_waits(samples: Vec<Sample>, k: int)
    requires
        0 <= k < samples@.len(),
    ensures
        forall|w: &mut Worker| #[trigger]
            call_ensures(Worker::add_game, (w, samples), ()) ==> {
                let (a, b) = (w.out, (*final(w)).out);
                &&& b.buffer@.len() == a.buffer@.len() + samples@.len()
                &&& b.buffer@[a.buffer@.len() + k] == samples@[k]
                &&& b.games == a.games + 1 && b.games_in_shard == a.games_in_shard + 1
                &&& b.produced == a.produced + samples@.len()
            },
{
}

/// The first attempt uses the seed itself, and attempts differ by a step that does not depend on it.
pub proof fn law_seeds(seed: u64, attempt: u64, r: u64, plain: u64, next: u64)
    requires
        attempt < u64::MAX,
        call_ensures(attempt_seed, (seed, attempt), r),
        call_ensures(attempt_seed, (0u64, attempt), plain),
        call_ensures(attempt_seed, (0u64, (attempt + 1) as u64), next),
    ensures
        attempt == 0 ==> r == seed,
        r == seed ^ plain,
        next == (plain + 0x9e37_79b9_7f4a_7c15) % 0x1_0000_0000_0000_0000,
{
    let x = ((attempt * 0x9e37_79b9_7f4a_7c15) % 0x1_0000_0000_0000_0000) as u64;
    let y = (((attempt + 1) * 0x9e37_79b9_7f4a_7c15) % 0x1_0000_0000_0000_0000) as u64;
    assert(0u64 ^ x == x) by (bit_vector);
    assert(0u64 ^ y == y) by (bit_vector);
    assert(seed ^ 0u64 == seed) by (bit_vector);
    assert((attempt + 1) * 0x9e37_79b9_7f4a_7c15 == attempt * 0x9e37_79b9_7f4a_7c15
        + 0x9e37_79b9_7f4a_7c15) by (nonlinear_arith);
    vstd::arithmetic::div_mod::lemma_add_mod_noop_right(
        0x9e37_79b9_7f4a_7c15,
        attempt * 0x9e37_79b9_7f4a_7c15,
        0x1_0000_0000_0000_0000,
    );
}

/// Moves are played one after the other: each is legal in the game that the moves before it lead to.
pub proof fn law_replay(g: GameView, moves: Seq<Move>, k: int)
    requires
        playable(g, moves),
        0 <= k < moves.len(),
    ensures
        replayed(g, moves.take(k)).position.legal(moves[k]),
        replayed(g, moves.take(k + 1)) == replayed(g, moves.take(k)).after(moves[k]),
        replayed(g, Seq::<Move>::empty()) == g,
    decreases moves.len(),
{
    let next = moves.take(k + 1);
    assert(next.drop_last() =~= moves.take(k));
    assert(next.last() == moves[k]);
    if k == moves.len() - 1 {
        assert(next =~= moves);
    } else {
        law_replay(g, moves.drop_last(), k);
        assert(moves.drop_last().take(k) =~= moves.take(k));
    }
}

} // verus!
