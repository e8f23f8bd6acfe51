//! A game played by the search against itself, and the collection of the samples of many games.

use vstd::prelude::*;

use crate::engine::constants::MAX_TOTAL_PLIES;
use crate::engine::data::{
    finalize_samples, finalized, part, result_bits, sample_views, shard_bytes, shard_file_name,
    PendingSample, Shard, ShardWriter, TrainingSample,
};
use crate::engine::encode::{action_number, encode_state, piece_cell, EncodedState};
use crate::engine::game::{GameState, Play};
use crate::engine::layout::fen_describes;
use crate::engine::mcts::{
    advanced, edge_moves, evaluates, followed, law_ordinary_games_continue,
    law_ordinary_games_judgeable, lemma_visits_nonneg, ordinary, searched, selects, visits, Edge,
    Mcts, Node,
};
use crate::engine::start::law_start_goes_on;
use crate::engine::tactics::law_legal_list_exact;
use crate::engine::types::{Color, Move};

verus! {

/// The planes show the game.
pub open spec fn encodes(state: EncodedState, p: Play) -> bool {
    &&& forall|i: int|
        0 <= i < 8820 ==> #[trigger] state.pieces@[i] == piece_cell(p.history, p.board.side, i)
    &&& state.no_capture_plies == if p.board.quiet <= 255 {
        p.board.quiet as int
    } else {
        255
    }
}

/// The number is that of a legal move.
pub open spec fn action_legal(id: u16, p: Play) -> bool {
    exists|mv: Move|
        p.board.legal(mv, p.board.side) && id == #[trigger] action_number(p.board.side, mv)
}

/// Every action is that of a legal move.
pub open spec fn actions_legal(policy: Seq<(u16, u32)>, p: Play) -> bool {
    forall|k: int| 0 <= k < policy.len() ==> action_legal((#[trigger] policy[k]).0, p)
}

/// `next` continues `p`, which has not ended, by a legal move.
pub open spec fn continues(p: Play, next: Play) -> bool {
    &&& !p.outcome().is_terminal
    &&& exists|mv: Move| p.board.legal(mv, p.board.side) && #[trigger] p.extended(mv, next)
}

/// The games of a line from the starting board, each but the first continuing the one before.
pub open spec fn is_line(line: Seq<Play>) -> bool {
    &&& line.len() > 0
    &&& line[0].infos.len() == 0
    &&& fen_describes(
        "rnbakabnr/9/1c5c1/p1p1p1p1p/9/9/P1P1P1P1P/1C5C1/9/RNBAKABNR w - - 0 1"@,
        line[0].board,
    )
    &&& forall|i: int| 0 <= i < line.len() - 1 ==> #[trigger] continues(line[i], line[i + 1])
}

/// The samples show the games of a line but the last, which has ended, with its result.
pub open spec fn samples_of(samples: Seq<TrainingSample>, line: Seq<Play>) -> bool {
    &&& is_line(line)
    &&& line.last().outcome().is_terminal
    &&& samples.len() == line.len() - 1
    &&& forall|i: int|
        0 <= i < samples.len() ==> {
            &&& encodes((#[trigger] samples[i]).state, line[i])
            &&& actions_legal(samples[i].policy@, line[i])
            &&& samples[i].value == result_bits(
                line.last().outcome().winner,
                line[i].board.side,
            )
        }
}

/// A game in progress: the search at its current position and the samples so far.
pub struct SelfPlay {
    pub mcts: Mcts,
    pub pending: Vec<PendingSample>,
    pub temperature_moves: usize,
    pub line: Ghost<Seq<Play>>,
}

impl SelfPlay {
    /// The games so far, from the start.
    pub open spec fn played(&self) -> Seq<Play> {
        self.line@
    }

    pub open spec fn samples(&self) -> Seq<PendingSample> {
        self.pending@
    }

    /// How many moves are chosen with a high temperature.
    pub open spec fn warm_moves(&self) -> usize {
        self.temperature_moves
    }

    pub open spec fn over(&self) -> bool {
        self.mcts.spec_game().status.is_terminal
    }

    /// There is a sample for every game of the line but the last, at which the search stands.
    pub open spec fn wf(&self) -> bool {
        let game = self.mcts.spec_game();
        &&& self.noted()
        &&& self.mcts.wf()
        &&& self.mcts.idle()
        &&& self.played().last() == game@
        &&& game.status.is_terminal == game@.outcome().is_terminal
        &&& game.status.is_terminal ==> game.status == game@.outcome()
        &&& self.mcts.rooted() ==> self.mcts.root().is_terminal == game.status.is_terminal
    }

    /// There is a sample for every game of the line but the last.
    pub open spec fn noted(&self) -> bool {
        let line = self.played();
        &&& is_line(line)
        &&& line.last().infos.len() == line.len() - 1
        &&& !line.last().outcome().is_terminal ==> ordinary(line.last()) && !line.last().stuck()
        &&& self.samples().len() == line.len() - 1
        &&& forall|i: int|
            0 <= i < self.samples().len() ==> {
                &&& encodes((#[trigger] self.samples()[i]).state, line[i])
                &&& actions_legal(self.samples()[i].policy@, line[i])
                &&& self.samples()[i].side_to_move == line[i].board.side
            }
    }

    /// A game from the starting board.
    pub fn new(num_simulations: usize, temperature_moves: usize) -> (r: SelfPlay)
        ensures
            r.wf(),
            !r.over(),
            r.played().len() == 1,
            r.mcts.simulations() == num_simulations,
            r.mcts.spec_nodes() == Map::<u32, Node>::empty(),
            r.mcts.spec_next_id() == 0,
            r.warm_moves() == temperature_moves,
    {
        let game = GameState::start_pos();
        let ghost p = game@;
        proof {
            law_start_goes_on(p);
        }
        let mcts = Mcts::new(game, num_simulations);
        SelfPlay { mcts, pending: Vec::new(), temperature_moves, line: Ghost(Seq::empty().push(p)) }
    }

    pub fn is_over(&self) -> (r: bool)
        ensures
            r == self.over(),
    {
        self.mcts.game().status.is_terminal
    }

    /// Whether the next move is chosen with a high temperature.
    pub fn is_exploring(&self) -> (r: bool)
        ensures
            r == (self.samples().len() < self.warm_moves()),
    {
        self.pending.len() < self.temperature_moves
    }

    /// Notes the searched position and plays the move of the root's edge with the given index.
    #[verifier::rlimit(30)]
    pub fn play<R: Fn(u32, u32) -> u32>(&mut self, index: usize, ratio: &R)
        requires
            forall|n: u32, d: u32| 0 < n <= d ==> #[trigger] call_requires(*ratio, (n, d)),
            old(self).wf(),
            !old(self).over(),
            old(self).mcts.rooted(),
            index < old(self).mcts.root().edges@.len(),
        ensures
            final(self).wf(),
            final(self).warm_moves() == old(self).warm_moves(),
            final(self).mcts.simulations() == old(self).mcts.simulations(),
            final(self).mcts.spec_next_id() == old(self).mcts.spec_next_id(),
            final(self).mcts.rooted() ==> visits(final(self).mcts.root().edges@) <= visits(
                old(self).mcts.root().edges@,
            ),
            moved_on(*ratio, *old(self), *final(self), index),
    {
        let ghost p = self.mcts.spec_game()@;
        let ghost edges = self.mcts.root().edges@;
        let ghost before = self.pending@;
        let ghost line = self.line@;
        let counts = self.mcts.visit_counts();
        let mv = counts[index].0;
        proof {
            assert(self.mcts.spec_nodes().contains_key(self.mcts.spec_root_id()));
            assert(edge_moves(edges)[index as int] == mv);
            law_ordinary_games_judgeable(p);
            law_legal_list_exact(p.board, p.board.side, false);
            assert(p.board.legal_list(p.board.side, false).contains(mv));
            assert forall|next: Play| #[trigger] p.extended(mv, next) implies next.judgeable() by {
                law_ordinary_games_continue(p, mv, next);
            }
        }
        let state = encode_state(self.mcts.game());
        let side_to_move = self.mcts.game().board.side_to_move;
        let policy = self.mcts.policy_target(ratio);
        proof {
            let done = followed(edges);
            assert forall|k: int| 0 <= k < policy@.len() implies action_legal(
                (#[trigger] policy@[k]).0,
                p,
            ) by {
                let e = done[k];
                lemma_followed_among(edges, k);
                let j = choose|j: int| 0 <= j < edges.len() && edges[j] == e;
                assert(edge_moves(edges)[j] == e.mv);
                assert(p.board.legal_list(p.board.side, false).contains(e.mv));
            }
        }
        self.pending.push(PendingSample { state, policy, side_to_move });
        self.mcts.advance(mv);
        proof {
            let q = self.mcts.spec_game()@;
            law_ordinary_games_continue(p, mv, q);
            let next = line.push(q);
            assert(continues(p, q));
            assert forall|k: int| 0 <= k < next.len() - 1 implies #[trigger] continues(
                next[k],
                next[k + 1],
            ) by {
                if k < line.len() - 1 {
                    assert(continues(line[k], line[k + 1]));
                }
            }
            self.line@ = next;
            assert(self.pending@.drop_last() =~= before);
            assert(next.drop_last() =~= line);
            assert forall|i: int| 0 <= i < self.pending@.len() implies {
                &&& encodes((#[trigger] self.pending@[i]).state, next[i])
                &&& actions_legal(self.pending@[i].policy@, next[i])
                &&& self.pending@[i].side_to_move == next[i].board.side
            } by {
                if i < before.len() {
                    assert(self.pending@[i] == before[i]);
                    assert(next[i] == line[i]);
                }
            }
        }
    }

    /// The samples with the result of the game.
    pub fn finish(self) -> (r: Vec<TrainingSample>)
        requires
            self.wf(),
            self.over(),
        ensures
            samples_of(r@, self.played()),
            finalized(self.samples(), self.mcts.spec_game().status.winner, r@),
    {
        let winner = self.mcts.game().status.winner;
        let ghost line = self.line@;
        let ghost pending = self.pending@;
        let r = finalize_samples(self.pending, winner);
        proof {
            assert forall|i: int| 0 <= i < r@.len() implies {
                &&& encodes((#[trigger] r@[i]).state, line[i])
                &&& actions_legal(r@[i].policy@, line[i])
                &&& r@[i].value == result_bits(line.last().outcome().winner, line[i].board.side)
            } by {
                assert(encodes(pending[i].state, line[i]));
            }
        }
        r
    }
}

/// An edge that was followed is one of the edges.
proof fn lemma_followed_among(edges: Seq<Edge>, k: int)
    requires
        0 <= k < followed(edges).len(),
    ensures
        exists|j: int| 0 <= j < edges.len() && edges[j] == followed(edges)[k],
{
    let pred = |e: Edge| e.visit_count > 0;
    edges.lemma_filter_contains_rev(pred, followed(edges)[k]);
    let e = followed(edges)[k];
    assert(edges.contains(e));
}

/// The policy lists the edges that were followed, by the numbers of their moves for `side`, with
/// their shares of all visits as `ratio` gives them.
pub open spec fn policy_of<R: Fn(u32, u32) -> u32>(
    ratio: R,
    edges: Seq<Edge>,
    side: Color,
    policy: Seq<(u16, u32)>,
) -> bool {
    &&& policy.len() == followed(edges).len()
    &&& forall|k: int|
        0 <= k < policy.len() ==> {
            let e = followed(edges)[k];
            &&& (#[trigger] policy[k]).0 == action_number(side, e.mv)
            &&& call_ensures(ratio, (e.visit_count, visits(edges) as u32), policy[k].1)
        }
}

/// From `a` to `b` the move of the root's edge with the given index was played, and a sample of the
/// counts was noted.
pub open spec fn moved_on<R: Fn(u32, u32) -> u32>(
    ratio: R,
    a: SelfPlay,
    b: SelfPlay,
    index: usize,
) -> bool {
    let mv = a.mcts.root().edges@[index as int].mv;
    &&& index < a.mcts.root().edges@.len()
    &&& b.samples().len() == a.samples().len() + 1
    &&& b.samples().drop_last() == a.samples()
    &&& b.played().drop_last() == a.played()
    &&& b.played().last() == b.mcts.spec_game()@
    &&& a.mcts.spec_game()@.extended(mv, b.mcts.spec_game()@)
    &&& b.mcts.spec_game().status == b.mcts.spec_game()@.outcome()
    &&& policy_of(
        ratio,
        a.mcts.root().edges@,
        a.mcts.spec_game()@.board.side,
        b.samples().last().policy@,
    )
    &&& encodes(b.samples().last().state, a.mcts.spec_game()@)
    &&& b.samples().last().side_to_move == a.mcts.spec_game()@.board.side
    &&& advanced(a.mcts, b.mcts, mv)
}

/// A turn of a game: the tree before and after the search, how often it followed each legal move,
/// and the index of the one that was picked.
pub struct Turn {
    pub before: Mcts,
    pub after: Mcts,
    pub counts: Vec<(Move, u32)>,
    pub index: usize,
}

/// The first turn begins without a tree, and each other with the part of the tree of the one before
/// that is below its move.
pub open spec fn trees_follow(turns: Seq<Turn>) -> bool {
    &&& turns.len() > 0 ==> turns[0].before.spec_nodes() == Map::<u32, Node>::empty()
    &&& forall|i: int|
        0 <= i < turns.len() - 1 ==> advanced(
            turns[i].after,
            (#[trigger] turns[i + 1]).before,
            turns[i].counts@[turns[i].index as int].0,
        )
}

/// In the turn the game `p` was searched, `sample` picked the move that leads to `next` by the counts
/// of the search, and the policy is that of the search.
pub open spec fn turn_taken<
    S: Fn(&Node) -> usize,
    A: Fn(u32, i32, u32) -> u32,
    E: Fn(&GameState, &Vec<Move>) -> (Vec<u32>, u32),
    N: Fn(&Node) -> Vec<u32>,
    R: Fn(u32, u32) -> u32,
    C: Fn(&Vec<(Move, u32)>, bool) -> usize,
>(
    select: S,
    credit: A,
    evaluate: E,
    noisy: bool,
    noise: N,
    ratio: R,
    sample: C,
    sims: usize,
    warm: bool,
    t: Turn,
    policy: Seq<(u16, u32)>,
    p: Play,
    next: Play,
) -> bool {
    let edges = t.after.root().edges@;
    &&& t.before.simulations() == sims
    &&& t.before.spec_game()@ == p
    &&& searched(select, credit, evaluate, noisy, noise, t.before, t.after, t.counts@)
    &&& edge_moves(edges) == p.board.legal_list(p.board.side, false)
    &&& sims <= visits(edges)
    &&& policy_of(ratio, edges, p.board.side, policy)
    &&& call_ensures(sample, (&t.counts, warm), t.index)
    &&& t.index < t.counts@.len()
    &&& p.extended(t.counts@[t.index as int].0, next)
}

/// Plays a game from the starting board against itself and returns a sample for each position. In
/// each position `sample` picks one of the moves by how often the search followed them, and is told
/// whether the game is still among its first `temperature_moves` moves.
#[verifier::rlimit(30)]
pub fn play_one_game<
    S: Fn(&Node) -> usize,
    A: Fn(u32, i32, u32) -> u32,
    E: Fn(&GameState, &Vec<Move>) -> (Vec<u32>, u32),
    N: Fn(&Node) -> Vec<u32>,
    R: Fn(u32, u32) -> u32,
    C: Fn(&Vec<(Move, u32)>, bool) -> usize,
>(
    num_simulations: usize,
    temperature_moves: usize,
    select: &S,
    credit: &A,
    evaluate: &E,
    noisy: bool,
    noise: &N,
    ratio: &R,
    sample: &C,
) -> (r: Vec<TrainingSample>)
    requires
        selects(*select),
        forall|w: u32, s: i32, v: u32| #[trigger] call_requires(*credit, (w, s, v)),
        evaluates(*evaluate),
        forall|n: Node| #[trigger] call_requires(*noise, (&n,)),
        forall|n: Node, p: Vec<u32>| #[trigger]
            call_ensures(*noise, (&n,), p) ==> p@.len() == n.edges@.len(),
        forall|n: u32, d: u32| 0 < n <= d ==> #[trigger] call_requires(*ratio, (n, d)),
        forall|c: Vec<(Move, u32)>, warm: bool|
            c@.len() > 0 ==> #[trigger] call_requires(*sample, (&c, warm)),
        forall|c: Vec<(Move, u32)>, warm: bool, i: usize|
            c@.len() > 0 && #[trigger] call_ensures(*sample, (&c, warm), i) ==> i < c@.len(),
        (num_simulations + 1) * 301 <= u32::MAX,
    ensures
        exists|line: Seq<Play>, turns: Seq<Turn>|
            {
                &&& #[trigger] samples_of(r@, line)
                &&& turns.len() == r@.len()
                &&& #[trigger] trees_follow(turns)
                &&& forall|i: int|
                    0 <= i < r@.len() ==> turn_taken(
                        *select,
                        *credit,
                        *evaluate,
                        noisy,
                        *noise,
                        *ratio,
                        *sample,
                        num_simulations,
                        i < temperature_moves,
                        turns[i],
                        (#[trigger] r@[i]).policy@,
                        line[i],
                        line[i + 1],
                    )
            },
{
    let mut game = SelfPlay::new(num_simulations, temperature_moves);
    let ghost sims = num_simulations as int;
    let ghost mut n: int = 0;
    let ghost mut turns: Seq<Turn> = Seq::empty();
    while !game.is_over()
        invariant
            selects(*select),
            forall|w: u32, s: i32, v: u32| #[trigger] call_requires(*credit, (w, s, v)),
            evaluates(*evaluate),
            forall|n: Node| #[trigger] call_requires(*noise, (&n,)),
            forall|n: Node, p: Vec<u32>| #[trigger]
                call_ensures(*noise, (&n,), p) ==> p@.len() == n.edges@.len(),
            forall|n: u32, d: u32| 0 < n <= d ==> #[trigger] call_requires(*ratio, (n, d)),
            forall|c: Vec<(Move, u32)>, warm: bool|
                c@.len() > 0 ==> #[trigger] call_requires(*sample, (&c, warm)),
            forall|c: Vec<(Move, u32)>, warm: bool, i: usize|
                c@.len() > 0 && #[trigger] call_ensures(*sample, (&c, warm), i) ==> i < c@.len(),
            sims == num_simulations,
            (sims + 1) * 301 <= u32::MAX,
            game.wf(),
            game.mcts.simulations() == num_simulations,
            0 <= n,
            game.played().len() == n + 1,
            game.mcts.spec_next_id() <= n * (sims + 1),
            game.mcts.rooted() ==> visits(game.mcts.root().edges@) <= n * sims,
            game.warm_moves() == temperature_moves,
            turns.len() == game.samples().len(),
            trees_follow(turns),
            turns.len() == 0 ==> game.mcts.spec_nodes() == Map::<u32, Node>::empty(),
            turns.len() > 0 ==> advanced(
                turns.last().after,
                game.mcts,
                turns.last().counts@[turns.last().index as int].0,
            ),
            forall|i: int|
                0 <= i < game.samples().len() ==> turn_taken(
                    *select,
                    *credit,
                    *evaluate,
                    noisy,
                    *noise,
                    *ratio,
                    *sample,
                    num_simulations,
                    i < temperature_moves,
                    turns[i],
                    (#[trigger] game.samples()[i]).policy@,
                    game.played()[i],
                    game.played()[i + 1],
                ),
        decreases (if game.over() { 0 } else { 1 + MAX_TOTAL_PLIES - n }),
    {
        proof {
            let p = game.mcts.spec_game()@;
            assert(p.plies() < MAX_TOTAL_PLIES);
            assert(n < 300);
            assert((n + 1) * (sims + 1) == n * (sims + 1) + sims + 1) by (nonlinear_arith);
            assert((n + 1) * sims == n * sims + sims) by (nonlinear_arith);
            assert((n + 1) * (sims + 1) <= 300 * (sims + 1)) by (nonlinear_arith)
                requires
                    n < 300,
                    0 <= sims,
            ;
            assert((n + 1) * sims <= 300 * sims) by (nonlinear_arith)
                requires
                    n < 300,
                    0 <= sims,
            ;
            assert(0 <= n * sims) by (nonlinear_arith)
                requires
                    0 <= n,
                    0 <= sims,
            ;
            if game.mcts.rooted() {
                let root = game.mcts.root();
                assert(game.mcts.spec_nodes().contains_key(game.mcts.spec_root_id()));
                assert(edge_moves(root.edges@).len() == root.edges@.len());
                lemma_visits_nonneg(root.edges@);
            }
        }
        let ghost tree = game.mcts;
        let counts = game.mcts.run(select, credit, evaluate, noisy, noise);
        proof {
            let root = game.mcts.root();
            assert(edge_moves(root.edges@).len() == root.edges@.len());
        }
        let warm = game.is_exploring();
        let index: usize = sample(&counts, warm);
        let ghost p = game.mcts.spec_game()@;
        let ghost searched_tree = game.mcts;
        let ghost before = game.samples();
        let ghost line = game.played();
        game.play(index, ratio);
        proof {
            let done = game.samples();
            let played = game.played();
            let t = Turn { before: tree, after: searched_tree, counts, index };
            assert(turn_taken(
                *select,
                *credit,
                *evaluate,
                noisy,
                *noise,
                *ratio,
                *sample,
                num_simulations,
                warm,
                t,
                done.last().policy@,
                p,
                game.mcts.spec_game()@,
            ));
            let more = turns.push(t);
            assert(trees_follow(more)) by {
                assert forall|i: int| 0 <= i < more.len() - 1 implies advanced(
                    more[i].after,
                    (#[trigger] more[i + 1]).before,
                    more[i].counts@[more[i].index as int].0,
                ) by {
                    if i < turns.len() - 1 {
                        assert(more[i + 1] == turns[i + 1]);
                    }
                }
            }
            assert forall|i: int| 0 <= i < done.len() implies turn_taken(
                *select,
                *credit,
                *evaluate,
                noisy,
                *noise,
                *ratio,
                *sample,
                num_simulations,
                i < temperature_moves,
                more[i],
                (#[trigger] done[i]).policy@,
                played[i],
                played[i + 1],
            ) by {
                assert(played.drop_last()[i] == played[i]);
                if i < before.len() {
                    assert(done.drop_last()[i] == done[i]);
                    assert(played.drop_last()[i + 1] == played[i + 1]);
                    assert(before[i] == done[i]);
                } else {
                    assert(played[i] == line.last());
                }
            }
            turns = more;
            n = n + 1;
            assert(game.played().drop_last().len() == n);
        }
    }
    let r = game.finish();
    proof {
        let line = game.played();
        assert(samples_of(r@, line));
        assert(trees_follow(turns));
        assert forall|i: int| 0 <= i < r@.len() implies turn_taken(
            *select,
            *credit,
            *evaluate,
            noisy,
            *noise,
            *ratio,
            *sample,
            num_simulations,
            i < temperature_moves,
            turns[i],
            (#[trigger] r@[i]).policy@,
            line[i],
            line[i + 1],
        ) by {
            assert(r@[i].policy == game.samples()[i].policy);
        }
    }
    r
}

/// Collects games until enough samples are in shards.
#[derive(Debug)]
pub struct Collector {
    writer: ShardWriter,
    games_completed: u64,
    total_game_samples: u64,
    target_samples: u64,
}

impl Collector {
    pub closed spec fn shards(&self) -> ShardWriter {
        self.writer
    }

    pub closed spec fn games(&self) -> u64 {
        self.games_completed
    }

    pub closed spec fn game_samples(&self) -> u64 {
        self.total_game_samples
    }

    pub closed spec fn target(&self) -> u64 {
        self.target_samples
    }

    /// Every sample of every game is in a shard or waits for one.
    pub open spec fn wf(&self) -> bool {
        &&& self.shards().wf()
        &&& self.shards().written() + self.shards().waiting().len() == self.game_samples()
    }

    pub fn new(shard_size: usize, target_samples: u64) -> (r: Collector)
        requires
            shard_size > 0,
        ensures
            r.wf(),
            r.shards().size() == shard_size,
            r.target() == target_samples,
            r.games() == 0,
            r.game_samples() == 0,
            r.shards().index() == 0,
            r.shards().written() == 0,
            r.shards().waiting().len() == 0,
    {
        Collector {
            writer: ShardWriter::new(shard_size),
            games_completed: 0,
            total_game_samples: 0,
            target_samples,
        }
    }

    /// Counters have room for another game with so many samples.
    pub open spec fn room(&self, n: int) -> bool {
        self.shards().room(n) && self.games() < u64::MAX
    }

    pub fn has_room(&self, n: usize) -> (r: bool)
        requires
            self.wf(),
        ensures
            r == self.room(n as int),
    {
        self.writer.has_room(n) && self.games_completed < u64::MAX
    }

    /// Adds the samples of a finished game and returns the shards that are full now.
    pub fn add_game(&mut self, samples: Vec<TrainingSample>) -> (r: Vec<Shard>)
        requires
            old(self).wf(),
            old(self).room(samples@.len() as int),
        ensures
            final(self).wf(),
            final(self).target() == old(self).target(),
            final(self).shards().size() == old(self).shards().size(),
            final(self).games() == old(self).games() + 1,
            final(self).game_samples() == old(self).game_samples() + samples@.len(),
            ({
                let before = old(self).shards();
                let all = before.waiting() + samples@;
                let n = all.len() as int / before.size();
                &&& r@.len() == n
                &&& forall|k: int|
                    0 <= k < n ==> {
                        &&& (#[trigger] r@[k]).name@ == shard_file_name(
                            (before.index() + k) as nat,
                        )
                        &&& r@[k].bytes@ == shard_bytes(
                            sample_views(part(all, before.size(), k)),
                        )
                    }
                &&& final(self).shards().waiting() == all.skip(n * before.size())
                &&& final(self).shards().index() == before.index() + n
                &&& final(self).shards().written() == before.written() + n * before.size()
            }),
    {
        proof {
            let all = (self.writer.waiting().len() + samples@.len()) as int;
            let size = self.writer.size();
            let n = all / size;
            assert(0 <= n * size <= all) by (nonlinear_arith)
                requires
                    n == all / size,
                    size > 0,
                    all >= 0,
            ;
        }
        self.games_completed = self.games_completed + 1;
        self.total_game_samples = self.total_game_samples + samples.len() as u64;
        self.writer.add_game_samples(samples)
    }

    /// Whether it is time for a report on the progress.
    pub fn wants_report(&self) -> (r: bool)
        ensures
            r == (self.games() % 100 == 0),
    {
        self.games_completed % 100 == 0
    }

    /// Whether enough samples are in shards.
    pub fn is_done(&self) -> (r: bool)
        ensures
            r == (self.shards().written() >= self.target()),
    {
        self.writer.total_samples() >= self.target_samples
    }

    /// The last shard, if samples are left.
    pub fn finish(&mut self) -> (r: Option<Shard>)
        requires
            old(self).wf(),
            old(self).shards().room(0),
        ensures
            final(self).wf(),
            final(self).target() == old(self).target(),
            final(self).games() == old(self).games(),
            final(self).game_samples() == old(self).game_samples(),
            final(self).shards().written() == old(self).game_samples(),
            final(self).shards().waiting().len() == 0,
            final(self).shards().size() == old(self).shards().size(),
            match r {
                None => {
                    &&& old(self).shards().waiting().len() == 0
                    &&& final(self).shards().index() == old(self).shards().index()
                },
                Some(shard) => {
                    &&& old(self).shards().waiting().len() > 0
                    &&& final(self).shards().index() == old(self).shards().index() + 1
                    &&& shard.name@ == shard_file_name(old(self).shards().index())
                    &&& shard.bytes@ == shard_bytes(sample_views(old(self).shards().waiting()))
                },
            },
    {
        self.writer.flush()
    }

    pub fn games_completed(&self) -> (r: u64)
        ensures
            r == self.games(),
    {
        self.games_completed
    }

    pub fn total_samples(&self) -> (r: u64)
        ensures
            r == self.shards().written(),
    {
        self.writer.total_samples()
    }

    pub fn total_game_samples(&self) -> (r: u64)
        ensures
            r == self.game_samples(),
    {
        self.total_game_samples
    }
}

} // verus!
