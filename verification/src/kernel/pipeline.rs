//! Several games played side by side: each goes on until it needs an evaluation, all questions go
//! out together, and finished games are gathered into shards.

use rand::rngs::StdRng;
use vstd::prelude::*;

use crate::kernel::game::{GameState, GameView};
use crate::kernel::infer::{asks, make_eval_input, EvalInput, EvalReply};
use crate::kernel::mcts::{stepped, taken_in, Mcts, MctsConfig, StepResult, ONE};
use crate::kernel::position::Position;
use crate::kernel::selfplay::{
    count_moves, finalize_samples, finalized, is_line, lemma_child_by, lemma_counts_total,
    lemma_start_ordinary, pickable, record, samples_of, picked_move, move_noted, select_move, shares,
    shows, tree_after, z_bits, Pending, Sample,
};
use crate::kernel::setup::law_legal_list_exact;
use crate::kernel::start::law_start_goes_on;
use crate::kernel::tree::{
    expanded_with, is_fresh, law_ordinary_games_continue, law_ordinary_games_judgeable, lemma_visits_nonneg,
    lemma_visits_zero, node_at, ordinary,
    prior_moves, selects, tree_ok, visits, Node,
};
use crate::kernel::types::Move;
use crate::store::{
    safetensors_file, samples_error, serialize_shard, shard_contents, shard_fits, shard_name,
};

verus! {

/// The game after its first `i` moves.
pub open spec fn prefix(g: GameView, i: int) -> GameView {
    GameView { position: g.position_at(i), history: g.history.take(i) }
}

/// The game from its start to where it stands.
pub open spec fn line_of(g: GameView) -> Seq<GameView> {
    Seq::new(g.history.len() + 1, |i: int| prefix(g, i))
}

/// The samples show the positions of the game before its last.
pub open spec fn noted(samples: Seq<Pending>, g: GameView) -> bool {
    &&& samples.len() == g.history.len()
    &&& forall|i: int|
        0 <= i < samples.len() ==> shows(
            (#[trigger] samples[i]).state@,
            samples[i].pi_idx@,
            samples[i].pi_val@,
            prefix(g, i),
        ) && samples[i].player == prefix(g, i).position.side
}

/// What a game waits for.
#[derive(Debug, Clone, Copy, PartialEq, Eq, Structural)]
pub enum EvalKind {
    Root,
    Leaf,
}

/// A game in progress with its search and the samples so far.
#[derive(Debug)]
pub struct GameSlot {
    pub mcts: Mcts,
    pub state: GameState,
    pub samples: Vec<Pending>,
    pub ply: u32,
    pub root_initialized: bool,
    pub awaiting: Option<EvalKind>,
}

impl GameSlot {
    pub open spec fn sims(&self) -> int {
        self.mcts.spec_config().n_simulations as int
    }

    /// The game was played from the starting position, had not ended before its last position, and
    /// its samples are noted; the tree, if there is one, belongs to it.
    pub open spec fn wf(&self) -> bool {
        &&& self.mcts.wf()
        &&& self.sims() * 301 <= u32::MAX
        &&& self.state.wf()
        &&& ordinary(self.state@)
        &&& self.state@.history.len() == self.ply
        &&& self.ply <= 300
        &&& is_line(line_of(self.state@))
        &&& noted(self.samples@, self.state@)
        &&& self.mcts.wave_leaves().len() == 0
        &&& self.mcts.wave_ended().len() == 0
        &&& self.mcts.spec_root() matches Some(root) ==> root.state@ == self.state@
    }

    /// The game goes on and waits for nothing.
    pub open spec fn ready(&self) -> bool {
        &&& self.wf()
        &&& !self.state@.outcome().is_terminal
        &&& self.awaiting is None
        &&& self.mcts.idle()
        &&& self.root_initialized ==> self.mcts.searchable() && self.mcts.done() <= self.sims()
            && visits(self.mcts.spec_root().unwrap().edges@) <= self.ply * self.sims()
            + self.mcts.done() && self.mcts.done() <= visits(
            self.mcts.spec_root().unwrap().edges@,
        )
        &&& !self.root_initialized ==> (self.mcts.spec_root() matches Some(root) ==> visits(
            root.edges@,
        ) <= self.ply * self.sims())
    }

    /// The game goes on and waits for an evaluation of the position in `asked`.
    pub open spec fn waiting(&self) -> bool {
        &&& self.wf()
        &&& !self.state@.outcome().is_terminal
        &&& self.root_initialized
        &&& self.mcts.spec_root() is Some
        &&& match self.awaiting {
            Some(EvalKind::Root) => {
                &&& self.mcts.idle()
                &&& !self.mcts.spec_root().unwrap().is_expanded
                &&& self.mcts.done() == 0
            },
            Some(EvalKind::Leaf) => {
                &&& self.mcts.pending() is Some
                &&& self.mcts.searchable()
                &&& self.mcts.done() < self.sims()
                &&& visits(self.mcts.spec_root().unwrap().edges@) <= self.ply * self.sims()
                    + self.mcts.done() + 1
                &&& self.mcts.done() < visits(self.mcts.spec_root().unwrap().edges@)
            },
            None => false,
        }
    }

    /// The game whose evaluation is waited for.
    pub open spec fn asked(&self) -> GameView {
        match self.awaiting {
            Some(EvalKind::Leaf) => node_at(
                self.mcts.spec_root().unwrap(),
                self.mcts.pending().unwrap(),
            ).state@,
            _ => self.state@,
        }
    }

    /// A new game.
    pub fn new(config: MctsConfig) -> (r: GameSlot)
        requires
            config.n_simulations * 301 <= u32::MAX,
        ensures
            r.ready(),
            r.ply == 0,
            !r.root_initialized,
            r.mcts.spec_root() is None,
            r.sims() == config.n_simulations,
            r.mcts.spec_config() == config,
    {
        let state = GameState::from_position(Position::starting());
        let r = GameSlot {
            mcts: Mcts::new(config),
            state,
            samples: Vec::new(),
            ply: 0,
            root_initialized: false,
            awaiting: None,
        };
        proof {
            let g = r.state@;
            lemma_start_ordinary(g);
            assert(prefix(g, 0).history.len() == 0);
            assert(line_of(g)[0] == prefix(g, 0));
            assert(is_line(line_of(g)));
            law_start_goes_on(g);
        }
        r
    }
}

/// What a worker has produced.
#[derive(Debug)]
pub struct Output {
    /// Samples of finished games that are not in a shard yet.
    pub buffer: Vec<Sample>,
    pub games_in_shard: u32,
    /// Samples and games produced since they were last reported.
    pub produced: u64,
    pub games: u64,
}

/// The game of `g` was finished: its samples, with its result, were added to the output.
pub open spec fn finished(before: Output, after: Output, samples: Seq<Pending>, g: GameView) -> bool {
    let n = g.history.len() as int;
    let start = before.buffer@.len() as int;
    &&& samples.len() == n
    &&& after.buffer@.len() == start + n
    &&& after.buffer@.take(start) == before.buffer@
    &&& forall|i: int|
        0 <= i < n ==> finalized(
            samples[i],
            g.outcome().winner,
            #[trigger] after.buffer@.skip(start)[i],
        )
    &&& samples_of(after.buffer@.skip(start), line_of(g))
    &&& after.games_in_shard == before.games_in_shard + 1
    &&& after.produced == before.produced + n
    &&& after.games == before.games + 1
}

/// The `k`-th move of the game was picked after a search, whose counts are noted in the sample.
pub open spec fn turn_at<Q: Fn(u32, u32) -> u32>(
    ratio: Q,
    sims: int,
    temperature_moves: u32,
    samples: Seq<Pending>,
    g: GameView,
    k: int,
) -> bool {
    move_noted(ratio, sims, temperature_moves, samples[k].pi_val@, prefix(g, k), prefix(g, k + 1))
}

/// The game `g` with its samples was continued to `h` by moves picked after searches, each with a
/// sample.
#[verifier::opaque]
pub open spec fn went_on<Q: Fn(u32, u32) -> u32>(
    ratio: Q,
    sims: int,
    temperature_moves: u32,
    before: Seq<Pending>,
    g: GameView,
    samples: Seq<Pending>,
    h: GameView,
) -> bool {
    &&& before.len() == g.history.len()
    &&& samples.len() == h.history.len()
    &&& g.history.len() <= h.history.len()
    &&& samples.take(before.len() as int) == before
    &&& prefix(h, g.history.len() as int) == g
    &&& forall|k: int|
        g.history.len() <= k < h.history.len() ==> #[trigger] turn_at(
            ratio,
            sims,
            temperature_moves,
            samples,
            h,
            k,
        )
}

/// The game is over, by the rules or by the limit.
pub open spec fn is_over(g: GameView, max_total_plies: u32) -> bool {
    g.outcome().is_terminal || g.history.len() >= max_total_plies
}

/// From the slot `a` the game went on. Either the slot `b` holds it now, or it was finished and the
/// slot holds a new one.
pub open spec fn driven<Q: Fn(u32, u32) -> u32>(
    ratio: Q,
    temperature_moves: u32,
    max_total_plies: u32,
    a: GameSlot,
    b: GameSlot,
    before: Output,
    after: Output,
) -> bool {
    ||| after == before && went_on(
        ratio,
        a.sims(),
        temperature_moves,
        a.samples@,
        a.state@,
        b.samples@,
        b.state@,
    )
    ||| b.ply == 0 && game_over(ratio, temperature_moves, max_total_plies, a, before, after)
}

/// The game of the slot `a` went on to its end and was finished.
#[verifier::opaque]
pub open spec fn game_over<Q: Fn(u32, u32) -> u32>(
    ratio: Q,
    temperature_moves: u32,
    max_total_plies: u32,
    a: GameSlot,
    before: Output,
    after: Output,
) -> bool {
    exists|samples: Seq<Pending>, g: GameView|
        {
            &&& #[trigger] went_on(
                ratio,
                a.sims(),
                temperature_moves,
                a.samples@,
                a.state@,
                samples,
                g,
            )
            &&& is_over(g, max_total_plies)
            &&& g.history.len() <= 300
            &&& finished(before, after, samples, g)
        }
}

/// Finishing a game adds at most so much to the output.
proof fn lemma_game_over_counts<Q: Fn(u32, u32) -> u32>(
    ratio: Q,
    temperature_moves: u32,
    max_total_plies: u32,
    a: GameSlot,
    before: Output,
    after: Output,
)
    requires
        game_over(ratio, temperature_moves, max_total_plies, a, before, after),
    ensures
        after.games_in_shard == before.games_in_shard + 1,
        after.produced <= before.produced + 300,
        after.games == before.games + 1,
{
    reveal(game_over);
}

/// A move that ends the game finishes it.
proof fn lemma_game_over<Q: Fn(u32, u32) -> u32>(
    ratio: Q,
    temperature_moves: u32,
    max_total_plies: u32,
    a: GameSlot,
    before: Output,
    after: Output,
    samples: Seq<Pending>,
    g: GameView,
)
    requires
        went_on(ratio, a.sims(), temperature_moves, a.samples@, a.state@, samples, g),
        is_over(g, max_total_plies),
        g.history.len() <= 300,
        finished(before, after, samples, g),
    ensures
        game_over(ratio, temperature_moves, max_total_plies, a, before, after),
{
    reveal(game_over);
}

/// A game that went on went on by one more move.
proof fn lemma_went_on<Q: Fn(u32, u32) -> u32>(
    ratio: Q,
    sims: int,
    temperature_moves: u32,
    before: Seq<Pending>,
    g: GameView,
    samples: Seq<Pending>,
    h: GameView,
    sample: Pending,
    mv: Move,
)
    requires
        went_on(ratio, sims, temperature_moves, before, g, samples, h),
        h.wf(),
        h.position.legal(mv),
        move_noted(ratio, sims, temperature_moves, sample.pi_val@, h, h.after(mv)),
    ensures
        went_on(
            ratio,
            sims,
            temperature_moves,
            before,
            g,
            samples.push(sample),
            h.after(mv),
        ),
{
    reveal(went_on);
    let n = h.after(mv);
    let more = samples.push(sample);
    crate::kernel::game::law_move_extends_game(h, mv);
    lemma_prefix_extend(h, mv);
    assert(more.take(before.len() as int) =~= samples.take(before.len() as int));
    assert(prefix(n, g.history.len() as int) == prefix(h, g.history.len() as int));
    assert forall|k: int| g.history.len() <= k < n.history.len() implies #[trigger] turn_at(
        ratio,
        sims,
        temperature_moves,
        more,
        n,
        k,
    ) by {
        assert(prefix(n, k) == prefix(h, k));
        if k < h.history.len() {
            assert(turn_at(ratio, sims, temperature_moves, samples, h, k));
            assert(prefix(n, k + 1) == prefix(h, k + 1));
        }
    }
}

proof fn lemma_went_nowhere<Q: Fn(u32, u32) -> u32>(
    ratio: Q,
    sims: int,
    temperature_moves: u32,
    samples: Seq<Pending>,
    g: GameView,
)
    requires
        samples.len() == g.history.len(),
        g.wf(),
    ensures
        went_on(ratio, sims, temperature_moves, samples, g, samples, g),
{
    reveal(went_on);
    assert(samples.take(samples.len() as int) =~= samples);
    assert(g.history.take(g.history.len() as int) =~= g.history);
    assert(g.position_at(g.history.len() as int) == g.position);
}

/// There is room for one more game in the counts.
pub open spec fn has_room(out: Output) -> bool {
    &&& out.games_in_shard < u32::MAX
    &&& out.produced + 300 <= u64::MAX
    &&& out.games < u64::MAX
}

/// A prefix of the extended game is a prefix of the game, or the whole.
proof fn lemma_prefix_extend(g: GameView, mv: Move)
    requires
        g.wf(),
        g.position.legal(mv),
    ensures
        forall|i: int|
            0 <= i <= g.history.len() ==> #[trigger] prefix(g.after(mv), i) == prefix(g, i),
        prefix(g, g.history.len() as int) == g,
        prefix(g.after(mv), g.history.len() as int + 1) == g.after(mv),
{
    let n = g.after(mv);
    crate::kernel::game::law_move_extends_game(g, mv);
    assert forall|i: int| 0 <= i <= g.history.len() implies #[trigger] prefix(n, i) == prefix(
        g,
        i,
    ) by {
        assert(n.history.take(i) =~= g.history.take(i));
        assert(n.position_at(i) == g.position_at(i));
    }
    assert(g.history.take(g.history.len() as int) =~= g.history);
    assert(n.history.take(g.history.len() as int + 1) =~= n.history);
}

/// A line stays a line when its game goes on by a legal move.
proof fn lemma_line_extend(g: GameView, mv: Move)
    requires
        g.wf(),
        g.position.legal(mv),
        !g.outcome().is_terminal,
        is_line(line_of(g)),
    ensures
        is_line(line_of(g.after(mv))),
{
    let n = g.after(mv);
    lemma_prefix_extend(g, mv);
    let a = line_of(g);
    let b = line_of(n);
    assert(b[0] == a[0]) by {
        assert(prefix(n, 0) == prefix(g, 0));
    }
    assert forall|i: int| 0 <= i < b.len() - 1 implies #[trigger] crate::kernel::selfplay::continues(
        b[i],
        b[i + 1],
    ) by {
        assert(prefix(n, i) == prefix(g, i));
        if i < g.history.len() {
            assert(prefix(n, i + 1) == prefix(g, i + 1));
            assert(crate::kernel::selfplay::continues(a[i], a[i + 1]));
        } else {
            assert(b[i] == g);
            assert(b[i + 1] == g.after(mv));
        }
    }
}

/// Notes the finished game and starts a new one.
fn complete_game(slot: &mut GameSlot, out: &mut Output)
    requires
        old(slot).wf(),
        has_room(*old(out)),
    ensures
        final(slot).ready(),
        final(slot).ply == 0,
        !final(slot).root_initialized,
        final(slot).mcts.spec_root() is None,
        final(slot).mcts.spec_config() == old(slot).mcts.spec_config(),
        finished(*old(out), *final(out), old(slot).samples@, old(slot).state@),
{
    let ghost g = slot.state@;
    let ghost start = out.buffer@;
    let ghost taken = slot.samples@;
    proof {
        law_ordinary_games_judgeable(g);
    }
    let winner = slot.state.status().winner;
    let mut pending: Vec<Pending> = Vec::new();
    std::mem::swap(&mut pending, &mut slot.samples);
    let mut fresh = finalize_samples(pending, winner);
    let ghost new = fresh@;
    let count: usize = fresh.len();
    out.produced = out.produced + count as u64;
    out.games = out.games + 1;
    out.buffer.append(&mut fresh);
    out.games_in_shard = out.games_in_shard + 1;
    proof {
        let tail = out.buffer@.skip(start.len() as int);
        assert(tail =~= new);
        assert(out.buffer@.take(start.len() as int) =~= start);
        let line = line_of(g);
        assert(line.last() == prefix(g, g.history.len() as int));
        assert(prefix(g, g.history.len() as int) == g) by {
            assert(g.history.take(g.history.len() as int) =~= g.history);
        }
        assert forall|i: int| 0 <= i < new.len() implies shows(
            (#[trigger] new[i]).state@,
            new[i].pi_idx@,
            new[i].pi_val@,
            line[i],
        ) && new[i].z == z_bits(line.last().outcome().winner, line[i].position.side) by {
            assert(finalized(taken[i], winner, new[i]));
        }
        assert(samples_of(tail, line));
        assert forall|i: int| 0 <= i < g.history.len() implies finalized(
            taken[i],
            g.outcome().winner,
            #[trigger] tail[i],
        ) by {
            assert(finalized(taken[i], winner, new[i]));
        }
    }
    let config = *slot.mcts.config();
    *slot = GameSlot::new(config);
}

/// How often the edges of the root were followed.
pub open spec fn root_counts(m: Mcts) -> Seq<(Move, u32)> {
    let edges = m.spec_root().unwrap().edges@;
    Seq::new(edges.len(), |j: int| (edges[j].mv, edges[j].n))
}

/// The search of the slot `a` is done, and the move was made that may be played by its counts, with
/// a sample of them. Either the slot `b` holds the game now and what is left of the tree, or the game
/// was finished and the slot holds a new one.
pub open spec fn moved<Q: Fn(u32, u32) -> u32>(
    ratio: Q,
    temperature_moves: u32,
    max_total_plies: u32,
    a: GameSlot,
    b: GameSlot,
    before: Output,
    after: Output,
    over: bool,
    sample: Pending,
    mv: Move,
) -> bool {
    let samples = a.samples@.push(sample);
    let g = a.state@.after(mv);
    &&& a.root_initialized
    &&& a.mcts.done() >= a.sims()
    &&& a.mcts.spec_root() is Some
    &&& a.state@.position.legal(mv)
    &&& picked_move(a.sims(), temperature_moves, root_counts(a.mcts), a.state@, g)
    &&& shares(ratio, root_counts(a.mcts), sample.pi_val@)
    &&& b.mcts.spec_config() == a.mcts.spec_config()
    &&& !b.root_initialized
    &&& b.awaiting is None
    &&& if over {
        &&& is_over(g, max_total_plies)
        &&& finished(before, after, samples, g)
        &&& b.ply == 0
        &&& b.samples@.len() == 0
        &&& b.mcts.spec_root() is None
    } else {
        &&& !is_over(g, max_total_plies)
        &&& after == before
        &&& b.samples@ == samples
        &&& b.state@ == g
        &&& b.ply == a.ply + 1
        &&& b.mcts.spec_root() == tree_after(a.mcts, mv)
    }
}

/// The root of the slot was set: the tree is kept if its root is the game, else a new one is
/// started, which waits for its evaluation.
pub open spec fn opened(a: GameSlot, b: GameSlot) -> bool {
    &&& !a.root_initialized
    &&& b.root_initialized
    &&& b.state == a.state
    &&& b.samples == a.samples
    &&& b.ply == a.ply
    &&& b.mcts.spec_config() == a.mcts.spec_config()
    &&& b.mcts.done() == 0
    &&& b.mcts.spec_root() is Some
    &&& match a.mcts.kept(a.state@) {
        Some(kept) => b.mcts.spec_root() == Some(kept),
        None => is_fresh(b.mcts.spec_root().unwrap(), a.state@),
    }
    &&& b.awaiting == if b.mcts.spec_root().unwrap().is_expanded {
        None
    } else {
        Some(EvalKind::Root)
    }
}

/// One simulation was made in the slot; it may wait for an evaluation now.
pub open spec fn simulated<
    F: Fn(&Node) -> usize,
    A: Fn(u64, i32, u64) -> u64,
    N: Fn(&Node) -> Vec<u64>,
>(select: F, credit: A, noisy: bool, noise: N, a: GameSlot, b: GameSlot) -> bool {
    &&& a.root_initialized
    &&& b.root_initialized
    &&& b.state == a.state
    &&& b.samples == a.samples
    &&& b.ply == a.ply
    &&& a.mcts.done() < a.sims()
    &&& b.mcts.spec_config() == a.mcts.spec_config()
    &&& stepped(select, credit, noisy, noise, a.mcts, b.mcts, b.awaiting is Some)
    &&& b.awaiting is Some ==> b.awaiting == Some(EvalKind::Leaf)
}

/// What a slot does next: its root is set, a simulation is made, or the move is made.
pub open spec fn acted<
    F: Fn(&Node) -> usize,
    A: Fn(u64, i32, u64) -> u64,
    N: Fn(&Node) -> Vec<u64>,
    Q: Fn(u32, u32) -> u32,
>(
    select: F,
    credit: A,
    noisy: bool,
    noise: N,
    ratio: Q,
    temperature_moves: u32,
    max_total_plies: u32,
    a: GameSlot,
    b: GameSlot,
    before: Output,
    after: Output,
) -> bool {
    ||| after == before && opened(a, b)
    ||| after == before && simulated(select, credit, noisy, noise, a, b)
    ||| exists|over: bool, sample: Pending, mv: Move| #[trigger]
        moved(
            ratio,
            temperature_moves,
            max_total_plies,
            a,
            b,
            before,
            after,
            over,
            sample,
            mv,
        )
}

pub open spec fn acted_at<
    F: Fn(&Node) -> usize,
    A: Fn(u64, i32, u64) -> u64,
    N: Fn(&Node) -> Vec<u64>,
    Q: Fn(u32, u32) -> u32,
>(
    select: F,
    credit: A,
    noisy: bool,
    noise: N,
    ratio: Q,
    temperature_moves: u32,
    max_total_plies: u32,
    slots: Seq<GameSlot>,
    outs: Seq<Output>,
    k: int,
) -> bool {
    slots[k].awaiting is None && acted(
        select,
        credit,
        noisy,
        noise,
        ratio,
        temperature_moves,
        max_total_plies,
        slots[k],
        slots[k + 1],
        outs[k],
        outs[k + 1],
    )
}

/// The slot went through these states, one action after the other, with the output beside it.
#[verifier::opaque]
pub open spec fn traced<
    F: Fn(&Node) -> usize,
    A: Fn(u64, i32, u64) -> u64,
    N: Fn(&Node) -> Vec<u64>,
    Q: Fn(u32, u32) -> u32,
>(
    select: F,
    credit: A,
    noisy: bool,
    noise: N,
    ratio: Q,
    temperature_moves: u32,
    max_total_plies: u32,
    slots: Seq<GameSlot>,
    outs: Seq<Output>,
) -> bool {
    &&& slots.len() > 0
    &&& slots.len() == outs.len()
    &&& forall|k: int|
        0 <= k < slots.len() - 1 ==> #[trigger] acted_at(
            select,
            credit,
            noisy,
            noise,
            ratio,
            temperature_moves,
            max_total_plies,
            slots,
            outs,
            k,
        )
}

proof fn lemma_trace_starts<
    F: Fn(&Node) -> usize,
    A: Fn(u64, i32, u64) -> u64,
    N: Fn(&Node) -> Vec<u64>,
    Q: Fn(u32, u32) -> u32,
>(
    select: F,
    credit: A,
    noisy: bool,
    noise: N,
    ratio: Q,
    temperature_moves: u32,
    max_total_plies: u32,
    a: GameSlot,
    before: Output,
)
    ensures
        traced(
            select,
            credit,
            noisy,
            noise,
            ratio,
            temperature_moves,
            max_total_plies,
            Seq::empty().push(a),
            Seq::empty().push(before),
        ),
{
    reveal(traced);
}

proof fn lemma_trace_goes_on<
    F: Fn(&Node) -> usize,
    A: Fn(u64, i32, u64) -> u64,
    N: Fn(&Node) -> Vec<u64>,
    Q: Fn(u32, u32) -> u32,
>(
    select: F,
    credit: A,
    noisy: bool,
    noise: N,
    ratio: Q,
    temperature_moves: u32,
    max_total_plies: u32,
    slots: Seq<GameSlot>,
    outs: Seq<Output>,
    b: GameSlot,
    after: Output,
)
    requires
        slots.len() > 0,
        traced(
            select,
            credit,
            noisy,
            noise,
            ratio,
            temperature_moves,
            max_total_plies,
            slots,
            outs,
        ),
        slots.last().awaiting is None,
        acted(
            select,
            credit,
            noisy,
            noise,
            ratio,
            temperature_moves,
            max_total_plies,
            slots.last(),
            b,
            outs.last(),
            after,
        ),
    ensures
        traced(
            select,
            credit,
            noisy,
            noise,
            ratio,
            temperature_moves,
            max_total_plies,
            slots.push(b),
            outs.push(after),
        ),
{
    reveal(traced);
    let s = slots.push(b);
    let o = outs.push(after);
    assert forall|k: int| 0 <= k < s.len() - 1 implies #[trigger] acted_at(
        select,
        credit,
        noisy,
        noise,
        ratio,
        temperature_moves,
        max_total_plies,
        s,
        o,
        k,
    ) by {
        assert(s[k] == slots[k]);
        assert(o[k] == outs[k]);
        if k < slots.len() - 1 {
            assert(s[k + 1] == slots[k + 1]);
            assert(o[k + 1] == outs[k + 1]);
            assert(acted_at(
                select,
                credit,
                noisy,
                noise,
                ratio,
                temperature_moves,
                max_total_plies,
                slots,
                outs,
                k,
            ));
        }
    }
}

/// The slot went from `a` to `b` by its actions, and the output with it.
pub open spec fn acted_out<
    F: Fn(&Node) -> usize,
    A: Fn(u64, i32, u64) -> u64,
    N: Fn(&Node) -> Vec<u64>,
    Q: Fn(u32, u32) -> u32,
>(
    select: F,
    credit: A,
    noisy: bool,
    noise: N,
    ratio: Q,
    temperature_moves: u32,
    max_total_plies: u32,
    a: GameSlot,
    b: GameSlot,
    before: Output,
    after: Output,
) -> bool {
    exists|slots: Seq<GameSlot>, outs: Seq<Output>|
        {
            &&& #[trigger] traced(
                select,
                credit,
                noisy,
                noise,
                ratio,
                temperature_moves,
                max_total_plies,
                slots,
                outs,
            )
            &&& slots[0] == a
            &&& outs[0] == before
            &&& slots.last() == b
            &&& outs.last() == after
        }
}

/// Plays the move of a searched position, and finishes the game if that ends it. Says whether it
/// did.
#[verifier::rlimit(30)]
fn play_move<Q: Fn(u32, u32) -> u32>(
    slot: &mut GameSlot,
    temperature_moves: u32,
    max_total_plies: u32,
    out: &mut Output,
    rng: &mut StdRng,
    ratio: &Q,
) -> (r: bool)
    requires
        forall|n: u32, t: u32| #[trigger] call_requires(*ratio, (n, t)),
        old(slot).ready(),
        old(slot).root_initialized,
        old(slot).mcts.done() >= old(slot).sims(),
        has_room(*old(out)),
    ensures
        final(slot).ready(),
        !final(slot).root_initialized,
        final(slot).mcts.spec_config() == old(slot).mcts.spec_config(),
        !r ==> final(slot).ply == old(slot).ply + 1 && final(slot).ply <= 300 && *final(out) == *old(
            out,
        ),
        r ==> final(slot).ply == 0 && final(slot).mcts.spec_root() is None,
        exists|sample: Pending, mv: Move| #[trigger]
            moved(
                *ratio,
                temperature_moves,
                max_total_plies,
                *old(slot),
                *final(slot),
                *old(out),
                *final(out),
                r,
                sample,
                mv,
            ),
{
    let ghost g = slot.state@;
    let ghost sims = slot.sims();
    let ghost root = slot.mcts.spec_root().unwrap();
    let counts = slot.mcts.visit_counts();
    proof {
        assert(tree_ok(root));
        assert(g.position_at(g.history.len() as int).wf());
        lemma_counts_total(root.edges@, counts@);
        assert(g.history.len() < 300);
        assert(slot.ply * sims <= 299 * sims) by (nonlinear_arith)
            requires
                slot.ply <= 299,
                0 <= sims,
        ;
        assert(counts@.len() == g.position.legal_list().len());
    }
    let pending = record(&slot.state, &counts, ratio);
    let ghost before = slot.samples@;
    slot.samples.push(pending);
    let mv = select_move(&counts, slot.ply, temperature_moves, rng);
    proof {
        let i = choose|i: int| #[trigger]
            pickable(counts@, i, slot.ply as int, temperature_moves) && counts@[i].0 == mv;
        assert(picked_move(sims, temperature_moves, counts@, g, g.after(mv)));
        assert(counts@ =~= root_counts(slot.mcts));
        assert(move_noted(*ratio, sims, temperature_moves, pending.pi_val@, g, g.after(mv)));
        assert(count_moves(counts@)[i] == mv);
        law_legal_list_exact(g.position);
        assert(g.position.legal_list().contains(mv));
        law_ordinary_games_judgeable(g);
        law_ordinary_games_continue(g, mv);
        lemma_prefix_extend(g, mv);
        lemma_line_extend(g, mv);
        assert(root.edges@.skip(0) =~= root.edges@);
        lemma_child_by(root, root.edges@, 0, mv);
        assert((slot.ply + 1) * sims == slot.ply * sims + sims) by (nonlinear_arith);
        let n = g.after(mv);
        assert forall|i: int| 0 <= i < slot.samples@.len() implies shows(
            (#[trigger] slot.samples@[i]).state@,
            slot.samples@[i].pi_idx@,
            slot.samples@[i].pi_val@,
            prefix(n, i),
        ) && slot.samples@[i].player == prefix(n, i).position.side by {
            assert(prefix(n, i) == prefix(g, i));
            if i < before.len() {
                assert(slot.samples@[i] == before[i]);
            }
        }
    }
    let next = slot.state.make_move(mv);
    slot.state = next;
    slot.mcts.advance(mv);
    slot.ply = slot.ply + 1;
    slot.root_initialized = false;
    proof {
        law_ordinary_games_judgeable(slot.state@);
    }
    let ghost done = *slot;
    let over = slot.ply >= max_total_plies || slot.state.status().is_terminal;
    if over {
        complete_game(slot, out);
    }
    proof {
        assert(done.samples@ == before.push(pending));
        assert(moved(
            *ratio,
            temperature_moves,
            max_total_plies,
            *old(slot),
            *slot,
            *old(out),
            *out,
            over,
            pending,
            mv,
        ));
    }
    over
}

/// Lets a game go on until it needs an evaluation, and returns the question. Along the way at most
/// one game is finished and the next one begun.
#[verifier::rlimit(30)]
pub fn drive_slot_until_eval<
    F: Fn(&Node) -> usize,
    A: Fn(u64, i32, u64) -> u64,
    N: Fn(&Node) -> Vec<u64>,
    Q: Fn(u32, u32) -> u32,
>(
    slot: &mut GameSlot,
    temperature_moves: u32,
    max_total_plies: u32,
    out: &mut Output,
    rng: &mut StdRng,
    select: &F,
    credit: &A,
    noisy: bool,
    noise: &N,
    ratio: &Q,
) -> (r: EvalInput)
    requires
        selects(*select),
        forall|w: u64, s: i32| #[trigger] call_requires(*credit, (w, s, ONE)),
        forall|n: Node| #[trigger] call_requires(*noise, (&n,)),
        forall|n: Node, p: Vec<u64>| #[trigger]
            call_ensures(*noise, (&n,), p) ==> p@.len() == n.edges@.len(),
        forall|n: u32, t: u32| #[trigger] call_requires(*ratio, (n, t)),
        old(slot).ready(),
        has_room(*old(out)),
    ensures
        final(slot).waiting(),
        final(slot).mcts.spec_config() == old(slot).mcts.spec_config(),
        asks(r, final(slot).asked()),
        driven(
            *ratio,
            temperature_moves,
            max_total_plies,
            *old(slot),
            *final(slot),
            *old(out),
            *final(out),
        ),
        acted_out(
            *select,
            *credit,
            noisy,
            *noise,
            *ratio,
            temperature_moves,
            max_total_plies,
            *old(slot),
            *final(slot),
            *old(out),
            *final(out),
        ),
{
    let ghost start = *out;
    let ghost first = *slot;
    let ghost mut slots: Seq<GameSlot> = Seq::empty().push(*slot);
    let ghost mut outs: Seq<Output> = Seq::empty().push(*out);
    proof {
        lemma_trace_starts(
            *select,
            *credit,
            noisy,
            *noise,
            *ratio,
            temperature_moves,
            max_total_plies,
            *slot,
            *out,
        );
        lemma_went_nowhere(
            *ratio,
            slot.sims(),
            temperature_moves,
            slot.samples@,
            slot.state@,
        );
    }
    let mut completed = false;
    loop
        invariant
            selects(*select),
            forall|w: u64, s: i32| #[trigger] call_requires(*credit, (w, s, ONE)),
            forall|n: Node| #[trigger] call_requires(*noise, (&n,)),
            forall|n: Node, p: Vec<u64>| #[trigger]
                call_ensures(*noise, (&n,), p) ==> p@.len() == n.edges@.len(),
            forall|n: u32, t: u32| #[trigger] call_requires(*ratio, (n, t)),
            start == *old(out),
            has_room(start),
            slot.ready(),
            slot.ply <= 300,
            slot.mcts.spec_config() == old(slot).mcts.spec_config(),
            first == *old(slot),
            slots.len() > 0,
            slots.len() == outs.len(),
            slots[0] == first,
            outs[0] == start,
            slots.last() == *slot,
            outs.last() == *out,
            traced(
                *select,
                *credit,
                noisy,
                *noise,
                *ratio,
                temperature_moves,
                max_total_plies,
                slots,
                outs,
            ),
            !completed ==> *out == start && went_on(
                *ratio,
                first.sims(),
                temperature_moves,
                first.samples@,
                first.state@,
                slot.samples@,
                slot.state@,
            ),
            completed ==> !slot.root_initialized && slot.mcts.spec_root() is None && slot.ply == 0
                && game_over(
                *ratio,
                temperature_moves,
                max_total_plies,
                first,
                start,
                *out,
            ),
        decreases
                (if completed {
                    0int
                } else {
                    1
                }),
                301 - slot.ply,
                (if slot.root_initialized {
                    0int
                } else {
                    1
                }),
                slot.sims() - slot.mcts.done(),
    {
        let ghost sims = slot.sims();
        if !slot.root_initialized {
            let need_eval = slot.mcts.init_root(slot.state.clone());
            slot.root_initialized = true;
            proof {
                lemma_visits_nonneg(slot.mcts.spec_root().unwrap().edges@);
            }
            if need_eval {
                slot.awaiting = Some(EvalKind::Root);
            }
            proof {
                assert(opened(slots.last(), *slot));
                lemma_trace_goes_on(
                    *select,
                    *credit,
                    noisy,
                    *noise,
                    *ratio,
                    temperature_moves,
                    max_total_plies,
                    slots,
                    outs,
                    *slot,
                    *out,
                );
                slots = slots.push(*slot);
                outs = outs.push(*out);
            }
            if need_eval {
                return make_eval_input(slot.mcts.root_state());
            }
        }
        if slot.mcts.simulations_done() >= slot.mcts.config().n_simulations {
            let ghost was = *slot;
            let over = play_move(slot, temperature_moves, max_total_plies, out, rng, ratio);
            proof {
                let (sample, mv) = choose|sample: Pending, mv: Move| #[trigger]
                    moved(
                        *ratio,
                        temperature_moves,
                        max_total_plies,
                        was,
                        *slot,
                        start,
                        *out,
                        over,
                        sample,
                        mv,
                    );
                assert(move_noted(
                    *ratio,
                    sims,
                    temperature_moves,
                    sample.pi_val@,
                    was.state@,
                    was.state@.after(mv),
                ));
                lemma_went_on(
                    *ratio,
                    sims,
                    temperature_moves,
                    first.samples@,
                    first.state@,
                    was.samples@,
                    was.state@,
                    sample,
                    mv,
                );
                lemma_trace_goes_on(
                    *select,
                    *credit,
                    noisy,
                    *noise,
                    *ratio,
                    temperature_moves,
                    max_total_plies,
                    slots,
                    outs,
                    *slot,
                    *out,
                );
                slots = slots.push(*slot);
                outs = outs.push(*out);
                if over {
                    lemma_game_over(
                        *ratio,
                        temperature_moves,
                        max_total_plies,
                        first,
                        start,
                        *out,
                        was.samples@.push(sample),
                        was.state@.after(mv),
                    );
                }
            }
            if over {
                completed = true;
            }
            continue;
        }
        proof {
            assert(slot.state@.history.len() < 300);
            assert(slot.ply * sims <= 299 * sims) by (nonlinear_arith)
                requires
                    slot.ply <= 299,
                    0 <= sims,
            ;
        }
        let question = match slot.mcts.step(select, credit, noisy, noise) {
            StepResult::NeedEval { state } => Some(make_eval_input(state)),
            StepResult::Done => None,
        };
        if question.is_some() {
            slot.awaiting = Some(EvalKind::Leaf);
        }
        proof {
            assert(simulated(*select, *credit, noisy, *noise, slots.last(), *slot));
            lemma_trace_goes_on(
                *select,
                *credit,
                noisy,
                *noise,
                *ratio,
                temperature_moves,
                max_total_plies,
                slots,
                outs,
                *slot,
                *out,
            );
            slots = slots.push(*slot);
            outs = outs.push(*out);
        }
        if let Some(q) = question {
            return q;
        }
    }
}

/// The evaluation was taken into the tree of the slot: the root was expanded with it, or the leaf,
/// whose value was then added along the path to it.
pub open spec fn fed<A: Fn(u64, i32, u64) -> u64>(
    credit: A,
    a: GameSlot,
    b: GameSlot,
    reply: EvalReply,
) -> bool {
    let before = a.mcts.spec_root().unwrap();
    let after = b.mcts.spec_root().unwrap();
    &&& b.mcts.spec_root() is Some
    &&& match a.awaiting {
        Some(EvalKind::Root) => expanded_with(before, after, reply.0@),
        Some(EvalKind::Leaf) => taken_in(
            credit,
            before,
            after,
            a.mcts.pending().unwrap(),
            reply.0@,
            reply.1,
        ),
        None => false,
    }
}

/// Takes the evaluation that a game waits for.
pub fn feed_slot<A: Fn(u64, i32, u64) -> u64>(slot: &mut GameSlot, reply: EvalReply, credit: &A)
    requires
        forall|w: u64, s: i32, v: u64| #[trigger] call_requires(*credit, (w, s, v)),
        old(slot).waiting(),
        prior_moves(reply.0@) == old(slot).asked().position.legal_list(),
    ensures
        final(slot).ready(),
        final(slot).root_initialized,
        final(slot).state == old(slot).state,
        final(slot).samples == old(slot).samples,
        final(slot).ply == old(slot).ply,
        final(slot).mcts.spec_config() == old(slot).mcts.spec_config(),
        final(slot).mcts.done() == old(slot).mcts.done() + if old(slot).awaiting == Some(
            EvalKind::Leaf,
        ) {
            1int
        } else {
            0
        },
        fed(*credit, *old(slot), *final(slot), reply),
{
    let (priors, value) = reply;
    match slot.awaiting {
        Some(EvalKind::Root) => {
            slot.mcts.feed_root_eval(priors);
            proof {
                let root = slot.mcts.spec_root().unwrap();
                lemma_visits_zero(root.edges@);
                assert(0 <= slot.ply * slot.sims()) by (nonlinear_arith)
                    requires
                        0 <= slot.ply,
                        0 <= slot.sims(),
                ;
            }
        },
        Some(EvalKind::Leaf) => {
            slot.mcts.feed_eval(priors, value, credit);
        },
        None => {},
    }
    slot.awaiting = None;
}

/// The game took its evaluation in and is ready to go on.
#[verifier::opaque]
spec fn answered<A: Fn(u64, i32, u64) -> u64>(
    credit: A,
    a: GameSlot,
    b: GameSlot,
    reply: EvalReply,
) -> bool {
    &&& b.ready()
    &&& b.state == a.state
    &&& b.samples == a.samples
    &&& b.ply == a.ply
    &&& b.root_initialized
    &&& b.mcts.spec_config() == a.mcts.spec_config()
    &&& fed(credit, a, b, reply)
}

/// The game waits for this evaluation.
#[verifier::opaque]
spec fn waits_for(a: GameSlot, reply: EvalReply) -> bool {
    &&& a.waiting()
    &&& prior_moves(reply.0@) == a.asked().position.legal_list()
}

#[verifier::spinoff_prover]
fn answer_slot<A: Fn(u64, i32, u64) -> u64>(slot: &mut GameSlot, reply: EvalReply, credit: &A)
    requires
        forall|w: u64, s: i32, v: u64| #[trigger] call_requires(*credit, (w, s, v)),
        waits_for(*old(slot), reply),
    ensures
        answered(*credit, *old(slot), *final(slot), reply),
{
    proof {
        reveal(waits_for);
        reveal(answered);
    }
    feed_slot(slot, reply, credit);
}

/// A worker: games side by side, what they have produced, and how many shards it has written.
#[derive(Debug)]
pub struct Worker {
    pub slots: Vec<GameSlot>,
    pub out: Output,
    pub shard_seq: u64,
}

/// The `j`-th game went on, and changed the output as it did.
pub open spec fn driven_at<
    F: Fn(&Node) -> usize,
    A: Fn(u64, i32, u64) -> u64,
    N: Fn(&Node) -> Vec<u64>,
    Q: Fn(u32, u32) -> u32,
>(
    select: F,
    credit: A,
    noisy: bool,
    noise: N,
    ratio: Q,
    temperature_moves: u32,
    max_total_plies: u32,
    a: Seq<GameSlot>,
    b: Seq<GameSlot>,
    outs: Seq<Output>,
    j: int,
) -> bool {
    &&& b[j].mcts.spec_config() == a[j].mcts.spec_config()
    &&& driven(ratio, temperature_moves, max_total_plies, a[j], b[j], outs[j], outs[j + 1])
    &&& acted_out(
        select,
        credit,
        noisy,
        noise,
        ratio,
        temperature_moves,
        max_total_plies,
        a[j],
        b[j],
        outs[j],
        outs[j + 1],
    )
}

/// The games went on one after the other; `outs` is the output before and after each.
pub open spec fn all_driven<
    F: Fn(&Node) -> usize,
    A: Fn(u64, i32, u64) -> u64,
    N: Fn(&Node) -> Vec<u64>,
    Q: Fn(u32, u32) -> u32,
>(
    select: F,
    credit: A,
    noisy: bool,
    noise: N,
    ratio: Q,
    temperature_moves: u32,
    max_total_plies: u32,
    a: Seq<GameSlot>,
    b: Seq<GameSlot>,
    outs: Seq<Output>,
) -> bool {
    &&& a.len() == b.len()
    &&& outs.len() == a.len() + 1
    &&& forall|j: int|
        0 <= j < a.len() ==> #[trigger] driven_at(
            select,
            credit,
            noisy,
            noise,
            ratio,
            temperature_moves,
            max_total_plies,
            a,
            b,
            outs,
            j,
        )
}

impl Worker {
    pub open spec fn all_ready(&self) -> bool {
        forall|i: int| 0 <= i < self.slots@.len() ==> (#[trigger] self.slots@[i]).ready()
    }

    pub open spec fn all_waiting(&self) -> bool {
        forall|i: int| 0 <= i < self.slots@.len() ==> (#[trigger] self.slots@[i]).waiting()
    }

    /// There is room in the counts for one more game of each slot.
    pub open spec fn roomy(&self) -> bool {
        &&& self.out.games_in_shard + self.slots@.len() <= u32::MAX
        &&& self.out.produced + 300 * self.slots@.len() <= u64::MAX
        &&& self.out.games + self.slots@.len() <= u64::MAX
    }

    /// A worker with new games.
    pub fn new(games: usize, config: MctsConfig) -> (r: Worker)
        requires
            config.n_simulations * 301 <= u32::MAX,
        ensures
            r.all_ready(),
            r.slots@.len() == games,
            forall|i: int|
                0 <= i < games ==> {
                    &&& (#[trigger] r.slots@[i]).mcts.spec_config() == config
                    &&& r.slots@[i].ply == 0
                    &&& !r.slots@[i].root_initialized
                    &&& r.slots@[i].mcts.spec_root() is None
                },
            r.out.buffer@.len() == 0,
            r.out.games_in_shard == 0,
            r.out.produced == 0,
            r.out.games == 0,
            r.shard_seq == 0,
    {
        let mut slots: Vec<GameSlot> = Vec::new();
        let mut i: usize = 0;
        while i < games
            invariant
                i <= games,
                config.n_simulations * 301 <= u32::MAX,
                slots@.len() == i,
                forall|j: int|
                    0 <= j < i ==> {
                        &&& (#[trigger] slots@[j]).ready()
                        &&& slots@[j].mcts.spec_config() == config
                        &&& slots@[j].ply == 0
                        &&& !slots@[j].root_initialized
                        &&& slots@[j].mcts.spec_root() is None
                    },
            decreases games - i,
        {
            slots.push(GameSlot::new(config));
            i += 1;
        }
        Worker {
            slots,
            out: Output { buffer: Vec::new(), games_in_shard: 0, produced: 0, games: 0 },
            shard_seq: 0,
        }
    }

    /// Lets every game go on until it needs an evaluation, and returns the questions in the order of
    /// the games.
    #[verifier::rlimit(30)]
    pub fn collect_wave<
        F: Fn(&Node) -> usize,
        A: Fn(u64, i32, u64) -> u64,
        N: Fn(&Node) -> Vec<u64>,
        Q: Fn(u32, u32) -> u32,
    >(
        &mut self,
        temperature_moves: u32,
        max_total_plies: u32,
        rng: &mut StdRng,
        select: &F,
        credit: &A,
        noisy: bool,
        noise: &N,
        ratio: &Q,
    ) -> (r: Vec<EvalInput>)
        requires
            selects(*select),
            forall|w: u64, s: i32| #[trigger] call_requires(*credit, (w, s, ONE)),
            forall|n: Node| #[trigger] call_requires(*noise, (&n,)),
            forall|n: Node, p: Vec<u64>| #[trigger]
                call_ensures(*noise, (&n,), p) ==> p@.len() == n.edges@.len(),
            forall|n: u32, t: u32| #[trigger] call_requires(*ratio, (n, t)),
            old(self).all_ready(),
            old(self).roomy(),
        ensures
            final(self).all_waiting(),
            final(self).slots@.len() == old(self).slots@.len(),
            final(self).shard_seq == old(self).shard_seq,
            r@.len() == final(self).slots@.len(),
            forall|i: int|
                0 <= i < r@.len() ==> asks(#[trigger] r@[i], final(self).slots@[i].asked()),
            exists|outs: Seq<Output>| #[trigger]
                all_driven(
                    *select,
                    *credit,
                    noisy,
                    *noise,
                    *ratio,
                    temperature_moves,
                    max_total_plies,
                    old(self).slots@,
                    final(self).slots@,
                    outs,
                ) && outs[0] == old(self).out && outs.last() == final(self).out,
    {
        let ghost start = self.out;
        let ghost n = self.slots@.len();
        let ghost first = self.slots@;
        let ghost mut outs: Seq<Output> = Seq::empty().push(start);
        let mut inputs: Vec<EvalInput> = Vec::new();
        let mut i: usize = 0;
        while i < self.slots.len()
            invariant
                selects(*select),
                forall|w: u64, s: i32| #[trigger] call_requires(*credit, (w, s, ONE)),
                forall|n: Node| #[trigger] call_requires(*noise, (&n,)),
                forall|n: Node, p: Vec<u64>| #[trigger]
                    call_ensures(*noise, (&n,), p) ==> p@.len() == n.edges@.len(),
                forall|n: u32, t: u32| #[trigger] call_requires(*ratio, (n, t)),
                i <= n,
                n == self.slots@.len(),
                start == old(self).out,
                self.shard_seq == old(self).shard_seq,
                start.games_in_shard + n <= u32::MAX,
                start.produced + 300 * n <= u64::MAX,
                start.games + n <= u64::MAX,
                self.out.games_in_shard <= start.games_in_shard + i,
                self.out.produced <= start.produced + 300 * i,
                self.out.games <= start.games + i,
                first == old(self).slots@,
                first.len() == n,
                outs.len() == i + 1,
                outs[0] == start,
                outs[i as int] == self.out,
                forall|j: int| i <= j < n ==> #[trigger] self.slots@[j] == first[j],
                forall|j: int|
                    0 <= j < i ==> #[trigger] driven_at(
                        *select,
                        *credit,
                        noisy,
                        *noise,
                        *ratio,
                        temperature_moves,
                        max_total_plies,
                        first,
                        self.slots@,
                        outs,
                        j,
                    ),
                forall|j: int| i <= j < n ==> (#[trigger] self.slots@[j]).ready(),
                forall|j: int| 0 <= j < i ==> (#[trigger] self.slots@[j]).waiting(),
                inputs@.len() == i,
                forall|j: int|
                    0 <= j < i ==> asks(#[trigger] inputs@[j], self.slots@[j].asked()),
            decreases n - i,
        {
            let ghost before = self.slots@;
            let ghost was = self.out;
            assert(self.slots@[i as int].ready());
            let q = drive_slot_until_eval(
                &mut self.slots[i],
                temperature_moves,
                max_total_plies,
                &mut self.out,
                rng,
                select,
                credit,
                noisy,
                noise,
                ratio,
            );
            inputs.push(q);
            proof {
                assert forall|j: int| i + 1 <= j < n implies (#[trigger] self.slots@[j]).ready() by {
                    assert(self.slots@[j] == before[j]);
                }
                assert forall|j: int| 0 <= j < i + 1 implies (
                #[trigger] self.slots@[j]).waiting() by {
                    if j < i {
                        assert(self.slots@[j] == before[j]);
                    }
                }
                assert forall|j: int| 0 <= j < i + 1 implies asks(
                    #[trigger] inputs@[j],
                    self.slots@[j].asked(),
                ) by {
                    if j < i {
                        assert(self.slots@[j] == before[j]);
                    }
                }
                if self.out != was {
                    lemma_game_over_counts(
                        *ratio,
                        temperature_moves,
                        max_total_plies,
                        before[i as int],
                        was,
                        self.out,
                    );
                }
                let next = outs.push(self.out);
                assert forall|j: int| 0 <= j < i + 1 implies #[trigger] driven_at(
                    *select,
                    *credit,
                    noisy,
                    *noise,
                    *ratio,
                    temperature_moves,
                    max_total_plies,
                    first,
                    self.slots@,
                    next,
                    j,
                ) by {
                    if j < i {
                        assert(driven_at(
                            *select,
                            *credit,
                            noisy,
                            *noise,
                            *ratio,
                            temperature_moves,
                            max_total_plies,
                            first,
                            before,
                            outs,
                            j,
                        ));
                        assert(self.slots@[j] == before[j]);
                    }
                }
                outs = next;
            }
            i += 1;
        }
        assert(all_driven(
            *select,
            *credit,
            noisy,
            *noise,
            *ratio,
            temperature_moves,
            max_total_plies,
            old(self).slots@,
            self.slots@,
            outs,
        ));
        inputs
    }

    /// Hands the evaluations to the games that wait for them, in their order.
    pub fn feed_wave<A: Fn(u64, i32, u64) -> u64>(&mut self, replies: Vec<EvalReply>, credit: &A)
        requires
            forall|w: u64, s: i32, v: u64| #[trigger] call_requires(*credit, (w, s, v)),
            old(self).all_waiting(),
            replies@.len() == old(self).slots@.len(),
            forall|i: int|
                0 <= i < replies@.len() ==> prior_moves((#[trigger] replies@[i]).0@) == old(
                    self,
                ).slots@[i].asked().position.legal_list(),
        ensures
            final(self).all_ready(),
            final(self).slots@.len() == old(self).slots@.len(),
            final(self).out == old(self).out,
            final(self).shard_seq == old(self).shard_seq,
            forall|i: int|
                0 <= i < replies@.len() ==> {
                    let a = old(self).slots@[i];
                    let b = #[trigger] final(self).slots@[i];
                    &&& b.state == a.state
                    &&& b.samples == a.samples
                    &&& b.ply == a.ply
                    &&& b.root_initialized
                    &&& b.mcts.spec_config() == a.mcts.spec_config()
                    &&& fed(*credit, a, b, replies@[i])
                },
    {
        let ghost all = replies@;
        let ghost start = self.slots@;
        let n: usize = self.slots.len();
        proof {
            assert forall|j: int| 0 <= j < n implies #[trigger] waits_for(start[j], all[j]) by {
                reveal(waits_for);
                assert(start[j].waiting());
                assert(prior_moves(all[j].0@) == start[j].asked().position.legal_list());
            }
        }
        let mut todo = crate::kernel::infer::reversed(replies);
        let mut i: usize = 0;
        while i < n
            invariant
                forall|w: u64, s: i32, v: u64| #[trigger] call_requires(*credit, (w, s, v)),
                i <= n,
                n == self.slots@.len(),
                start.len() == n,
                all.len() == n,
                todo@.len() == n - i,
                self.out == old(self).out,
                self.shard_seq == old(self).shard_seq,
                forall|j: int| 0 <= j < todo@.len() ==> #[trigger] todo@[j] == all[n - 1 - j],
                forall|j: int| i <= j < n ==> #[trigger] self.slots@[j] == start[j],
                forall|j: int| 0 <= j < n ==> #[trigger] waits_for(start[j], all[j]),
                forall|j: int|
                    0 <= j < i ==> answered(*credit, start[j], #[trigger] self.slots@[j], all[j]),
            decreases n - i,
        {
            let ghost rest = todo@;
            let ghost before = self.slots@;
            let reply = todo.pop().unwrap();
            proof {
                assert(rest[rest.len() - 1] == all[i as int]);
                assert(before[i as int] == start[i as int]);
                assert(waits_for(start[i as int], all[i as int]));
            }
            answer_slot(&mut self.slots[i], reply, credit);
            proof {
                assert forall|j: int| 0 <= j < i + 1 implies answered(
                    *credit,
                    start[j],
                    #[trigger] self.slots@[j],
                    all[j],
                ) by {
                    if j < i {
                        assert(self.slots@[j] == before[j]);
                    }
                }
            }
            i += 1;
        }
        proof {
            assert forall|j: int| 0 <= j < n implies {
                let a = start[j];
                let b = #[trigger] self.slots@[j];
                &&& b.ready()
                &&& b.state == a.state
                &&& b.samples == a.samples
                &&& b.ply == a.ply
                &&& b.root_initialized
                &&& b.mcts.spec_config() == a.mcts.spec_config()
                &&& fed(*credit, a, b, all[j])
            } by {
                assert(answered(*credit, start[j], self.slots@[j], all[j]));
                reveal(answered);
            }
        }
    }

    /// Adds the samples of a game that was played elsewhere.
    pub fn add_game(&mut self, samples: Vec<Sample>)
        requires
            old(self).out.games_in_shard < u32::MAX,
            old(self).out.produced + samples@.len() <= u64::MAX,
            old(self).out.games < u64::MAX,
        ensures
            final(self).slots == old(self).slots,
            final(self).shard_seq == old(self).shard_seq,
            final(self).out.buffer@ == old(self).out.buffer@ + samples@,
            final(self).out.games_in_shard == old(self).out.games_in_shard + 1,
            final(self).out.produced == old(self).out.produced + samples@.len(),
            final(self).out.games == old(self).out.games + 1,
    {
        let mut samples = samples;
        self.out.produced = self.out.produced + samples.len() as u64;
        self.out.games = self.out.games + 1;
        self.out.games_in_shard = self.out.games_in_shard + 1;
        self.out.buffer.append(&mut samples);
    }

    /// Turns the samples into a shard if enough games are finished: its name and its bytes.
    pub fn take_shard(&mut self, shard_games: u32, model_version: i64, worker_id: usize) -> (r:
        Result<Option<(String, Vec<u8>)>, String>)
        requires
            old(self).out.games_in_shard >= shard_games ==> shard_fits(old(self).out.buffer@)
                && old(self).shard_seq < u64::MAX,
        ensures
            final(self).slots == old(self).slots,
            final(self).out.produced == old(self).out.produced,
            final(self).out.games == old(self).out.games,
            match r {
                Ok(None) => old(self).out.games_in_shard < shard_games && *final(self) == *old(
                    self,
                ),
                Ok(Some((name, bytes))) => {
                    &&& old(self).out.games_in_shard >= shard_games
                    &&& names_shard(name@, model_version, worker_id, old(self).shard_seq)
                    &&& samples_error(old(self).out.buffer@) is None
                    &&& bytes@ == safetensors_file(shard_contents(old(self).out.buffer@))
                    &&& final(self).out.buffer@.len() == 0
                    &&& final(self).out.games_in_shard == 0
                    &&& final(self).shard_seq == old(self).shard_seq + 1
                },
                Err(e) => {
                    &&& old(self).out.games_in_shard >= shard_games
                    &&& samples_error(old(self).out.buffer@) == Some(e@)
                    &&& final(self).out == old(self).out
                    &&& final(self).shard_seq == old(self).shard_seq + 1
                },
            },
    {
        if self.out.games_in_shard < shard_games {
            return Ok(None);
        }
        let name = shard_name(model_version, worker_id, self.shard_seq);
        self.shard_seq = self.shard_seq + 1;
        match serialize_shard(&self.out.buffer) {
            Ok(bytes) => {
                self.out.buffer.clear();
                self.out.games_in_shard = 0;
                Ok(Some((name, bytes)))
            },
            Err(e) => Err(e),
        }
    }

    /// Turns what samples are left into a last shard.
    pub fn finish(&self, model_version: i64, worker_id: usize) -> (r: Result<
        Option<(String, Vec<u8>)>,
        String,
    >)
        requires
            shard_fits(self.out.buffer@),
        ensures
            match r {
                Ok(None) => self.out.buffer@.len() == 0,
                Ok(Some((name, bytes))) => {
                    &&& self.out.buffer@.len() > 0
                    &&& names_shard(name@, model_version, worker_id, self.shard_seq)
                    &&& samples_error(self.out.buffer@) is None
                    &&& bytes@ == safetensors_file(shard_contents(self.out.buffer@))
                },
                Err(e) => self.out.buffer@.len() > 0 && samples_error(self.out.buffer@) == Some(
                    e@,
                ),
            },
    {
        if self.out.buffer.len() == 0 {
            return Ok(None);
        }
        let name = shard_name(model_version, worker_id, self.shard_seq);
        match serialize_shard(&self.out.buffer) {
            Ok(bytes) => Ok(Some((name, bytes))),
            Err(e) => Err(e),
        }
    }
}

/// The name is that of a shard.
pub open spec fn names_shard(name: Seq<char>, version: i64, worker: usize, seq: u64) -> bool {
    name == "shard_"@ + crate::store::padded_signed(version as int, 6) + "_w"@
        + crate::text::padded(worker as nat, 2) + "_"@ + crate::text::padded(seq as nat, 6)
        + ".st"@
}

/// Whether a worker stops: enough samples were produced, or a stop condition holds.
pub fn should_finish(produced: i64, total_samples: i64, stop: bool) -> (r: bool)
    ensures
        r == (produced >= total_samples || stop),
{
    produced >= total_samples || stop
}

} // verus!
