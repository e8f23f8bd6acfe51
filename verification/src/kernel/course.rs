//! The course of a search and of a game: what is spent on a move, which move comes of it, and when
//! the game is over.

use vstd::prelude::*;

use crate::kernel::credit::credited_with;
use crate::kernel::encode::plane_cell;
use crate::kernel::game::{GameState, GameView};
use crate::kernel::infer::EvalReply;
use crate::kernel::mcts::{
    all_backed_up, all_taken_in, collected, mixed, root_made, searched, stepped, taken_in, wave_with,
    Mcts, ONE,
};
use crate::kernel::pipeline::{
    acted, fed, finished, is_over, moved, EvalKind, GameSlot, Output,
};
use crate::kernel::selfplay::{
    count_moves, picked_move, pickable, quantized, shares, shows, total_count, tree_after, Pending,
};
use crate::kernel::tree::{backed_up, expanded_with, node_at, walked, Node};
use crate::kernel::types::{Color, Move};

verus! {

/// A search ends with as many simulations as the settings ask for, and its counts are those of the
/// edges of the root; of a game that has ended it counts nothing.
pub proof fn law_search_budget<
    F: Fn(&Node) -> usize,
    C: Fn(u64, i32, u64) -> u64,
    A: Fn(u64, i32, u64) -> u64,
    E: Fn(&GameState) -> (Vec<(Move, u64)>, u64),
    N: Fn(&Node) -> Vec<u64>,
>(
    select: F,
    charge: C,
    credit: A,
    evaluate: E,
    noisy: bool,
    noise: N,
    before: Mcts,
    after: Mcts,
    g: GameView,
    counts: Seq<(Move, u32)>,
)
    requires
        searched(select, charge, credit, evaluate, noisy, noise, before, after, g, counts),
    ensures
        after.spec_root() is Some,
        counts.len() > 0 ==> {
            let edges = after.spec_root().unwrap().edges@;
            &&& after.done() == before.spec_config().n_simulations
            &&& counts.len() == edges.len()
            &&& forall|j: int|
                0 <= j < edges.len() ==> (#[trigger] counts[j]).0 == edges[j].mv && counts[j].1
                    == edges[j].n
        },
{
}

/// A search starts at the root of the tree it has if that stands for the game; else at a new root for
/// the game. A game that goes on gets the moves and priors of its evaluation, one that has ended gets
/// no moves.
pub proof fn law_root_prepared<E: Fn(&GameState) -> (Vec<(Move, u64)>, u64)>(
    evaluate: E,
    before: Mcts,
    g: GameView,
    made: Node,
)
    requires
        root_made(evaluate, before, g, made),
        before.spec_root() is None,
    ensures
        made.state@ == g,
        made.to_play == g.position.side,
        made.is_expanded,
        made.is_terminal == g.outcome().is_terminal,
        !made.noise_added,
        g.outcome().is_terminal ==> made.edges@.len() == 0,
        !g.outcome().is_terminal ==> exists|said: (Vec<(Move, u64)>, u64)| #[trigger]
            call_ensures(evaluate, (&made.state,), said) && made.edges@.len() == said.0@.len()
                && forall|j: int|
                0 <= j < made.edges@.len() ==> (#[trigger] made.edges@[j]).mv == said.0@[j].0
                    && made.edges@[j].prior == said.0@[j].1 && made.edges@[j].n == 0,
{
}

/// Until its value is known, each edge on the way to a collected leaf is charged with no value at
/// all, whoever moves along it.
pub proof fn law_collected_leaf<F: Fn(&Node) -> usize, C: Fn(u64, i32, u64) -> u64>(
    select: F,
    charge: C,
    a: Mcts,
    b: Mcts,
)
    requires
        collected(select, charge, a, b),
    ensures
        b.wave_leaves().len() + b.wave_ended().len() == a.wave_leaves().len() + a.wave_ended().len()
            + 1,
        exists|path: Seq<usize>, mid: Node, ended: bool|
            {
                &&& #[trigger] walked(select, a.spec_root().unwrap(), mid, path, ended)
                &&& ended <==> b.wave_leaves() == a.wave_leaves()
                &&& ended ==> b.wave_ended().last() == (path, node_at(mid, path).terminal_value)
                &&& !ended ==> b.wave_leaves().last() == path
                &&& forall|k: int|
                    0 <= k < path.len() ==> #[trigger] credited_with(
                        charge,
                        0x3ff0_0000_0000_0000,
                        mid,
                        b.spec_root().unwrap(),
                        path,
                        k,
                        0,
                    )
            },
{
    let (path, mid, ended) = choose|path: Seq<usize>, mid: Node, ended: bool|
        {
            &&& #[trigger] walked(select, a.spec_root().unwrap(), mid, path, ended)
            &&& backed_up(
                charge,
                0,
                ONE,
                mid,
                b.spec_root().unwrap(),
                path,
            )
            &&& if ended {
                &&& b.wave_leaves() == a.wave_leaves()
                &&& b.wave_ended() == a.wave_ended().push(
                    (path, node_at(mid, path).terminal_value),
                )
            } else {
                &&& b.wave_leaves() == a.wave_leaves().push(path)
                &&& b.wave_ended() == a.wave_ended()
            }
        };
    assert forall|k: int| 0 <= k < path.len() implies #[trigger] credited_with(
        charge,
        0x3ff0_0000_0000_0000,
        mid,
        b.spec_root().unwrap(),
        path,
        k,
        0,
    ) by {
        crate::kernel::credit::lemma_signs(
            charge,
            0,
            ONE,
            mid,
            b.spec_root().unwrap(),
            path,
            k,
        );
    }
    if !ended {
        assert(b.wave_leaves().len() == a.wave_leaves().len() + 1);
    }
}

/// The `k`-th edge of the path was credited with the value of its end: as it is if an even number of
/// edges lead on from there, and with the opposite sign if an odd number does.
pub open spec fn credited_in_turn<A: Fn(u64, i32, u64) -> u64>(
    credit: A,
    a: Node,
    b: Node,
    path: Seq<usize>,
    k: int,
    value: i32,
) -> bool {
    if (path.len() - k) % 2 == 0 {
        credited_with(credit, 0x3ff0_0000_0000_0000, a, b, path, k, value)
    } else {
        credited_with(credit, 0x3ff0_0000_0000_0000, a, b, path, k, (-value) as i32)
    }
}

/// The value of a game that has ended, found in a wave, is credited along its path: as it is on the
/// edges that are an even number of edges away from its end, and with the opposite sign on the
/// others. The games are taken in one after the other.
pub proof fn law_ended_games_credited<A: Fn(u64, i32, u64) -> u64>(
    credit: A,
    a: Node,
    b: Node,
    ended: Seq<(Seq<usize>, i32)>,
    path: Seq<usize>,
    value: i32,
)
    requires
        all_backed_up(credit, a, b, ended.push((path, value))),
        value > i32::MIN,
    ensures
        exists|mid: Node| #[trigger]
            all_backed_up(credit, a, mid, ended) && forall|k: int|
                0 <= k < path.len() ==> #[trigger] credited_in_turn(credit, mid, b, path, k, value),
{
    let all = ended.push((path, value));
    assert(all.drop_last() =~= ended);
    let mid = choose|mid: Node|
        all_backed_up(credit, a, mid, all.drop_last()) && #[trigger] backed_up(
            credit,
            all.last().1,
            ONE,
            mid,
            b,
            all.last().0,
        );
    assert forall|k: int| 0 <= k < path.len() implies #[trigger] credited_in_turn(
        credit,
        mid,
        b,
        path,
        k,
        value,
    ) by {
        crate::kernel::credit::lemma_signs(credit, value, ONE, mid, b, path, k);
    }
    assert(all_backed_up(credit, a, mid, ended));
}

/// The evaluations of a wave are taken in one after the other, each at the end of its own path.
pub proof fn law_evaluations_taken_in<A: Fn(u64, i32, u64) -> u64>(
    credit: A,
    a: Node,
    b: Node,
    paths: Seq<Seq<usize>>,
    results: Seq<(Vec<(Move, u64)>, u64)>,
    path: Seq<usize>,
    result: (Vec<(Move, u64)>, u64),
)
    requires
        paths.len() == results.len(),
        all_taken_in(credit, a, b, paths.push(path), results.push(result)),
    ensures
        exists|mid: Node|
            all_taken_in(credit, a, mid, paths, results) && #[trigger] taken_in(
                credit,
                mid,
                b,
                path,
                result.0@,
                result.1,
            ),
{
    let (p, r) = (paths.push(path), results.push(result));
    assert(p.drop_last() =~= paths && r.drop_last() =~= results);
    let mid = choose|mid: Node|
        all_taken_in(credit, a, mid, p.drop_last(), r.drop_last()) && #[trigger] taken_in(
            credit,
            mid,
            b,
            p.last(),
            r.last().0@,
            r.last().1,
        );
    assert(taken_in(credit, mid, b, path, result.0@, result.1));
}

/// A step that asks for nothing has reached a game that has ended, and credits its value along the
/// path; one that asks counts only when it is answered.
pub proof fn law_step<
    F: Fn(&Node) -> usize,
    A: Fn(u64, i32, u64) -> u64,
    N: Fn(&Node) -> Vec<u64>,
>(select: F, credit: A, noisy: bool, noise: N, a: Mcts, b: Mcts, waits: bool)
    requires
        stepped(select, credit, noisy, noise, a, b, waits),
    ensures
        waits ==> b.done() == a.done() && b.pending() is Some,
        !waits ==> b.done() == a.done() + 1 && b.pending() is None && exists|
            path: Seq<usize>,
            mid: Node,
            root: Node,
        | #[trigger]
            walked(select, root, mid, path, true) && forall|k: int|
                0 <= k < path.len() ==> #[trigger] credited_in_turn(
                    credit,
                    mid,
                    b.spec_root().unwrap(),
                    path,
                    k,
                    node_at(mid, path).terminal_value,
                ),
{
    if !waits {
        let root = choose|root: Node| #[trigger]
            mixed(noisy, noise, a.spec_root().unwrap(), root) && exists|path: Seq<usize>, mid: Node|
                {
                    &&& #[trigger] walked(select, root, mid, path, true)
                    &&& backed_up(
                        credit,
                        node_at(mid, path).terminal_value,
                        ONE,
                        mid,
                        b.spec_root().unwrap(),
                        path,
                    )
                };
        let (path, mid) = choose|path: Seq<usize>, mid: Node|
            {
                &&& #[trigger] walked(select, root, mid, path, true)
                &&& backed_up(
                    credit,
                    node_at(mid, path).terminal_value,
                    ONE,
                    mid,
                    b.spec_root().unwrap(),
                    path,
                )
            };
        let value = node_at(mid, path).terminal_value;
        assert forall|k: int| 0 <= k < path.len() implies #[trigger] credited_in_turn(
            credit,
            mid,
            b.spec_root().unwrap(),
            path,
            k,
            value,
        ) by {
            crate::kernel::credit::lemma_signs(
                credit,
                value,
                ONE,
                mid,
                b.spec_root().unwrap(),
                path,
                k,
            );
        }
        assert(walked(select, root, mid, path, true));
    }
}

/// An evaluation that a slot waited for goes to the root or to the leaf, whichever was asked about.
pub proof fn law_evaluation_fed<A: Fn(u64, i32, u64) -> u64>(
    credit: A,
    a: GameSlot,
    b: GameSlot,
    reply: EvalReply,
)
    requires
        fed(credit, a, b, reply),
    ensures
        a.awaiting is Some,
        a.awaiting == Some(EvalKind::Root) ==> expanded_with(
            a.mcts.spec_root().unwrap(),
            b.mcts.spec_root().unwrap(),
            reply.0@,
        ),
        a.awaiting == Some(EvalKind::Leaf) ==> taken_in(
            credit,
            a.mcts.spec_root().unwrap(),
            b.mcts.spec_root().unwrap(),
            a.mcts.pending().unwrap(),
            reply.0@,
            reply.1,
        ),
{
}

/// A sample shows the planes of its game on the scale from 0 to 255, and lists its legal moves by
/// their numbers as the side to move sees them.
pub proof fn law_sample_shows(
    state: Seq<u8>,
    pi_idx: Seq<i32>,
    pi_val: Seq<u32>,
    g: GameView,
    i: int,
    j: int,
)
    requires
        shows(state, pi_idx, pi_val, g),
        0 <= i < 8910,
        0 <= j < pi_idx.len(),
    ensures
        state.len() == 99 * 90,
        plane_cell(g, i) == 0 <==> state[i] == 0,
        plane_cell(g, i) >= 100 <==> state[i] == 255,
        pi_idx.len() == g.position.legal_list().len() && pi_val.len() == pi_idx.len(),
        ({
            let m = g.position.legal_list()[j];
            let (a, b) = if g.position.side == Color::Red {
                (m.sy as int, m.ty as int)
            } else {
                (9 - m.sy, 9 - m.ty)
            };
            m.on_board() ==> pi_idx[j] == 90 * (9 * a + m.sx) + 9 * b + m.tx
        }),
{
    assert(state[i] == quantized(plane_cell(g, i)));
    let m = g.position.legal_list()[j];
    if m.on_board() {
        crate::kernel::reading::law_action_formula(m, g.position.side);
    }
}

/// What is left of a tree after a move is the part below it, and of no tree nothing is left.
pub proof fn law_tree_left(m: Mcts, mv: Move, j: int)
    requires
        m.spec_root() is Some ==> {
            let edges = m.spec_root().unwrap().edges@;
            &&& 0 <= j < edges.len()
            &&& edges[j].mv == mv
            &&& forall|i: int| 0 <= i < j ==> (#[trigger] edges[i]).mv != mv
        },
    ensures
        m.spec_root() is None ==> tree_after(m, mv) is None,
        m.spec_root() is Some && m.spec_root().unwrap().edges@[j].child is Some ==> tree_after(m, mv)
            == Some(*m.spec_root().unwrap().edges@[j].child.unwrap()),
        m.spec_root() is Some && m.spec_root().unwrap().edges@[j].child is None ==> tree_after(m, mv)
            is None,
{
    if m.spec_root() is Some {
        crate::kernel::growth::law_subtree_kept(m.spec_root().unwrap().edges@, mv, j);
    }
}

/// The evaluations of a wave answer its leaves in their order, and a wave counts as many simulations
/// as it collects leaves.
pub proof fn law_wave<
    F: Fn(&Node) -> usize,
    C: Fn(u64, i32, u64) -> u64,
    A: Fn(u64, i32, u64) -> u64,
    E: Fn(&GameState) -> (Vec<(Move, u64)>, u64),
>(
    select: F,
    charge: C,
    credit: A,
    evaluate: E,
    b: Mcts,
    xs: Seq<Mcts>,
    results: Seq<(Vec<(Move, u64)>, u64)>,
    j: int,
)
    requires
        wave_with(select, charge, credit, evaluate, b, xs, results),
        xs.len() > 0,
        0 <= j < xs.last().wave_leaves().len(),
    ensures
        b.done() == xs[0].done() + xs.len() - 1,
        results.len() == xs.last().wave_leaves().len(),
        call_ensures(
            evaluate,
            (&node_at(xs.last().spec_root().unwrap(), xs.last().wave_leaves()[j]).state,),
            results[j],
        ),
{
}

/// The move that is played is a legal one. It was followed in the search if any was and the game is
/// in its first plies; later no other was followed more often.
pub proof fn law_move_played(
    sims: int,
    temperature_moves: u32,
    counts: Seq<(Move, u32)>,
    g: GameView,
    next: GameView,
)
    requires
        picked_move(sims, temperature_moves, counts, g, next),
    ensures
        sims <= total_count(counts),
        exists|i: int|
            {
                &&& 0 <= i < counts.len()
                &&& next == g.after((#[trigger] counts[i]).0)
                &&& g.position.legal_list().contains(counts[i].0)
                &&& g.history.len() >= temperature_moves ==> forall|j: int|
                    0 <= j < counts.len() ==> (#[trigger] counts[j]).1 <= counts[i].1 && (j < i
                        ==> counts[j].1 < counts[i].1)
                &&& g.history.len() < temperature_moves && total_count(counts) > 0 ==> counts[i].1
                    > 0
            },
{
    let i = choose|i: int| #[trigger]
        pickable(counts, i, g.history.len() as int, temperature_moves) && next == g.after(
            counts[i].0,
        );
    assert(count_moves(counts)[i] == counts[i].0);
    assert(g.position.legal_list()[i] == counts[i].0);
    assert(next == g.after(counts[i].0));
}

proof fn lemma_total_not_negative(counts: Seq<(Move, u32)>)
    ensures
        total_count(counts) >= 0,
    decreases counts.len(),
{
    if counts.len() > 0 {
        lemma_total_not_negative(counts.drop_last());
    }
}

/// The share of a move is what `ratio` gives for its own count in the total.
pub proof fn law_share_of_move<Q: Fn(u32, u32) -> u32>(
    ratio: Q,
    counts: Seq<(Move, u32)>,
    pi_val: Seq<u32>,
    j: int,
)
    requires
        shares(ratio, counts, pi_val),
        0 <= j < counts.len(),
        total_count(counts) <= u32::MAX,
    ensures
        pi_val.len() == counts.len(),
        exists|total: u32| total == total_count(counts) && #[trigger]
            call_ensures(ratio, (counts[j].1, total), pi_val[j]),
{
    assert(call_ensures(ratio, (counts[j].1, total_count(counts) as u32), pi_val[j]));
    lemma_total_not_negative(counts);
}

/// A game that goes on is over exactly when as many moves have been made as the limit says.
pub proof fn law_limit(g: GameView, max_total_plies: u32)
    ensures
        g.outcome().is_terminal ==> is_over(g, max_total_plies),
        !g.outcome().is_terminal ==> (is_over(g, max_total_plies) <==> max_total_plies
            <= g.history.len()),
{
}

/// A finished game adds its samples to the end of the buffer, each labelled for its own player by the
/// winner of the game, and is counted once, with as many samples as it has moves.
pub proof fn law_game_finished(
    before: Output,
    after: Output,
    samples: Seq<Pending>,
    g: GameView,
    i: int,
)
    requires
        finished(before, after, samples, g),
        0 <= i < samples.len(),
    ensures
        samples.len() == g.history.len(),
        after.buffer@.len() == before.buffer@.len() + samples.len(),
        after.games == before.games + 1,
        after.games_in_shard == before.games_in_shard + 1,
        after.produced == before.produced + samples.len(),
        ({
            let s = after.buffer@[before.buffer@.len() + i];
            let winner = g.outcome().winner;
            &&& s.state == samples[i].state && s.pi_idx == samples[i].pi_idx && s.pi_val
                == samples[i].pi_val
            &&& winner is None ==> s.z == 0
            &&& winner == Some(samples[i].player) ==> s.z == 0x3f80_0000
            &&& winner == Some(samples[i].player.opposite()) ==> s.z == 0xbf80_0000
        }),
        forall|j: int|
            0 <= j < before.buffer@.len() ==> #[trigger] after.buffer@[j] == before.buffer@[j],
{
    let start = before.buffer@.len() as int;
    assert(after.buffer@.skip(start)[i] == after.buffer@[start + i]);
    assert forall|j: int| 0 <= j < before.buffer@.len() implies #[trigger] after.buffer@[j]
        == before.buffer@[j] by {
        assert(after.buffer@.take(start)[j] == after.buffer@[j]);
    }
}

/// A slot makes its move only when its simulations are done, and makes another simulation only when
/// they are not; the move goes to the game, and a sample of the search is added.
pub proof fn law_slot_acts<
    F: Fn(&Node) -> usize,
    A: Fn(u64, i32, u64) -> u64,
    N: Fn(&Node) -> Vec<u64>,
    Q: Fn(u32, u32) -> u32,
>(
    select: F,
    credit: A,
    noisy: bool,
    noise: N,
    ratio: Q,
    temperature_moves: u32,
    max_total_plies: u32,
    a: GameSlot,
    b: GameSlot,
    before: Output,
    after: Output,
)
    requires
        acted(
            select,
            credit,
            noisy,
            noise,
            ratio,
            temperature_moves,
            max_total_plies,
            a,
            b,
            before,
            after,
        ),
    ensures
        !a.root_initialized ==> b.root_initialized && b.state == a.state && b.samples == a.samples
            && b.mcts.done() == 0 && after == before && b.mcts.spec_root() is Some && (b.awaiting
            == Some(EvalKind::Root) <==> !b.mcts.spec_root().unwrap().is_expanded) && b.awaiting
            != Some(EvalKind::Leaf),
        a.root_initialized && a.mcts.done() < a.mcts.spec_config().n_simulations ==> b.state
            == a.state && b.samples == a.samples && after == before && (b.awaiting is None
            ==> b.mcts.done() == a.mcts.done() + 1) && (b.awaiting is Some ==> b.awaiting == Some(
            EvalKind::Leaf,
        ) && b.mcts.done() == a.mcts.done() && b.mcts.pending() is Some),
        a.root_initialized && a.mcts.done() >= a.mcts.spec_config().n_simulations ==> exists|
            mv: Move,
        |
            {
                let g = #[trigger] a.state@.after(mv);
                let over = g.outcome().is_terminal || g.history.len() >= max_total_plies;
                &&& a.state@.position.legal(mv)
                &&& over ==> b.samples@.len() == 0 && b.ply == 0 && after.games == before.games + 1
                    && after.produced == before.produced + g.history.len() && b.mcts.spec_root() is
                    None
                &&& !over ==> b.state@ == g && after == before && b.samples@.len() == a.samples@.len()
                    + 1 && b.samples@.drop_last() == a.samples@ && b.ply == a.ply + 1
            },
{
    if a.root_initialized && a.mcts.done() >= a.mcts.spec_config().n_simulations {
        let (over, sample, mv) = choose|over: bool, sample: Pending, mv: Move| #[trigger]
            moved(
                ratio,
                temperature_moves,
                max_total_plies,
                a,
                b,
                before,
                after,
                over,
                sample,
                mv,
            );
        let g = a.state@.after(mv);
        assert(a.samples@.push(sample).drop_last() =~= a.samples@);
        assert(a.state@.position.legal(mv));
    }
}

} // verus!
