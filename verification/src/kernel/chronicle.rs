//! How the turns of a game, of a match and of an opening hang together.

use vstd::prelude::*;

use crate::kernel::arena::{
    at_start, cut_short, drawn, drawn_at, opening_line, plies_follow, playable, replayed, unended, Ply,
};
use crate::kernel::game::{GameState, GameView};
use crate::kernel::mcts::{all_waves, mixed, root_made, searched, Mcts, MctsConfig};
use crate::kernel::pipeline::{line_of, prefix, turn_at, went_on};
use crate::kernel::selfplay::{pickable, shares, tree_left, trees_follow, Pending, Turn};
use crate::kernel::tree::Node;
use crate::kernel::types::Move;

verus! {

/// The line of a game leads from its start to where it stands, each time by the next of its moves.
pub proof fn law_line_of_game(g: GameView, i: int)
    requires
        g.wf(),
        0 <= i < g.history.len(),
    ensures
        line_of(g).len() == g.history.len() + 1,
        line_of(g).last() == g,
        line_of(g)[0].history.len() == 0,
        line_of(g)[i + 1] == line_of(g)[i].after(g.history[i].mv),
{
    let n = g.history.len() as int;
    assert(prefix(g, n).history =~= g.history);
    assert(g.linked(i));
    assert(prefix(g, i + 1).history =~= prefix(g, i).history.push(g.history[i]));
    let r = g.history[i];
    assert(r == (crate::kernel::game::RecordView {
        before: r.before,
        after: r.before.after(r.mv),
        mv: r.mv,
        actor: r.before.side,
    }));
    assert(g.position_at(i) == r.before);
    assert(prefix(g, i).after(r.mv) == prefix(g, i + 1));
}

/// A game goes on by moves that a search found: the samples from before stay, and each further one
/// has the shares of the counts by which its move was picked.
pub proof fn law_game_went_on<Q: Fn(u32, u32) -> u32>(
    ratio: Q,
    sims: int,
    temperature_moves: u32,
    before: Seq<Pending>,
    g: GameView,
    samples: Seq<Pending>,
    h: GameView,
    k: int,
)
    requires
        went_on(ratio, sims, temperature_moves, before, g, samples, h),
        g.history.len() <= k < h.history.len(),
    ensures
        samples.len() == h.history.len(),
        forall|j: int| 0 <= j < before.len() ==> #[trigger] samples[j] == before[j],
        exists|counts: Seq<(Move, u32)>, i: int|
            {
                &&& #[trigger] pickable(counts, i, k, temperature_moves)
                &&& line_of(h)[k + 1] == line_of(h)[k].after(counts[i].0)
                &&& shares(ratio, counts, samples[k].pi_val@)
            },
{
    reveal(went_on);
    assert forall|j: int| 0 <= j < before.len() implies #[trigger] samples[j] == before[j] by {
        assert(samples.take(before.len() as int)[j] == samples[j]);
    }
    assert(turn_at(ratio, sims, temperature_moves, samples, h, k));
    let counts = choose|counts: Seq<(Move, u32)>| #[trigger]
        crate::kernel::selfplay::picked_move(
            sims,
            temperature_moves,
            counts,
            prefix(h, k),
            prefix(h, k + 1),
        ) && shares(ratio, counts, samples[k].pi_val@);
    assert(prefix(h, k).history.len() == k);
    let i = choose|i: int| #[trigger]
        pickable(counts, i, k, temperature_moves) && prefix(h, k + 1) == prefix(h, k).after(
            counts[i].0,
        );
    assert(pickable(counts, i, k, temperature_moves));
}

/// The tree of one turn, after its search, is what the next turn starts from, as far as it lies below
/// the move that was played.
pub proof fn law_turns_hang_together(turns: Seq<Turn>, i: int, j: int)
    requires
        trees_follow(turns),
        0 <= i < turns.len() - 1,
        turns[i].after.spec_root() is Some,
        ({
            let edges = turns[i].after.spec_root().unwrap().edges@;
            &&& 0 <= j < edges.len()
            &&& edges[j].mv == turns[i].mv
            &&& edges[j].child is Some
            &&& forall|k: int| 0 <= k < j ==> (#[trigger] edges[k]).mv != turns[i].mv
        }),
    ensures
        turns[0].before.spec_root() is None,
        turns[i + 1].before.spec_root() == Some(
            *turns[i].after.spec_root().unwrap().edges@[j].child.unwrap(),
        ),
        tree_left(turns.take(i + 1)) == turns[i + 1].before.spec_root(),
{
    crate::kernel::course::law_tree_left(turns[i].after, turns[i].mv, j);
    assert(turns[i + 1].before.spec_root() == crate::kernel::selfplay::tree_after(
        turns[i].after,
        turns[i].mv,
    ));
    assert(turns.take(i + 1).last() == turns[i]);
}

/// Both players of a game start without a tree, and after every ply each goes on with the part of its
/// own tree below the move that was played, whoever played it.
pub proof fn law_plies_hang_together(plies: Seq<Ply>, i: int)
    requires
        plies_follow(plies),
        0 <= i < plies.len() - 1,
    ensures
        plies[0].red.spec_root() is None && plies[0].black.spec_root() is None,
        plies[i].red_after.spec_root() is None ==> plies[i + 1].red.spec_root() is None,
        plies[i].black_after.spec_root() is None ==> plies[i + 1].black.spec_root() is None,
        plies[i].red_after.spec_root() is Some ==> plies[i + 1].red.spec_root()
            == crate::kernel::mcts::child_by(
            plies[i].red_after.spec_root().unwrap().edges@,
            plies[i].mv,
        ),
        plies[i].black_after.spec_root() is Some ==> plies[i + 1].black.spec_root()
            == crate::kernel::mcts::child_by(
            plies[i].black_after.spec_root().unwrap().edges@,
            plies[i].mv,
        ),
{
    assert(plies[i + 1].red.spec_root() == crate::kernel::selfplay::tree_after(
        plies[i].red_after,
        plies[i].mv,
    ));
}

/// A game that has not ended before any of the moves goes on at every time before the last.
pub proof fn law_unended(g: GameView, moves: Seq<Move>, k: int)
    requires
        unended(g, moves),
        0 <= k < moves.len(),
    ensures
        !replayed(g, moves.take(k)).outcome().is_terminal,
    decreases moves.len(),
{
    if k == moves.len() - 1 {
        assert(moves.take(k) =~= moves.drop_last());
    } else {
        law_unended(g, moves.drop_last(), k);
        assert(moves.drop_last().take(k) =~= moves.take(k));
    }
}

/// Each move of an opening is one of the moves of a search of the game before it, without noise, at
/// the place that was drawn in the attempt for the ply.
pub proof fn law_opening_drawn<
    F: Fn(&Node) -> usize,
    C: Fn(u64, i32, u64) -> u64,
    A: Fn(u64, i32, u64) -> u64,
    E: Fn(&GameState) -> (Vec<(Move, u64)>, u64),
    N: Fn(&Node) -> Vec<u64>,
    S: Fn(&Vec<(Move, u32)>, u64, u32) -> usize,
>(
    select: F,
    charge: C,
    credit: A,
    evaluate: E,
    noise: N,
    sample: S,
    config: MctsConfig,
    attempt: u64,
    g: GameView,
    moves: Seq<Move>,
    turns: Seq<Turn>,
    k: int,
)
    requires
        drawn(
            select,
            charge,
            credit,
            evaluate,
            noise,
            sample,
            config,
            attempt,
            g,
            moves,
            turns,
        ),
        0 <= k < moves.len(),
    ensures
        ({
            let t = turns[k];
            &&& searched(
                select,
                charge,
                credit,
                evaluate,
                false,
                noise,
                t.before,
                t.after,
                replayed(g, moves.take(k)),
                t.counts,
            )
            &&& t.before.spec_config() == config
            &&& exists|counts: Vec<(Move, u32)>, i: usize| #[trigger]
                call_ensures(sample, (&counts, attempt, k as u32), i) && counts@ == t.counts
                    && counts@[i as int].0 == moves[k]
        }),
        turns.len() == moves.len(),
{
    reveal(drawn);
    assert(drawn_at(
        select,
        charge,
        credit,
        evaluate,
        noise,
        sample,
        config,
        attempt,
        g,
        moves,
        turns,
        k,
    ));
}

/// An opening has as many moves as asked for, all of them legal from the starting position on, in a
/// game that had not ended before the last.
pub proof fn law_opening<
    F: Fn(&Node) -> usize,
    C: Fn(u64, i32, u64) -> u64,
    A: Fn(u64, i32, u64) -> u64,
    E: Fn(&GameState) -> (Vec<(Move, u64)>, u64),
    N: Fn(&Node) -> Vec<u64>,
    S: Fn(&Vec<(Move, u32)>, u64, u32) -> usize,
>(
    select: F,
    charge: C,
    credit: A,
    evaluate: E,
    noise: N,
    sample: S,
    config: MctsConfig,
    attempt: u64,
    moves: Seq<Move>,
    plies: u32,
    fen: Seq<char>,
    k: int,
)
    requires
        opening_line(
            select,
            charge,
            credit,
            evaluate,
            noise,
            sample,
            config,
            attempt,
            moves,
            plies,
            fen,
        ),
        0 <= k < plies,
    ensures
        moves.len() == plies,
        exists|g: GameView| #[trigger]
            at_start(g) && replayed(g, moves.take(k)).position.legal(moves[k]) && !replayed(
                g,
                moves.take(k),
            ).outcome().is_terminal && replayed(g, moves).position.fen() == fen,
{
    let (g, turns) = choose|g: GameView, turns: Seq<Turn>|
        {
            &&& #[trigger] drawn(
                select,
                charge,
                credit,
                evaluate,
                noise,
                sample,
                config,
                attempt,
                g,
                moves,
                turns,
            )
            &&& at_start(g)
            &&& playable(g, moves)
            &&& unended(g, moves)
            &&& replayed(g, moves).position.fen() == fen
        };
    crate::kernel::effects::law_replay(g, moves, k);
    law_unended(g, moves, k);
    assert(at_start(g));
}

/// An attempt that yields no opening has led to the end of a game before enough moves were made.
pub proof fn law_attempt_fails<
    F: Fn(&Node) -> usize,
    C: Fn(u64, i32, u64) -> u64,
    A: Fn(u64, i32, u64) -> u64,
    E: Fn(&GameState) -> (Vec<(Move, u64)>, u64),
    N: Fn(&Node) -> Vec<u64>,
    S: Fn(&Vec<(Move, u32)>, u64, u32) -> usize,
>(
    select: F,
    charge: C,
    credit: A,
    evaluate: E,
    noise: N,
    sample: S,
    config: MctsConfig,
    attempt: u64,
    plies: u32,
)
    requires
        cut_short(select, charge, credit, evaluate, noise, sample, config, attempt, plies),
    ensures
        exists|g: GameView, moves: Seq<Move>|
            at_start(g) && moves.len() < plies && playable(g, moves) && #[trigger] replayed(
                g,
                moves,
            ).outcome().is_terminal,
{
}

/// Where no simulation is asked for, the priors of the root get no noise.
pub proof fn law_no_noise_without_search<
    F: Fn(&Node) -> usize,
    C: Fn(u64, i32, u64) -> u64,
    A: Fn(u64, i32, u64) -> u64,
    E: Fn(&GameState) -> (Vec<(Move, u64)>, u64),
    N: Fn(&Node) -> Vec<u64>,
>(
    select: F,
    charge: C,
    credit: A,
    evaluate: E,
    noisy: bool,
    noise: N,
    before: Mcts,
    after: Mcts,
    g: GameView,
    counts: Seq<(Move, u32)>,
)
    requires
        searched(select, charge, credit, evaluate, noisy, noise, before, after, g, counts),
        before.spec_config().n_simulations == 0 || !noisy,
        counts.len() > 0,
    ensures
        exists|made: Node, steps: Seq<Mcts>| #[trigger]
            root_made(evaluate, before, g, made) && #[trigger] all_waves(
                select,
                charge,
                credit,
                evaluate,
                steps,
            ) && steps.len() > 0 && steps[0].spec_root() == Some(made) && steps.last() == after,
{
    let made = choose|made: Node| #[trigger]
        root_made(evaluate, before, g, made) && !made.is_terminal && exists|steps: Seq<Mcts>|
            {
                &&& #[trigger] all_waves(select, charge, credit, evaluate, steps)
                &&& steps.len() > 0
                &&& steps[0].spec_root() is Some
                &&& mixed(
                    noisy && before.spec_config().n_simulations > 0,
                    noise,
                    made,
                    steps[0].spec_root().unwrap(),
                )
                &&& steps.last() == after
            };
    let steps = choose|steps: Seq<Mcts>|
        {
            &&& #[trigger] all_waves(select, charge, credit, evaluate, steps)
            &&& steps.len() > 0
            &&& steps[0].spec_root() is Some
            &&& mixed(
                noisy && before.spec_config().n_simulations > 0,
                noise,
                made,
                steps[0].spec_root().unwrap(),
            )
            &&& steps.last() == after
        };
    assert(steps[0].spec_root() == Some(made));
}

} // verus!
