//! Who has won a game of a match, and what the match counts for whom.

use vstd::prelude::*;

use crate::kernel::arena::{
    attempt_limit, kept_openings, known, match_tally, outcome_of, pair_of, played_out, ply_at, tallied,
    MatchTally, Outcome, Ply,
};
use crate::kernel::game::{GameState, GameView};
use crate::kernel::mcts::{searched, MctsConfig};
use crate::kernel::tree::Node;
use crate::kernel::types::{Color, Move};

verus! {

/// The outcome of a game names the side that its last position says has won, or a draw if it says
/// that nobody has.
pub proof fn law_outcome_names_winner<
    F: Fn(&Node) -> usize,
    C: Fn(u64, i32, u64) -> u64,
    A: Fn(u64, i32, u64) -> u64,
    R: Fn(&GameState) -> (Vec<(Move, u64)>, u64),
    B: Fn(&GameState) -> (Vec<(Move, u64)>, u64),
    N: Fn(&Node) -> Vec<u64>,
>(
    select: F,
    charge: C,
    credit: A,
    red: R,
    black: B,
    noise: N,
    config: MctsConfig,
    opening: Seq<Move>,
    max_total_plies: u32,
    line: Seq<GameView>,
    plies: Seq<Ply>,
    outcome: Outcome,
)
    requires
        played_out(
            select,
            charge,
            credit,
            red,
            black,
            noise,
            config,
            opening,
            max_total_plies,
            line,
            plies,
            outcome,
        ),
    ensures
        line.len() > 0,
        outcome == Outcome::RedWin <==> line.last().outcome().winner == Some(Color::Red),
        outcome == Outcome::BlackWin <==> line.last().outcome().winner == Some(Color::Black),
        outcome == Outcome::Draw <==> line.last().outcome().winner is None,
{
}

/// In every ply of a game the side to move, and only it, searches the game as it stands, with its own
/// evaluator and without noise, and plays the first of the moves that its search followed most.
pub proof fn law_side_to_move_searches<
    F: Fn(&Node) -> usize,
    C: Fn(u64, i32, u64) -> u64,
    A: Fn(u64, i32, u64) -> u64,
    R: Fn(&GameState) -> (Vec<(Move, u64)>, u64),
    B: Fn(&GameState) -> (Vec<(Move, u64)>, u64),
    N: Fn(&Node) -> Vec<u64>,
>(
    select: F,
    charge: C,
    credit: A,
    red: R,
    black: B,
    noise: N,
    config: MctsConfig,
    opening: Seq<Move>,
    max_total_plies: u32,
    line: Seq<GameView>,
    plies: Seq<Ply>,
    outcome: Outcome,
    i: int,
)
    requires
        played_out(
            select,
            charge,
            credit,
            red,
            black,
            noise,
            config,
            opening,
            max_total_plies,
            line,
            plies,
            outcome,
        ),
        0 <= i < plies.len(),
    ensures
        ({
            let (g, p) = (line[i], plies[i]);
            &&& g.position.side == Color::Red ==> p.black_after == p.black && searched(
                select,
                charge,
                credit,
                red,
                false,
                noise,
                p.red,
                p.red_after,
                g,
                p.counts,
            )
            &&& g.position.side == Color::Black ==> p.red_after == p.red && searched(
                select,
                charge,
                credit,
                black,
                false,
                noise,
                p.black,
                p.black_after,
                g,
                p.counts,
            )
            &&& line[i + 1] == g.after(p.mv)
            &&& exists|k: int|
                0 <= k < p.counts.len() && line[i + 1] == g.after((#[trigger] p.counts[k]).0)
                    && forall|j: int|
                    0 <= j < p.counts.len() ==> (#[trigger] p.counts[j]).1 <= p.counts[k].1 && (j < k
                        ==> p.counts[j].1 < p.counts[k].1)
        }),
        !line[i].outcome().is_terminal,
        line.last().outcome().is_terminal || line.last().history.len() >= max_total_plies,
{
    assert(ply_at(select, charge, credit, red, black, noise, config, plies, line, i));
    crate::kernel::course::law_move_played(
        config.n_simulations as int,
        0,
        plies[i].counts,
        line[i],
        line[i + 1],
    );
}

/// The first player has Red in the first of the two games from an opening and Black in the second,
/// and the other player the other colour.
pub proof fn law_players_change_sides<
    F: Fn(&Node) -> usize,
    C: Fn(u64, i32, u64) -> u64,
    A: Fn(u64, i32, u64) -> u64,
    X: Fn(&GameState) -> (Vec<(Move, u64)>, u64),
    Y: Fn(&GameState) -> (Vec<(Move, u64)>, u64),
    N: Fn(&Node) -> Vec<u64>,
>(
    select: F,
    charge: C,
    credit: A,
    eval_a: X,
    eval_b: Y,
    noise: N,
    config: MctsConfig,
    opening: Seq<Move>,
    max_total_plies: u32,
    pair: (Outcome, Outcome),
)
    requires
        pair_of(
            select,
            charge,
            credit,
            eval_a,
            eval_b,
            noise,
            config,
            opening,
            max_total_plies,
            pair,
        ),
    ensures
        exists|line: Seq<GameView>, plies: Seq<Ply>|
            #[trigger] played_out(
                select,
                charge,
                credit,
                eval_a,
                eval_b,
                noise,
                config,
                opening,
                max_total_plies,
                line,
                plies,
                pair.0,
            ),
        exists|line: Seq<GameView>, plies: Seq<Ply>|
            #[trigger] played_out(
                select,
                charge,
                credit,
                eval_b,
                eval_a,
                noise,
                config,
                opening,
                max_total_plies,
                line,
                plies,
                pair.1,
            ),
{
}

/// Of the openings that lead to one position the first is kept, and no other opening is lost.
pub proof fn law_openings_kept(tries: Seq<Option<(Seq<Move>, Seq<char>)>>, k: int)
    requires
        0 <= k < tries.len(),
        tries[k] is Some,
    ensures
        exists|i: int|
            0 <= i < kept_openings(tries).len() && (#[trigger] kept_openings(tries)[i]).1
                == tries[k].unwrap().1,
        (forall|j: int|
            0 <= j < k && (#[trigger] tries[j]) is Some ==> tries[j].unwrap().1
                != tries[k].unwrap().1) ==> kept_openings(tries).contains(tries[k].unwrap()),
    decreases tries.len(),
{
    let front = tries.drop_last();
    let kept = kept_openings(front);
    let all = kept_openings(tries);
    if k < tries.len() - 1 {
        assert(front[k] == tries[k]);
        law_openings_kept(front, k);
        assert(forall|i: int| 0 <= i < kept.len() ==> all[i] == kept[i]);
        let i = choose|i: int| 0 <= i < kept.len() && (#[trigger] kept[i]).1 == tries[k].unwrap().1;
        assert(all[i].1 == tries[k].unwrap().1);
        if forall|j: int|
            0 <= j < k && (#[trigger] tries[j]) is Some ==> tries[j].unwrap().1
                != tries[k].unwrap().1 {
            assert forall|j: int| 0 <= j < k && (#[trigger] front[j]) is Some implies front[j].unwrap().1
                != front[k].unwrap().1 by {
                assert(front[j] == tries[j]);
            }
            let n = choose|n: int| 0 <= n < kept.len() && kept[n] == tries[k].unwrap();
            assert(all[n] == tries[k].unwrap());
        }
    } else {
        let fen = tries[k].unwrap().1;
        if known(kept, fen) {
            let i = choose|i: int| 0 <= i < kept.len() && (#[trigger] kept[i]).1 == fen;
            let j = lemma_kept_was_tried(front, i);
            assert(tries[j] == front[j]);
            assert(all[i].1 == fen);
        } else {
            assert(all.last() == tries[k].unwrap());
            assert(all[all.len() - 1].1 == fen);
        }
    }
}

proof fn lemma_kept_was_tried(tries: Seq<Option<(Seq<Move>, Seq<char>)>>, i: int) -> (j: int)
    requires
        0 <= i < kept_openings(tries).len(),
    ensures
        0 <= j < tries.len(),
        tries[j] == Some(kept_openings(tries)[i]),
    decreases tries.len(),
{
    let front = tries.drop_last();
    if i < kept_openings(front).len() {
        let j = lemma_kept_was_tried(front, i);
        assert(front[j] == tries[j]);
        j
    } else {
        tries.len() - 1
    }
}

/// A game counts as won by the first player exactly when the winner has the colour it played, as lost
/// when the winner has the other, and as drawn when there is none.
pub proof fn law_game_counted(t: MatchTally, winner: Option<Color>, a_is_red: bool)
    requires
        t.games < u32::MAX,
        t.wins_a + t.draws + t.losses_a == t.games,
    ensures
        ({
            let r = tallied(t, outcome_of(winner), a_is_red);
            let a = if a_is_red {
                Color::Red
            } else {
                Color::Black
            };
            &&& r.games == t.games + 1
            &&& r.wins_a - t.wins_a == if winner == Some(a) {
                1int
            } else {
                0
            }
            &&& r.draws - t.draws == if winner is None {
                1int
            } else {
                0
            }
            &&& r.losses_a - t.losses_a == if winner is Some && winner != Some(a) {
                1int
            } else {
                0
            }
        }),
{
}

/// How many of the games from the openings ended with such a pair of winners.
pub open spec fn games_with(
    winners: Seq<(Option<Color>, Option<Color>)>,
    p: spec_fn((Option<Color>, Option<Color>)) -> bool,
) -> int {
    winners.filter(p).len() as int
}

proof fn lemma_games_with(
    winners: Seq<(Option<Color>, Option<Color>)>,
    p: spec_fn((Option<Color>, Option<Color>)) -> bool,
)
    requires
        winners.len() > 0,
    ensures
        games_with(winners, p) == games_with(winners.drop_last(), p) + if p(winners.last()) {
            1int
        } else {
            0
        },
{
    reveal(Seq::filter);
}

/// A match counts for the first player as won the first games of the openings that Red won, in which
/// it played Red, and the second games that Black won; as lost the first games that Black won and the
/// second that Red won; and the others as drawn.
pub proof fn law_match_counted(
    winners: Seq<(Option<Color>, Option<Color>)>,
    outcomes: Seq<(Outcome, Outcome)>,
)
    requires
        winners.len() == outcomes.len(),
        outcomes.len() * 2 <= u32::MAX,
        forall|i: int|
            0 <= i < outcomes.len() ==> #[trigger] outcomes[i] == (
                outcome_of(winners[i].0),
                outcome_of(winners[i].1),
            ),
    ensures
        match_tally(outcomes).games == 2 * outcomes.len(),
        match_tally(outcomes).wins_a == games_with(
            winners,
            |w: (Option<Color>, Option<Color>)| w.0 == Some(Color::Red),
        ) + games_with(winners, |w: (Option<Color>, Option<Color>)| w.1 == Some(Color::Black)),
        match_tally(outcomes).losses_a == games_with(
            winners,
            |w: (Option<Color>, Option<Color>)| w.0 == Some(Color::Black),
        ) + games_with(winners, |w: (Option<Color>, Option<Color>)| w.1 == Some(Color::Red)),
        match_tally(outcomes).draws == games_with(
            winners,
            |w: (Option<Color>, Option<Color>)| w.0 is None,
        ) + games_with(winners, |w: (Option<Color>, Option<Color>)| w.1 is None),
    decreases outcomes.len(),
{
    let won0 = |w: (Option<Color>, Option<Color>)| w.0 == Some(Color::Red);
    let won1 = |w: (Option<Color>, Option<Color>)| w.1 == Some(Color::Black);
    let lost0 = |w: (Option<Color>, Option<Color>)| w.0 == Some(Color::Black);
    let lost1 = |w: (Option<Color>, Option<Color>)| w.1 == Some(Color::Red);
    let drawn0 = |w: (Option<Color>, Option<Color>)| w.0 is None;
    let drawn1 = |w: (Option<Color>, Option<Color>)| w.1 is None;
    if outcomes.len() > 0 {
        let n = outcomes.len() - 1;
        let front = outcomes.drop_last();
        law_match_counted(winners.drop_last(), front);
        crate::kernel::arena::law_tally_counts_every_game(front);
        lemma_games_with(winners, won0);
        lemma_games_with(winners, won1);
        lemma_games_with(winners, lost0);
        lemma_games_with(winners, lost1);
        lemma_games_with(winners, drawn0);
        lemma_games_with(winners, drawn1);
        assert(outcomes[n] == (outcome_of(winners[n].0), outcome_of(winners[n].1)));
        let t = match_tally(front);
        law_game_counted(t, winners[n].0, true);
        law_game_counted(tallied(t, outcome_of(winners[n].0), true), winners[n].1, false);
    } else {
        reveal(Seq::filter);
    }
}

/// There are two hundred attempts for each opening that is asked for, but not fewer than a thousand
/// in all, as far as they can be counted.
pub proof fn law_attempts(num: usize)
    ensures
        attempt_limit(num) >= 1000,
        200 * num <= u64::MAX ==> attempt_limit(num) >= 200 * num,
        attempt_limit(num) == 1000 || attempt_limit(num) == 200 * num || attempt_limit(num) == u64::MAX,
        attempt_limit(num) == u64::MAX ==> 200 * num >= u64::MAX,
{
}

} // verus!
