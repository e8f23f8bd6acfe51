//! Matches between two evaluators, and the openings they are played from.

use vstd::prelude::*;

use crate::kernel::game::{GameState, GameView};
use crate::kernel::mcts::{evaluates, searched, Mcts, MctsConfig};
use crate::kernel::position::Position;
use crate::kernel::selfplay::{
    argmax_move, continues, count_moves, first_best, lemma_child_by, lemma_counts_total,
    lemma_one_more_turn, lemma_start_ordinary, pickable, picked_move, tree_after, tree_left,
    trees_follow, Turn,
};
use crate::kernel::setup::{fen_describes, law_legal_list_exact};
use crate::kernel::tree::{
    edge_moves, law_ordinary_games_continue, law_ordinary_games_judgeable,
    lemma_visits_nonneg, ordinary, selects, tree_ok, visits, Node,
};
use crate::kernel::types::{Color, Move};

verus! {

#[derive(Debug, Clone, Copy, PartialEq, Eq, Structural)]
pub enum Outcome {
    RedWin,
    BlackWin,
    Draw,
}

/// The outcome of a game by its winner.
pub open spec fn outcome_of(winner: Option<Color>) -> Outcome {
    match winner {
        Some(Color::Red) => Outcome::RedWin,
        Some(Color::Black) => Outcome::BlackWin,
        None => Outcome::Draw,
    }
}

/// The game at the starting position.
pub open spec fn at_start(g: GameView) -> bool {
    &&& g.history.len() == 0
    &&& fen_describes(
        "rheakaehr/9/1c5c1/p1p1p1p1p/9/9/P1P1P1P1P/1C5C1/9/RHEAKAEHR r"@,
        g.position,
    )
}

/// The game after some moves.
pub open spec fn replayed(g: GameView, moves: Seq<Move>) -> GameView
    decreases moves.len(),
{
    if moves.len() == 0 {
        g
    } else {
        replayed(g, moves.drop_last()).after(moves.last())
    }
}

/// Every move is legal in its turn.
pub open spec fn playable(g: GameView, moves: Seq<Move>) -> bool
    decreases moves.len(),
{
    moves.len() == 0 || {
        &&& playable(g, moves.drop_last())
        &&& replayed(g, moves.drop_last()).position.legal(moves.last())
    }
}

/// The game has not ended before any of the moves.
pub open spec fn unended(g: GameView, moves: Seq<Move>) -> bool
    decreases moves.len(),
{
    moves.len() == 0 || {
        &&& unended(g, moves.drop_last())
        &&& !replayed(g, moves.drop_last()).outcome().is_terminal
    }
}

proof fn lemma_replay_prefix(g: GameView, moves: Seq<Move>, k: int)
    requires
        0 <= k <= moves.len(),
        playable(g, moves),
    ensures
        playable(g, moves.take(k)),
        k < moves.len() ==> replayed(g, moves.take(k)).position.legal(moves[k]),
    decreases moves.len(),
{
    if k == moves.len() {
        assert(moves.take(k) =~= moves);
    } else if k == moves.len() - 1 {
        assert(moves.take(k) =~= moves.drop_last());
    } else {
        lemma_replay_prefix(g, moves.drop_last(), k);
        assert(moves.drop_last().take(k) =~= moves.take(k));
    }
}

proof fn lemma_replay_len(g: GameView, moves: Seq<Move>)
    ensures
        replayed(g, moves).history.len() == g.history.len() + moves.len(),
    decreases moves.len(),
{
    if moves.len() > 0 {
        lemma_replay_len(g, moves.drop_last());
    }
}

/// How many moves an opening may have, none of which need be a capture: as many as can be counted,
/// with room to judge the last.
pub const OPENING_LIMIT: usize = 0xffff_fffe;

/// The game has been counted from the starting position on.
spec fn counted(g: GameView) -> bool {
    &&& 2 * (g.position.fullmove - 1) + (if g.position.side == Color::Black {
        1int
    } else {
        0
    }) == g.history.len()
    &&& g.position.quiet <= g.history.len()
}

/// The game from the starting position after the moves of an opening, or `None` if one of them is
/// illegal.
pub fn replay(moves: &Vec<Move>) -> (r: Option<GameState>)
    requires
        moves@.len() <= OPENING_LIMIT,
    ensures
        match r {
            Some(s) => {
                &&& s.wf()
                &&& ordinary(s@)
                &&& exists|g: GameView| #[trigger]
                    at_start(g) && g.wf() && playable(g, moves@) && s@ == replayed(g, moves@)
            },
            None => exists|g: GameView| #[trigger]
                at_start(g) && g.wf() && !playable(g, moves@),
        },
{
    let mut state = GameState::from_position(Position::starting());
    let ghost g = state@;
    proof {
        lemma_start_ordinary(g);
        assert(at_start(g));
        assert(moves@.take(0) =~= Seq::empty());
    }
    let mut i: usize = 0;
    while i < moves.len()
        invariant
            i <= moves@.len(),
            moves@.len() <= OPENING_LIMIT,
            at_start(g),
            g.wf(),
            g.history.len() == 0,
            state.wf(),
            ordinary(state@),
            counted(state@),
            playable(g, moves@.take(i as int)),
            state@ == replayed(g, moves@.take(i as int)),
        decreases moves@.len() - i,
    {
        let mv = moves[i];
        proof {
            law_ordinary_games_judgeable(state@);
            assert(state@.position_at(state@.history.len() as int).wf());
            assert(moves@.take(i + 1).drop_last() =~= moves@.take(i as int));
        }
        if !state.position.is_legal_move(mv, Some(state.position.side_to_move)) {
            proof {
                if playable(g, moves@) {
                    lemma_replay_prefix(g, moves@, i as int);
                }
            }
            return None;
        }
        proof {
            lemma_replay_len(g, moves@.take(i as int));
            law_ordinary_games_continue(state@, mv);
        }
        state = state.make_move(mv);
        i += 1;
    }
    assert(moves@.take(moves@.len() as int) =~= moves@);
    Some(state)
}

/// The counts of a match, as the first player sees them.
#[derive(Debug, Clone, Copy, PartialEq, Eq, Structural)]
pub struct MatchTally {
    pub games: u32,
    pub wins_a: u32,
    pub draws: u32,
    pub losses_a: u32,
}

/// A tally with one more game, in which the first player had Red or not.
pub open spec fn tallied(t: MatchTally, outcome: Outcome, a_is_red: bool) -> MatchTally {
    let won = (outcome == Outcome::RedWin && a_is_red) || (outcome == Outcome::BlackWin
        && !a_is_red);
    let drawn = outcome == Outcome::Draw;
    MatchTally {
        games: (t.games + 1) as u32,
        wins_a: if won {
            (t.wins_a + 1) as u32
        } else {
            t.wins_a
        },
        draws: if drawn {
            (t.draws + 1) as u32
        } else {
            t.draws
        },
        losses_a: if !won && !drawn {
            (t.losses_a + 1) as u32
        } else {
            t.losses_a
        },
    }
}

/// The tally of a match: for each opening a game with the first player as Red and one as Black.
pub open spec fn match_tally(outcomes: Seq<(Outcome, Outcome)>) -> MatchTally
    decreases outcomes.len(),
{
    if outcomes.len() == 0 {
        MatchTally { games: 0, wins_a: 0, draws: 0, losses_a: 0 }
    } else {
        tallied(
            tallied(match_tally(outcomes.drop_last()), outcomes.last().0, true),
            outcomes.last().1,
            false,
        )
    }
}

/// Adds a game to a tally.
pub fn tally_game(t: MatchTally, outcome: Outcome, a_is_red: bool) -> (r: MatchTally)
    requires
        t.games < u32::MAX,
        t.wins_a + t.draws + t.losses_a == t.games,
    ensures
        r == tallied(t, outcome, a_is_red),
        r.wins_a + r.draws + r.losses_a == r.games,
{
    let mut r = MatchTally { games: t.games + 1, ..t };
    match outcome {
        Outcome::Draw => {
            r.draws = r.draws + 1;
        },
        Outcome::RedWin => {
            if a_is_red {
                r.wins_a = r.wins_a + 1;
            } else {
                r.losses_a = r.losses_a + 1;
            }
        },
        Outcome::BlackWin => {
            if a_is_red {
                r.losses_a = r.losses_a + 1;
            } else {
                r.wins_a = r.wins_a + 1;
            }
        },
    }
    r
}

/// Every game of a match is won, drawn or lost, and there are two for each opening.
pub proof fn law_tally_counts_every_game(outcomes: Seq<(Outcome, Outcome)>)
    requires
        outcomes.len() * 2 <= u32::MAX,
    ensures
        match_tally(outcomes).games == 2 * outcomes.len(),
        match_tally(outcomes).wins_a + match_tally(outcomes).draws + match_tally(outcomes).losses_a
            == 2 * outcomes.len(),
    decreases outcomes.len(),
{
    if outcomes.len() > 0 {
        law_tally_counts_every_game(outcomes.drop_last());
    }
}

/// When both games of every opening end alike, as they do when a deterministic player meets itself,
/// the players come out even.
pub proof fn law_mirror_match_is_even(outcomes: Seq<(Outcome, Outcome)>)
    requires
        outcomes.len() * 2 <= u32::MAX,
        forall|i: int| 0 <= i < outcomes.len() ==> (#[trigger] outcomes[i]).0 == outcomes[i].1,
    ensures
        match_tally(outcomes).wins_a == match_tally(outcomes).losses_a,
    decreases outcomes.len(),
{
    if outcomes.len() > 0 {
        let front = outcomes.drop_last();
        assert forall|i: int| 0 <= i < front.len() implies (#[trigger] front[i]).0 == front[i].1 by {
            assert(outcomes[i].0 == outcomes[i].1);
        }
        assert(outcomes[outcomes.len() - 1].0 == outcomes[outcomes.len() - 1].1);
        law_mirror_match_is_even(front);
        law_tally_counts_every_game(front);
    }
}

/// A ply of a game between two players: their trees before and after the search of the one to move,
/// how often it followed each legal move, and the move that was played.
pub struct Ply {
    pub red: Mcts,
    pub black: Mcts,
    pub red_after: Mcts,
    pub black_after: Mcts,
    pub counts: Seq<(Move, u32)>,
    pub mv: Move,
}

/// The players begin without trees, and have in each other ply what is left of their trees of the
/// one before.
pub open spec fn plies_follow(plies: Seq<Ply>) -> bool {
    &&& plies.len() > 0 ==> plies[0].red.spec_root() is None && plies[0].black.spec_root() is None
    &&& forall|i: int|
        0 <= i < plies.len() - 1 ==> (#[trigger] plies[i + 1]).red.spec_root() == tree_after(
            plies[i].red_after,
            plies[i].mv,
        ) && plies[i + 1].black.spec_root() == tree_after(plies[i].black_after, plies[i].mv)
}

/// In the ply the side to move searched the game `g` with its own evaluator and without noise, and
/// played the move that was followed most, which leads to `next`.
pub open spec fn ply_made<
    F: Fn(&Node) -> usize,
    C: Fn(u64, i32, u64) -> u64,
    A: Fn(u64, i32, u64) -> u64,
    R: Fn(&GameState) -> (Vec<(Move, u64)>, u64),
    B: Fn(&GameState) -> (Vec<(Move, u64)>, u64),
    N: Fn(&Node) -> Vec<u64>,
>(
    select: F,
    charge: C,
    credit: A,
    red: R,
    black: B,
    noise: N,
    config: MctsConfig,
    p: Ply,
    g: GameView,
    next: GameView,
) -> bool {
    &&& p.red.spec_config() == config
    &&& p.black.spec_config() == config
    &&& match g.position.side {
        Color::Red => {
            &&& searched(
                select,
                charge,
                credit,
                red,
                false,
                noise,
                p.red,
                p.red_after,
                g,
                p.counts,
            )
            &&& p.black_after == p.black
        },
        Color::Black => {
            &&& searched(
                select,
                charge,
                credit,
                black,
                false,
                noise,
                p.black,
                p.black_after,
                g,
                p.counts,
            )
            &&& p.red_after == p.red
        },
    }
    &&& picked_move(config.n_simulations as int, 0, p.counts, g, next)
    &&& next == g.after(p.mv)
}

pub open spec fn ply_at<
    F: Fn(&Node) -> usize,
    C: Fn(u64, i32, u64) -> u64,
    A: Fn(u64, i32, u64) -> u64,
    R: Fn(&GameState) -> (Vec<(Move, u64)>, u64),
    B: Fn(&GameState) -> (Vec<(Move, u64)>, u64),
    N: Fn(&Node) -> Vec<u64>,
>(
    select: F,
    charge: C,
    credit: A,
    red: R,
    black: B,
    noise: N,
    config: MctsConfig,
    plies: Seq<Ply>,
    line: Seq<GameView>,
    i: int,
) -> bool {
    continues(line[i], line[i + 1]) && ply_made(
        select,
        charge,
        credit,
        red,
        black,
        noise,
        config,
        plies[i],
        line[i],
        line[i + 1],
    )
}

/// `line` continues the game of the opening by the plies of the two players, at most so far, and
/// `outcome` is that of its last game, which has ended unless the limit was reached.
pub open spec fn played_out<
    F: Fn(&Node) -> usize,
    C: Fn(u64, i32, u64) -> u64,
    A: Fn(u64, i32, u64) -> u64,
    R: Fn(&GameState) -> (Vec<(Move, u64)>, u64),
    B: Fn(&GameState) -> (Vec<(Move, u64)>, u64),
    N: Fn(&Node) -> Vec<u64>,
>(
    select: F,
    charge: C,
    credit: A,
    red: R,
    black: B,
    noise: N,
    config: MctsConfig,
    opening: Seq<Move>,
    max_total_plies: u32,
    line: Seq<GameView>,
    plies: Seq<Ply>,
    outcome: Outcome,
) -> bool {
    &&& line.len() == plies.len() + 1
    &&& exists|g: GameView| #[trigger]
        at_start(g) && playable(g, opening) && line[0] == replayed(g, opening)
    &&& plies_follow(plies)
    &&& forall|i: int|
        0 <= i < plies.len() ==> #[trigger] ply_at(
            select,
            charge,
            credit,
            red,
            black,
            noise,
            config,
            plies,
            line,
            i,
        )
    &&& line.last().history.len() < max_total_plies ==> line.last().outcome().is_terminal
    &&& plies.len() > 0 ==> line.last().history.len() <= max_total_plies
    &&& outcome == outcome_of(line.last().outcome().winner)
}

proof fn lemma_one_more_ply(plies: Seq<Ply>, p: Ply)
    requires
        plies_follow(plies),
        plies.len() == 0 ==> p.red.spec_root() is None && p.black.spec_root() is None,
        plies.len() > 0 ==> p.red.spec_root() == tree_after(
            plies.last().red_after,
            plies.last().mv,
        ) && p.black.spec_root() == tree_after(plies.last().black_after, plies.last().mv),
    ensures
        plies_follow(plies.push(p)),
{
    let more = plies.push(p);
    assert forall|i: int| 0 <= i < more.len() - 1 implies (#[trigger] more[i + 1]).red.spec_root()
        == tree_after(more[i].red_after, more[i].mv) && more[i + 1].black.spec_root()
        == tree_after(more[i].black_after, more[i].mv) by {
        if i < plies.len() - 1 {
            assert(more[i + 1] == plies[i + 1]);
        }
    }
}

/// Plays a game from an opening, each side with its own evaluator and tree, always by the move that
/// was followed most.
#[verifier::rlimit(30)]
pub fn play_one<
    F: Fn(&Node) -> usize,
    C: Fn(u64, i32, u64) -> u64,
    A: Fn(u64, i32, u64) -> u64,
    R: Fn(&GameState) -> (Vec<(Move, u64)>, u64),
    B: Fn(&GameState) -> (Vec<(Move, u64)>, u64),
    N: Fn(&Node) -> Vec<u64>,
>(
    opening: &Vec<Move>,
    config: MctsConfig,
    max_total_plies: u32,
    select: &F,
    charge: &C,
    credit: &A,
    red: &R,
    black: &B,
    noise: &N,
) -> (r: Option<Outcome>)
    requires
        selects(*select),
        forall|w: u64, s: i32, v: u64| #[trigger] call_requires(*charge, (w, s, v)),
        forall|w: u64, s: i32, v: u64| #[trigger] call_requires(*credit, (w, s, v)),
        evaluates(*red),
        evaluates(*black),
        forall|n: Node| #[trigger] call_requires(*noise, (&n,)),
        forall|n: Node, p: Vec<u64>| #[trigger]
            call_ensures(*noise, (&n,), p) ==> p@.len() == n.edges@.len(),
        config.n_simulations * 301 <= u32::MAX,
        opening@.len() <= OPENING_LIMIT,
    ensures
        match r {
            Some(outcome) => can_come_out(
                *select,
                *charge,
                *credit,
                *red,
                *black,
                *noise,
                config,
                opening@,
                max_total_plies,
                outcome,
            ),
            None => exists|g: GameView| #[trigger]
                at_start(g) && g.wf() && !playable(g, opening@),
        },
{
    let mut state = match replay(opening) {
        Some(s) => s,
        None => {
            return None;
        },
    };
    let ghost mut line: Seq<GameView> = seq![state@];
    let ghost mut plies: Seq<Ply> = Seq::empty();
    let ghost sims = config.n_simulations as int;
    let mut mcts_red = Mcts::new(config);
    let mut mcts_black = Mcts::new(config);
    proof {
        let g = choose|g: GameView| #[trigger]
            at_start(g) && g.wf() && playable(g, opening@) && state@ == replayed(g, opening@);
        assert(at_start(g) && playable(g, opening@) && line[0] == replayed(g, opening@));
        lemma_replay_len(g, opening@);
    }
    let mut ply: u32 = state.history.len() as u32;
    let ghost first = ply;
    while ply < max_total_plies
        invariant_except_break
            mcts_red.idle(),
            mcts_black.idle(),
            plies.len() == 0 ==> mcts_red.spec_root() is None && mcts_black.spec_root() is None,
            plies.len() > 0 ==> mcts_red.spec_root() == tree_after(
                plies.last().red_after,
                plies.last().mv,
            ) && mcts_black.spec_root() == tree_after(plies.last().black_after, plies.last().mv),
            mcts_red.spec_root() matches Some(root) ==> root.state@ == state@ && visits(
                root.edges@,
            ) <= (ply - first) * sims,
            mcts_black.spec_root() matches Some(root) ==> root.state@ == state@ && visits(
                root.edges@,
            ) <= (ply - first) * sims,
        invariant
            selects(*select),
            forall|w: u64, s: i32, v: u64| #[trigger] call_requires(*charge, (w, s, v)),
            forall|w: u64, s: i32, v: u64| #[trigger] call_requires(*credit, (w, s, v)),
            evaluates(*red),
            evaluates(*black),
            forall|n: Node| #[trigger] call_requires(*noise, (&n,)),
            forall|n: Node, p: Vec<u64>| #[trigger]
                call_ensures(*noise, (&n,), p) ==> p@.len() == n.edges@.len(),
            sims * 301 <= u32::MAX,
            0 <= sims,
            mcts_red.wf(),
            mcts_black.wf(),
            sims == config.n_simulations,
            mcts_red.spec_config() == config,
            mcts_black.spec_config() == config,
            first <= ply,
            ply == first || ply <= 300,
            plies.len() == ply - first,
            line.len() == plies.len() + 1,
            plies_follow(plies),
            plies.len() > 0 ==> ply <= max_total_plies,
            state.wf(),
            ordinary(state@),
            state@.history.len() == ply,
            line.last() == state@,
            exists|g: GameView| #[trigger]
                at_start(g) && playable(g, opening@) && line[0] == replayed(g, opening@),
            forall|i: int|
                0 <= i < plies.len() ==> #[trigger] ply_at(
                    *select,
                    *charge,
                    *credit,
                    *red,
                    *black,
                    *noise,
                    config,
                    plies,
                    line,
                    i,
                ),
        ensures
            ply < max_total_plies ==> state@.outcome().is_terminal,
        decreases max_total_plies - ply,
    {
        proof {
            assert(0 <= (ply - first) * sims <= 300 * sims) by (nonlinear_arith)
                requires
                    0 <= ply - first <= 300,
                    0 <= sims,
            ;
        }
        let ghost red_before = mcts_red;
        let ghost black_before = mcts_black;
        let red_moves = state.position.side_to_move == Color::Red;
        proof {
            if let Some(kept) = mcts_red.spec_root() {
                lemma_visits_nonneg(kept.edges@);
            }
            if let Some(kept) = mcts_black.spec_root() {
                lemma_visits_nonneg(kept.edges@);
            }
        }
        let counts = if red_moves {
            mcts_red.run(state.clone(), select, charge, credit, red, false, noise)
        } else {
            mcts_black.run(state.clone(), select, charge, credit, black, false, noise)
        };
        let ghost root = if red_moves {
            mcts_red.spec_root().unwrap()
        } else {
            mcts_black.spec_root().unwrap()
        };
        proof {
            assert(root.state@ == state@);
            assert(tree_ok(root));
        }
        if counts.len() == 0 {
            proof {
                if !root.is_terminal {
                    assert(edge_moves(root.edges@).len() == 0);
                    assert(state@.position.outcome().is_terminal);
                }
            }
            break;
        }
        proof {
            lemma_counts_total(root.edges@, counts@);
            assert(!state@.outcome().is_terminal);
            assert(state@.position_at(ply as int).wf());
        }
        let mv = argmax_move(&counts);
        proof {
            let i = choose|i: int| first_best(counts@, i) && (#[trigger] counts@[i]).0 == mv;
            assert(count_moves(counts@)[i] == mv);
            law_legal_list_exact(state@.position);
            assert(state@.position.legal_list().contains(mv));
            law_ordinary_games_judgeable(state@);
            law_ordinary_games_continue(state@, mv);
            assert((ply + 1 - first) * sims == (ply - first) * sims + sims) by (nonlinear_arith);
            if let Some(a) = mcts_red.spec_root() {
                assert(a.edges@.skip(0) =~= a.edges@);
                lemma_child_by(a, a.edges@, 0, mv);
            }
            if let Some(a) = mcts_black.spec_root() {
                assert(a.edges@.skip(0) =~= a.edges@);
                lemma_child_by(a, a.edges@, 0, mv);
            }
            assert(continues(state@, state@.after(mv)));
            assert(pickable(counts@, i, ply as int, 0));
            assert(picked_move(sims, 0, counts@, state@, state@.after(mv)));
            let p = Ply {
                red: red_before,
                black: black_before,
                red_after: mcts_red,
                black_after: mcts_black,
                counts: counts@,
                mv,
            };
            assert(ply_made(
                *select,
                *charge,
                *credit,
                *red,
                *black,
                *noise,
                config,
                p,
                state@,
                state@.after(mv),
            ));
            lemma_one_more_ply(plies, p);
            let next = line.push(state@.after(mv));
            let more = plies.push(p);
            assert forall|k: int| 0 <= k < more.len() implies #[trigger] ply_at(
                *select,
                *charge,
                *credit,
                *red,
                *black,
                *noise,
                config,
                more,
                next,
                k,
            ) by {
                if k < plies.len() {
                    assert(ply_at(
                        *select,
                        *charge,
                        *credit,
                        *red,
                        *black,
                        *noise,
                        config,
                        plies,
                        line,
                        k,
                    ));
                    assert(more[k] == plies[k]);
                    assert(next[k] == line[k]);
                    assert(next[k + 1] == line[k + 1]);
                }
            }
            plies = more;
            line = next;
        }
        state = state.make_move(mv);
        mcts_red.advance(mv);
        mcts_black.advance(mv);
        ply += 1;
    }
    proof {
        law_ordinary_games_judgeable(state@);
    }
    let outcome = match state.status().winner {
        Some(Color::Red) => Outcome::RedWin,
        Some(Color::Black) => Outcome::BlackWin,
        None => Outcome::Draw,
    };
    assert(played_out(
        *select,
        *charge,
        *credit,
        *red,
        *black,
        *noise,
        config,
        opening@,
        max_total_plies,
        line,
        plies,
        outcome,
    ));
    Some(outcome)
}

/// Some game of the two players, played out from the opening, has this outcome.
pub open spec fn can_come_out<
    F: Fn(&Node) -> usize,
    C: Fn(u64, i32, u64) -> u64,
    A: Fn(u64, i32, u64) -> u64,
    R: Fn(&GameState) -> (Vec<(Move, u64)>, u64),
    B: Fn(&GameState) -> (Vec<(Move, u64)>, u64),
    N: Fn(&Node) -> Vec<u64>,
>(
    select: F,
    charge: C,
    credit: A,
    red: R,
    black: B,
    noise: N,
    config: MctsConfig,
    opening: Seq<Move>,
    max_total_plies: u32,
    outcome: Outcome,
) -> bool {
    exists|line: Seq<GameView>, plies: Seq<Ply>| #[trigger]
        played_out(
            select,
            charge,
            credit,
            red,
            black,
            noise,
            config,
            opening,
            max_total_plies,
            line,
            plies,
            outcome,
        )
}

/// The two outcomes are those of games from the opening, with the first player as Red and then as
/// Black.
pub open spec fn pair_of<
    F: Fn(&Node) -> usize,
    C: Fn(u64, i32, u64) -> u64,
    A: Fn(u64, i32, u64) -> u64,
    X: Fn(&GameState) -> (Vec<(Move, u64)>, u64),
    Y: Fn(&GameState) -> (Vec<(Move, u64)>, u64),
    N: Fn(&Node) -> Vec<u64>,
>(
    select: F,
    charge: C,
    credit: A,
    eval_a: X,
    eval_b: Y,
    noise: N,
    config: MctsConfig,
    opening: Seq<Move>,
    max_total_plies: u32,
    pair: (Outcome, Outcome),
) -> bool {
    &&& can_come_out(
        select,
        charge,
        credit,
        eval_a,
        eval_b,
        noise,
        config,
        opening,
        max_total_plies,
        pair.0,
    )
    &&& can_come_out(
        select,
        charge,
        credit,
        eval_b,
        eval_a,
        noise,
        config,
        opening,
        max_total_plies,
        pair.1,
    )
}

/// The outcomes are those of games of the two players from the openings, two from each.
pub open spec fn outcomes_of<
    F: Fn(&Node) -> usize,
    C: Fn(u64, i32, u64) -> u64,
    A: Fn(u64, i32, u64) -> u64,
    X: Fn(&GameState) -> (Vec<(Move, u64)>, u64),
    Y: Fn(&GameState) -> (Vec<(Move, u64)>, u64),
    N: Fn(&Node) -> Vec<u64>,
>(
    select: F,
    charge: C,
    credit: A,
    eval_a: X,
    eval_b: Y,
    noise: N,
    config: MctsConfig,
    openings: Seq<Vec<Move>>,
    max_total_plies: u32,
    outcomes: Seq<(Outcome, Outcome)>,
) -> bool {
    &&& outcomes.len() == openings.len()
    &&& forall|i: int|
        0 <= i < outcomes.len() ==> pair_of(
            select,
            charge,
            credit,
            eval_a,
            eval_b,
            noise,
            config,
            openings[i]@,
            max_total_plies,
            #[trigger] outcomes[i],
        )
}

/// A player that meets itself, and from each opening can only play one outcome, comes out even.
pub proof fn law_self_match_is_even<
    F: Fn(&Node) -> usize,
    C: Fn(u64, i32, u64) -> u64,
    A: Fn(u64, i32, u64) -> u64,
    E: Fn(&GameState) -> (Vec<(Move, u64)>, u64),
    N: Fn(&Node) -> Vec<u64>,
>(
    select: F,
    charge: C,
    credit: A,
    evaluate: E,
    noise: N,
    config: MctsConfig,
    openings: Seq<Vec<Move>>,
    max_total_plies: u32,
    outcomes: Seq<(Outcome, Outcome)>,
)
    requires
        outcomes.len() * 2 <= u32::MAX,
        outcomes_of(
            select,
            charge,
            credit,
            evaluate,
            evaluate,
            noise,
            config,
            openings,
            max_total_plies,
            outcomes,
        ),
        forall|opening: Seq<Move>, a: Outcome, b: Outcome|
            #![trigger pair_of(select, charge, credit, evaluate, evaluate, noise, config, opening, max_total_plies, (a, b))]
            pair_of(
                select,
                charge,
                credit,
                evaluate,
                evaluate,
                noise,
                config,
                opening,
                max_total_plies,
                (a, b),
            ) ==> a == b,
    ensures
        match_tally(outcomes).wins_a == match_tally(outcomes).losses_a,
{
    assert forall|i: int| 0 <= i < outcomes.len() implies (#[trigger] outcomes[i]).0
        == outcomes[i].1 by {
        let (a, b) = outcomes[i];
        assert(pair_of(
            select,
            charge,
            credit,
            evaluate,
            evaluate,
            noise,
            config,
            openings[i]@,
            max_total_plies,
            (a, b),
        ));
    }
    law_mirror_match_is_even(outcomes);
}

/// Plays a match: from each opening a game with the first player as Red, then one with the colours
/// exchanged. `None` if an opening cannot be played.
pub fn run_match<
    F: Fn(&Node) -> usize,
    C: Fn(u64, i32, u64) -> u64,
    A: Fn(u64, i32, u64) -> u64,
    X: Fn(&GameState) -> (Vec<(Move, u64)>, u64),
    Y: Fn(&GameState) -> (Vec<(Move, u64)>, u64),
    N: Fn(&Node) -> Vec<u64>,
>(
    openings: &Vec<Vec<Move>>,
    config: MctsConfig,
    max_total_plies: u32,
    select: &F,
    charge: &C,
    credit: &A,
    eval_a: &X,
    eval_b: &Y,
    noise: &N,
) -> (r: Option<MatchTally>)
    requires
        selects(*select),
        forall|w: u64, s: i32, v: u64| #[trigger] call_requires(*charge, (w, s, v)),
        forall|w: u64, s: i32, v: u64| #[trigger] call_requires(*credit, (w, s, v)),
        evaluates(*eval_a),
        evaluates(*eval_b),
        forall|n: Node| #[trigger] call_requires(*noise, (&n,)),
        forall|n: Node, p: Vec<u64>| #[trigger]
            call_ensures(*noise, (&n,), p) ==> p@.len() == n.edges@.len(),
        config.n_simulations * 301 <= u32::MAX,
        openings@.len() * 2 <= u32::MAX,
        forall|i: int| 0 <= i < openings@.len() ==> (#[trigger] openings@[i])@.len() <= OPENING_LIMIT,
    ensures
        match r {
            Some(tally) => exists|outcomes: Seq<(Outcome, Outcome)>| #[trigger]
                outcomes_of(
                    *select,
                    *charge,
                    *credit,
                    *eval_a,
                    *eval_b,
                    *noise,
                    config,
                    openings@,
                    max_total_plies,
                    outcomes,
                ) && tally == match_tally(outcomes),
            None => exists|i: int, g: GameView|
                0 <= i < openings@.len() && at_start(g) && g.wf() && !(#[trigger] playable(
                    g,
                    openings@[i]@,
                )),
        },
{
    let mut tally = MatchTally { games: 0, wins_a: 0, draws: 0, losses_a: 0 };
    let ghost mut outcomes: Seq<(Outcome, Outcome)> = Seq::empty();
    let mut i: usize = 0;
    while i < openings.len()
        invariant
            selects(*select),
            forall|w: u64, s: i32, v: u64| #[trigger] call_requires(*charge, (w, s, v)),
            forall|w: u64, s: i32, v: u64| #[trigger] call_requires(*credit, (w, s, v)),
            evaluates(*eval_a),
            evaluates(*eval_b),
            forall|n: Node| #[trigger] call_requires(*noise, (&n,)),
            forall|n: Node, p: Vec<u64>| #[trigger]
                call_ensures(*noise, (&n,), p) ==> p@.len() == n.edges@.len(),
            config.n_simulations * 301 <= u32::MAX,
            openings@.len() * 2 <= u32::MAX,
            forall|k: int|
                0 <= k < openings@.len() ==> (#[trigger] openings@[k])@.len() <= OPENING_LIMIT,
            i <= openings@.len(),
            outcomes.len() == i,
            forall|j: int|
                0 <= j < i ==> pair_of(
                    *select,
                    *charge,
                    *credit,
                    *eval_a,
                    *eval_b,
                    *noise,
                    config,
                    openings@[j]@,
                    max_total_plies,
                    #[trigger] outcomes[j],
                ),
            tally == match_tally(outcomes),
            tally.games == 2 * i,
            tally.wins_a + tally.draws + tally.losses_a == tally.games,
        decreases openings@.len() - i,
    {
        let first = match play_one(
            &openings[i],
            config,
            max_total_plies,
            select,
            charge,
            credit,
            eval_a,
            eval_b,
            noise,
        ) {
            Some(o) => o,
            None => {
                return None;
            },
        };
        let second = match play_one(
            &openings[i],
            config,
            max_total_plies,
            select,
            charge,
            credit,
            eval_b,
            eval_a,
            noise,
        ) {
            Some(o) => o,
            None => {
                return None;
            },
        };
        tally = tally_game(tally, first, true);
        tally = tally_game(tally, second, false);
        proof {
            let next = outcomes.push((first, second));
            assert(next.drop_last() =~= outcomes);
            outcomes = next;
        }
        i += 1;
    }
    assert(outcomes_of(
        *select,
        *charge,
        *credit,
        *eval_a,
        *eval_b,
        *noise,
        config,
        openings@,
        max_total_plies,
        outcomes,
    ));
    Some(tally)
}

/// In the turn the game `g` was searched without noise, and `sample` picked the move by the counts of
/// the search.
pub open spec fn drawn_by<
    F: Fn(&Node) -> usize,
    C: Fn(u64, i32, u64) -> u64,
    A: Fn(u64, i32, u64) -> u64,
    E: Fn(&GameState) -> (Vec<(Move, u64)>, u64),
    N: Fn(&Node) -> Vec<u64>,
    S: Fn(&Vec<(Move, u32)>, u64, u32) -> usize,
>(
    select: F,
    charge: C,
    credit: A,
    evaluate: E,
    noise: N,
    sample: S,
    config: MctsConfig,
    attempt: u64,
    ply: u32,
    t: Turn,
    g: GameView,
    mv: Move,
) -> bool {
    &&& t.before.spec_config() == config
    &&& t.mv == mv
    &&& searched(select, charge, credit, evaluate, false, noise, t.before, t.after, g, t.counts)
    &&& count_moves(t.counts) == g.position.legal_list()
    &&& exists|counts: Vec<(Move, u32)>, k: usize| #[trigger]
        call_ensures(sample, (&counts, attempt, ply), k) && counts@ == t.counts && k
            < counts@.len() && counts@[k as int].0 == mv
}

pub open spec fn drawn_at<
    F: Fn(&Node) -> usize,
    C: Fn(u64, i32, u64) -> u64,
    A: Fn(u64, i32, u64) -> u64,
    E: Fn(&GameState) -> (Vec<(Move, u64)>, u64),
    N: Fn(&Node) -> Vec<u64>,
    S: Fn(&Vec<(Move, u32)>, u64, u32) -> usize,
>(
    select: F,
    charge: C,
    credit: A,
    evaluate: E,
    noise: N,
    sample: S,
    config: MctsConfig,
    attempt: u64,
    g: GameView,
    moves: Seq<Move>,
    turns: Seq<Turn>,
    k: int,
) -> bool {
    drawn_by(
        select,
        charge,
        credit,
        evaluate,
        noise,
        sample,
        config,
        attempt,
        k as u32,
        turns[k],
        replayed(g, moves.take(k)),
        moves[k],
    )
}

/// Every one of the moves was drawn in its turn.
#[verifier::opaque]
pub open spec fn drawn<
    F: Fn(&Node) -> usize,
    C: Fn(u64, i32, u64) -> u64,
    A: Fn(u64, i32, u64) -> u64,
    E: Fn(&GameState) -> (Vec<(Move, u64)>, u64),
    N: Fn(&Node) -> Vec<u64>,
    S: Fn(&Vec<(Move, u32)>, u64, u32) -> usize,
>(
    select: F,
    charge: C,
    credit: A,
    evaluate: E,
    noise: N,
    sample: S,
    config: MctsConfig,
    attempt: u64,
    g: GameView,
    moves: Seq<Move>,
    turns: Seq<Turn>,
) -> bool {
    &&& turns.len() == moves.len()
    &&& trees_follow(turns)
    &&& forall|k: int|
        0 <= k < moves.len() ==> #[trigger] drawn_at(
            select,
            charge,
            credit,
            evaluate,
            noise,
            sample,
            config,
            attempt,
            g,
            moves,
            turns,
            k,
        )
}

/// An opening: moves from the starting position, as many as asked for, drawn in a game that goes on
/// before each of them, and the position they lead to.
pub open spec fn opening_line<
    F: Fn(&Node) -> usize,
    C: Fn(u64, i32, u64) -> u64,
    A: Fn(u64, i32, u64) -> u64,
    E: Fn(&GameState) -> (Vec<(Move, u64)>, u64),
    N: Fn(&Node) -> Vec<u64>,
    S: Fn(&Vec<(Move, u32)>, u64, u32) -> usize,
>(
    select: F,
    charge: C,
    credit: A,
    evaluate: E,
    noise: N,
    sample: S,
    config: MctsConfig,
    attempt: u64,
    moves: Seq<Move>,
    plies: u32,
    fen: Seq<char>,
) -> bool {
    &&& moves.len() == plies
    &&& exists|g: GameView, turns: Seq<Turn>|
        {
            &&& #[trigger] drawn(
                select,
                charge,
                credit,
                evaluate,
                noise,
                sample,
                config,
                attempt,
                g,
                moves,
                turns,
            )
            &&& at_start(g)
            &&& playable(g, moves)
            &&& unended(g, moves)
            &&& replayed(g, moves).position.fen() == fen
        }
}

/// The moves that are drawn end the game too soon.
pub open spec fn cut_short<
    F: Fn(&Node) -> usize,
    C: Fn(u64, i32, u64) -> u64,
    A: Fn(u64, i32, u64) -> u64,
    E: Fn(&GameState) -> (Vec<(Move, u64)>, u64),
    N: Fn(&Node) -> Vec<u64>,
    S: Fn(&Vec<(Move, u32)>, u64, u32) -> usize,
>(
    select: F,
    charge: C,
    credit: A,
    evaluate: E,
    noise: N,
    sample: S,
    config: MctsConfig,
    attempt: u64,
    plies: u32,
) -> bool {
    exists|g: GameView, moves: Seq<Move>, turns: Seq<Turn>|
        {
            &&& #[trigger] drawn(
                select,
                charge,
                credit,
                evaluate,
                noise,
                sample,
                config,
                attempt,
                g,
                moves,
                turns,
            )
            &&& at_start(g)
            &&& moves.len() < plies
            &&& playable(g, moves)
            &&& unended(g, moves)
            &&& replayed(g, moves).outcome().is_terminal
        }
}

/// What each attempt came to: an opening with its position, or nothing where the game ended too
/// soon.
pub open spec fn attempts_made<
    F: Fn(&Node) -> usize,
    C: Fn(u64, i32, u64) -> u64,
    A: Fn(u64, i32, u64) -> u64,
    E: Fn(&GameState) -> (Vec<(Move, u64)>, u64),
    N: Fn(&Node) -> Vec<u64>,
    S: Fn(&Vec<(Move, u32)>, u64, u32) -> usize,
>(
    select: F,
    charge: C,
    credit: A,
    evaluate: E,
    noise: N,
    sample: S,
    config: MctsConfig,
    plies: u32,
    tries: Seq<Option<(Seq<Move>, Seq<char>)>>,
) -> bool {
    forall|k: int|
        0 <= k < tries.len() ==> match #[trigger] tries[k] {
            Some((moves, fen)) => opening_line(
                select,
                charge,
                credit,
                evaluate,
                noise,
                sample,
                config,
                k as u64,
                moves,
                plies,
                fen,
            ),
            None => cut_short(
                select,
                charge,
                credit,
                evaluate,
                noise,
                sample,
                config,
                k as u64,
                plies,
            ),
        }
}

/// One of the openings leads to the position.
pub open spec fn known(openings: Seq<(Seq<Move>, Seq<char>)>, fen: Seq<char>) -> bool {
    exists|i: int| 0 <= i < openings.len() && (#[trigger] openings[i]).1 == fen
}

/// The openings among the attempts that lead to positions not met before.
pub open spec fn kept_openings(tries: Seq<Option<(Seq<Move>, Seq<char>)>>) -> Seq<
    (Seq<Move>, Seq<char>),
>
    decreases tries.len(),
{
    if tries.len() == 0 {
        Seq::empty()
    } else {
        let kept = kept_openings(tries.drop_last());
        match tries.last() {
            Some((moves, fen)) => if known(kept, fen) {
                kept
            } else {
                kept.push((moves, fen))
            },
            None => kept,
        }
    }
}

/// The seed of the random numbers for an attempt: each attempt of a run has its own.
pub fn attempt_seed(seed: u64, attempt: u64) -> (r: u64)
    ensures
        r == seed ^ ((attempt * 0x9e37_79b9_7f4a_7c15) % 0x1_0000_0000_0000_0000) as u64,
{
    let scaled: u128 = (attempt as u128) * 0x9e37_79b9_7f4a_7c15;
    let low: u64 = (scaled % 0x1_0000_0000_0000_0000) as u64;
    seed ^ low
}

/// How many attempts are made for `num` openings.
pub open spec fn attempt_limit(num: usize) -> int {
    if num * 200 < 1000 {
        1000
    } else if num * 200 > u64::MAX {
        u64::MAX as int
    } else {
        num * 200
    }
}

/// The kept openings lead to different positions.
pub proof fn law_kept_openings_differ(tries: Seq<Option<(Seq<Move>, Seq<char>)>>)
    ensures
        forall|i: int, j: int|
            0 <= i < j < kept_openings(tries).len() ==> (#[trigger] kept_openings(tries)[i]).1 != (
            #[trigger] kept_openings(tries)[j]).1,
    decreases tries.len(),
{
    if tries.len() > 0 {
        law_kept_openings_differ(tries.drop_last());
        let kept = kept_openings(tries.drop_last());
        let all = kept_openings(tries);
        assert forall|i: int, j: int| 0 <= i < j < all.len() implies (#[trigger] all[i]).1 != (
        #[trigger] all[j]).1 by {
            assert(all[i] == kept[i]);
            if j < kept.len() {
                assert(all[j] == kept[j]);
            }
        }
    }
}

/// One more move drawn.
proof fn lemma_draw<
    F: Fn(&Node) -> usize,
    C: Fn(u64, i32, u64) -> u64,
    A: Fn(u64, i32, u64) -> u64,
    E: Fn(&GameState) -> (Vec<(Move, u64)>, u64),
    N: Fn(&Node) -> Vec<u64>,
    S: Fn(&Vec<(Move, u32)>, u64, u32) -> usize,
>(
    select: F,
    charge: C,
    credit: A,
    evaluate: E,
    noise: N,
    sample: S,
    config: MctsConfig,
    attempt: u64,
    g: GameView,
    moves: Seq<Move>,
    turns: Seq<Turn>,
    t: Turn,
)
    requires
        moves.len() < u32::MAX,
        drawn(
            select,
            charge,
            credit,
            evaluate,
            noise,
            sample,
            config,
            attempt,
            g,
            moves,
            turns,
        ),
        t.before.spec_root() == tree_left(turns),
        drawn_by(
            select,
            charge,
            credit,
            evaluate,
            noise,
            sample,
            config,
            attempt,
            moves.len() as u32,
            t,
            replayed(g, moves),
            t.mv,
        ),
    ensures
        drawn(
            select,
            charge,
            credit,
            evaluate,
            noise,
            sample,
            config,
            attempt,
            g,
            moves.push(t.mv),
            turns.push(t),
        ),
{
    reveal(drawn);
    let more = moves.push(t.mv);
    let after = turns.push(t);
    lemma_one_more_turn(turns, t);
    assert forall|k: int| 0 <= k < more.len() implies #[trigger] drawn_at(
        select,
        charge,
        credit,
        evaluate,
        noise,
        sample,
        config,
        attempt,
        g,
        more,
        after,
        k,
    ) by {
        assert(more.take(k) =~= moves.take(k));
        if k < moves.len() {
            assert(drawn_at(
                select,
                charge,
                credit,
                evaluate,
                noise,
                sample,
                config,
                attempt,
                g,
                moves,
                turns,
                k,
            ));
            assert(after[k] == turns[k]);
        } else {
            assert(moves.take(k) =~= moves);
        }
    }
}

proof fn lemma_draw_nothing<
    F: Fn(&Node) -> usize,
    C: Fn(u64, i32, u64) -> u64,
    A: Fn(u64, i32, u64) -> u64,
    E: Fn(&GameState) -> (Vec<(Move, u64)>, u64),
    N: Fn(&Node) -> Vec<u64>,
    S: Fn(&Vec<(Move, u32)>, u64, u32) -> usize,
>(
    select: F,
    charge: C,
    credit: A,
    evaluate: E,
    noise: N,
    sample: S,
    config: MctsConfig,
    attempt: u64,
    g: GameView,
)
    ensures
        drawn(
            select,
            charge,
            credit,
            evaluate,
            noise,
            sample,
            config,
            attempt,
            g,
            Seq::<Move>::empty(),
            Seq::<Turn>::empty(),
        ),
{
    reveal(drawn);
}

/// Plays the moves of one opening, each picked by `sample` from the counts of a search. `None` if
/// the game ends too soon.
#[verifier::rlimit(30)]
fn one_opening<
    F: Fn(&Node) -> usize,
    C: Fn(u64, i32, u64) -> u64,
    A: Fn(u64, i32, u64) -> u64,
    E: Fn(&GameState) -> (Vec<(Move, u64)>, u64),
    N: Fn(&Node) -> Vec<u64>,
    S: Fn(&Vec<(Move, u32)>, u64, u32) -> usize,
>(
    plies: u32,
    config: MctsConfig,
    attempt: u64,
    select: &F,
    charge: &C,
    credit: &A,
    evaluate: &E,
    noise: &N,
    sample: &S,
) -> (r: Option<(Vec<Move>, String)>)
    requires
        selects(*select),
        forall|w: u64, s: i32, v: u64| #[trigger] call_requires(*charge, (w, s, v)),
        forall|w: u64, s: i32, v: u64| #[trigger] call_requires(*credit, (w, s, v)),
        evaluates(*evaluate),
        forall|n: Node| #[trigger] call_requires(*noise, (&n,)),
        forall|n: Node, p: Vec<u64>| #[trigger]
            call_ensures(*noise, (&n,), p) ==> p@.len() == n.edges@.len(),
        samples(*sample),
        config.n_simulations * 301 <= u32::MAX,
    ensures
        match r {
            Some((moves, fen)) => opening_line(
                *select,
                *charge,
                *credit,
                *evaluate,
                *noise,
                *sample,
                config,
                attempt,
                moves@,
                plies,
                fen@,
            ),
            None => cut_short(
                *select,
                *charge,
                *credit,
                *evaluate,
                *noise,
                *sample,
                config,
                attempt,
                plies,
            ),
        },
{
    let mut mcts = Mcts::new(config);
    let mut state = GameState::from_position(Position::starting());
    let ghost g = state@;
    let ghost sims = config.n_simulations as int;
    let mut line: Vec<Move> = Vec::new();
    proof {
        lemma_start_ordinary(g);
        assert(at_start(g));
        lemma_draw_nothing(
            *select,
            *charge,
            *credit,
            *evaluate,
            *noise,
            *sample,
            config,
            attempt,
            g,
        );
        assert(line@ =~= Seq::<Move>::empty());
    }
    let ghost mut turns: Seq<Turn> = Seq::empty();
    let mut i: u32 = 0;
    while i < plies
        invariant
            selects(*select),
            forall|w: u64, s: i32, v: u64| #[trigger] call_requires(*charge, (w, s, v)),
            forall|w: u64, s: i32, v: u64| #[trigger] call_requires(*credit, (w, s, v)),
            evaluates(*evaluate),
            forall|n: Node| #[trigger] call_requires(*noise, (&n,)),
            forall|n: Node, p: Vec<u64>| #[trigger]
                call_ensures(*noise, (&n,), p) ==> p@.len() == n.edges@.len(),
            samples(*sample),
            sims * 301 <= u32::MAX,
            0 <= sims,
            mcts.wf(),
            mcts.idle(),
            mcts.spec_config() == config,
            config.n_simulations == sims,
            i <= 300,
            mcts.spec_root() == tree_left(turns),
            mcts.spec_root() matches Some(root) ==> root.state@ == state@ && visits(root.edges@)
                <= i * sims,
            state.wf(),
            ordinary(state@),
            state@.history.len() == i,
            i <= plies,
            at_start(g),
            line@.len() == i,
            playable(g, line@),
            unended(g, line@),
            drawn(
                *select,
                *charge,
                *credit,
                *evaluate,
                *noise,
                *sample,
                config,
                attempt,
                g,
                line@,
                turns,
            ),
            state@ == replayed(g, line@),
        decreases plies - i,
    {
        proof {
            assert(i * sims <= 300 * sims) by (nonlinear_arith)
                requires
                    i <= 300,
                    0 <= sims,
            ;
        }
        let ghost before = mcts;
        let counts = mcts.run(state.clone(), select, charge, credit, evaluate, false, noise);
        let ghost root = mcts.spec_root().unwrap();
        proof {
            assert(root.state@ == state@);
            assert(tree_ok(root));
        }
        if counts.len() == 0 {
            proof {
                if !root.is_terminal {
                    assert(edge_moves(root.edges@).len() == 0);
                    assert(state@.position.outcome().is_terminal);
                }
            }
            return None;
        }
        proof {
            lemma_counts_total(root.edges@, counts@);
            assert(!state@.outcome().is_terminal);
            assert(state@.position_at(i as int).wf());
        }
        let k: usize = sample(&counts, attempt, i);
        let mv = counts[k].0;
        proof {
            assert(count_moves(counts@)[k as int] == mv);
            law_legal_list_exact(state@.position);
            assert(state@.position.legal_list().contains(mv));
            law_ordinary_games_judgeable(state@);
            law_ordinary_games_continue(state@, mv);
            assert((i + 1) * sims == i * sims + sims) by (nonlinear_arith);
            assert(root.edges@.skip(0) =~= root.edges@);
            lemma_child_by(root, root.edges@, 0, mv);
            assert(line@.push(mv).drop_last() =~= line@);
            let t = Turn { before, after: mcts, counts: counts@, mv };
            assert(drawn_by(
                *select,
                *charge,
                *credit,
                *evaluate,
                *noise,
                *sample,
                config,
                attempt,
                i,
                t,
                state@,
                mv,
            ));
            lemma_draw(
                *select,
                *charge,
                *credit,
                *evaluate,
                *noise,
                *sample,
                config,
                attempt,
                g,
                line@,
                turns,
                t,
            );
            turns = turns.push(t);
        }
        line.push(mv);
        state = state.make_move(mv);
        mcts.advance(mv);
        i += 1;
    }
    let fen = state.position.to_fen();
    Some((line, fen))
}

/// `sample` may be asked about any counts, and picks one of them.
pub open spec fn samples<S: Fn(&Vec<(Move, u32)>, u64, u32) -> usize>(sample: S) -> bool {
    &&& forall|c: Vec<(Move, u32)>, a: u64, i: u32|
        c@.len() > 0 ==> #[trigger] call_requires(sample, (&c, a, i))
    &&& forall|c: Vec<(Move, u32)>, a: u64, i: u32, k: usize| #[trigger]
        call_ensures(sample, (&c, a, i), k) && c@.len() > 0 ==> k < c@.len()
}

/// Makes up to `num` openings that lead to different positions, within a limited number of attempts.
/// `sample` picks a move from the counts of a search, given the attempt and the ply.
#[verifier::rlimit(30)]
pub fn generate<
    F: Fn(&Node) -> usize,
    C: Fn(u64, i32, u64) -> u64,
    A: Fn(u64, i32, u64) -> u64,
    E: Fn(&GameState) -> (Vec<(Move, u64)>, u64),
    N: Fn(&Node) -> Vec<u64>,
    S: Fn(&Vec<(Move, u32)>, u64, u32) -> usize,
>(
    num: usize,
    plies: u32,
    config: MctsConfig,
    select: &F,
    charge: &C,
    credit: &A,
    evaluate: &E,
    noise: &N,
    sample: &S,
) -> (r: Vec<Vec<Move>>)
    requires
        selects(*select),
        forall|w: u64, s: i32, v: u64| #[trigger] call_requires(*charge, (w, s, v)),
        forall|w: u64, s: i32, v: u64| #[trigger] call_requires(*credit, (w, s, v)),
        evaluates(*evaluate),
        forall|n: Node| #[trigger] call_requires(*noise, (&n,)),
        forall|n: Node, p: Vec<u64>| #[trigger]
            call_ensures(*noise, (&n,), p) ==> p@.len() == n.edges@.len(),
        samples(*sample),
        config.n_simulations * 301 <= u32::MAX,
    ensures
        r@.len() <= num,
        exists|tries: Seq<Option<(Seq<Move>, Seq<char>)>>|
            {
                &&& #[trigger] attempts_made(
                    *select,
                    *charge,
                    *credit,
                    *evaluate,
                    *noise,
                    *sample,
                    config,
                    plies,
                    tries,
                )
                &&& tries.len() <= attempt_limit(num)
                &&& r@.len() < num ==> tries.len() == attempt_limit(num)
                &&& r@.len() == kept_openings(tries).len()
                &&& forall|i: int|
                    0 <= i < r@.len() ==> (#[trigger] r@[i])@ == kept_openings(tries)[i].0
            },
{
    let mut openings: Vec<Vec<Move>> = Vec::new();
    let mut seen: Vec<String> = Vec::new();
    let scaled: u128 = (num as u128) * 200;
    let max_attempts: u64 = if scaled >= 0xffff_ffff_ffff_ffff {
        0xffff_ffff_ffff_ffff
    } else if scaled < 1000 {
        1000
    } else {
        scaled as u64
    };
    let ghost mut tries: Seq<Option<(Seq<Move>, Seq<char>)>> = Seq::empty();
    let mut attempt: u64 = 0;
    while attempt < max_attempts && openings.len() < num
        invariant
            selects(*select),
            forall|w: u64, s: i32, v: u64| #[trigger] call_requires(*charge, (w, s, v)),
            forall|w: u64, s: i32, v: u64| #[trigger] call_requires(*credit, (w, s, v)),
            evaluates(*evaluate),
            forall|n: Node| #[trigger] call_requires(*noise, (&n,)),
            forall|n: Node, p: Vec<u64>| #[trigger]
                call_ensures(*noise, (&n,), p) ==> p@.len() == n.edges@.len(),
            samples(*sample),
            config.n_simulations * 301 <= u32::MAX,
            openings@.len() <= num,
            max_attempts == attempt_limit(num),
            attempt <= max_attempts,
            tries.len() == attempt,
            attempts_made(
                *select,
                *charge,
                *credit,
                *evaluate,
                *noise,
                *sample,
                config,
                plies,
                tries,
            ),
            openings@.len() == kept_openings(tries).len(),
            seen@.len() == kept_openings(tries).len(),
            forall|i: int|
                0 <= i < seen@.len() ==> (#[trigger] seen@[i])@ == kept_openings(tries)[i].1,
            forall|i: int|
                0 <= i < openings@.len() ==> (#[trigger] openings@[i])@ == kept_openings(
                    tries,
                )[i].0,
        decreases max_attempts - attempt,
    {
        let ghost kept = kept_openings(tries);
        let ghost mut result: Option<(Seq<Move>, Seq<char>)> = None;
        if let Some((line, fen)) = one_opening(
            plies,
            config,
            attempt,
            select,
            charge,
            credit,
            evaluate,
            noise,
            sample,
        ) {
            proof {
                result = Some((line@, fen@));
                assert forall|i: int| 0 <= i < kept.len() implies (#[trigger] kept[i]).1
                    == seen@[i]@ by {}
            }
            if !already_seen(&seen, &fen) {
                openings.push(line);
                seen.push(fen);
                assert(!known(kept, result.unwrap().1));
            } else {
                proof {
                    let i = choose|i: int| 0 <= i < seen@.len() && (#[trigger] seen@[i])@ == fen@;
                    assert(kept[i].1 == fen@);
                    assert(known(kept, fen@));
                }
            }
        }
        proof {
            let next = tries.push(result);
            assert(next.drop_last() =~= tries);
            tries = next;
        }
        attempt += 1;
    }
    openings
}

fn already_seen(seen: &Vec<String>, fen: &String) -> (r: bool)
    ensures
        r == exists|i: int| 0 <= i < seen@.len() && (#[trigger] seen@[i])@ == fen@,
{
    let mut i: usize = 0;
    while i < seen.len()
        invariant
            i <= seen@.len(),
            forall|j: int| 0 <= j < i ==> (#[trigger] seen@[j])@ != fen@,
        decreases seen@.len() - i,
    {
        if seen[i] == *fen {
            return true;
        }
        i += 1;
    }
    false
}

} // verus!
