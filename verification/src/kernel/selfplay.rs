//! Playing a whole game against oneself and turning it into training samples.

use rand::rngs::StdRng;
use rand::Rng;
use vstd::prelude::*;

use crate::kernel::encode::{encode, plane_cell, seen_move, to_canonical_action};
use crate::kernel::game::{GameState, GameView};
use crate::kernel::mcts::{child_by, counts_of, evaluates, searched, Mcts, MctsConfig};
use crate::kernel::position::Position;
use crate::kernel::tree::{
    edge_moves, law_ordinary_games_continue, law_ordinary_games_judgeable, lemma_visits_bound,
    lemma_visits_nonneg,
    ordinary, ordinary_position, selects, tree_ok, visits, Edge, Node,
};
use crate::kernel::types::{action_number, Color, Move};

verus! {

/// The generator `rand::rngs::StdRng`, carried as it is.
#[verifier::external_type_specification]
#[verifier::external_body]
pub struct ExStdRng(rand::rngs::StdRng);

/// `Rng::gen_range` of a `StdRng`: a number from zero up to, but not including, the bound. Which
/// one is left to chance.
#[verifier::external_body]
fn draw_below(rng: &mut StdRng, bound: u32) -> (r: u32)
    requires
        bound > 0,
    ensures
        r < bound,
{
    rng.gen_range(0..bound)
}

/// A training sample: the quantised planes of a position, the searched moves as actions seen from
/// the side to move, their shares and the result, both as bit patterns of floating-point numbers.
#[derive(Debug)]
pub struct Sample {
    pub state: Vec<u8>,
    pub pi_idx: Vec<i32>,
    pub pi_val: Vec<u32>,
    pub z: u32,
}

/// A sample whose game has not ended yet.
#[derive(Debug)]
pub struct Pending {
    pub state: Vec<u8>,
    pub pi_idx: Vec<i32>,
    pub pi_val: Vec<u32>,
    pub player: Color,
}

/// A cell of hundredths on the scale from 0 to 255, rounded half up.
pub open spec fn quantized(h: u8) -> u8 {
    if h <= 100 {
        ((h * 255 + 50) / 100) as u8
    } else {
        255
    }
}

/// The cells, given in hundredths, on the scale from 0 to 255.
pub fn quantize_state(cells: &[u8]) -> (r: Vec<u8>)
    ensures
        r@.len() == cells@.len(),
        forall|i: int| 0 <= i < cells@.len() ==> #[trigger] r@[i] == quantized(cells@[i]),
{
    let mut r: Vec<u8> = Vec::new();
    let mut i: usize = 0;
    while i < cells.len()
        invariant
            i <= cells@.len(),
            r@.len() == i,
            forall|j: int| 0 <= j < i ==> #[trigger] r@[j] == quantized(cells@[j]),
        decreases cells@.len() - i,
    {
        let h: u8 = cells[i];
        let q: u8 = if h <= 100 {
            ((h as u32 * 255 + 50) / 100) as u8
        } else {
            255
        };
        r.push(q);
        i += 1;
    }
    r
}

/// How often the moves were followed in all.
pub open spec fn total_count(counts: Seq<(Move, u32)>) -> int
    decreases counts.len(),
{
    if counts.len() == 0 {
        0
    } else {
        total_count(counts.drop_last()) + counts.last().1
    }
}

/// The move that number `r` falls on when the counts are laid end to end from index `i`; the last
/// one if it falls beyond them.
pub open spec fn drawn(counts: Seq<(Move, u32)>, i: int, r: int) -> int
    decreases counts.len() - i,
{
    if i < 0 || i >= counts.len() {
        counts.len() - 1
    } else if r < counts[i].1 {
        i
    } else {
        drawn(counts, i + 1, r - counts[i].1)
    }
}

/// Index `i` holds the first of the largest counts.
pub open spec fn first_best(counts: Seq<(Move, u32)>, i: int) -> bool {
    &&& 0 <= i < counts.len()
    &&& forall|j: int| 0 <= j < counts.len() ==> (#[trigger] counts[j]).1 <= counts[i].1
    &&& forall|j: int| 0 <= j < i ==> (#[trigger] counts[j]).1 < counts[i].1
}

/// The move with the largest count, the first of several.
pub fn argmax_move(counts: &[(Move, u32)]) -> (r: Move)
    requires
        counts@.len() > 0,
    ensures
        exists|i: int| first_best(counts@, i) && (#[trigger] counts@[i]).0 == r,
{
    let mut best: usize = 0;
    let mut i: usize = 1;
    while i < counts.len()
        invariant
            1 <= i <= counts@.len(),
            best < i,
            forall|j: int| 0 <= j < i ==> (#[trigger] counts@[j]).1 <= counts@[best as int].1,
            forall|j: int| 0 <= j < best ==> (#[trigger] counts@[j]).1 < counts@[best as int].1,
        decreases counts@.len() - i,
    {
        if counts[i].1 > counts[best].1 {
            best = i;
        }
        i += 1;
    }
    assert(first_best(counts@, best as int));
    counts[best].0
}

proof fn lemma_total_prefix(counts: Seq<(Move, u32)>, k: int)
    requires
        0 <= k <= counts.len(),
    ensures
        0 <= total_count(counts.take(k)) <= total_count(counts),
    decreases counts.len(),
{
    if k < counts.len() {
        lemma_total_prefix(counts.drop_last(), k);
        assert(counts.drop_last().take(k) =~= counts.take(k));
    } else {
        assert(counts.take(k) =~= counts);
        if counts.len() > 0 {
            lemma_total_prefix(counts.drop_last(), counts.len() - 1);
            assert(counts.drop_last().take(counts.len() - 1) =~= counts.drop_last());
        }
    }
}

/// The sum of the counts.
pub fn count_total(counts: &[(Move, u32)]) -> (r: u32)
    requires
        total_count(counts@) <= u32::MAX,
    ensures
        r == total_count(counts@),
{
    let mut total: u32 = 0;
    let mut i: usize = 0;
    while i < counts.len()
        invariant
            i <= counts@.len(),
            total == total_count(counts@.take(i as int)),
            total_count(counts@) <= u32::MAX,
        decreases counts@.len() - i,
    {
        proof {
            assert(counts@.take(i + 1).drop_last() =~= counts@.take(i as int));
            lemma_total_prefix(counts@, i + 1);
        }
        total = total + counts[i].1;
        i += 1;
    }
    assert(counts@.take(counts@.len() as int) =~= counts@);
    total
}

/// The move to play, given the number `r` drawn for it: in the first `temperature_moves` plies the
/// one that the number falls on, then the one with the largest count.
pub fn choose_move(counts: &[(Move, u32)], ply: u32, temperature_moves: u32, r: u32) -> (mv: Move)
    requires
        counts@.len() > 0,
    ensures
        ply < temperature_moves ==> mv == counts@[drawn(counts@, 0, r as int)].0,
        ply >= temperature_moves ==> exists|i: int|
            first_best(counts@, i) && (#[trigger] counts@[i]).0 == mv,
{
    if ply < temperature_moves {
        let mut left: u32 = r;
        let mut i: usize = 0;
        while i < counts.len()
            invariant
                ply < temperature_moves,
                i <= counts@.len(),
                drawn(counts@, 0, r as int) == drawn(counts@, i as int, left as int),
            decreases counts@.len() - i,
        {
            if left < counts[i].1 {
                return counts[i].0;
            }
            left = left - counts[i].1;
            i += 1;
        }
        return counts[counts.len() - 1].0;
    }
    argmax_move(counts)
}

/// A number below the total falls on a move that was followed.
pub proof fn law_draw_hits_followed_move(counts: Seq<(Move, u32)>, i: int, r: int)
    requires
        0 <= i <= counts.len(),
        0 <= r < total_count(counts) - total_count(counts.take(i)),
    ensures
        i <= drawn(counts, i, r) < counts.len(),
        counts[drawn(counts, i, r)].1 > 0,
    decreases counts.len() - i,
{
    if i == counts.len() {
        assert(counts.take(i) =~= counts);
    } else {
        assert(counts.take(i + 1).drop_last() =~= counts.take(i));
        if r >= counts[i].1 {
            law_draw_hits_followed_move(counts, i + 1, r - counts[i].1);
        }
    }
}

/// The move at index `i` may be played after so many plies: in the first `temperature_moves` plies
/// any that was followed, or the last if none was; then the one with the largest count.
pub open spec fn pickable(
    counts: Seq<(Move, u32)>,
    i: int,
    ply: int,
    temperature_moves: u32,
) -> bool {
    &&& 0 <= i < counts.len()
    &&& if ply >= temperature_moves {
        first_best(counts, i)
    } else if total_count(counts) > 0 {
        counts[i].1 > 0
    } else {
        i == counts.len() - 1
    }
}

/// The move to play: drawn with chances in proportion to the counts in the first
/// `temperature_moves` plies, then the one with the largest count.
pub fn select_move(
    counts: &[(Move, u32)],
    ply: u32,
    temperature_moves: u32,
    rng: &mut StdRng,
) -> (mv: Move)
    requires
        counts@.len() > 0,
        ply < temperature_moves ==> total_count(counts@) <= u32::MAX,
    ensures
        exists|i: int| #[trigger]
            pickable(counts@, i, ply as int, temperature_moves) && counts@[i].0 == mv,
{
    if ply < temperature_moves {
        let total: u32 = count_total(counts);
        if total > 0 {
            let r: u32 = draw_below(rng, total);
            proof {
                assert(counts@.take(0) =~= Seq::empty());
                law_draw_hits_followed_move(counts@, 0, r as int);
                assert(pickable(
                    counts@,
                    drawn(counts@, 0, r as int),
                    ply as int,
                    temperature_moves,
                ));
            }
            return choose_move(counts, ply, temperature_moves, r);
        }
        assert(pickable(counts@, counts@.len() - 1, ply as int, temperature_moves));
        return counts[counts.len() - 1].0;
    }
    let mv = choose_move(counts, ply, temperature_moves, 0);
    proof {
        let i = choose|i: int| first_best(counts@, i) && (#[trigger] counts@[i]).0 == mv;
        assert(pickable(counts@, i, ply as int, temperature_moves));
    }
    mv
}

/// The bit pattern of the result for `player`: one for a win, minus one for a loss, zero for a draw.
pub open spec fn z_bits(winner: Option<Color>, player: Color) -> u32 {
    match winner {
        None => 0,
        Some(w) => if w == player {
            0x3f80_0000
        } else {
            0xbf80_0000
        },
    }
}

/// The sample `s` is the pending sample `p` with the result.
pub open spec fn finalized(p: Pending, winner: Option<Color>, s: Sample) -> bool {
    &&& s.state == p.state
    &&& s.pi_idx == p.pi_idx
    &&& s.pi_val == p.pi_val
    &&& s.z == z_bits(winner, p.player)
}

/// Fills in the result of the game.
pub fn finalize_samples(pending: Vec<Pending>, winner: Option<Color>) -> (r: Vec<Sample>)
    ensures
        r@.len() == pending@.len(),
        forall|i: int| 0 <= i < r@.len() ==> finalized(pending@[i], winner, #[trigger] r@[i]),
        forall|i: int|
            0 <= i < r@.len() ==> {
                &&& (#[trigger] r@[i]).z == 0x3f80_0000 <==> winner == Some(pending@[i].player)
                &&& r@[i].z == 0xbf80_0000 <==> winner is Some && winner != Some(pending@[i].player)
                &&& r@[i].z == 0 <==> winner is None
            },
{
    let ghost all = pending@;
    let n: usize = pending.len();
    let mut pending = pending;
    let mut back: Vec<Sample> = Vec::new();
    while pending.len() > 0
        invariant
            n == all.len(),
            pending@.len() + back@.len() == n,
            pending@ == all.take(pending@.len() as int),
            forall|i: int|
                0 <= i < back@.len() ==> finalized(all[n - 1 - i], winner, #[trigger] back@[i]),
        decreases pending@.len(),
    {
        let p: Pending = pending.pop().unwrap();
        assert(p == all[pending@.len() as int]);
        assert(pending@ =~= all.take(pending@.len() as int));
        let z: u32 = match winner {
            None => 0,
            Some(w) => if w == p.player {
                0x3f80_0000
            } else {
                0xbf80_0000
            },
        };
        back.push(Sample { state: p.state, pi_idx: p.pi_idx, pi_val: p.pi_val, z });
    }
    let mut r: Vec<Sample> = Vec::new();
    while back.len() > 0
        invariant
            n == all.len(),
            r@.len() + back@.len() == n,
            forall|i: int|
                0 <= i < back@.len() ==> finalized(all[n - 1 - i], winner, #[trigger] back@[i]),
            forall|i: int| 0 <= i < r@.len() ==> finalized(all[i], winner, #[trigger] r@[i]),
        decreases back@.len(),
    {
        let ghost before = back@;
        let s: Sample = back.pop().unwrap();
        assert(finalized(all[n - 1 - (before.len() - 1)], winner, before[before.len() - 1]));
        r.push(s);
    }
    r
}

/// The planes, moves and player of a pending sample are those of a game: one action for each legal
/// move, in their order, and as many shares.
pub open spec fn shows(
    state: Seq<u8>,
    pi_idx: Seq<i32>,
    pi_val: Seq<u32>,
    g: GameView,
) -> bool {
    let legal = g.position.legal_list();
    &&& state.len() == 8910
    &&& forall|i: int| 0 <= i < 8910 ==> #[trigger] state[i] == quantized(plane_cell(g, i))
    &&& pi_idx.len() == legal.len()
    &&& pi_val.len() == legal.len()
    &&& forall|j: int|
        0 <= j < legal.len() ==> #[trigger] pi_idx[j] == action_number(
            seen_move(legal[j], g.position.side),
        )
}

/// The shares are those of the counts in their total, as `ratio` gives them.
pub open spec fn shares<Q: Fn(u32, u32) -> u32>(
    ratio: Q,
    counts: Seq<(Move, u32)>,
    pi_val: Seq<u32>,
) -> bool {
    &&& pi_val.len() == counts.len()
    &&& forall|j: int|
        0 <= j < counts.len() ==> call_ensures(
            ratio,
            (counts[j].1, total_count(counts) as u32),
            #[trigger] pi_val[j],
        )
}

pub open spec fn count_moves(counts: Seq<(Move, u32)>) -> Seq<Move> {
    counts.map_values(|c: (Move, u32)| c.0)
}

/// The action numbers of the counted moves as `player` sees them, and the shares of the counts in
/// their total.
fn policy_of<Q: Fn(u32, u32) -> u32>(
    counts: &Vec<(Move, u32)>,
    player: Color,
    total: u32,
    ratio: &Q,
) -> (r: (Vec<i32>, Vec<u32>))
    requires
        forall|n: u32, t: u32| #[trigger] call_requires(*ratio, (n, t)),
        forall|j: int| 0 <= j < counts@.len() ==> (#[trigger] counts@[j]).0.on_board(),
    ensures
        r.0@.len() == counts@.len(),
        r.1@.len() == counts@.len(),
        forall|j: int|
            0 <= j < counts@.len() ==> #[trigger] r.0@[j] == action_number(
                seen_move(counts@[j].0, player),
            ),
        forall|j: int|
            0 <= j < counts@.len() ==> call_ensures(
                *ratio,
                (counts@[j].1, total),
                #[trigger] r.1@[j],
            ),
{
    let mut pi_idx: Vec<i32> = Vec::new();
    let mut pi_val: Vec<u32> = Vec::new();
    let mut i: usize = 0;
    while i < counts.len()
        invariant
            i <= counts@.len(),
            forall|n: u32, t: u32| #[trigger] call_requires(*ratio, (n, t)),
            forall|j: int| 0 <= j < counts@.len() ==> (#[trigger] counts@[j]).0.on_board(),
            pi_idx@.len() == i,
            pi_val@.len() == i,
            forall|j: int|
                0 <= j < i ==> #[trigger] pi_idx@[j] == action_number(
                    seen_move(counts@[j].0, player),
                ),
            forall|j: int|
                0 <= j < i ==> call_ensures(*ratio, (counts@[j].1, total), #[trigger] pi_val@[j]),
        decreases counts@.len() - i,
    {
        let (mv, n) = counts[i];
        proof {
            assert(counts@[i as int].0.on_board());
            crate::kernel::encode::law_canonical_actions(mv, mv, player);
        }
        let id: usize = to_canonical_action(mv, player);
        let share: u32 = ratio(n, total);
        pi_idx.push(id as i32);
        pi_val.push(share);
        i += 1;
    }
    (pi_idx, pi_val)
}

/// Notes a position with the counts of its search. `ratio` gives the bit pattern of a quotient.
pub fn record<Q: Fn(u32, u32) -> u32>(
    state: &GameState,
    counts: &Vec<(Move, u32)>,
    ratio: &Q,
) -> (r: Pending)
    requires
        forall|n: u32, t: u32| #[trigger] call_requires(*ratio, (n, t)),
        total_count(counts@) <= u32::MAX,
        state@.position.wf(),
        count_moves(counts@) == state@.position.legal_list(),
    ensures
        shows(r.state@, r.pi_idx@, r.pi_val@, state@),
        shares(*ratio, counts@, r.pi_val@),
        r.player == state@.position.side,
{
    let player = state.position.side_to_move;
    let total: u32 = count_total(counts);
    let ghost legal = state@.position.legal_list();
    proof {
        crate::kernel::setup::law_legal_list_exact(state@.position);
        assert forall|j: int| 0 <= j < counts@.len() implies (#[trigger] counts@[j]).0 == legal[j]
            && legal[j].on_board() by {
            assert(count_moves(counts@)[j] == counts@[j].0);
            assert(legal.contains(legal[j]));
        }
    }
    let (pi_idx, pi_val) = policy_of(counts, player, total, ratio);
    let planes = encode(state);
    let quantised = quantize_state(&planes);
    Pending { state: quantised, pi_idx, pi_val, player }
}

/// `next` continues `g` by a move that may be played, given counts for its legal moves that make up
/// at least `sims`.
pub open spec fn picked_move(
    sims: int,
    temperature_moves: u32,
    counts: Seq<(Move, u32)>,
    g: GameView,
    next: GameView,
) -> bool {
    &&& count_moves(counts) == g.position.legal_list()
    &&& sims <= total_count(counts)
    &&& exists|i: int| #[trigger]
        pickable(counts, i, g.history.len() as int, temperature_moves) && next == g.after(
            counts[i].0,
        )
}

/// A turn of a game: the tree before and after the search, how often it followed each legal move,
/// and the move that was played.
pub struct Turn {
    pub before: Mcts,
    pub after: Mcts,
    pub counts: Seq<(Move, u32)>,
    pub mv: Move,
}

/// What is left of a tree after a move.
pub open spec fn tree_after(m: Mcts, mv: Move) -> Option<Node> {
    match m.spec_root() {
        Some(root) => child_by(root.edges@, mv),
        None => None,
    }
}

/// The first turn begins without a tree, and each other with what is left of the tree of the one
/// before.
pub open spec fn trees_follow(turns: Seq<Turn>) -> bool {
    &&& turns.len() > 0 ==> turns[0].before.spec_root() is None
    &&& forall|i: int|
        0 <= i < turns.len() - 1 ==> (#[trigger] turns[i + 1]).before.spec_root() == tree_after(
            turns[i].after,
            turns[i].mv,
        )
}

/// The tree with which the next turn begins.
pub open spec fn tree_left(turns: Seq<Turn>) -> Option<Node> {
    if turns.len() == 0 {
        None
    } else {
        tree_after(turns.last().after, turns.last().mv)
    }
}

pub(crate) proof fn lemma_one_more_turn(turns: Seq<Turn>, t: Turn)
    requires
        trees_follow(turns),
        t.before.spec_root() == tree_left(turns),
    ensures
        trees_follow(turns.push(t)),
{
    let more = turns.push(t);
    assert forall|i: int| 0 <= i < more.len() - 1 implies (#[trigger] more[i + 1]).before.spec_root()
        == tree_after(more[i].after, more[i].mv) by {
        if i < turns.len() - 1 {
            assert(more[i + 1] == turns[i + 1]);
        }
    }
}

/// The turn leads from `g` to `next` by a search of `g`, a move that may be played after it, and the
/// shares are those of the counts.
pub open spec fn turn_taken<
    F: Fn(&Node) -> usize,
    C: Fn(u64, i32, u64) -> u64,
    A: Fn(u64, i32, u64) -> u64,
    E: Fn(&GameState) -> (Vec<(Move, u64)>, u64),
    N: Fn(&Node) -> Vec<u64>,
    Q: Fn(u32, u32) -> u32,
>(
    select: F,
    charge: C,
    credit: A,
    evaluate: E,
    noisy: bool,
    noise: N,
    ratio: Q,
    config: MctsConfig,
    temperature_moves: u32,
    t: Turn,
    pi_val: Seq<u32>,
    g: GameView,
    next: GameView,
) -> bool {
    &&& t.before.spec_config() == config
    &&& searched(select, charge, credit, evaluate, noisy, noise, t.before, t.after, g, t.counts)
    &&& picked_move(config.n_simulations as int, temperature_moves, t.counts, g, next)
    &&& next == g.after(t.mv)
    &&& shares(ratio, t.counts, pi_val)
}

/// `next` continues `g` by a move that may be played, and the shares are those of some counts for
/// the legal moves.
pub open spec fn move_noted<Q: Fn(u32, u32) -> u32>(
    ratio: Q,
    sims: int,
    temperature_moves: u32,
    pi_val: Seq<u32>,
    g: GameView,
    next: GameView,
) -> bool {
    exists|counts: Seq<(Move, u32)>| #[trigger]
        picked_move(sims, temperature_moves, counts, g, next) && shares(ratio, counts, pi_val)
}

/// The games of a line, from the starting position, each but the first continuing the one before
/// by a legal move.
pub open spec fn is_line(line: Seq<GameView>) -> bool {
    &&& line.len() > 0
    &&& line[0].history.len() == 0
    &&& crate::kernel::setup::fen_describes(
        "rheakaehr/9/1c5c1/p1p1p1p1p/9/9/P1P1P1P1P/1C5C1/9/RHEAKAEHR r"@,
        line[0].position,
    )
    &&& forall|i: int| 0 <= i < line.len() - 1 ==> #[trigger] continues(line[i], line[i + 1])
}

/// `next` continues `g`, which has not ended, by a legal move.
pub open spec fn continues(g: GameView, next: GameView) -> bool {
    &&& !g.outcome().is_terminal
    &&& exists|mv: Move| g.position.legal(mv) && next == #[trigger] g.after(mv)
}

/// The samples show the games of a line but the last, with the result of the last.
pub open spec fn samples_of(samples: Seq<Sample>, line: Seq<GameView>) -> bool {
    &&& is_line(line)
    &&& samples.len() == line.len() - 1
    &&& forall|i: int|
        0 <= i < samples.len() ==> shows(
            (#[trigger] samples[i]).state@,
            samples[i].pi_idx@,
            samples[i].pi_val@,
            line[i],
        ) && samples[i].z == z_bits(line.last().outcome().winner, line[i].position.side)
}

/// A game that starts from the starting position can be searched.
pub(crate) proof fn lemma_start_ordinary(g: GameView)
    requires
        g.wf(),
        g.history.len() == 0,
        g.position.quiet == 0,
        g.position.fullmove == 1,
        forall|c: Color| (#[trigger] g.position.king(c)) is Some,
    ensures
        ordinary(g),
{
    assert forall|i: int| 0 <= i <= g.history.len() implies ordinary_position(
        #[trigger] g.position_at(i),
    ) by {
        assert(g.position_at(i) == g.position);
        assert(g.position_at(i).wf());
    }
}

pub(crate) proof fn lemma_counts_total(edges: Seq<Edge>, counts: Seq<(Move, u32)>)
    requires
        counts_of(edges, counts),
    ensures
        total_count(counts) == visits(edges),
        count_moves(counts) == edge_moves(edges),
    decreases edges.len(),
{
    assert(count_moves(counts) =~= edge_moves(edges));
    if edges.len() > 0 {
        assert(counts[edges.len() - 1] == (edges[edges.len() - 1].mv, edges[edges.len() - 1].n));
        lemma_counts_total(edges.drop_last(), counts.drop_last());
    }
}

/// The child behind a move, if there is one, is one of the children.
pub(crate) proof fn lemma_child_by(node: Node, edges: Seq<Edge>, k: int, mv: Move)
    requires
        tree_ok(node),
        0 <= k <= node.edges@.len(),
        edges == node.edges@.skip(k),
        visits(node.edges@) <= u32::MAX,
    ensures
        child_by(edges, mv) matches Some(c) ==> c.state@ == node.state@.after(mv) && visits(
            c.edges@,
        ) <= visits(node.edges@),
    decreases edges.len(),
{
    if edges.len() > 0 {
        assert(edges[0] == node.edges@[k]);
        assert(edges.drop_first() =~= node.edges@.skip(k + 1));
        if edges[0].mv == mv {
            if edges[0].child is Some {
                assert(node.edges@[k].child is Some);
                lemma_visits_bound(node.edges@, k);
            }
        } else {
            lemma_child_by(node, edges.drop_first(), k + 1, mv);
        }
    }
}

/// Plays a game from the starting position against itself and returns a sample for each position
/// that was searched. The game ends by the rules or after `max_total_plies` moves.
#[verifier::rlimit(30)]
pub fn play_game<
    F: Fn(&Node) -> usize,
    C: Fn(u64, i32, u64) -> u64,
    A: Fn(u64, i32, u64) -> u64,
    E: Fn(&GameState) -> (Vec<(Move, u64)>, u64),
    N: Fn(&Node) -> Vec<u64>,
    Q: Fn(u32, u32) -> u32,
>(
    mcts: &mut Mcts,
    select: &F,
    charge: &C,
    credit: &A,
    evaluate: &E,
    noisy: bool,
    noise: &N,
    ratio: &Q,
    temperature_moves: u32,
    max_total_plies: u32,
    rng: &mut StdRng,
) -> (r: Vec<Sample>)
    requires
        selects(*select),
        forall|w: u64, s: i32, v: u64| #[trigger] call_requires(*charge, (w, s, v)),
        forall|w: u64, s: i32, v: u64| #[trigger] call_requires(*credit, (w, s, v)),
        evaluates(*evaluate),
        forall|n: Node| #[trigger] call_requires(*noise, (&n,)),
        forall|n: Node, p: Vec<u64>| #[trigger]
            call_ensures(*noise, (&n,), p) ==> p@.len() == n.edges@.len(),
        forall|n: u32, t: u32| #[trigger] call_requires(*ratio, (n, t)),
        old(mcts).wf(),
        old(mcts).spec_config().n_simulations * 301 <= u32::MAX,
    ensures
        final(mcts).wf(),
        final(mcts).spec_config() == old(mcts).spec_config(),
        exists|line: Seq<GameView>, turns: Seq<Turn>|
            {
                &&& #[trigger] samples_of(r@, line)
                &&& line.len() - 1 <= max_total_plies
                &&& line.len() - 1 < max_total_plies ==> line.last().outcome().is_terminal
                &&& turns.len() == r@.len()
                &&& #[trigger] trees_follow(turns)
                &&& forall|i: int|
                    0 <= i < r@.len() ==> turn_taken(
                        *select,
                        *charge,
                        *credit,
                        *evaluate,
                        noisy,
                        *noise,
                        *ratio,
                        old(mcts).spec_config(),
                        temperature_moves,
                        turns[i],
                        (#[trigger] r@[i]).pi_val@,
                        line[i],
                        line[i + 1],
                    )
            },
{
    mcts.reset();
    let mut state = GameState::from_position(Position::starting());
    let mut pending: Vec<Pending> = Vec::new();
    let mut ply: u32 = 0;
    let ghost mut line: Seq<GameView> = seq![state@];
    let ghost mut turns: Seq<Turn> = Seq::empty();
    let ghost config = mcts.spec_config();
    let ghost sims = mcts.spec_config().n_simulations as int;
    proof {
        lemma_start_ordinary(state@);
    }
    while ply < max_total_plies
        invariant_except_break
            mcts.idle(),
            mcts.spec_root() == tree_left(turns),
            mcts.spec_root() matches Some(root) ==> root.state@ == state@ && visits(root.edges@)
                <= ply * sims,
        invariant
            selects(*select),
            forall|w: u64, s: i32, v: u64| #[trigger] call_requires(*charge, (w, s, v)),
            forall|w: u64, s: i32, v: u64| #[trigger] call_requires(*credit, (w, s, v)),
            evaluates(*evaluate),
            forall|n: Node| #[trigger] call_requires(*noise, (&n,)),
            forall|n: Node, p: Vec<u64>| #[trigger]
                call_ensures(*noise, (&n,), p) ==> p@.len() == n.edges@.len(),
            forall|n: u32, t: u32| #[trigger] call_requires(*ratio, (n, t)),
            mcts.wf(),
            mcts.spec_config() == old(mcts).spec_config(),
            config == mcts.spec_config(),
            sims == mcts.spec_config().n_simulations,
            sims * 301 <= u32::MAX,
            state.wf(),
            ordinary(state@),
            state@.history.len() == ply,
            ply <= max_total_plies,
            is_line(line),
            line.last() == state@,
            line.len() == ply + 1,
            pending@.len() == ply,
            forall|i: int|
                0 <= i < pending@.len() ==> shows(
                    (#[trigger] pending@[i]).state@,
                    pending@[i].pi_idx@,
                    pending@[i].pi_val@,
                    line[i],
                ) && pending@[i].player == line[i].position.side,
            ply <= 300,
            turns.len() == pending@.len(),
            trees_follow(turns),
            forall|i: int|
                0 <= i < pending@.len() ==> turn_taken(
                    *select,
                    *charge,
                    *credit,
                    *evaluate,
                    noisy,
                    *noise,
                    *ratio,
                    config,
                    temperature_moves,
                    turns[i],
                    (#[trigger] pending@[i]).pi_val@,
                    line[i],
                    line[i + 1],
                ),
        ensures
            ply < max_total_plies ==> state@.outcome().is_terminal,
        decreases max_total_plies - ply,
    {
        proof {
            assert(ply * sims <= 300 * sims) by (nonlinear_arith)
                requires
                    ply <= 300,
                    0 <= sims,
            ;
        }
        let ghost kept = mcts.kept(state@);
        let ghost before = *mcts;
        let counts = mcts.run(state.clone(), select, charge, credit, evaluate, noisy, noise);
        let ghost root = mcts.spec_root().unwrap();
        proof {
            assert(root.state@ == state@);
            assert(tree_ok(root));
        }
        if counts.len() == 0 {
            proof {
                if !root.is_terminal {
                    assert(edge_moves(root.edges@).len() == 0);
                    assert(state@.position.outcome().is_terminal);
                }
            }
            break;
        }
        proof {
            lemma_counts_total(root.edges@, counts@);
            if let Some(kept) = kept {
                lemma_visits_nonneg(kept.edges@);
            }
            assert(root.is_expanded);
            assert(!state@.outcome().is_terminal);
            assert(state@.position_at(ply as int).wf());
        }
        let ghost noted = pending@;
        pending.push(record(&state, &counts, ratio));
        let mv = select_move(&counts, ply, temperature_moves, rng);
        proof {
            let i = choose|i: int| #[trigger]
                pickable(counts@, i, ply as int, temperature_moves) && counts@[i].0 == mv;
            assert(picked_move(sims, temperature_moves, counts@, state@, state@.after(mv)));
            let t = Turn { before, after: *mcts, counts: counts@, mv };
            assert(turn_taken(
                *select,
                *charge,
                *credit,
                *evaluate,
                noisy,
                *noise,
                *ratio,
                config,
                temperature_moves,
                t,
                pending@.last().pi_val@,
                state@,
                state@.after(mv),
            ));
            lemma_one_more_turn(turns, t);
            let turns_before = turns;
            turns = turns.push(t);
            assert(count_moves(counts@)[i] == mv);
            crate::kernel::setup::law_legal_list_exact(state@.position);
            assert(state@.position.legal_list().contains(mv));
            law_ordinary_games_judgeable(state@);
            law_ordinary_games_continue(state@, mv);
            assert(root.edges@.skip(0) =~= root.edges@);
            lemma_child_by(root, root.edges@, 0, mv);
            assert((ply + 1) * sims == ply * sims + sims) by (nonlinear_arith);
            let next = line.push(state@.after(mv));
            assert(continues(state@, state@.after(mv)));
            assert forall|k: int| 0 <= k < next.len() - 1 implies #[trigger] continues(
                next[k],
                next[k + 1],
            ) by {
                if k < line.len() - 1 {
                    assert(continues(line[k], line[k + 1]));
                }
            }
            assert forall|i: int| 0 <= i < pending@.len() implies turn_taken(
                *select,
                *charge,
                *credit,
                *evaluate,
                noisy,
                *noise,
                *ratio,
                config,
                temperature_moves,
                turns[i],
                (#[trigger] pending@[i]).pi_val@,
                next[i],
                next[i + 1],
            ) by {
                if i < noted.len() {
                    assert(pending@[i] == noted[i]);
                    assert(turns[i] == turns_before[i]);
                }
            }
            line = next;
        }
        state = state.make_move(mv);
        mcts.advance(mv);
        ply += 1;
    }
    proof {
        law_ordinary_games_judgeable(state@);
    }
    let winner = state.status().winner;
    let r = finalize_samples(pending, winner);
    proof {
        assert forall|i: int| 0 <= i < r@.len() implies shows(
            (#[trigger] r@[i]).state@,
            r@[i].pi_idx@,
            r@[i].pi_val@,
            line[i],
        ) && r@[i].z == z_bits(line.last().outcome().winner, line[i].position.side) by {
            assert(finalized(pending@[i], winner, r@[i]));
        }
        assert(samples_of(r@, line));
        assert(trees_follow(turns));
        assert forall|i: int| 0 <= i < r@.len() implies turn_taken(
            *select,
            *charge,
            *credit,
            *evaluate,
            noisy,
            *noise,
            *ratio,
            config,
            temperature_moves,
            turns[i],
            (#[trigger] r@[i]).pi_val@,
            line[i],
            line[i + 1],
        ) by {
            assert(finalized(pending@[i], winner, r@[i]));
        }
    }
    r
}

} // verus!
