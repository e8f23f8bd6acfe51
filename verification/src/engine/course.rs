//! The course of a search and of a game on the mutable board.

use vstd::prelude::*;

use crate::engine::drive::{acted, Awaited, Driver};
use crate::engine::encode::{action_number, EncodedState};
use crate::engine::game::{GameState, Play};
use crate::engine::infer::{shape_fault, ShapeFault};
use crate::engine::mcts::{
    advanced, all_simulated, child_for, child_of, credited_at, edge_moves, evaluated, evaluated_node,
    followed, leads, noised, picked, prepared, reach_in, reachable, root_ready, searched, visits, Edge,
    Mcts, Node,
};
use crate::engine::selfplay::{
    action_legal, actions_legal, encodes, moved_on, policy_of, trees_follow, turn_taken, SelfPlay, Turn,
};
use crate::engine::types::{Color, Move};

verus! {

/// The evaluation of a game, which is that for the player to move in it, is added on the edges of
/// that player and subtracted on those of the other.
pub proof fn law_evaluation_counts_for_its_player<A: Fn(u32, i32, u32) -> u32>(
    credit: A,
    m: Mcts,
    grown: Mcts,
    b: Mcts,
    priors: Seq<u32>,
    value: u32,
    k: int,
)
    requires
        m.wf(),
        m.awaiting(),
        evaluated_node(credit, m, grown, b, priors, value),
        0 <= k < m.spec_path().len(),
    ensures
        ({
            let (id, i) = m.spec_path()[k];
            let e = m.spec_nodes()[id].edges@[i as int];
            let f = b.spec_nodes()[id].edges@[i as int];
            let own = m.spec_plays()[id].board.side == m.spec_game()@.board.side;
            &&& own ==> call_ensures(credit, (e.total_value, 1i32, value), f.total_value)
            &&& !own ==> call_ensures(credit, (e.total_value, -1i32, value), f.total_value)
            &&& f.visit_count == e.visit_count + 1
            &&& f.mv == e.mv && f.prior == e.prior
        }),
{
    let path = m.spec_path();
    crate::engine::credit::lemma_turns(
        m.spec_nodes(),
        m.spec_plays(),
        m.spec_next_id(),
        m.spec_root_id(),
        path,
        k,
    );
    assert(credited_at(credit, 1, value, grown.spec_nodes(), b.spec_nodes(), path, k));
    assert(m.spec_nodes().contains_key(path[k].0));
    assert(path[k].0 < m.spec_next_id());
    assert(path.last() == path[path.len() - 1]);
    assert(m.spec_nodes().contains_key(path[path.len() - 1].0));
}

/// The game that was evaluated has a node of its own, behind the last edge of the path, with one edge
/// for each legal move in their order, that has its prior and was not followed yet.
pub proof fn law_leaf_made<A: Fn(u32, i32, u32) -> u32>(
    credit: A,
    m: Mcts,
    grown: Mcts,
    b: Mcts,
    priors: Seq<u32>,
    value: u32,
    j: int,
)
    requires
        m.wf(),
        m.awaiting(),
        evaluated_node(credit, m, grown, b, priors, value),
        0 <= j < m.spec_game()@.board.legal_list(m.spec_game()@.board.side, false).len(),
    ensures
        ({
            let (id, i) = m.spec_path().last();
            let c = m.spec_next_id();
            let p = m.spec_game()@;
            let e = b.spec_nodes()[c].edges@[j];
            &&& !m.spec_nodes().contains_key(c)
            &&& b.spec_nodes().contains_key(c)
            &&& b.spec_nodes()[id].edges@[i as int].child_id == Some(c)
            &&& !b.spec_nodes()[c].is_terminal
            &&& e.mv == p.board.legal_list(p.board.side, false)[j] && e.prior == priors[j]
            &&& e.visit_count == 0 && e.total_value == 0 && e.child_id is None
        }),
{
    let path = m.spec_path();
    let c = m.spec_next_id();
    assert(!m.spec_nodes().contains_key(c));
    assert forall|k: int| 0 <= k < path.len() implies (#[trigger] path[k]).0 != c by {
        assert(m.spec_nodes().contains_key(path[k].0));
    }
    assert(grown.spec_nodes().contains_key(c));
    assert(b.spec_nodes()[c] == grown.spec_nodes()[c]);
    assert(credited_at(
        credit,
        1,
        value,
        grown.spec_nodes(),
        b.spec_nodes(),
        path,
        path.len() - 1,
    ));
    assert(m.spec_nodes().contains_key(path[path.len() - 1].0));
}

/// A walk that ends at a game that has ended finds one for its winner, minus one for the other side,
/// and zero for a draw.
pub proof fn law_ended_walk(a: Mcts, m: Mcts, value: i32)
    requires
        m.ended(a, value),
        m.spec_path().len() > 0,
        a.spec_nodes()[m.spec_path().last().0].edges@[m.spec_path().last().1 as int].child_id is None,
    ensures
        ({
            let p = m.spec_game()@;
            let leaf = m.spec_nodes()[a.spec_next_id()];
            &&& p.outcome().is_terminal
            &&& value == 1 <==> p.outcome().winner == Some(p.board.side)
            &&& value == -1 <==> p.outcome().winner == Some(p.board.side.opposite())
            &&& value == 0 <==> p.outcome().winner is None
            &&& leaf.is_terminal && leaf.terminal_value == value && leaf.edges@.len() == 0
        }),
{
}

/// Each edge of a walk is one that `select` picks at its node.
pub proof fn law_walk_follows_select<S: Fn(&Node) -> usize>(
    select: S,
    nodes: Map<u32, Node>,
    path: Seq<(u32, usize)>,
    k: int,
)
    requires
        picked(select, nodes, path),
        0 <= k < path.len(),
    ensures
        call_ensures(select, (&nodes[path[k].0],), path[k].1),
{
}

/// Without a tree a search makes a root for its game: with the legal moves in their order and their
/// priors if it goes on, or with no moves and the result for the side to move if it has ended.
pub proof fn law_root_made<E: Fn(&GameState, &Vec<Move>) -> (Vec<u32>, u32)>(
    evaluate: E,
    a: Mcts,
    b: Mcts,
)
    requires
        root_ready(evaluate, a, b),
        !a.rooted(),
    ensures
        ({
            let status = a.spec_game().status;
            let p = a.spec_game()@;
            let legal = p.board.legal_list(p.board.side, false);
            let root = b.root();
            &&& b.rooted()
            &&& root.is_terminal == status.is_terminal
            &&& status.is_terminal ==> root.edges@.len() == 0 && (root.terminal_value == 1
                <==> status.winner == Some(p.board.side)) && (root.terminal_value == 0
                <==> status.winner is None)
            &&& !status.is_terminal ==> root.edges@.len() == legal.len() && exists|
                said: (Vec<u32>, u32),
            | #[trigger]
                evaluated(evaluate, p, said) && forall|j: int|
                    0 <= j < legal.len() ==> (#[trigger] root.edges@[j]).mv == legal[j]
                        && root.edges@[j].prior == said.0@[j] && root.edges@[j].visit_count == 0
                        && root.edges@[j].total_value == 0
        }),
{
}

/// A tree that there is stays as it is when a search begins.
pub proof fn law_root_kept<E: Fn(&GameState, &Vec<Move>) -> (Vec<u32>, u32)>(
    evaluate: E,
    a: Mcts,
    b: Mcts,
)
    requires
        root_ready(evaluate, a, b),
        a.rooted(),
    ensures
        b.root() == a.root(),
        b.spec_nodes() == a.spec_nodes(),
{
}

/// Noise changes the priors of the root, to what `noise` gives, and nothing else.
pub proof fn law_noise<N: Fn(&Node) -> Vec<u32>>(noise: N, a: Mcts, b: Mcts, j: int)
    requires
        noised(noise, a, b),
        a.rooted(),
        0 <= j < a.root().edges@.len(),
    ensures
        b.root().edges@.len() == a.root().edges@.len(),
        exists|p: Vec<u32>| #[trigger]
            call_ensures(noise, (&a.root(),), p) && b.root().edges@[j].prior == p@[j],
        ({
            let (e, f) = (a.root().edges@[j], b.root().edges@[j]);
            f.mv == e.mv && f.visit_count == e.visit_count && f.total_value == e.total_value
                && f.child_id == e.child_id
        }),
        forall|id: u32|
            id != a.spec_root_id() && #[trigger] a.spec_nodes().contains_key(id)
                ==> b.spec_nodes().contains_key(id) && b.spec_nodes()[id] == a.spec_nodes()[id],
{
    let root = a.spec_root_id();
    assert forall|id: u32|
        id != root && #[trigger] a.spec_nodes().contains_key(id) implies b.spec_nodes().contains_key(
        id,
    ) && b.spec_nodes()[id] == a.spec_nodes()[id] by {
        assert(a.spec_nodes().remove(root).contains_key(id));
        assert(b.spec_nodes().remove(root).contains_key(id));
        assert(a.spec_nodes().remove(root)[id] == b.spec_nodes().remove(root)[id]);
    }
}

/// A move leads to where the edge of the move leads.
pub proof fn law_subtree_kept(edges: Seq<Edge>, mv: Move, j: int)
    requires
        0 <= j < edges.len(),
        edges[j].mv == mv,
        forall|i: int| 0 <= i < j ==> (#[trigger] edges[i]).mv != mv,
    ensures
        child_for(edges, mv) == edges[j].child_id,
    decreases edges.len(),
{
    if j > 0 {
        let rest = edges.drop_first();
        assert(edges[0].mv != mv);
        assert forall|i: int| 0 <= i < j - 1 implies (#[trigger] rest[i]).mv != mv by {
            assert(rest[i] == edges[i + 1]);
        }
        law_subtree_kept(rest, mv, j - 1);
    }
}

/// A search runs as many simulations as were asked for, and its counts are those of the edges of the
/// root.
pub proof fn law_search_counts<
    S: Fn(&Node) -> usize,
    A: Fn(u32, i32, u32) -> u32,
    E: Fn(&GameState, &Vec<Move>) -> (Vec<u32>, u32),
    N: Fn(&Node) -> Vec<u32>,
>(
    select: S,
    credit: A,
    evaluate: E,
    noisy: bool,
    noise: N,
    before: Mcts,
    after: Mcts,
    counts: Seq<(Move, u32)>,
    j: int,
)
    requires
        searched(select, credit, evaluate, noisy, noise, before, after, counts),
        0 <= j < counts.len(),
    ensures
        counts.len() == after.root().edges@.len(),
        counts[j].0 == after.root().edges@[j].mv,
        counts[j].1 == after.root().edges@[j].visit_count,
        exists|steps: Seq<Mcts>| #[trigger]
            all_simulated(select, credit, evaluate, steps) && steps.len() - 1 == before.simulations()
                && steps.last() == after,
{
}

/// After a move the tree is what could be reached below it, node for node as it was; after a move that
/// leads nowhere there is none.
pub proof fn law_tree_advanced(a: Mcts, b: Mcts, mv: Move, id: u32, j: int)
    requires
        a.rooted(),
        advanced(a, b, mv),
    ensures
        a.next_root(mv) is None ==> !b.spec_nodes().contains_key(id),
        a.next_root(mv) is Some ==> {
            let c = a.next_root(mv).unwrap();
            &&& b.spec_root_id() == c && b.root() == a.spec_nodes()[c]
            &&& b.spec_nodes().contains_key(id) ==> a.spec_nodes().contains_key(id)
                && b.spec_nodes()[id] == a.spec_nodes()[id]
            &&& b.spec_nodes().contains_key(id) && 0 <= j < a.spec_nodes()[id].edges@.len() ==> (
            a.spec_nodes()[id].edges@[j].child_id matches Some(d) ==> (a.spec_nodes().contains_key(d)
                ==> b.spec_nodes().contains_key(d)))
        },
{
    if a.next_root(mv) is Some && b.spec_nodes().contains_key(id) {
        let c = a.next_root(mv).unwrap();
        assert(b.spec_nodes()[id] == a.spec_nodes()[id]);
        assert(b.spec_nodes().contains_key(c));
        assert(b.spec_nodes()[c] == a.spec_nodes()[c]);
        if 0 <= j < a.spec_nodes()[id].edges@.len() && a.spec_nodes()[id].edges@[j].child_id is Some {
            let d = a.spec_nodes()[id].edges@[j].child_id.unwrap();
            assert(leads(a.spec_nodes(), id, j, d));
            assert(reachable(a.spec_nodes(), c, id));
            let n = choose|n: nat| reach_in(a.spec_nodes(), c, id, n);
            assert(child_of(a.spec_nodes(), id, d));
            assert(reach_in(a.spec_nodes(), c, d, n + 1));
            assert(reachable(a.spec_nodes(), c, d));
        }
    } else if a.next_root(mv) is Some {
        let c = a.next_root(mv).unwrap();
        assert(b.spec_nodes().contains_key(c));
        assert(b.spec_nodes()[c] == a.spec_nodes()[c]);
    }
}

/// A sample of a game holds the plies since the last capture, as far as a byte can.
pub proof fn law_sample_shows(state: EncodedState, p: Play)
    requires
        encodes(state, p),
    ensures
        p.board.quiet < 256 ==> state.no_capture_plies == p.board.quiet,
        p.board.quiet >= 256 ==> state.no_capture_plies == 255,
{
}

/// A move that was played stands in the counts, at the place that was picked with the temperature of
/// the ply, and the sample of the ply is that of the search.
pub proof fn law_move_played<
    S: Fn(&Node) -> usize,
    A: Fn(u32, i32, u32) -> u32,
    E: Fn(&GameState, &Vec<Move>) -> (Vec<u32>, u32),
    N: Fn(&Node) -> Vec<u32>,
    R: Fn(u32, u32) -> u32,
    C: Fn(&Vec<(Move, u32)>, bool) -> usize,
>(
    select: S,
    credit: A,
    evaluate: E,
    noisy: bool,
    noise: N,
    ratio: R,
    sample: C,
    sims: usize,
    warm: bool,
    t: Turn,
    policy: Seq<(u16, u32)>,
    p: Play,
    next: Play,
)
    requires
        turn_taken(
            select,
            credit,
            evaluate,
            noisy,
            noise,
            ratio,
            sample,
            sims,
            warm,
            t,
            policy,
            p,
            next,
        ),
    ensures
        exists|i: int|
            {
                &&& 0 <= i < t.counts@.len()
                &&& p.extended((#[trigger] t.counts@[i]).0, next)
                &&& p.board.legal_list(p.board.side, false).contains(t.counts@[i].0)
                &&& call_ensures(sample, (&t.counts, warm), i as usize)
            },
        visits(t.after.root().edges@) >= sims,
        policy_of(ratio, t.after.root().edges@, p.board.side, policy),
{
    let i = t.index as int;
    let edges = t.after.root().edges@;
    assert(edge_moves(edges)[i] == edges[i].mv);
    assert(t.counts@[i] == (edges[i].mv, edges[i].visit_count));
    assert(p.board.legal_list(p.board.side, false)[i] == t.counts@[i].0);
}

/// A search that is to have noise gets it after its root is made and before its simulations; one
/// that is not goes on with the root as it was made.
pub proof fn law_noise_before_search<
    E: Fn(&GameState, &Vec<Move>) -> (Vec<u32>, u32),
    N: Fn(&Node) -> Vec<u32>,
>(evaluate: E, noisy: bool, noise: N, a: Mcts, b: Mcts)
    requires
        prepared(evaluate, noisy, noise, a, b),
    ensures
        !noisy ==> root_ready(evaluate, a, b),
        noisy ==> exists|made: Mcts| #[trigger]
            root_ready(evaluate, a, made) && noised(noise, made, b),
{
}

/// Of the tree that a turn leaves, the next begins with the part below the move that was played; the
/// first begins with none.
pub proof fn law_turns_hang_together(turns: Seq<Turn>, i: int, id: u32)
    requires
        trees_follow(turns),
        0 <= i < turns.len() - 1,
        turns[i].after.rooted(),
    ensures
        !turns[0].before.spec_nodes().contains_key(id),
        ({
            let mv = turns[i].counts@[turns[i].index as int].0;
            let (a, b) = (turns[i].after, turns[i + 1].before);
            &&& a.next_root(mv) is None ==> !b.spec_nodes().contains_key(id)
            &&& a.next_root(mv) is Some ==> b.root() == a.spec_nodes()[a.next_root(mv).unwrap()]
        }),
{
    let mv = turns[i].counts@[turns[i].index as int].0;
    law_tree_advanced(turns[i].after, turns[i + 1].before, mv, id, 0);
}

/// A sample is noted with a move: it shows the game before the move, belongs to the side that made
/// it, and has the policy of the counts; the game that was played goes on by the move.
pub proof fn law_move_noted<R: Fn(u32, u32) -> u32>(
    ratio: R,
    a: SelfPlay,
    b: SelfPlay,
    index: usize,
)
    requires
        moved_on(ratio, a, b, index),
    ensures
        ({
            let sample = b.samples().last();
            let game = a.mcts.spec_game()@;
            &&& b.samples().len() == a.samples().len() + 1
            &&& sample.side_to_move == game.board.side
            &&& encodes(sample.state, game)
            &&& policy_of(ratio, a.mcts.root().edges@, game.board.side, sample.policy@)
            &&& game.extended(a.mcts.root().edges@[index as int].mv, b.mcts.spec_game()@)
            &&& b.mcts.spec_game().status == b.mcts.spec_game()@.outcome()
            &&& forall|j: int|
                0 <= j < a.samples().len() ==> #[trigger] b.samples()[j] == a.samples()[j]
        }),
{
    assert forall|j: int| 0 <= j < a.samples().len() implies #[trigger] b.samples()[j]
        == a.samples()[j] by {
        assert(b.samples().drop_last()[j] == b.samples()[j]);
    }
}

/// Every action of a policy is that of a legal move of the side to move.
pub proof fn law_actions_are_legal(policy: Seq<(u16, u32)>, p: Play, k: int)
    requires
        actions_legal(policy, p),
        0 <= k < policy.len(),
    ensures
        exists|mv: Move|
            {
                &&& #[trigger] p.board.legal(mv, p.board.side)
                &&& policy[k].0 == 90 * (9 * (if p.board.side == Color::Red {
                    mv.from.y as int
                } else {
                    9 - mv.from.y
                }) + mv.from.x) + 9 * (if p.board.side == Color::Red {
                    mv.to.y as int
                } else {
                    9 - mv.to.y
                }) + mv.to.x
            },
{
    assert(action_legal(policy[k].0, p));
    let mv = choose|mv: Move|
        p.board.legal(mv, p.board.side) && policy[k].0 == #[trigger] action_number(
            p.board.side,
            mv,
        );
    crate::engine::reading::law_action_formula(mv, p.board.side);
    assert(p.board.legal(mv, p.board.side));
}

/// A game in which a search begins gets noise exactly if it is to have any; when the simulations are
/// done, the move is picked by their counts, with a high temperature as long as fewer moves were made
/// than asked for.
pub proof fn law_driver_searches<
    S: Fn(&Node) -> usize,
    A: Fn(u32, i32, u32) -> u32,
    N: Fn(&Node) -> Vec<u32>,
    R: Fn(u32, u32) -> u32,
    C: Fn(&Vec<(Move, u32)>, bool) -> usize,
>(select: S, credit: A, noisy: bool, noise: N, ratio: R, sample: C, a: Driver, b: Driver)
    requires
        acted(select, credit, noisy, noise, ratio, sample, a, b),
    ensures
        !a.started && a.game.mcts.rooted() ==> if noisy {
            noised(noise, a.game.mcts, b.game.mcts)
        } else {
            b.game.mcts == a.game.mcts
        },
        a.started && a.done >= a.game.mcts.simulations() ==> exists|
            counts: Vec<(Move, u32)>,
            warm: bool,
            index: usize,
        | #[trigger]
            call_ensures(sample, (&counts, warm), index) && counts@.len()
                == a.game.mcts.root().edges@.len() && (warm <==> a.game.warm_moves()
                > a.game.samples().len()) && moved_on(ratio, a.game, b.game, index),
{
    if a.started && a.done >= a.game.mcts.simulations() {
        let (counts, index) = choose|counts: Vec<(Move, u32)>, index: usize| #[trigger]
            crate::engine::drive::plays(ratio, sample, a, b, counts, index);
        let warm = a.game.samples().len() < a.game.warm_moves();
        assert(call_ensures(sample, (&counts, warm), index));
    }
}

/// How often the edges were followed is the sum over them.
pub proof fn law_visits_add_up(edges: Seq<Edge>, e: Edge)
    ensures
        visits(edges.push(e)) == visits(edges) + e.visit_count,
        visits(Seq::<Edge>::empty()) == 0,
{
    assert(edges.push(e).drop_last() =~= edges);
}

/// An entry of a policy belongs to an edge that was followed: it holds the number of its move and
/// its share in all visits.
pub proof fn law_policy_entry<R: Fn(u32, u32) -> u32>(
    ratio: R,
    edges: Seq<Edge>,
    side: Color,
    policy: Seq<(u16, u32)>,
    k: int,
)
    requires
        policy_of(ratio, edges, side, policy),
        0 <= k < policy.len(),
    ensures
        exists|j: int|
            {
                &&& 0 <= j < edges.len()
                &&& (#[trigger] edges[j]).visit_count > 0
                &&& policy[k].0 == action_number(side, edges[j].mv)
                &&& call_ensures(ratio, (edges[j].visit_count, visits(edges) as u32), policy[k].1)
            },
{
    let p = |e: Edge| e.visit_count > 0;
    broadcast use vstd::seq_lib::group_filter_ensures;
    let e = edges.filter(p)[k];
    assert(followed(edges)[k] == e);
    assert(p(e));
    edges.lemma_filter_contains_rev(p, e);
    let j = choose|j: int| 0 <= j < edges.len() && edges[j] == e;
    assert(edges[j].visit_count > 0);
    assert(policy[k].0 == action_number(side, edges[j].mv));
}

/// Every edge that was followed has an entry in the policy.
pub proof fn law_policy_complete<R: Fn(u32, u32) -> u32>(
    ratio: R,
    edges: Seq<Edge>,
    side: Color,
    policy: Seq<(u16, u32)>,
    j: int,
)
    requires
        policy_of(ratio, edges, side, policy),
        0 <= j < edges.len(),
        edges[j].visit_count > 0,
    ensures
        policy.len() <= edges.len(),
        exists|k: int|
            0 <= k < policy.len() && (#[trigger] policy[k]).0 == action_number(side, edges[j].mv),
{
    let p = |e: Edge| e.visit_count > 0;
    edges.lemma_filter_len(p);
    edges.lemma_filter_contains(p, j);
    let k = choose|k: int| 0 <= k < edges.filter(p).len() && edges.filter(p)[k] == edges[j];
    assert(followed(edges)[k] == edges[j]);
    assert(policy[k].0 == action_number(side, edges[j].mv));
}

/// A game asks for the evaluation of a position it has no node for, runs its simulations, and moves
/// when they are done; a move adds one sample.
pub proof fn law_driver_acts<
    S: Fn(&Node) -> usize,
    A: Fn(u32, i32, u32) -> u32,
    N: Fn(&Node) -> Vec<u32>,
    R: Fn(u32, u32) -> u32,
    C: Fn(&Vec<(Move, u32)>, bool) -> usize,
>(select: S, credit: A, noisy: bool, noise: N, ratio: R, sample: C, a: Driver, b: Driver)
    requires
        acted(select, credit, noisy, noise, ratio, sample, a, b),
    ensures
        !a.started && !a.game.mcts.rooted() ==> b.awaited == Some(Awaited::Root) && !b.started
            && b.game == a.game,
        !a.started && a.game.mcts.rooted() ==> b.started && b.done == 0 && b.awaited is None
            && b.game.played() == a.game.played(),
        a.started && a.done < a.game.mcts.simulations() ==> b.started && b.game.played()
            == a.game.played() && (b.awaited is None ==> b.done == a.done + 1) && (b.awaited is Some
            ==> b.awaited == Some(Awaited::Leaf) && b.done == a.done),
        a.started && a.done >= a.game.mcts.simulations() ==> !b.started && b.awaited is None
            && b.game.samples().len() == a.game.samples().len() + 1 && b.game.played().drop_last()
            == a.game.played() && exists|index: int|
            0 <= index < a.game.mcts.root().edges@.len() && a.game.mcts.spec_game()@.extended(
                (#[trigger] a.game.mcts.root().edges@[index]).mv,
                b.game.mcts.spec_game()@,
            ),
{
}

/// An answer to a batch is in order exactly if it has a row of 8100 priors and a row of one value for
/// each position; the priors are looked at first.
pub proof fn law_answer_shapes(policy: Seq<i64>, value: Seq<i64>, n: int)
    ensures
        shape_fault(policy, value, n) is None <==> policy =~= seq![n as i64, 8100] && value =~= seq![
            n as i64,
            1,
        ] && i64::MIN <= n <= i64::MAX,
        shape_fault(policy, value, n) == Some(ShapeFault::Value) ==> policy.len() == 2,
        shape_fault(policy, value, n) == Some(ShapeFault::Policy) <==> !(policy.len() == 2 && policy[0]
            == n && policy[1] == 8100),
{
}

} // verus!
