//! How the search tree grows, and what is kept of it.

use vstd::prelude::*;

use crate::kernel::game::GameView;
use crate::kernel::mcts::{child_by, mixed, wave_size, Mcts};
use crate::kernel::tree::{edge_moves, expanded_with, visits, Edge, Node};
use crate::kernel::types::Move;

verus! {

/// A node that is expanded gets an edge for each move that was evaluated, in their order, with its
/// prior, not followed yet and worth nothing so far. One that was expanded before stays as it is.
pub proof fn law_expansion(a: Node, b: Node, priors: Seq<(Move, u64)>, i: int)
    requires
        expanded_with(a, b, priors),
        0 <= i < priors.len(),
    ensures
        a.is_expanded ==> b == a,
        !a.is_expanded ==> {
            let e = b.edges@[i];
            &&& b.is_expanded
            &&& b.state == a.state
            &&& b.edges@.len() == priors.len()
            &&& e.mv == priors[i].0 && e.prior == priors[i].1
            &&& e.n == 0 && e.w == 0 && e.child is None
            &&& visits(b.edges@) == 0
        },
{
    if !a.is_expanded {
        assert forall|j: int| 0 <= j < b.edges@.len() implies (#[trigger] b.edges@[j]).n == 0 by {}
        crate::kernel::tree::lemma_visits_zero(b.edges@);
    }
}

/// Noise changes the priors of the root alone, to what `noise` gives, and only once; without it, and
/// where there is no choice, nothing changes.
pub proof fn law_noise<N: Fn(&Node) -> Vec<u64>>(noisy: bool, noise: N, a: Node, b: Node, j: int)
    requires
        mixed(noisy, noise, a, b),
        0 <= j < a.edges@.len(),
    ensures
        !noisy || a.noise_added || a.edges@.len() < 2 ==> b == a,
        noisy && !a.noise_added && a.edges@.len() >= 2 ==> b.noise_added && exists|p: Vec<u64>|
            #[trigger] call_ensures(noise, (&a,), p) && b.edges@[j].prior == p@[j],
        b.state == a.state && b.edges@.len() == a.edges@.len(),
        ({
            let (e, f) = (a.edges@[j], b.edges@[j]);
            f.mv == e.mv && f.n == e.n && f.w == e.w && f.child == e.child
        }),
{
}

/// A wave collects as many leaves as simulations are left, but no more than a batch.
pub proof fn law_wave_size(m: Mcts)
    ensures
        ({
            let left = m.spec_config().n_simulations - m.done();
            let batch = m.spec_config().collect_batch_size;
            let w = wave_size(m);
            &&& left <= 0 ==> w == 0
            &&& left > 0 ==> 1 <= w <= left && (batch >= 1 ==> w <= batch) && (batch == 0 ==> w == 1)
            &&& left > 0 ==> w == left || w == batch || batch == 0
        }),
{
}

/// The tree is kept for a game exactly when its root stands at the same position after as many moves.
pub proof fn law_tree_kept(m: Mcts, g: GameView)
    requires
        m.spec_root() is Some,
        m.spec_root().unwrap().state@.position.wf(),
        g.position.wf(),
    ensures
        ({
            let r = m.spec_root().unwrap();
            let same = r.state@.position.grid() == g.position.grid() && r.state@.position.side
                == g.position.side && r.state@.history.len() == g.history.len();
            &&& same ==> m.kept(g) == Some(r)
            &&& !same ==> m.kept(g) is None
        }),
{
    crate::kernel::laws::law_key_identifies_position(
        m.spec_root().unwrap().state@.position,
        g.position,
    );
}

/// What is left of a tree after a move is the subtree behind the edge of the move, and nothing if
/// there is none.
pub proof fn law_subtree_kept(edges: Seq<Edge>, mv: Move, j: int)
    requires
        0 <= j < edges.len(),
        edges[j].mv == mv,
        forall|i: int| 0 <= i < j ==> (#[trigger] edges[i]).mv != mv,
    ensures
        edges[j].child is None ==> child_by(edges, mv) is None,
        edges[j].child is Some ==> child_by(edges, mv) == Some(*edges[j].child.unwrap()),
    decreases edges.len(),
{
    if j > 0 {
        let rest = edges.drop_first();
        assert(edges[0].mv != mv);
        assert forall|i: int| 0 <= i < j - 1 implies (#[trigger] rest[i]).mv != mv by {
            assert(rest[i] == edges[i + 1]);
        }
        law_subtree_kept(rest, mv, j - 1);
    }
}

/// How often the edges of a node were followed is the sum over them.
pub proof fn law_visits_add_up(edges: Seq<Edge>, e: Edge)
    ensures
        visits(edges.push(e)) == visits(edges) + e.n,
        visits(Seq::<Edge>::empty()) == 0,
        edge_moves(edges.push(e)) == edge_moves(edges).push(e.mv),
{
    assert(edges.push(e).drop_last() =~= edges);
    assert(edge_moves(edges.push(e)) =~= edge_moves(edges).push(e.mv));
}

} // verus!
