//! Whom a value counts for in the search and in the samples of the mutable board.

use vstd::prelude::*;

use crate::engine::data::{finalized, result_bits, PendingSample, TrainingSample};
use crate::engine::game::Play;
use crate::engine::mcts::{
    credited, credited_at, followed, forest_ok, link_ok, path_ok, result_value, Edge, Node, ONE,
};
use crate::engine::selfplay::samples_of;
use crate::engine::types::{Color, GameStatus};

verus! {

pub(crate) proof fn lemma_turns(
    nodes: Map<u32, Node>,
    plays: Map<u32, Play>,
    next_id: u32,
    root: u32,
    path: Seq<(u32, usize)>,
    k: int,
)
    requires
        forest_ok(nodes, plays, next_id),
        path_ok(nodes, root, path),
        0 <= k < path.len(),
    ensures
        (path.len() - k) % 2 == 1 ==> plays[path[k].0].board.side == plays[path.last().0].board.side,
        (path.len() - k) % 2 == 0 ==> plays[path[k].0].board.side
            == plays[path.last().0].board.side.opposite(),
    decreases path.len() - k,
{
    if k < path.len() - 1 {
        lemma_turns(nodes, plays, next_id, root, path, k + 1);
        assert(nodes.contains_key(path[k].0));
        assert(nodes[path[k].0].edges@[path[k].1 as int].child_id == Some(path[k + 1].0));
        assert(link_ok(nodes, plays, path[k].0, path[k].1 as int));
    }
}

/// A value at the end of a path counts as it is for the player to move there, and with the opposite
/// sign for the other: that is what each edge of the path is credited with, by who moves along it.
/// Each edge is counted once more.
pub proof fn law_value_counts_for_its_player<A: Fn(u32, i32, u32) -> u32>(
    credit: A,
    value: i32,
    unit: u32,
    a: Map<u32, Node>,
    b: Map<u32, Node>,
    plays: Map<u32, Play>,
    next_id: u32,
    root: u32,
    path: Seq<(u32, usize)>,
    leaf: Play,
    k: int,
)
    requires
        forest_ok(a, plays, next_id),
        path_ok(a, root, path),
        credited(credit, value, unit, a, b, path),
        0 <= k < path.len(),
        value > i32::MIN,
        plays[path.last().0].extended(
            a[path.last().0].edges@[path.last().1 as int].mv,
            leaf,
        ),
    ensures
        ({
            let (id, i) = path[k];
            let e = a[id].edges@[i as int];
            let f = b[id].edges@[i as int];
            let own = plays[id].board.side == leaf.board.side;
            &&& own ==> call_ensures(credit, (e.total_value, value, unit), f.total_value)
            &&& !own ==> call_ensures(
                credit,
                (e.total_value, (-value) as i32, unit),
                f.total_value,
            )
            &&& f.visit_count == e.visit_count + 1
            &&& f.mv == e.mv && f.prior == e.prior && f.child_id == e.child_id
        }),
{
    lemma_turns(a, plays, next_id, root, path, k);
    assert(credited_at(credit, value, unit, a, b, path, k));
}

/// A game that has ended counts as a win on the edges of its winner, as a loss on those of the other
/// side, and as nothing when it was drawn.
pub proof fn law_ended_game_counts_for_its_winner<A: Fn(u32, i32, u32) -> u32>(
    credit: A,
    a: Map<u32, Node>,
    b: Map<u32, Node>,
    plays: Map<u32, Play>,
    next_id: u32,
    root: u32,
    path: Seq<(u32, usize)>,
    leaf: Play,
    k: int,
)
    requires
        forest_ok(a, plays, next_id),
        path_ok(a, root, path),
        credited(credit, result_value(leaf.outcome(), leaf.board.side), ONE, a, b, path),
        0 <= k < path.len(),
        plays[path.last().0].extended(
            a[path.last().0].edges@[path.last().1 as int].mv,
            leaf,
        ),
    ensures
        ({
            let (id, i) = path[k];
            let e = a[id].edges@[i as int];
            let f = b[id].edges@[i as int];
            let one = 0x3f80_0000u32;
            match leaf.outcome().winner {
                Some(w) => if w == plays[id].board.side {
                    call_ensures(credit, (e.total_value, 1i32, one), f.total_value)
                } else {
                    call_ensures(credit, (e.total_value, -1i32, one), f.total_value)
                },
                None => call_ensures(credit, (e.total_value, 0i32, one), f.total_value),
            }
        }),
{
    law_value_counts_for_its_player(
        credit,
        result_value(leaf.outcome(), leaf.board.side),
        ONE,
        a,
        b,
        plays,
        next_id,
        root,
        path,
        leaf,
        k,
    );
}

/// A result is worth one to the side that won, minus one to the other, and nothing to either when it
/// is a draw.
pub proof fn law_result_value(status: GameStatus, side: Color)
    ensures
        result_value(status, side) == 1 <==> status.winner == Some(side),
        result_value(status, side) == -1 <==> status.winner == Some(side.opposite()),
        result_value(status, side) == 0 <==> status.winner is None,
        result_value(status, side.opposite()) == -result_value(status, side),
{
}

/// A sample of a game with a winner is labelled with one exactly if the side to move won, and with
/// minus one exactly if the other side did; a sample of a drawn game with zero. Its planes and its
/// policy are kept.
pub proof fn law_labels(
    pending: Seq<PendingSample>,
    winner: Option<Color>,
    done: Seq<TrainingSample>,
    i: int,
)
    requires
        finalized(pending, winner, done),
        0 <= i < pending.len(),
    ensures
        done.len() == pending.len(),
        done[i].value == 0x3f80_0000 <==> winner == Some(pending[i].side_to_move),
        done[i].value == 0xbf80_0000 <==> winner is Some && winner != Some(pending[i].side_to_move),
        done[i].value == 0 <==> winner is None,
        done[i].state == pending[i].state,
        done[i].policy == pending[i].policy,
{
}

/// The samples of a game are labelled by who was to move and who won in the end.
pub proof fn law_game_labels(samples: Seq<TrainingSample>, line: Seq<Play>, i: int)
    requires
        samples_of(samples, line),
        0 <= i < samples.len(),
    ensures
        samples[i].value == 0x3f80_0000 <==> line.last().outcome().winner == Some(
            line[i].board.side,
        ),
        samples[i].value == 0xbf80_0000 <==> line.last().outcome().winner is Some
            && line.last().outcome().winner != Some(line[i].board.side),
        samples[i].value == 0 <==> line.last().outcome().winner is None,
{
}

/// The label of a sample has the sign of the value that the search gives the same result for the
/// same player.
pub proof fn law_labels_agree_with_search(player: Color, status: GameStatus)
    ensures
        result_bits(status.winner, player) == 0x3f80_0000u32 <==> result_value(status, player) == 1,
        result_bits(status.winner, player) == 0xbf80_0000u32 <==> result_value(status, player) == -1,
        result_bits(status.winner, player) == 0 <==> result_value(status, player) == 0,
{
}

/// A policy lists the edges that were followed, each once, and no other.
pub proof fn law_followed(edges: Seq<Edge>, j: int)
    requires
        0 <= j < edges.len(),
    ensures
        followed(edges).len() <= edges.len(),
        edges[j].visit_count > 0 <==> followed(edges).contains(edges[j]),
        followed(seq![edges[j]]).len() == if edges[j].visit_count > 0 {
            1int
        } else {
            0
        },
{
    let p = |e: Edge| e.visit_count > 0;
    edges.lemma_filter_len(p);
    if edges[j].visit_count > 0 {
        edges.lemma_filter_contains(p, j);
    }
    if followed(edges).contains(edges[j]) {
        broadcast use vstd::seq_lib::group_filter_ensures;
        let i = choose|i: int| 0 <= i < edges.filter(p).len() && edges.filter(p)[i] == edges[j];
        assert(p(edges.filter(p)[i]));
    }
    let one = seq![edges[j]];
    reveal(Seq::filter);
    assert(one.drop_last() =~= Seq::<Edge>::empty());
    assert(one.drop_last().filter(p).len() == 0);
}

} // verus!
