//! Whom a value counts for: in the search, in the samples, and when a move is picked.

use vstd::prelude::*;

use crate::kernel::game::GameView;
use crate::kernel::mcts::{taken_in, ONE};
use crate::kernel::selfplay::{
    drawn, finalized, first_best, pickable, quantized, samples_of, total_count, z_bits, Pending, Sample,
};
use crate::kernel::tree::{
    backed_up, expanded_at, node_at, on_path, result_value, signed, tree_ok, walk_ends, walked, Node,
};
use crate::kernel::types::{Color, GameStatus, Move};

verus! {

proof fn lemma_prefix(path: Seq<usize>, k: int)
    requires
        0 < k <= path.len(),
    ensures
        path.take(k).drop_first() == path.drop_first().take(k - 1),
        path.take(k)[0] == path[0],
        path.drop_first()[k - 1] == path[k] || k == path.len(),
{
    assert(path.take(k).drop_first() =~= path.drop_first().take(k - 1));
}

/// The players take turns along a path.
proof fn lemma_turns(node: Node, path: Seq<usize>)
    requires
        tree_ok(node),
        on_path(node, path),
    ensures
        tree_ok(node_at(node, path)),
        path.len() % 2 == 0 ==> node_at(node, path).to_play == node.to_play,
        path.len() % 2 == 1 ==> node_at(node, path).to_play == node.to_play.opposite(),
    decreases path.len(),
{
    if path.len() > 0 {
        let e = node.edges@[path[0] as int];
        reveal_with_fuel(tree_ok, 2);
        assert(e.child is Some);
        assert(e.child.unwrap().state@ == node.state@.after(e.mv));
        lemma_turns(*e.child.unwrap(), path.drop_first());
    }
}

proof fn lemma_on_prefix(node: Node, path: Seq<usize>, k: int)
    requires
        on_path(node, path),
        0 <= k <= path.len(),
    ensures
        on_path(node, path.take(k)),
        on_path(node_at(node, path.take(k)), path.skip(k)),
        node_at(node_at(node, path.take(k)), path.skip(k)) == node_at(node, path),
    decreases k,
{
    if k > 0 {
        lemma_prefix(path, k);
        lemma_on_prefix(*node.edges@[path[0] as int].child.unwrap(), path.drop_first(), k - 1);
        assert(path.drop_first().skip(k - 1) =~= path.skip(k));
    } else {
        assert(path.skip(0) =~= path);
    }
}

pub(crate) proof fn lemma_signs<A: Fn(u64, i32, u64) -> u64>(
    credit: A,
    value: i32,
    unit: u64,
    a: Node,
    b: Node,
    path: Seq<usize>,
    k: int,
)
    requires
        backed_up(credit, value, unit, a, b, path),
        0 <= k < path.len(),
    ensures
        ({
            let e = node_at(a, path.take(k)).edges@[path[k] as int];
            let f = node_at(b, path.take(k)).edges@[path[k] as int];
            &&& call_ensures(credit, (e.w, signed(value, (path.len() - k) as nat), unit), f.w)
            &&& f.mv == e.mv
            &&& f.prior == e.prior
            &&& f.n == e.n
        }),
    decreases k,
{
    if k > 0 {
        lemma_prefix(path, k);
        lemma_signs(
            credit,
            value,
            unit,
            *a.edges@[path[0] as int].child.unwrap(),
            *b.edges@[path[0] as int].child.unwrap(),
            path.drop_first(),
            k - 1,
        );
    }
}

/// A value at the end of a path counts as it is for the player to move there, and with the opposite
/// sign for the other: that is what each edge of the path is credited with, by who moves along it.
pub proof fn law_value_counts_for_its_player<A: Fn(u64, i32, u64) -> u64>(
    credit: A,
    value: i32,
    unit: u64,
    a: Node,
    b: Node,
    path: Seq<usize>,
    k: int,
)
    requires
        tree_ok(a),
        on_path(a, path),
        backed_up(credit, value, unit, a, b, path),
        0 <= k < path.len(),
        value > i32::MIN,
    ensures
        ({
            let n = node_at(a, path.take(k));
            let e = n.edges@[path[k] as int];
            let f = node_at(b, path.take(k)).edges@[path[k] as int];
            let own = n.state@.position.side == node_at(a, path).state@.position.side;
            &&& own ==> call_ensures(credit, (e.w, value, unit), f.w)
            &&& !own ==> call_ensures(credit, (e.w, (-value) as i32, unit), f.w)
        }),
{
    lemma_signs(credit, value, unit, a, b, path, k);
    lemma_on_prefix(a, path, k);
    lemma_turns(a, path.take(k));
    lemma_turns(node_at(a, path.take(k)), path.skip(k));
    lemma_turns(a, path);
}

/// The `k`-th edge of the path was credited with `s` units.
pub open spec fn credited_with<A: Fn(u64, i32, u64) -> u64>(
    credit: A,
    unit: u64,
    a: Node,
    b: Node,
    path: Seq<usize>,
    k: int,
    s: i32,
) -> bool {
    call_ensures(
        credit,
        (node_at(a, path.take(k)).edges@[path[k] as int].w, s, unit),
        node_at(b, path.take(k)).edges@[path[k] as int].w,
    )
}

/// Two edges of a path that follow each other are credited with opposite signs, and the last one
/// with minus the value of the leaf.
pub proof fn law_signs_alternate<A: Fn(u64, i32, u64) -> u64>(
    credit: A,
    value: i32,
    unit: u64,
    a: Node,
    b: Node,
    path: Seq<usize>,
    k: int,
)
    requires
        backed_up(credit, value, unit, a, b, path),
        0 <= k < path.len(),
        value > i32::MIN,
    ensures
        exists|s: i32| #[trigger]
            credited_with(credit, unit, a, b, path, k, s) && (k == path.len() - 1 ==> s == -value)
                && (k < path.len() - 1 ==> credited_with(
                credit,
                unit,
                a,
                b,
                path,
                k + 1,
                (-s) as i32,
            )),
{
    lemma_signs(credit, value, unit, a, b, path, k);
    let s = signed(value, (path.len() - k) as nat);
    if k < path.len() - 1 {
        lemma_signs(credit, value, unit, a, b, path, k + 1);
    }
    assert(credited_with(credit, unit, a, b, path, k, s));
}

proof fn lemma_expansion_keeps(a: Node, b: Node, path: Seq<usize>, priors: Seq<(Move, u64)>, k: int)
    requires
        expanded_at(a, b, path, priors),
        0 <= k < path.len(),
    ensures
        ({
            let e = node_at(a, path.take(k)).edges@[path[k] as int];
            let f = node_at(b, path.take(k)).edges@[path[k] as int];
            f.w == e.w && f.n == e.n && f.mv == e.mv && f.prior == e.prior
        }),
    decreases k,
{
    if k > 0 {
        lemma_prefix(path, k);
        lemma_expansion_keeps(
            *a.edges@[path[0] as int].child.unwrap(),
            *b.edges@[path[0] as int].child.unwrap(),
            path.drop_first(),
            priors,
            k - 1,
        );
    }
}

/// The evaluation of a leaf, which is that for the player to move there, is added on the edges of
/// that player and subtracted on those of the other.
pub proof fn law_evaluation_counts_for_its_player<A: Fn(u64, i32, u64) -> u64>(
    credit: A,
    a: Node,
    b: Node,
    path: Seq<usize>,
    priors: Seq<(Move, u64)>,
    value: u64,
    k: int,
)
    requires
        tree_ok(a),
        on_path(a, path),
        taken_in(credit, a, b, path, priors, value),
        0 <= k < path.len(),
    ensures
        ({
            let n = node_at(a, path.take(k));
            let e = n.edges@[path[k] as int];
            let f = node_at(b, path.take(k)).edges@[path[k] as int];
            let own = n.state@.position.side == node_at(a, path).state@.position.side;
            &&& own ==> call_ensures(credit, (e.w, 1i32, value), f.w)
            &&& !own ==> call_ensures(credit, (e.w, -1i32, value), f.w)
        }),
{
    let mid = choose|mid: Node| #[trigger]
        expanded_at(a, mid, path, priors) && backed_up(credit, 1, value, mid, b, path);
    lemma_expansion_keeps(a, mid, path, priors, k);
    lemma_signs(credit, 1, value, mid, b, path, k);
    lemma_on_prefix(a, path, k);
    lemma_turns(a, path.take(k));
    lemma_turns(node_at(a, path.take(k)), path.skip(k));
    lemma_turns(a, path);
}

/// A game that has ended counts as a win on the edges of its winner, as a loss on those of the other
/// side, and as nothing when it was drawn.
pub proof fn law_ended_game_counts_for_its_winner<A: Fn(u64, i32, u64) -> u64>(
    credit: A,
    a: Node,
    b: Node,
    path: Seq<usize>,
    k: int,
)
    requires
        tree_ok(a),
        on_path(a, path),
        node_at(a, path).is_terminal,
        backed_up(credit, node_at(a, path).terminal_value, ONE, a, b, path),
        0 <= k < path.len(),
    ensures
        ({
            let n = node_at(a, path.take(k));
            let e = n.edges@[path[k] as int];
            let f = node_at(b, path.take(k)).edges@[path[k] as int];
            let one = 0x3ff0_0000_0000_0000u64;
            match node_at(a, path).state@.outcome().winner {
                Some(w) => if w == n.state@.position.side {
                    call_ensures(credit, (e.w, 1i32, one), f.w)
                } else {
                    call_ensures(credit, (e.w, -1i32, one), f.w)
                },
                None => call_ensures(credit, (e.w, 0i32, one), f.w),
            }
        }),
{
    lemma_turns(a, path);
    law_value_counts_for_its_player(
        credit,
        node_at(a, path).terminal_value,
        ONE,
        a,
        b,
        path,
        k,
    );
    lemma_on_prefix(a, path, k);
    lemma_turns(a, path.take(k));
}

/// A result is worth one to the side that won, minus one to the other, and nothing to either when it
/// is a draw.
pub proof fn law_result_value(to_play: Color, status: GameStatus)
    ensures
        result_value(to_play, status) == 1 <==> status.winner == Some(to_play),
        result_value(to_play, status) == -1 <==> status.winner == Some(to_play.opposite()),
        result_value(to_play, status) == 0 <==> status.winner is None,
        result_value(to_play.opposite(), status) == -result_value(to_play, status),
{
}

/// A walk down the tree follows at each node the edge that `select` picks there and counts it once
/// more. It ends at the first game that has ended or was not searched before.
pub proof fn law_walk_follows_select<F: Fn(&Node) -> usize>(
    select: F,
    a: Node,
    b: Node,
    path: Seq<usize>,
    ended: bool,
    k: int,
)
    requires
        tree_ok(a),
        walked(select, a, b, path, ended),
        0 <= k < path.len(),
    ensures
        ({
            let n = node_at(a, path.take(k));
            let m = node_at(b, path.take(k));
            let i = path[k] as int;
            &&& tree_ok(n)
            &&& call_ensures(select, (&n,), path[k])
            &&& 0 <= i < n.edges@.len() && n.edges@.len() == m.edges@.len()
            &&& m.edges@[i].n == n.edges@[i].n + 1
            &&& m.edges@[i].w == n.edges@[i].w
            &&& m.edges@[i].child is Some
            &&& forall|j: int|
                0 <= j < n.edges@.len() && j != i ==> #[trigger] m.edges@[j] == n.edges@[j]
            &&& k < path.len() - 1 ==> n.edges@[i].child is Some
            &&& k == path.len() - 1 ==> {
                let end = node_at(b, path);
                &&& end.state@ == n.state@.after(n.edges@[i].mv)
                &&& ended == end.state@.outcome().is_terminal
                &&& n.edges@[i].child is Some ==> !n.edges@[i].child.unwrap().is_expanded
                    || n.edges@[i].child.unwrap().is_terminal
            }
        }),
    decreases path.len(),
{
    let i = path[0] as int;
    let e = a.edges@[i];
    let now = *b.edges@[i].child.unwrap();
    if k > 0 {
        lemma_prefix(path, k);
        let c = *e.child.unwrap();
        law_walk_follows_select(select, c, now, path.drop_first(), ended, k - 1);
        assert(path.take(path.len() as int) =~= path);
    } else {
        assert(path.take(0) =~= Seq::<usize>::empty());
        if path.len() == 1 {
            assert(path.drop_first() =~= Seq::<usize>::empty());
            assert(node_at(b, path) == node_at(now, path.drop_first()));
            assert(node_at(b, path) == now);
            match e.child {
                None => {
                    let fresh = choose|fresh: Node| #[trigger]
                        crate::kernel::tree::is_fresh(fresh, a.state@.after(e.mv)) && walk_ends(
                            fresh,
                            now,
                            ended,
                        );
                    assert(walk_ends(fresh, now, ended));
                },
                Some(c) => {
                    reveal_with_fuel(tree_ok, 2);
                    reveal_with_fuel(walked, 2);
                    assert(tree_ok(*c));
                    assert(walk_ends(*c, now, ended));
                },
            }
        }
    }
}

/// A sample of a game with a winner is labelled with one exactly if its player won, and with minus
/// one exactly if the other side did; a sample of a drawn game with zero.
pub proof fn law_labels(p: Pending, winner: Option<Color>, s: Sample)
    requires
        finalized(p, winner, s),
    ensures
        s.z == 0x3f80_0000 <==> winner == Some(p.player),
        s.z == 0xbf80_0000 <==> winner is Some && winner != Some(p.player),
        s.z == 0 <==> winner is None,
        s.state == p.state && s.pi_idx == p.pi_idx && s.pi_val == p.pi_val,
{
}

/// The samples of a game are labelled by who was to move and who won in the end.
pub proof fn law_game_labels(samples: Seq<Sample>, line: Seq<GameView>, i: int)
    requires
        samples_of(samples, line),
        0 <= i < samples.len(),
    ensures
        samples[i].z == 0x3f80_0000 <==> line.last().outcome().winner == Some(line[i].position.side),
        samples[i].z == 0xbf80_0000 <==> line.last().outcome().winner is Some
            && line.last().outcome().winner != Some(line[i].position.side),
        samples[i].z == 0 <==> line.last().outcome().winner is None,
{
}

/// The label of a sample has the sign of the value that the search gives the same result for the
/// same player.
pub proof fn law_labels_agree_with_search(player: Color, status: GameStatus)
    ensures
        z_bits(status.winner, player) == 0x3f80_0000u32 <==> result_value(player, status) == 1,
        z_bits(status.winner, player) == 0xbf80_0000u32 <==> result_value(player, status) == -1,
        z_bits(status.winner, player) == 0 <==> result_value(player, status) == 0,
{
}

/// The counts of two lists add up, and a list of one move has the count of that move.
pub proof fn law_counts_add_up(a: Seq<(Move, u32)>, b: Seq<(Move, u32)>, c: (Move, u32))
    ensures
        total_count(a + b) == total_count(a) + total_count(b),
        total_count(seq![c]) == c.1,
        total_count(Seq::<(Move, u32)>::empty()) == 0,
    decreases b.len(),
{
    assert(seq![c].drop_last() =~= Seq::<(Move, u32)>::empty());
    assert(total_count(seq![c].drop_last()) == 0);
    if b.len() > 0 {
        law_counts_add_up(a, b.drop_last(), c);
        assert((a + b).drop_last() =~= a + b.drop_last());
    } else {
        assert(a + b =~= a);
    }
}

/// A number below the total falls on the move whose stretch it lies in when the counts are laid end
/// to end, so each move is hit by as many numbers as its count.
pub proof fn law_draw_in_proportion(counts: Seq<(Move, u32)>, i: int, r: int)
    requires
        0 <= i < counts.len(),
        total_count(counts.take(i)) <= r < total_count(counts.take(i)) + counts[i].1,
    ensures
        drawn(counts, 0, r) == i,
{
    lemma_draw_from(counts, 0, i, r);
    assert(counts.take(0) =~= Seq::<(Move, u32)>::empty());
}

proof fn lemma_draw_from(counts: Seq<(Move, u32)>, j: int, i: int, r: int)
    requires
        0 <= j <= i < counts.len(),
        total_count(counts.take(i)) <= r < total_count(counts.take(i)) + counts[i].1,
    ensures
        total_count(counts.take(j)) <= total_count(counts.take(i)),
        drawn(counts, j, r - total_count(counts.take(j))) == i,
    decreases i - j,
{
    if j < i {
        lemma_draw_from(counts, j + 1, i, r);
        assert(counts.take(j + 1).drop_last() =~= counts.take(j));
    }
}

/// In the first plies a move that was followed is played, if any was; later one that was followed as
/// often as any other, and more often than all before it.
pub proof fn law_picks(counts: Seq<(Move, u32)>, i: int, ply: int, temperature_moves: u32, j: int)
    requires
        pickable(counts, i, ply, temperature_moves),
        0 <= j < counts.len(),
    ensures
        0 <= i < counts.len(),
        ply >= temperature_moves ==> counts[j].1 <= counts[i].1,
        ply >= temperature_moves && j < i ==> counts[j].1 < counts[i].1,
        ply < temperature_moves && counts[j].1 > 0 ==> counts[i].1 > 0,
        first_best(counts, i) ==> counts[j].1 <= counts[i].1 && (j < i ==> counts[j].1
            < counts[i].1),
{
    lemma_counts_positive(counts, j);
}

proof fn lemma_counts_positive(counts: Seq<(Move, u32)>, j: int)
    requires
        0 <= j < counts.len(),
    ensures
        total_count(counts) >= counts[j].1,
        total_count(counts.drop_last()) >= 0,
    decreases counts.len(),
{
    if j < counts.len() - 1 {
        lemma_counts_positive(counts.drop_last(), j);
    } else if counts.len() > 1 {
        lemma_counts_positive(counts.drop_last(), 0);
    }
}

/// A plane of hundredths is scaled to bytes: nothing to 0, a whole to 255, and what lies between to
/// the nearest byte.
pub proof fn law_quantized(h: u8)
    ensures
        h == 0 ==> quantized(h) == 0,
        h >= 100 ==> quantized(h) == 255,
        h <= 100 ==> -50 < 100 * quantized(h) - 255 * h <= 50,
{
}

} // verus!
