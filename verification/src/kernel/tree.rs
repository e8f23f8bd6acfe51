//! The search tree: which positions it holds, how a simulation walks it, and how it grows.
//!
//! The tree carries priors and accumulated values as bit patterns that only the caller reads. The
//! caller picks the edge to follow at each node and does the arithmetic on these values.

use vstd::prelude::*;

use crate::kernel::constants::MAX_TOTAL_PLIES;
use crate::kernel::game::{GameState, GameView};
use crate::kernel::laws::{law_ordinary_positions_judgeable, law_ordinary_records_analysable};
use crate::kernel::setup::{law_legal_list_exact, Setup};
use crate::kernel::types::{Color, GameStatus, Move};

verus! {

/// The position can stand in a game that is judged: both kings are known, and one more move can be
/// counted.
pub open spec fn ordinary_position(s: Setup) -> bool {
    &&& s.wf()
    &&& forall|c: Color| (#[trigger] s.king(c)) is Some
    &&& s.fullmove < u32::MAX
}

/// How many plies can still be played before the game is drawn.
pub open spec fn plies_left(g: GameView) -> int {
    if g.history.len() < MAX_TOTAL_PLIES {
        MAX_TOTAL_PLIES - g.history.len()
    } else {
        0
    }
}

/// Games that search can handle: with ordinary positions throughout, and counters that have room
/// for the plies that can still be played and for judging the last of them.
pub open spec fn ordinary(g: GameView) -> bool {
    &&& g.wf()
    &&& forall|i: int|
        0 <= i <= g.history.len() ==> ordinary_position(#[trigger] g.position_at(i))
    &&& g.position.fullmove + plies_left(g) < u32::MAX
    &&& g.position.quiet < u32::MAX
}

/// The rules can be applied to an ordinary game.
pub proof fn law_ordinary_games_judgeable(g: GameView)
    requires
        ordinary(g),
    ensures
        g.judgeable(),
        forall|mv: Move| #[trigger] g.position.judgeable(mv, Some(g.position.side)),
{
    let n = g.history.len();
    assert(g.position_at(n as int) == g.position);
    assert(ordinary_position(g.position_at(n as int)));
    assert(g.position.king(Color::Red) is Some);
    assert(g.position.king(Color::Black) is Some);
    law_ordinary_positions_judgeable(g.position);
    if g.repeated() {
        crate::kernel::laws::lemma_previous(g, n);
        let start = g.previous(n);
        assert(0 <= start < n) by {
            assert(g.occurrences(n + 1) <= g.occurrences(n) + 1);
        }
        assert forall|i: int| 0 <= i < g.cycle().len() implies (#[trigger] g.cycle()[i]).analysable()
            && g.cycle()[i].after.king(g.cycle()[i].actor.opposite()) is Some by {
            let r = g.cycle()[i];
            assert(r == g.history[start + i]);
            assert(g.linked(start + i));
            let s = g.position_at(start + i + 1);
            assert(r.after == s);
            assert(ordinary_position(s));
            assert(s.king(Color::Red) is Some);
            assert(s.king(Color::Black) is Some);
            assert(s.king(r.actor.opposite()) is Some);
            law_ordinary_records_analysable(r);
        }
    }
}

/// A legal move in an ordinary game that goes on leads to an ordinary game. So it does after the
/// end, where the counters leave room for it.
pub proof fn law_ordinary_games_continue(g: GameView, mv: Move)
    requires
        ordinary(g),
        !g.outcome().is_terminal || (g.position.fullmove < u32::MAX - 1 && g.position.quiet
            < u32::MAX - 1),
        g.position.legal(mv),
    ensures
        ordinary(g.after(mv)),
{
    let n = g.history.len();
    let next = g.after(mv);
    assert(g.position_at(n as int) == g.position);
    assert(ordinary_position(g.position_at(n as int)));
    crate::kernel::game::law_move_extends_game(g, mv);
    let s = g.position.after(mv);
    assert forall|c: Color| (#[trigger] s.king(c)) is Some by {
        assert(g.position.king(c) is Some);
    }
    assert(next.position_at(n as int + 1) == s);
    assert(next.position_at(n as int + 1).wf());
    assert forall|i: int| 0 <= i <= next.history.len() implies ordinary_position(
        #[trigger] next.position_at(i),
    ) by {
        if i <= n {
            assert(next.position_at(i) == g.position_at(i));
            assert(ordinary_position(g.position_at(i)));
        }
    }
}

/// An edge of the tree: a move, its prior and accumulated value, and how often it was followed.
#[derive(Debug)]
pub struct Edge {
    pub mv: Move,
    pub prior: u64,
    pub n: u32,
    pub w: u64,
    pub child: Option<Box<Node>>,
}

/// A node of the tree: a game, and once expanded the moves that lead on from it.
#[derive(Debug)]
pub struct Node {
    pub state: GameState,
    pub to_play: Color,
    pub is_expanded: bool,
    pub is_terminal: bool,
    pub terminal_value: i32,
    pub noise_added: bool,
    pub edges: Vec<Edge>,
}

/// The value of a result for `to_play`: 1 for a win, -1 for a loss, 0 for a draw.
pub open spec fn result_value(to_play: Color, status: GameStatus) -> i32 {
    match status.winner {
        None => 0,
        Some(winner) => if winner == to_play {
            1
        } else {
            -1i32
        },
    }
}

/// The moves of the edges.
pub open spec fn edge_moves(edges: Seq<Edge>) -> Seq<Move> {
    edges.map_values(|e: Edge| e.mv)
}

/// How often the edges were followed in all.
pub open spec fn visits(edges: Seq<Edge>) -> int
    decreases edges.len(),
{
    if edges.len() == 0 {
        0
    } else {
        visits(edges.drop_last()) + edges.last().n
    }
}

/// The node without its subtrees is in order: an expanded node has one edge for each legal move, in
/// the order of the list of legal moves, or has ended and knows its value.
pub open spec fn node_ok(node: Node) -> bool {
    &&& node.state.wf()
    &&& ordinary(node.state@)
    &&& node.to_play == node.state@.position.side
    &&& !node.is_expanded ==> node.edges@.len() == 0 && !node.is_terminal
    &&& node.is_expanded ==> node.is_terminal == node.state@.outcome().is_terminal
    &&& node.is_terminal ==> node.edges@.len() == 0 && node.terminal_value == result_value(
        node.to_play,
        node.state@.outcome(),
    )
    &&& node.is_expanded && !node.is_terminal ==> edge_moves(node.edges@)
        == node.state@.position.legal_list()
}

/// The tree below a node is in order: every child continues the game of its parent by the move of
/// its edge, and was passed through at most as often as this edge was followed.
pub open spec fn tree_ok(node: Node) -> bool
    decreases node,
{
    &&& node_ok(node)
    &&& forall|i: int|
        0 <= i < node.edges@.len() && (#[trigger] node.edges@[i]).child is Some ==> {
            &&& node.edges@[i].child.unwrap().state@ == node.state@.after(node.edges@[i].mv)
            &&& visits(node.edges@[i].child.unwrap().edges@) <= node.edges@[i].n
            &&& tree_ok(*node.edges@[i].child.unwrap())
        }
}

/// The nodes differ only in edge `i`, and there neither in the move nor in the prior.
pub open spec fn same_but_edge(a: Node, b: Node, i: int) -> bool {
    &&& b.state == a.state
    &&& b.to_play == a.to_play
    &&& b.is_expanded == a.is_expanded
    &&& b.is_terminal == a.is_terminal
    &&& b.terminal_value == a.terminal_value
    &&& b.noise_added == a.noise_added
    &&& b.edges@.len() == a.edges@.len()
    &&& 0 <= i < a.edges@.len()
    &&& forall|j: int| 0 <= j < a.edges@.len() && j != i ==> #[trigger] b.edges@[j] == a.edges@[j]
    &&& b.edges@[i].mv == a.edges@[i].mv
    &&& b.edges@[i].prior == a.edges@[i].prior
}

/// A node that was just made for a game.
pub open spec fn is_fresh(node: Node, g: GameView) -> bool {
    &&& node.state@ == g
    &&& node.state.wf()
    &&& node.to_play == g.position.side
    &&& !node.is_expanded
    &&& !node.is_terminal
    &&& !node.noise_added
    &&& node.edges@.len() == 0
}

/// A node whose game has ended, found to be so: as `before`, but marked with its value.
pub open spec fn marked_ended(before: Node, after: Node) -> bool {
    &&& after.state == before.state
    &&& after.to_play == before.to_play
    &&& after.is_expanded
    &&& after.is_terminal
    &&& after.terminal_value == result_value(before.to_play, before.state@.outcome())
    &&& after.noise_added == before.noise_added
    &&& after.edges == before.edges
}

/// Reaching a child ends the walk, with the child as it is now: a child not yet expanded is marked
/// if its game has ended, a child that has ended stays.
pub open spec fn walk_ends(child: Node, now: Node, ended: bool) -> bool {
    if child.is_expanded {
        child.is_terminal && ended && now == child
    } else {
        &&& ended == child.state@.outcome().is_terminal
        &&& if ended {
            marked_ended(child, now)
        } else {
            now == child
        }
    }
}

/// Walking down from `a` along `path`, always by an edge that `select` allows, counts each edge
/// followed, makes the missing child at the end, and leaves `b`.
pub open spec fn walked<F: Fn(&Node) -> usize>(
    select: F,
    a: Node,
    b: Node,
    path: Seq<usize>,
    ended: bool,
) -> bool
    decreases path.len(),
{
    &&& path.len() > 0
    &&& call_ensures(select, (&a,), path[0])
    &&& same_but_edge(a, b, path[0] as int)
    &&& b.edges@[path[0] as int].n == a.edges@[path[0] as int].n + 1
    &&& b.edges@[path[0] as int].w == a.edges@[path[0] as int].w
    &&& b.edges@[path[0] as int].child is Some
    &&& {
        let e = a.edges@[path[0] as int];
        let now = *b.edges@[path[0] as int].child.unwrap();
        match e.child {
            None => path.len() == 1 && exists|fresh: Node| #[trigger]
                is_fresh(fresh, a.state@.after(e.mv)) && walk_ends(fresh, now, ended),
            Some(c) => if c.is_expanded && !c.is_terminal {
                walked(select, *c, now, path.drop_first(), ended)
            } else {
                path.len() == 1 && walk_ends(*c, now, ended)
            },
        }
    }
}

pub(crate) proof fn lemma_visits_bound(edges: Seq<Edge>, i: int)
    requires
        0 <= i < edges.len(),
    ensures
        0 <= edges[i].n <= visits(edges),
    decreases edges.len(),
{
    lemma_visits_nonneg(edges.drop_last());
    if i < edges.len() - 1 {
        lemma_visits_bound(edges.drop_last(), i);
    }
}

pub(crate) proof fn lemma_visits_nonneg(edges: Seq<Edge>)
    ensures
        0 <= visits(edges),
    decreases edges.len(),
{
    if edges.len() > 0 {
        lemma_visits_nonneg(edges.drop_last());
    }
}

/// Changing one edge changes the sum by as much as its count.
proof fn lemma_visits_update(a: Seq<Edge>, b: Seq<Edge>, i: int)
    requires
        a.len() == b.len(),
        0 <= i < a.len(),
        forall|j: int| 0 <= j < a.len() && j != i ==> #[trigger] b[j] == a[j],
    ensures
        visits(b) == visits(a) - a[i].n + b[i].n,
    decreases a.len(),
{
    let x = a.drop_last();
    let y = b.drop_last();
    if i == a.len() - 1 {
        assert(x =~= y);
    } else {
        lemma_visits_update(x, y, i);
    }
}

pub(crate) proof fn lemma_visits_zero(edges: Seq<Edge>)
    requires
        forall|j: int| 0 <= j < edges.len() ==> (#[trigger] edges[j]).n == 0,
    ensures
        visits(edges) == 0,
    decreases edges.len(),
{
    if edges.len() > 0 {
        lemma_visits_zero(edges.drop_last());
    }
}

proof fn lemma_same_moves(a: Node, b: Node, i: int)
    requires
        same_but_edge(a, b, i),
    ensures
        edge_moves(b.edges@) == edge_moves(a.edges@),
{
    assert(edge_moves(b.edges@) =~= edge_moves(a.edges@));
}

impl Node {
    pub fn new(state: GameState) -> (r: Node)
        requires
            state.wf(),
        ensures
            is_fresh(r, state@),
            r.state == state,
    {
        let to_play = state.position.side_to_move;
        Node {
            state,
            to_play,
            is_expanded: false,
            is_terminal: false,
            terminal_value: 0,
            noise_added: false,
            edges: Vec::new(),
        }
    }

    /// How often the edges were followed in all.
    pub fn total_visits(&self) -> (r: u32)
        requires
            visits(self.edges@) <= u32::MAX,
        ensures
            r == visits(self.edges@),
    {
        let mut total: u32 = 0;
        let mut i: usize = 0;
        while i < self.edges.len()
            invariant
                i <= self.edges@.len(),
                total == visits(self.edges@.take(i as int)),
                visits(self.edges@) <= u32::MAX,
            decreases self.edges@.len() - i,
        {
            proof {
                let now = self.edges@.take(i + 1);
                assert(now.drop_last() =~= self.edges@.take(i as int));
                lemma_visits_prefix(self.edges@, i + 1);
            }
            total = total + self.edges[i].n;
            i += 1;
        }
        assert(self.edges@.take(self.edges@.len() as int) =~= self.edges@);
        total
    }

    /// Marks the node if its game has ended, and says whether it has.
    pub(crate) fn mark_if_ended(&mut self) -> (r: bool)
        requires
            old(self).state.wf(),
            ordinary(old(self).state@),
        ensures
            r == old(self).state@.outcome().is_terminal,
            r ==> marked_ended(*old(self), *final(self)),
            !r ==> *final(self) == *old(self),
    {
        proof {
            law_ordinary_games_judgeable(self.state@);
        }
        let status = self.state.status();
        if status.is_terminal {
            self.is_terminal = true;
            self.is_expanded = true;
            self.terminal_value = terminal_value(self.to_play, status);
            true
        } else {
            false
        }
    }
}

proof fn lemma_visits_prefix(edges: Seq<Edge>, k: int)
    requires
        0 <= k <= edges.len(),
    ensures
        0 <= visits(edges.take(k)) <= visits(edges),
    decreases edges.len(),
{
    lemma_visits_nonneg(edges.take(k));
    if k < edges.len() {
        lemma_visits_prefix(edges.drop_last(), k);
        assert(edges.drop_last().take(k) =~= edges.take(k));
    } else {
        assert(edges.take(k) =~= edges);
    }
}

pub(crate) fn terminal_value(to_play: Color, status: GameStatus) -> (r: i32)
    ensures
        r == result_value(to_play, status),
{
    match status.winner {
        None => 0,
        Some(winner) => {
            if winner == to_play {
                1
            } else {
                -1
            }
        },
    }
}

/// `select` may be asked about any node with edges, and names one of them.
pub open spec fn selects<F: Fn(&Node) -> usize>(select: F) -> bool {
    &&& forall|n: Node| n.edges@.len() > 0 ==> #[trigger] call_requires(select, (&n,))
    &&& forall|n: Node, i: usize| #[trigger]
        call_ensures(select, (&n,), i) && n.edges@.len() > 0 ==> i < n.edges@.len()
}

/// Walks down from an expanded node to a leaf, appending the edges followed to `path`. Says whether
/// the game of the leaf has ended.
pub(crate) fn collect_leaf<F: Fn(&Node) -> usize>(node: &mut Node, select: &F, path: &mut Vec<usize>) -> (r:
    bool)
    requires
        selects(*select),
        tree_ok(*old(node)),
        old(node).is_expanded,
        !old(node).is_terminal,
        visits(old(node).edges@) < u32::MAX,
    ensures
        tree_ok(*final(node)),
        visits(final(node).edges@) == visits(old(node).edges@) + 1,
        final(path)@.len() > old(path)@.len(),
        final(path)@.take(old(path)@.len() as int) == old(path)@,
        walked(
            *select,
            *old(node),
            *final(node),
            final(path)@.skip(old(path)@.len() as int),
            r,
        ),
    decreases *old(node),
{
    let ghost a = *node;
    let ghost start = path@;
    proof {
        law_ordinary_games_judgeable(a.state@);
        assert(a.edges@.len() == a.state@.position.legal_list().len());
    }
    let i: usize = select(&*node);
    let ghost e = a.edges@[i as int];
    path.push(i);
    proof {
        lemma_visits_bound(a.edges@, i as int);
        assert(edge_moves(a.edges@)[i as int] == e.mv);
        assert(a.state@.position_at(a.state@.history.len() as int).wf());
        law_legal_list_exact(a.state@.position);
        assert(a.state@.position.legal_list().contains(e.mv));
        law_ordinary_games_continue(a.state@, e.mv);
    }
    let mut child: Box<Node> = match node.edges[i].child.take() {
        Some(c) => c,
        None => Box::new(Node::new(node.state.make_move(node.edges[i].mv))),
    };
    let ghost c = *child;
    proof {
        if e.child is Some {
            assert(tree_ok(*a.edges@[i as int].child.unwrap()));
        } else {
            assert(is_fresh(c, a.state@.after(e.mv)));
            assert(tree_ok(c));
        }
        assert(visits(c.edges@) <= e.n) by {
            if e.child is None {
                assert(visits(c.edges@) == 0);
            }
        }
    }
    let ghost before = path@;
    let ended = if !child.is_expanded {
        child.mark_if_ended()
    } else if child.is_terminal {
        true
    } else {
        collect_leaf(&mut *child, select, path)
    };
    let ghost now = *child;
    node.edges[i].child = Some(child);
    node.edges[i].n = node.edges[i].n + 1;
    proof {
        let b = *node;
        let suffix = path@.skip(start.len() as int);
        assert(suffix[0] == i);
        assert(path@.take(start.len() as int) =~= start);
        if c.is_expanded && !c.is_terminal {
            assert(suffix.drop_first() =~= path@.skip(before.len() as int));
            assert(now.state == c.state);
        } else {
            assert(walk_ends(c, now, ended));
            assert(tree_ok(now));
            assert(visits(now.edges@) == visits(c.edges@));
        }
        lemma_edge_followed(a, b, i as int, now);
    }
    ended
}

/// Following an edge into a child that is in order keeps the tree in order.
proof fn lemma_edge_followed(a: Node, b: Node, i: int, now: Node)
    requires
        tree_ok(a),
        same_but_edge(a, b, i),
        b.edges@[i].n == a.edges@[i].n + 1,
        b.edges@[i].child is Some,
        *b.edges@[i].child.unwrap() == now,
        tree_ok(now),
        now.state@ == a.state@.after(a.edges@[i].mv),
        visits(now.edges@) <= a.edges@[i].n + 1,
    ensures
        tree_ok(b),
        visits(b.edges@) == visits(a.edges@) + 1,
{
    lemma_visits_update(a.edges@, b.edges@, i);
    lemma_same_moves(a, b, i);
    assert forall|j: int|
        0 <= j < b.edges@.len() && (#[trigger] b.edges@[j]).child is Some implies {
        &&& b.edges@[j].child.unwrap().state@ == b.state@.after(b.edges@[j].mv)
        &&& visits(b.edges@[j].child.unwrap().edges@) <= b.edges@[j].n
        &&& tree_ok(*b.edges@[j].child.unwrap())
    } by {
        if j != i {
            assert(b.edges@[j] == a.edges@[j]);
        }
    }
}

/// The path follows edges with children.
pub open spec fn on_path(node: Node, path: Seq<usize>) -> bool
    decreases path.len(),
{
    path.len() == 0 || {
        &&& path[0] < node.edges@.len()
        &&& node.edges@[path[0] as int].child is Some
        &&& on_path(*node.edges@[path[0] as int].child.unwrap(), path.drop_first())
    }
}

/// The node at the end of a path.
pub open spec fn node_at(node: Node, path: Seq<usize>) -> Node
    decreases path.len(),
{
    if path.len() == 0 {
        node
    } else {
        node_at(*node.edges@[path[0] as int].child.unwrap(), path.drop_first())
    }
}

/// A walk leads to a leaf: one whose game has ended, or one not yet expanded.
pub proof fn lemma_walk_reaches_leaf<F: Fn(&Node) -> usize>(
    select: F,
    a: Node,
    b: Node,
    path: Seq<usize>,
    ended: bool,
)
    requires
        tree_ok(b),
        walked(select, a, b, path, ended),
    ensures
        on_path(b, path),
        tree_ok(node_at(b, path)),
        node_at(b, path).is_expanded == ended,
        node_at(b, path).is_terminal == ended,
        node_at(b, path).state@.outcome().is_terminal == ended,
    decreases path.len(),
{
    let i = path[0] as int;
    let now = *b.edges@[i].child.unwrap();
    assert(tree_ok(*b.edges@[i].child.unwrap()));
    let rest = path.drop_first();
    if path.len() == 1 {
        assert(rest.len() == 0);
        assert(on_path(now, rest));
        assert(node_at(now, rest) == now);
    }
    match a.edges@[i].child {
        Some(c) => {
            if c.is_expanded && !c.is_terminal {
                lemma_walk_reaches_leaf(select, *c, now, rest, ended);
            }
        },
        None => {},
    }
}

/// The node at the end of a path.
pub(crate) fn leaf_node<'a>(root: &'a Node, path: &Vec<usize>, k: usize) -> (r: &'a Node)
    requires
        k <= path@.len(),
        on_path(*root, path@.skip(k as int)),
    ensures
        *r == node_at(*root, path@.skip(k as int)),
    decreases path@.len() - k,
{
    if k == path.len() {
        root
    } else {
        let i: usize = path[k];
        assert(path@.skip(k as int).drop_first() =~= path@.skip(k + 1));
        match &root.edges[i].child {
            Some(c) => leaf_node(&**c, path, k + 1),
            None => root,
        }
    }
}

/// The node `b` is `a`, or if `a` was not expanded, `a` with a new edge for each prior.
pub open spec fn expanded_with(a: Node, b: Node, priors: Seq<(Move, u64)>) -> bool {
    if a.is_expanded {
        b == a
    } else {
        &&& b.state == a.state
        &&& b.to_play == a.to_play
        &&& b.is_expanded
        &&& b.is_terminal == a.is_terminal
        &&& b.terminal_value == a.terminal_value
        &&& b.noise_added == a.noise_added
        &&& b.edges@.len() == priors.len()
        &&& forall|i: int|
            0 <= i < priors.len() ==> {
                let e = #[trigger] b.edges@[i];
                &&& e.mv == priors[i].0
                &&& e.prior == priors[i].1
                &&& e.n == 0
                &&& e.w == 0
                &&& e.child is None
            }
    }
}

/// The trees are the same but for the node at the end of the path, which was expanded.
pub open spec fn expanded_at(a: Node, b: Node, path: Seq<usize>, priors: Seq<(Move, u64)>) -> bool
    decreases path.len(),
{
    if path.len() == 0 {
        expanded_with(a, b, priors)
    } else {
        let i = path[0] as int;
        &&& same_but_edge(a, b, i)
        &&& b.edges@[i].n == a.edges@[i].n
        &&& b.edges@[i].w == a.edges@[i].w
        &&& a.edges@[i].child is Some
        &&& b.edges@[i].child is Some
        &&& expanded_at(
            *a.edges@[i].child.unwrap(),
            *b.edges@[i].child.unwrap(),
            path.drop_first(),
            priors,
        )
    }
}

pub open spec fn prior_moves(priors: Seq<(Move, u64)>) -> Seq<Move> {
    priors.map_values(|p: (Move, u64)| p.0)
}

/// New edges for the priors, never followed and without value.
pub(crate) fn new_edges(priors: &Vec<(Move, u64)>) -> (r: Vec<Edge>)
    ensures
        r@.len() == priors@.len(),
        forall|i: int|
            0 <= i < priors@.len() ==> {
                let e = #[trigger] r@[i];
                &&& e.mv == priors@[i].0
                &&& e.prior == priors@[i].1
                &&& e.n == 0
                &&& e.w == 0
                &&& e.child is None
            },
{
    let mut r: Vec<Edge> = Vec::new();
    let mut i: usize = 0;
    while i < priors.len()
        invariant
            i <= priors@.len(),
            r@.len() == i,
            forall|j: int|
                0 <= j < i ==> {
                    let e = #[trigger] r@[j];
                    &&& e.mv == priors@[j].0
                    &&& e.prior == priors@[j].1
                    &&& e.n == 0
                    &&& e.w == 0
                    &&& e.child is None
                },
        decreases priors@.len() - i,
    {
        let (mv, prior) = priors[i];
        r.push(Edge { mv, prior, n: 0, w: 0, child: None });
        i += 1;
    }
    r
}

/// Expands the node at the end of a path with one edge for each legal move, unless it is expanded.
pub(crate) fn expand_leaf(node: &mut Node, path: &Vec<usize>, k: usize, priors: &Vec<(Move, u64)>)
    requires
        k <= path@.len(),
        tree_ok(*old(node)),
        on_path(*old(node), path@.skip(k as int)),
        ({
            let leaf = node_at(*old(node), path@.skip(k as int));
            !leaf.is_expanded ==> !leaf.state@.outcome().is_terminal && prior_moves(priors@)
                == leaf.state@.position.legal_list()
        }),
    ensures
        tree_ok(*final(node)),
        expanded_at(*old(node), *final(node), path@.skip(k as int), priors@),
        visits(final(node).edges@) == visits(old(node).edges@),
    decreases path@.len() - k,
{
    let ghost a = *node;
    if k == path.len() {
        if !node.is_expanded {
            node.edges = new_edges(priors);
            node.is_expanded = true;
            proof {
                assert(edge_moves(node.edges@) =~= prior_moves(priors@));
                lemma_visits_zero(node.edges@);
                assert(visits(a.edges@) == 0);
            }
        }
        return;
    }
    let i: usize = path[k];
    let ghost rest = path@.skip(k as int).drop_first();
    assert(rest =~= path@.skip(k + 1));
    let mut child: Box<Node> = node.edges[i].child.take().unwrap();
    let ghost c = *child;
    assert(tree_ok(*a.edges@[i as int].child.unwrap()));
    expand_leaf(&mut *child, path, k + 1, priors);
    let ghost now = *child;
    node.edges[i].child = Some(child);
    proof {
        let b = *node;
        lemma_expanded_state(c, now, rest, priors@);
        lemma_child_replaced(a, b, i as int, now);
    }
}

proof fn lemma_expanded_state(a: Node, b: Node, path: Seq<usize>, priors: Seq<(Move, u64)>)
    requires
        expanded_at(a, b, path, priors),
    ensures
        b.state == a.state,
{
}

/// Replacing a child by one with the same game and as many passes keeps the tree in order.
proof fn lemma_child_replaced(a: Node, b: Node, i: int, now: Node)
    requires
        tree_ok(a),
        same_but_edge(a, b, i),
        b.edges@[i].n == a.edges@[i].n,
        a.edges@[i].child is Some,
        b.edges@[i].child is Some,
        *b.edges@[i].child.unwrap() == now,
        tree_ok(now),
        now.state@ == a.edges@[i].child.unwrap().state@,
        visits(now.edges@) == visits(a.edges@[i].child.unwrap().edges@),
    ensures
        tree_ok(b),
        visits(b.edges@) == visits(a.edges@),
{
    lemma_visits_update(a.edges@, b.edges@, i);
    lemma_same_moves(a, b, i);
    assert(tree_ok(*a.edges@[i].child.unwrap()));
    assert forall|j: int|
        0 <= j < b.edges@.len() && (#[trigger] b.edges@[j]).child is Some implies {
        &&& b.edges@[j].child.unwrap().state@ == b.state@.after(b.edges@[j].mv)
        &&& visits(b.edges@[j].child.unwrap().edges@) <= b.edges@[j].n
        &&& tree_ok(*b.edges@[j].child.unwrap())
    } by {
        if j != i {
            assert(b.edges@[j] == a.edges@[j]);
        }
    }
}

/// What a value at the end of `k` edges counts for the first of them: its sign changes with every
/// edge.
pub open spec fn signed(value: i32, k: nat) -> i32 {
    if k % 2 == 1 {
        (-value) as i32
    } else {
        value
    }
}

/// Along the path every accumulated value has been replaced by one that `credit` allows for it and
/// for `value` times `unit`, with the sign at this distance from the leaf; all else is the same.
pub open spec fn backed_up<A: Fn(u64, i32, u64) -> u64>(
    credit: A,
    value: i32,
    unit: u64,
    a: Node,
    b: Node,
    path: Seq<usize>,
) -> bool
    decreases path.len(),
{
    if path.len() == 0 {
        b == a
    } else {
        let i = path[0] as int;
        &&& same_but_edge(a, b, i)
        &&& b.edges@[i].n == a.edges@[i].n
        &&& call_ensures(
            credit,
            (a.edges@[i].w, signed(value, path.len()), unit),
            b.edges@[i].w,
        )
        &&& a.edges@[i].child is Some
        &&& b.edges@[i].child is Some
        &&& backed_up(
            credit,
            value,
            unit,
            *a.edges@[i].child.unwrap(),
            *b.edges@[i].child.unwrap(),
            path.drop_first(),
        )
    }
}

/// Adds the value of the leaf, `value` times `unit`, to every edge of the path, with alternating
/// sign.
pub(crate) fn backup_path<A: Fn(u64, i32, u64) -> u64>(
    node: &mut Node,
    path: &Vec<usize>,
    k: usize,
    value: i32,
    unit: u64,
    credit: &A,
)
    requires
        k <= path@.len(),
        -1 <= value <= 1,
        forall|w: u64, s: i32| #[trigger] call_requires(*credit, (w, s, unit)),
        tree_ok(*old(node)),
        on_path(*old(node), path@.skip(k as int)),
    ensures
        tree_ok(*final(node)),
        backed_up(*credit, value, unit, *old(node), *final(node), path@.skip(k as int)),
        visits(final(node).edges@) == visits(old(node).edges@),
        final(node).state == old(node).state,
    decreases path@.len() - k,
{
    if k == path.len() {
        return;
    }
    let ghost a = *node;
    let i: usize = path[k];
    let ghost rest = path@.skip(k as int).drop_first();
    assert(rest =~= path@.skip(k + 1));
    let s: i32 = if (path.len() - k) % 2 == 1 {
        -value
    } else {
        value
    };
    let mut child: Box<Node> = node.edges[i].child.take().unwrap();
    assert(tree_ok(*a.edges@[i as int].child.unwrap()));
    backup_path(&mut *child, path, k + 1, value, unit, credit);
    let ghost now = *child;
    let w: u64 = credit(node.edges[i].w, s, unit);
    node.edges[i].w = w;
    node.edges[i].child = Some(child);
    proof {
        let b = *node;
        let p = path@.skip(k as int);
        lemma_child_replaced(a, b, i as int, now);
        assert(p[0] == i);
        assert(p.len() == path@.len() - k);
        assert(signed(value, p.len()) == s);
        assert(p.drop_first() == rest);
        assert(same_but_edge(a, b, i as int));
    }
}

/// The tree `b` still has every child of `a`, with the same game, and what was expanded stays so.
pub open spec fn grows(a: Node, b: Node) -> bool
    decreases a,
{
    &&& b.state@ == a.state@
    &&& a.is_expanded ==> b.is_expanded && b.is_terminal == a.is_terminal
    &&& b.is_expanded && !a.is_expanded ==> a.edges@.len() == 0
    &&& a.edges@.len() <= b.edges@.len()
    &&& forall|i: int|
        0 <= i < a.edges@.len() && (#[trigger] a.edges@[i]).child is Some ==> b.edges@[i].child
            is Some && grows(*a.edges@[i].child.unwrap(), *b.edges@[i].child.unwrap())
}

pub(crate) proof fn lemma_grows_refl(a: Node)
    ensures
        grows(a, a),
    decreases a,
{
    assert forall|i: int| 0 <= i < a.edges@.len() && (#[trigger] a.edges@[i]).child is Some implies grows(
        *a.edges@[i].child.unwrap(),
        *a.edges@[i].child.unwrap(),
    ) by {
        lemma_grows_refl(*a.edges@[i].child.unwrap());
    }
}

pub(crate) proof fn lemma_grows_trans(a: Node, b: Node, c: Node)
    requires
        grows(a, b),
        grows(b, c),
    ensures
        grows(a, c),
    decreases a,
{
    assert forall|i: int| 0 <= i < a.edges@.len() && (#[trigger] a.edges@[i]).child is Some implies c.edges@[i].child
        is Some && grows(*a.edges@[i].child.unwrap(), *c.edges@[i].child.unwrap()) by {
        assert(b.edges@[i].child is Some);
        lemma_grows_trans(
            *a.edges@[i].child.unwrap(),
            *b.edges@[i].child.unwrap(),
            *c.edges@[i].child.unwrap(),
        );
    }
}

proof fn lemma_grows_at_edge(a: Node, b: Node, i: int)
    requires
        same_but_edge(a, b, i),
        a.edges@[i].child is Some ==> b.edges@[i].child is Some && grows(
            *a.edges@[i].child.unwrap(),
            *b.edges@[i].child.unwrap(),
        ),
    ensures
        grows(a, b),
{
    assert forall|j: int| 0 <= j < a.edges@.len() && (#[trigger] a.edges@[j]).child is Some implies b.edges@[j].child
        is Some && grows(*a.edges@[j].child.unwrap(), *b.edges@[j].child.unwrap()) by {
        if j != i {
            assert(b.edges@[j] == a.edges@[j]);
            lemma_grows_refl(*a.edges@[j].child.unwrap());
        }
    }
}

pub(crate) proof fn lemma_walk_grows<F: Fn(&Node) -> usize>(
    select: F,
    a: Node,
    b: Node,
    path: Seq<usize>,
    ended: bool,
)
    requires
        walked(select, a, b, path, ended),
        tree_ok(a),
    ensures
        grows(a, b),
    decreases path.len(),
{
    let i = path[0] as int;
    match a.edges@[i].child {
        Some(c) => {
            let now = *b.edges@[i].child.unwrap();
            assert(tree_ok(*a.edges@[i].child.unwrap()));
            if c.is_expanded && !c.is_terminal {
                lemma_walk_grows(select, *c, now, path.drop_first(), ended);
            } else {
                lemma_grows_refl(*c);
                assert(grows(*c, now));
            }
        },
        None => {},
    }
    lemma_grows_at_edge(a, b, i);
}

pub(crate) proof fn lemma_expansion_grows(a: Node, b: Node, path: Seq<usize>, priors: Seq<(Move, u64)>)
    requires
        expanded_at(a, b, path, priors),
        tree_ok(a),
    ensures
        grows(a, b),
    decreases path.len(),
{
    if path.len() == 0 {
        if a.is_expanded {
            lemma_grows_refl(a);
        }
    } else {
        let i = path[0] as int;
        assert(tree_ok(*a.edges@[i].child.unwrap()));
        lemma_expansion_grows(
            *a.edges@[i].child.unwrap(),
            *b.edges@[i].child.unwrap(),
            path.drop_first(),
            priors,
        );
        lemma_grows_at_edge(a, b, i);
    }
}

pub(crate) proof fn lemma_backup_grows<A: Fn(u64, i32, u64) -> u64>(
    credit: A,
    value: i32,
    unit: u64,
    a: Node,
    b: Node,
    path: Seq<usize>,
)
    requires
        backed_up(credit, value, unit, a, b, path),
    ensures
        grows(a, b),
    decreases path.len(),
{
    if path.len() == 0 {
        lemma_grows_refl(a);
    } else {
        let i = path[0] as int;
        lemma_backup_grows(
            credit,
            value,
            unit,
            *a.edges@[i].child.unwrap(),
            *b.edges@[i].child.unwrap(),
            path.drop_first(),
        );
        lemma_grows_at_edge(a, b, i);
    }
}

/// A path of `a` leads in `b` to the same game.
pub(crate) proof fn lemma_path_stays(a: Node, b: Node, path: Seq<usize>)
    requires
        grows(a, b),
        on_path(a, path),
    ensures
        on_path(b, path),
        node_at(b, path).state@ == node_at(a, path).state@,
        node_at(a, path).is_expanded ==> node_at(b, path).is_expanded && node_at(b, path).is_terminal
            == node_at(a, path).is_terminal,
    decreases path.len(),
{
    if path.len() > 0 {
        let i = path[0] as int;
        assert(a.edges@[i].child is Some);
        lemma_path_stays(
            *a.edges@[i].child.unwrap(),
            *b.edges@[i].child.unwrap(),
            path.drop_first(),
        );
    }
}

} // verus!
