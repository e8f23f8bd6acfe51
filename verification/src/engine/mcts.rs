//! Tree search on the mutable board: moves are made on the way down and taken back afterwards.
//!
//! Priors and values are bit patterns of floating-point numbers that the tree only stores. The
//! caller picks the edge to follow at each node and does the arithmetic on these values.

use std::collections::HashMap;

use vstd::prelude::*;

use crate::engine::board::{index_board, PieceIndexBoard};
use crate::engine::encode::{action_number, law_action_numbers, move_to_action_id};
use crate::engine::game::{law_move_extends_game, GameState, Play};
use crate::engine::laws::law_undo_after_make;
use crate::engine::tactics::law_legal_list_exact;
use crate::engine::types::{Color, GameStatus, Move};

verus! {

/// The bit pattern of the floating-point number one.
pub const ONE: u32 = 0x3f80_0000;

broadcast use vstd::std_specs::hash::group_hash_axioms;

/// Games that search can handle: one more move can be played and judged. A game with counters near
/// their end is drawn with that move.
pub open spec fn ordinary(p: Play) -> bool {
    &&& p.wf()
    &&& 1 <= p.board.fullmove
    &&& p.plies() < u32::MAX
    &&& p.board.quiet < u32::MAX - 1
    &&& p.infos.len() <= p.plies()
    &&& p.infos.len() < u32::MAX - 1
}

/// The rules can be applied to an ordinary game.
pub proof fn law_ordinary_games_judgeable(p: Play)
    requires
        ordinary(p),
    ensures
        p.board.all_judgeable(p.board.side),
        p.board.wf(),
        forall|mv: Move| #[trigger]
            p.board.legal(mv, p.board.side) ==> p.board.can_make(mv),
{
    assert(p.layout_at(p.infos.len() as int) == p.board);
    assert(p.layout_at(p.infos.len() as int).wf());
    assert forall|mv: Move| #[trigger] p.board.judgeable(mv, Some(p.board.side)) by {}
}

/// A legal move in an ordinary game leads to a game that can be judged, and to an ordinary one if
/// it goes on.
pub proof fn law_ordinary_games_continue(p: Play, mv: Move, next: Play)
    requires
        ordinary(p),
        p.board.legal(mv, p.board.side),
        p.extended(mv, next),
    ensures
        next.wf(),
        next.judgeable(),
        next.board.wf(),
        !next.outcome().is_terminal ==> ordinary(next),
{
    law_ordinary_games_judgeable(p);
    law_move_extends_game(p, mv, next);
    let b = next.board;
    assert(next.layout_at(next.infos.len() as int) == b);
    assert(next.layout_at(next.infos.len() as int).wf());
    assert(next.plies() == p.plies() + 1);
    assert forall|m: Move| #[trigger] b.judgeable(m, Some(b.side)) by {}
}

proof fn lemma_index_board_unique(
    cells: Map<(int, int), crate::engine::types::Piece>,
    a: PieceIndexBoard,
    b: PieceIndexBoard,
)
    requires
        index_board(cells, a),
        index_board(cells, b),
    ensures
        a == b,
{
    assert forall|y: int| 0 <= y < 10 implies a@[y] == b@[y] by {
        assert(a@[y] =~= b@[y]) by {
            assert forall|x: int| 0 <= x < 9 implies a@[y]@[x] == b@[y]@[x] by {}
        }
    }
    assert(a =~= b);
}

/// A move leads to one game only.
proof fn lemma_extended_unique(p: Play, mv: Move, a: Play, b: Play)
    requires
        p.extended(mv, a),
        p.extended(mv, b),
    ensures
        a == b,
{
    lemma_index_board_unique(a.board.cells, a.history.last(), b.history.last());
    assert(a.history =~= a.history.drop_last().push(a.history.last()));
    assert(b.history =~= b.history.drop_last().push(b.history.last()));
}

/// An edge of the tree: a move, the node it leads to, its prior and accumulated value, and how often
/// it was followed.
#[derive(Debug)]
pub struct Edge {
    pub mv: Move,
    pub child_id: Option<u32>,
    pub prior: u32,
    pub visit_count: u32,
    pub total_value: u32,
}

#[derive(Debug)]
pub struct Node {
    pub edges: Vec<Edge>,
    pub is_terminal: bool,
    pub terminal_value: i32,
}

/// The value of a result for the side to move: 1 for a win, -1 for a loss, 0 for a draw.
pub open spec fn result_value(status: GameStatus, side: Color) -> i32 {
    match status.winner {
        Some(winner) => if winner == side {
            1
        } else {
            -1i32
        },
        None => 0,
    }
}

fn compute_terminal_value(status: &GameStatus, side_to_move: Color) -> (r: i32)
    ensures
        r == result_value(*status, side_to_move),
{
    match status.winner {
        Some(winner) => {
            if winner == side_to_move {
                1
            } else {
                -1
            }
        },
        None => 0,
    }
}

/// What a value at the end of `k` edges counts for the first of them: its sign changes with every
/// edge.
pub open spec fn signed(value: i32, k: nat) -> i32 {
    if k % 2 == 1 {
        (-value) as i32
    } else {
        value
    }
}

pub open spec fn edge_moves(edges: Seq<Edge>) -> Seq<Move> {
    edges.map_values(|e: Edge| e.mv)
}

/// How often the edges were followed in all.
pub open spec fn visits(edges: Seq<Edge>) -> int
    decreases edges.len(),
{
    if edges.len() == 0 {
        0
    } else {
        visits(edges.drop_last()) + edges.last().visit_count
    }
}

pub(crate) proof fn lemma_visits_nonneg(edges: Seq<Edge>)
    ensures
        0 <= visits(edges),
    decreases edges.len(),
{
    if edges.len() > 0 {
        lemma_visits_nonneg(edges.drop_last());
    }
}

proof fn lemma_visits_bound(edges: Seq<Edge>, i: int)
    requires
        0 <= i < edges.len(),
    ensures
        0 <= edges[i].visit_count <= visits(edges),
    decreases edges.len(),
{
    lemma_visits_nonneg(edges.drop_last());
    if i < edges.len() - 1 {
        lemma_visits_bound(edges.drop_last(), i);
    }
}

proof fn lemma_visits_update(a: Seq<Edge>, b: Seq<Edge>, i: int)
    requires
        a.len() == b.len(),
        0 <= i < a.len(),
        forall|j: int| 0 <= j < a.len() && j != i ==> #[trigger] b[j] == a[j],
    ensures
        visits(b) == visits(a) - a[i].visit_count + b[i].visit_count,
    decreases a.len(),
{
    let x = a.drop_last();
    let y = b.drop_last();
    if i == a.len() - 1 {
        assert(x =~= y);
    } else {
        lemma_visits_update(x, y, i);
    }
}

proof fn lemma_visits_zero(edges: Seq<Edge>)
    requires
        forall|j: int| 0 <= j < edges.len() ==> (#[trigger] edges[j]).visit_count == 0,
    ensures
        visits(edges) == 0,
    decreases edges.len(),
{
    if edges.len() > 0 {
        lemma_visits_zero(edges.drop_last());
    }
}

/// The node belongs to the game: if it goes on, there is an edge for each legal move, in their
/// order.
pub open spec fn node_ok(node: Node, p: Play) -> bool {
    &&& p.wf()
    &&& node.is_terminal ==> node.edges@.len() == 0 && -1 <= node.terminal_value <= 1
    &&& !node.is_terminal ==> ordinary(p) && edge_moves(node.edges@) == p.board.legal_list(
        p.board.side,
        false,
    )
}

/// The edge leads to a later node, whose game continues the one of the edge by its move, and which
/// was passed through at most as often as the edge was followed.
pub open spec fn link_ok(nodes: Map<u32, Node>, plays: Map<u32, Play>, id: u32, j: int) -> bool {
    let e = nodes[id].edges@[j];
    e.child_id matches Some(c) ==> {
        &&& nodes.contains_key(c)
        &&& id < c
        &&& plays[id].extended(e.mv, plays[c])
        &&& nodes[c].is_terminal == plays[c].outcome().is_terminal
        &&& nodes[c].is_terminal ==> nodes[c].terminal_value == result_value(
            plays[c].outcome(),
            plays[c].board.side,
        )
        &&& !nodes[c].is_terminal ==> nodes[c].edges@.len() > 0
        &&& visits(nodes[c].edges@) <= e.visit_count
    }
}

/// The edge leads to the node `c`.
pub open spec fn leads(nodes: Map<u32, Node>, id: u32, j: int, c: u32) -> bool {
    &&& nodes.contains_key(id)
    &&& 0 <= j < nodes[id].edges@.len()
    &&& nodes[id].edges@[j].child_id == Some(c)
}

/// Every node is in order, and so are the links between them: no two edges lead to one node.
pub open spec fn forest_ok(nodes: Map<u32, Node>, plays: Map<u32, Play>, next_id: u32) -> bool {
    &&& forall|id: u32| #[trigger]
        nodes.contains_key(id) ==> id < next_id && node_ok(nodes[id], plays[id])
    &&& forall|id: u32, j: int|
        nodes.contains_key(id) && 0 <= j < nodes[id].edges@.len() ==> #[trigger] link_ok(
            nodes,
            plays,
            id,
            j,
        )
    &&& forall|a: u32, i: int, b: u32, j: int, c: u32| #[trigger]
        leads(nodes, a, i, c) && #[trigger] leads(nodes, b, j, c) ==> a == b && i == j
}

/// The path follows edges from the root, each leading to the node of the next.
pub open spec fn path_ok(nodes: Map<u32, Node>, root: u32, path: Seq<(u32, usize)>) -> bool {
    &&& path.len() > 0 ==> path[0].0 == root
    &&& forall|k: int|
        0 <= k < path.len() ==> nodes.contains_key((#[trigger] path[k]).0) && path[k].1
            < nodes[path[k].0].edges@.len()
    &&& forall|k: int|
        0 <= k < path.len() - 1 ==> nodes[(#[trigger] path[k]).0].edges@[path[k].1 as int].child_id
            == Some(path[k + 1].0)
}

/// How a walk down the tree ended.
#[derive(Debug, Clone, Copy, PartialEq, Eq, Structural)]
pub enum Descent {
    /// At a game that has ended, with this value for the side to move.
    Ended(i32),
    /// At a new game that has to be evaluated.
    NeedEval,
}

/// A search tree with the game it stands at.
pub struct Mcts {
    nodes: HashMap<u32, Node>,
    next_id: u32,
    root_id: u32,
    game: GameState,
    num_simulations: usize,
    path: Vec<(u32, usize)>,
    plays: Ghost<Map<u32, Play>>,
}

impl Mcts {
    pub closed spec fn spec_nodes(&self) -> Map<u32, Node> {
        self.nodes@
    }

    pub closed spec fn spec_next_id(&self) -> u32 {
        self.next_id
    }

    pub closed spec fn spec_root_id(&self) -> u32 {
        self.root_id
    }

    pub closed spec fn spec_game(&self) -> GameState {
        self.game
    }

    pub closed spec fn simulations(&self) -> usize {
        self.num_simulations
    }

    /// The edges followed on the way down that is not finished.
    pub closed spec fn spec_path(&self) -> Seq<(u32, usize)> {
        self.path@
    }

    /// The games that the nodes stand for.
    pub closed spec fn spec_plays(&self) -> Map<u32, Play> {
        self.plays@
    }

    pub open spec fn root(&self) -> Node {
        self.spec_nodes()[self.spec_root_id()]
    }

    /// The game that the edges followed so far have led to.
    pub open spec fn walked_to(&self, p: Play) -> bool {
        let path = self.spec_path();
        if path.len() == 0 {
            self.spec_nodes().contains_key(self.spec_root_id()) ==> p
                == self.spec_plays()[self.spec_root_id()]
        } else {
            let (id, i) = path.last();
            self.spec_plays()[id].extended(self.spec_nodes()[id].edges@[i as int].mv, p)
        }
    }

    /// The tree is in order, and the game is the one that the path leads to.
    pub open spec fn wf(&self) -> bool {
        &&& forest_ok(self.spec_nodes(), self.spec_plays(), self.spec_next_id())
        &&& self.spec_nodes().dom().len() > 0 ==> self.spec_nodes().contains_key(
            self.spec_root_id(),
        )
        &&& forall|id: u32| #[trigger]
            self.spec_nodes().contains_key(id) ==> self.spec_root_id() <= id
        &&& self.rooted() ==> visits(self.root().edges@) <= u32::MAX
        &&& path_ok(self.spec_nodes(), self.spec_root_id(), self.spec_path())
        &&& self.spec_game().wf()
        &&& self.walked_to(self.spec_game()@)
    }

    /// No walk is unfinished.
    pub open spec fn idle(&self) -> bool {
        self.spec_path().len() == 0
    }

    /// There is a tree.
    pub open spec fn rooted(&self) -> bool {
        self.spec_nodes().contains_key(self.spec_root_id())
    }

    /// The root has ended or has a move to follow.
    pub open spec fn searchable(&self) -> bool {
        self.rooted() && (self.root().is_terminal || self.root().edges@.len() > 0)
    }

    pub fn new(game: GameState, num_simulations: usize) -> (r: Mcts)
        requires
            game.wf(),
        ensures
            r.wf(),
            r.idle(),
            r.spec_game() == game,
            r.simulations() == num_simulations,
            r.spec_nodes() == Map::<u32, Node>::empty(),
            r.spec_next_id() == 0,
    {
        let r = Mcts {
            nodes: HashMap::new(),
            next_id: 0,
            root_id: 0,
            game,
            num_simulations,
            path: Vec::new(),
            plays: Ghost(Map::empty()),
        };
        assert(r.nodes@ =~= Map::<u32, Node>::empty());
        r
    }

    pub fn game(&self) -> (r: &GameState)
        ensures
            *r == self.spec_game(),
    {
        &self.game
    }

    pub fn num_simulations(&self) -> (r: usize)
        ensures
            r == self.simulations(),
    {
        self.num_simulations
    }

    /// The node at the root.
    pub fn root_node(&self) -> (r: &Node)
        requires
            self.wf(),
            self.rooted(),
        ensures
            *r == self.root(),
    {
        self.nodes.get(&self.root_id).unwrap()
    }

    /// Whether the root still has to be made.
    pub fn needs_root(&self) -> (r: bool)
        requires
            self.wf(),
        ensures
            r == !self.rooted(),
    {
        let empty = self.nodes.len() == 0;
        proof {
            if self.nodes@.contains_key(self.root_id) {
                assert(self.nodes@.dom().contains(self.root_id));
                if self.nodes@.dom().len() == 0 {
                    assert(self.nodes@.dom() =~= Set::<u32>::empty());
                }
            }
        }
        empty
    }

    /// Adds a node for a game.
    fn alloc_node(&mut self, node: Node, Ghost(p): Ghost<Play>) -> (r: u32)
        requires
            forest_ok(old(self).nodes@, old(self).plays@, old(self).next_id),
            old(self).next_id < u32::MAX,
            node_ok(node, p),
            forall|j: int| 0 <= j < node.edges@.len() ==> (#[trigger] node.edges@[j]).child_id
                is None,
        ensures
            r == old(self).next_id,
            final(self).next_id == old(self).next_id + 1,
            final(self).nodes@ == old(self).nodes@.insert(r, node),
            final(self).plays@ == old(self).plays@.insert(r, p),
            forest_ok(final(self).nodes@, final(self).plays@, final(self).next_id),
            final(self).root_id == old(self).root_id,
            final(self).game == old(self).game,
            final(self).num_simulations == old(self).num_simulations,
            final(self).path == old(self).path,
    {
        let ghost a = self.nodes@;
        let ghost pa = self.plays@;
        let id: u32 = self.next_id;
        self.next_id = self.next_id + 1;
        self.nodes.insert(id, node);
        self.plays = Ghost(self.plays@.insert(id, p));
        proof {
            let b = self.nodes@;
            let pb = self.plays@;
            assert(!a.contains_key(id));
            assert forall|k: u32, j: int| b.contains_key(k) && 0 <= j < b[k].edges@.len() implies #[trigger] link_ok(
                b,
                pb,
                k,
                j,
            ) by {
                if k != id {
                    assert(link_ok(a, pa, k, j));
                } else {
                    assert(node.edges@[j].child_id is None);
                }
            }
            assert forall|x: u32, i: int, y: u32, j: int, c: u32| #[trigger]
                leads(b, x, i, c) && #[trigger] leads(b, y, j, c) implies x == y && i == j by {
                assert(leads(a, x, i, c) && leads(a, y, j, c));
            }
        }
        id
    }

    /// New edges for the legal moves, never followed and without value.
    fn create_edges(moves: &Vec<Move>, priors: &Vec<u32>) -> (r: Vec<Edge>)
        requires
            priors@.len() == moves@.len(),
        ensures
            fresh_edges(r@, moves@, priors@),
    {
        let mut r: Vec<Edge> = Vec::new();
        let mut i: usize = 0;
        while i < moves.len()
            invariant
                priors@.len() == moves@.len(),
                i <= moves@.len(),
                r@.len() == i,
                forall|j: int|
                    0 <= j < i ==> {
                        let e = #[trigger] r@[j];
                        &&& e.mv == moves@[j]
                        &&& e.prior == priors@[j]
                        &&& e.child_id is None
                        &&& e.visit_count == 0
                        &&& e.total_value == 0
                    },
            decreases moves@.len() - i,
        {
            r.push(
                Edge {
                    mv: moves[i],
                    child_id: None,
                    prior: priors[i],
                    visit_count: 0,
                    total_value: 0,
                },
            );
            i += 1;
        }
        r
    }

    /// The legal moves of the game, for which priors are wanted.
    pub fn legal_moves(&mut self) -> (r: Vec<Move>)
        requires
            old(self).wf(),
            ordinary(old(self).spec_game()@),
        ensures
            final(self).wf(),
            final(self).spec_nodes() == old(self).spec_nodes(),
            final(self).spec_plays() == old(self).spec_plays(),
            final(self).spec_next_id() == old(self).spec_next_id(),
            final(self).spec_root_id() == old(self).spec_root_id(),
            final(self).spec_path() == old(self).spec_path(),
            final(self).simulations() == old(self).simulations(),
            final(self).spec_game()@ == old(self).spec_game()@,
            final(self).spec_game().status == old(self).spec_game().status,
            r@ == old(self).spec_game()@.board.legal_list(old(self).spec_game()@.board.side, false),
    {
        proof {
            law_ordinary_games_judgeable(self.game@);
        }
        self.game.legal_moves()
    }

    /// Makes the root from the priors of the legal moves, or as a game that has ended.
    pub fn create_root(&mut self, priors: Vec<u32>)
        requires
            old(self).wf(),
            old(self).idle(),
            !old(self).rooted(),
            old(self).spec_next_id() < u32::MAX,
            !old(self).spec_game().status.is_terminal ==> ordinary(old(self).spec_game()@) && priors@.len()
                == old(self).spec_game()@.board.legal_list(
                old(self).spec_game()@.board.side,
                false,
            ).len(),
        ensures
            final(self).wf(),
            final(self).idle(),
            final(self).rooted(),
            final(self).simulations() == old(self).simulations(),
            final(self).spec_game()@ == old(self).spec_game()@,
            final(self).spec_game().status == old(self).spec_game().status,
            final(self).spec_root_id() == old(self).spec_next_id(),
            final(self).spec_next_id() == old(self).spec_next_id() + 1,
            final(self).spec_nodes().dom() == Set::<u32>::empty().insert(
                old(self).spec_next_id(),
            ),
            final(self).root().is_terminal == old(self).spec_game().status.is_terminal,
            final(self).root().is_terminal ==> final(self).root().edges@.len() == 0 && final(self).root().terminal_value == result_value(
                old(self).spec_game().status,
                old(self).spec_game()@.board.side,
            ),
            !final(self).root().is_terminal ==> fresh_edges(
                final(self).root().edges@,
                old(self).spec_game()@.board.legal_list(old(self).spec_game()@.board.side, false),
                priors@,
            ),
            visits(final(self).root().edges@) == 0,
    {
        proof {
            assert(self.nodes@.dom() =~= Set::<u32>::empty()) by {
                if self.nodes@.dom().len() == 0 {
                    assert(self.nodes@.dom() =~= Set::<u32>::empty());
                }
            }
        }
        let ghost p = self.game@;
        let status = self.game.status;
        let node = if status.is_terminal {
            let tv: i32 = compute_terminal_value(&status, self.game.board.side_to_move);
            Node { edges: Vec::new(), is_terminal: true, terminal_value: tv }
        } else {
            let legal = self.legal_moves();
            let edges = Self::create_edges(&legal, &priors);
            assert(edge_moves(edges@) =~= legal@);
            Node { edges, is_terminal: false, terminal_value: 0 }
        };
        proof {
            lemma_visits_zero(node.edges@);
        }
        let id: u32 = self.alloc_node(node, Ghost(p));
        self.root_id = id;
        assert(self.nodes@.dom() =~= Set::<u32>::empty().insert(id));
    }

    /// Makes a move of the game for which there is an edge.
    fn follow(&mut self, mv: Move)
        requires
            old(self).game.wf(),
            ordinary(old(self).game@),
            old(self).game@.board.legal(mv, old(self).game@.board.side),
        ensures
            final(self).game.wf(),
            old(self).game@.extended(mv, final(self).game@),
            final(self).game.status == final(self).game@.outcome(),
            final(self).nodes == old(self).nodes,
            final(self).next_id == old(self).next_id,
            final(self).root_id == old(self).root_id,
            final(self).num_simulations == old(self).num_simulations,
            final(self).path == old(self).path,
            final(self).plays == old(self).plays,
    {
        proof {
            law_ordinary_games_judgeable(self.game@);
            assert forall|next: Play| #[trigger] self.game@.extended(mv, next) implies next.judgeable() by {
                law_ordinary_games_continue(self.game@, mv, next);
            }
        }
        self.game.make_move(mv);
    }

    /// Replaces an edge.
    fn set_edge(&mut self, id: u32, i: usize, edge: Edge)
        requires
            old(self).nodes@.contains_key(id),
            i < old(self).nodes@[id].edges@.len(),
        ensures
            edge_set(old(self).nodes@, final(self).nodes@, id, i as int, edge),
            final(self).next_id == old(self).next_id,
            final(self).root_id == old(self).root_id,
            final(self).game == old(self).game,
            final(self).num_simulations == old(self).num_simulations,
            final(self).path == old(self).path,
            final(self).plays == old(self).plays,
    {
        let ghost a = self.nodes@;
        let mut node = self.nodes.remove(&id).unwrap();
        node.edges.set(i, edge);
        self.nodes.insert(id, node);
        assert(self.nodes@.dom() =~= a.dom());
    }

    /// Hangs a new node on an edge that led nowhere.
    fn attach(&mut self, id: u32, i: usize, node: Node, Ghost(p): Ghost<Play>)
        requires
            forest_ok(old(self).nodes@, old(self).plays@, old(self).next_id),
            old(self).next_id < u32::MAX,
            old(self).nodes@.contains_key(id),
            i < old(self).nodes@[id].edges@.len(),
            old(self).nodes@[id].edges@[i as int].child_id is None,
            node_ok(node, p),
            old(self).plays@[id].extended(old(self).nodes@[id].edges@[i as int].mv, p),
            node.is_terminal == p.outcome().is_terminal,
            node.is_terminal ==> node.terminal_value == result_value(p.outcome(), p.board.side),
            !node.is_terminal ==> node.edges@.len() > 0,
            forall|j: int|
                0 <= j < node.edges@.len() ==> (#[trigger] node.edges@[j]).child_id is None
                    && node.edges@[j].visit_count == 0,
        ensures
            attached(old(self).nodes@, final(self).nodes@, id, i as int, old(self).next_id, node),
            final(self).plays@ == old(self).plays@.insert(old(self).next_id, p),
            final(self).next_id == old(self).next_id + 1,
            forest_ok(final(self).nodes@, final(self).plays@, final(self).next_id),
            final(self).root_id == old(self).root_id,
            final(self).game == old(self).game,
            final(self).num_simulations == old(self).num_simulations,
            final(self).path == old(self).path,
    {
        let ghost a = self.nodes@;
        proof {
            assert(link_ok(a, self.plays@, id, i as int));
        }
        let parent = self.nodes.get(&id).unwrap();
        let e = &parent.edges[i];
        let edge = Edge {
            mv: e.mv,
            child_id: Some(self.next_id),
            prior: e.prior,
            visit_count: e.visit_count,
            total_value: e.total_value,
        };
        let new_id: u32 = self.alloc_node(node, Ghost(p));
        let ghost b = self.nodes@;
        self.set_edge(id, i, edge);
        proof {
            let c = self.nodes@;
            let plays = self.plays@;
            assert(!a.contains_key(new_id));
            lemma_visits_zero(node.edges@);
            lemma_visits_update(b[id].edges@, c[id].edges@, i as int);
            assert(edge_moves(c[id].edges@) =~= edge_moves(b[id].edges@));
            assert forall|k: u32, j: int| c.contains_key(k) && 0 <= j < c[k].edges@.len() implies #[trigger] link_ok(
                c,
                plays,
                k,
                j,
            ) by {
                assert(link_ok(b, plays, k, j));
            }
            assert forall|x: u32, m: int, y: u32, n: int, k: u32| #[trigger]
                leads(c, x, m, k) && #[trigger] leads(c, y, n, k) implies x == y && m == n by {
                if k == new_id {
                    assert(x == id && m == i as int) by {
                        if x != id || m != i as int {
                            assert(leads(b, x, m, k));
                            assert(link_ok(a, old(self).plays@, x, m));
                        }
                    }
                    assert(y == id && n == i as int) by {
                        if y != id || n != i as int {
                            assert(leads(b, y, n, k));
                            assert(link_ok(a, old(self).plays@, y, n));
                        }
                    }
                } else {
                    assert(leads(b, x, m, k) && leads(b, y, n, k));
                }
            }
        }
    }

    /// The walk stands at a game that goes on and has no node yet.
    pub open spec fn awaiting(&self) -> bool {
        &&& self.spec_path().len() > 0
        &&& self.spec_nodes()[self.spec_path().last().0].edges@[self.spec_path().last().1 as int].child_id
            is None
        &&& self.spec_game().status == self.spec_game()@.outcome()
        &&& !self.spec_game().status.is_terminal
        &&& ordinary(self.spec_game()@)
        &&& self.spec_game()@.board.legal_list(self.spec_game()@.board.side, false).len() > 0
        &&& self.spec_next_id() < u32::MAX
    }

    /// Follows an edge of the node where the walk stands, making its move.
    #[verifier::spinoff_prover]
    fn step_down(&mut self, id: u32, i: usize)
        requires
            forest_ok(old(self).nodes@, old(self).plays@, old(self).next_id),
            old(self).nodes@.contains_key(id),
            !old(self).nodes@[id].is_terminal,
            i < old(self).nodes@[id].edges@.len(),
            old(self).game.wf(),
            old(self).game@ == old(self).plays@[id],
        ensures
            final(self).nodes == old(self).nodes,
            final(self).next_id == old(self).next_id,
            final(self).root_id == old(self).root_id,
            final(self).num_simulations == old(self).num_simulations,
            final(self).plays == old(self).plays,
            final(self).path@ == old(self).path@.push((id, i)),
            final(self).game.wf(),
            final(self).game.status == final(self).game@.outcome(),
            old(self).game@.extended(old(self).nodes@[id].edges@[i as int].mv, final(self).game@),
            !final(self).game.status.is_terminal ==> ordinary(final(self).game@)
                && !final(self).game@.stuck(),
            old(self).nodes@[id].edges@[i as int].child_id matches Some(c) ==> {
                &&& old(self).nodes@.contains_key(c)
                &&& id < c
                &&& final(self).game@ == old(self).plays@[c]
                &&& old(self).nodes@[c].is_terminal || old(self).nodes@[c].edges@.len() > 0
            },
    {
        let ghost p = self.game@;
        let node = self.nodes.get(&id).unwrap();
        let mv = node.edges[i].mv;
        let child = node.edges[i].child_id;
        proof {
            lemma_edges_legal(*node, p, i as int);
        }
        self.path.push((id, i));
        self.follow(mv);
        proof {
            law_ordinary_games_continue(p, mv, self.game@);
            assert(link_ok(self.nodes@, self.plays@, id, i as int));
            if let Some(c) = child {
                lemma_extended_unique(p, mv, self.game@, self.plays@[c]);
            }
        }
    }

    /// Follows the edges that `select` picks, making their moves, to a game that has ended or has no
    /// node yet. An ended game without a node gets one.
    #[verifier::rlimit(30)]
    pub fn descend<S: Fn(&Node) -> usize>(&mut self, select: &S) -> (r: Descent)
        requires
            selects(*select),
            old(self).wf(),
            old(self).idle(),
            old(self).searchable(),
            old(self).spec_next_id() < u32::MAX,
        ensures
            final(self).wf(),
            final(self).simulations() == old(self).simulations(),
            final(self).spec_root_id() == old(self).spec_root_id(),
            path_ok(old(self).spec_nodes(), old(self).spec_root_id(), final(self).spec_path()),
            picked(*select, old(self).spec_nodes(), final(self).spec_path()),
            visits(final(self).root().edges@) == visits(old(self).root().edges@),
            final(self).spec_path().len() == 0 <==> old(self).root().is_terminal,
            final(self).spec_path().len() == 0 ==> final(self).spec_game() == old(self).spec_game(),
            match r {
                Descent::Ended(value) => {
                    &&& -1 <= value <= 1
                    &&& final(self).ended(*old(self), value)
                },
                Descent::NeedEval => {
                    &&& final(self).awaiting()
                    &&& final(self).spec_nodes() == old(self).spec_nodes()
                    &&& final(self).spec_plays() == old(self).spec_plays()
                    &&& final(self).spec_next_id() == old(self).spec_next_id()
                },
            },
    {
        let ghost nodes = self.nodes@;
        let ghost plays = self.plays@;
        let ghost game = self.game;
        let mut node_id: u32 = self.root_id;
        loop
            invariant
                selects(*select),
                forest_ok(nodes, plays, self.next_id),
                self.nodes@ == nodes,
                self.plays@ == plays,
                nodes == old(self).nodes@,
                plays == old(self).plays@,
                game == old(self).game,
                self.next_id == old(self).next_id,
                self.next_id < u32::MAX,
                self.root_id == old(self).root_id,
                self.num_simulations == old(self).num_simulations,
                self.game.wf(),
                old(self).wf(),
                old(self).searchable(),
                nodes.contains_key(node_id),
                self.game@ == plays[node_id],
                path_ok(nodes, self.root_id, self.path@),
                picked(*select, nodes, self.path@),
                self.path@.len() == 0 ==> node_id == self.root_id && self.game == game,
                self.path@.len() > 0 ==> nodes[self.path@.last().0].edges@[self.path@.last().1 as int].child_id
                    == Some(node_id),
                nodes[node_id].is_terminal || nodes[node_id].edges@.len() > 0,
                self.path@.len() > 0 ==> !nodes[self.root_id].is_terminal,
            decreases self.next_id - node_id,
        {
            let node = self.nodes.get(&node_id).unwrap();
            if node.is_terminal {
                proof {
                    if self.path@.len() > 0 {
                        assert(link_ok(nodes, plays, self.path@.last().0, self.path@.last().1 as int));
                    }
                }
                return Descent::Ended(node.terminal_value);
            }
            let edge_idx: usize = select(node);
            let child = node.edges[edge_idx].child_id;
            let ghost path = self.path@;
            self.step_down(node_id, edge_idx);
            proof {
                lemma_longer_path(*select, nodes, self.root_id, path, node_id, edge_idx);
            }
            match child {
                Some(cid) => {
                    node_id = cid;
                },
                None => {
                    let status = self.game.status;
                    if status.is_terminal {
                        let tv: i32 = compute_terminal_value(&status, self.game.board.side_to_move);
                        let leaf = Node { edges: Vec::new(), is_terminal: true, terminal_value: tv };
                        let ghost q = self.game@;
                        self.attach(node_id, edge_idx, leaf, Ghost(q));
                        proof {
                            lemma_attached_path(
                                nodes,
                                self.nodes@,
                                node_id,
                                edge_idx as int,
                                old(self).next_id,
                                leaf,
                                self.root_id,
                                self.path@,
                            );
                        }
                        return Descent::Ended(tv);
                    }
                    return Descent::NeedEval;
                },
            }
        }
    }

    /// The walk of `before` ended at a game that has this value. If there was no node for it, it has
    /// one now; nothing else has changed in the tree.
    pub open spec fn ended(&self, before: Mcts, value: i32) -> bool {
        let path = self.spec_path();
        let (id, i) = path.last();
        let child = before.spec_nodes()[id].edges@[i as int].child_id;
        let same = self.spec_nodes() == before.spec_nodes() && self.spec_next_id()
            == before.spec_next_id() && self.spec_plays() == before.spec_plays();
        if path.len() == 0 {
            same && before.root().is_terminal && value == before.root().terminal_value
        } else if let Some(c) = child {
            same && before.spec_nodes()[c].is_terminal && value
                == before.spec_nodes()[c].terminal_value
        } else {
            let c = before.spec_next_id();
            let leaf = self.spec_nodes()[c];
            &&& self.spec_game()@.outcome().is_terminal
            &&& value == result_value(self.spec_game()@.outcome(), self.spec_game()@.board.side)
            &&& leaf.is_terminal && leaf.terminal_value == value && leaf.edges@.len() == 0
            &&& attached(before.spec_nodes(), self.spec_nodes(), id, i as int, c, leaf)
            &&& self.spec_next_id() == c + 1
            &&& self.spec_plays() == before.spec_plays().insert(c, self.spec_game()@)
        }
    }

    /// Gives the game that waits for it a node with the priors of its legal moves.
    pub fn expand(&mut self, priors: Vec<u32>)
        requires
            old(self).wf(),
            old(self).awaiting(),
            priors@.len() == old(self).spec_game()@.board.legal_list(
                old(self).spec_game()@.board.side,
                false,
            ).len(),
        ensures
            final(self).wf(),
            final(self).simulations() == old(self).simulations(),
            final(self).spec_root_id() == old(self).spec_root_id(),
            final(self).spec_path() == old(self).spec_path(),
            final(self).spec_game()@ == old(self).spec_game()@,
            final(self).spec_next_id() == old(self).spec_next_id() + 1,
            visits(final(self).root().edges@) == visits(old(self).root().edges@),
            final(self).root().is_terminal == old(self).root().is_terminal,
            attached(
                old(self).spec_nodes(),
                final(self).spec_nodes(),
                old(self).spec_path().last().0,
                old(self).spec_path().last().1 as int,
                old(self).spec_next_id(),
                final(self).spec_nodes()[old(self).spec_next_id()],
            ),
            !final(self).spec_nodes()[old(self).spec_next_id()].is_terminal,
            fresh_edges(
                final(self).spec_nodes()[old(self).spec_next_id()].edges@,
                old(self).spec_game()@.board.legal_list(old(self).spec_game()@.board.side, false),
                priors@,
            ),
            final(self).spec_plays() == old(self).spec_plays().insert(
                old(self).spec_next_id(),
                old(self).spec_game()@,
            ),
    {
        let ghost q = self.game@;
        let ghost nodes = self.nodes@;
        let legal = self.legal_moves();
        let edges = Self::create_edges(&legal, &priors);
        assert(edge_moves(edges@) =~= legal@);
        let node = Node { edges, is_terminal: false, terminal_value: 0 };
        let (id, i): (u32, usize) = self.path[self.path.len() - 1];
        proof {
            assert(self.path@[self.path@.len() - 1] == self.path@.last());
        }
        self.attach(id, i, node, Ghost(q));
        proof {
            lemma_attached_path(
                nodes,
                self.nodes@,
                id,
                i as int,
                old(self).next_id,
                node,
                self.root_id,
                self.path@,
            );
        }
    }

    /// Counts a visit of an edge and gives it a new value.
    fn credit_edge<A: Fn(u32, i32, u32) -> u32>(
        &mut self,
        id: u32,
        i: usize,
        s: i32,
        unit: u32,
        credit: &A,
    )
        requires
            forall|w: u32, s: i32, v: u32| #[trigger] call_requires(*credit, (w, s, v)),
            old(self).nodes@.contains_key(id),
            i < old(self).nodes@[id].edges@.len(),
            old(self).nodes@[id].edges@[i as int].visit_count < u32::MAX,
        ensures
            ({
                let e = old(self).nodes@[id].edges@[i as int];
                let f = final(self).nodes@[id].edges@[i as int];
                &&& edge_set(old(self).nodes@, final(self).nodes@, id, i as int, f)
                &&& f.mv == e.mv
                &&& f.child_id == e.child_id
                &&& f.prior == e.prior
                &&& f.visit_count == e.visit_count + 1
                &&& call_ensures(*credit, (e.total_value, s, unit), f.total_value)
            }),
            final(self).next_id == old(self).next_id,
            final(self).root_id == old(self).root_id,
            final(self).game == old(self).game,
            final(self).num_simulations == old(self).num_simulations,
            final(self).path == old(self).path,
            final(self).plays == old(self).plays,
    {
        let node = self.nodes.get(&id).unwrap();
        let e = &node.edges[i];
        let edge = Edge {
            mv: e.mv,
            child_id: e.child_id,
            prior: e.prior,
            visit_count: e.visit_count + 1,
            total_value: credit(e.total_value, s, unit),
        };
        self.set_edge(id, i, edge);
    }

    /// Credits the edges of the path.
    #[verifier::rlimit(30)]
    fn credit_path<A: Fn(u32, i32, u32) -> u32>(&mut self, value: i32, unit: u32, credit: &A)
        requires
            forall|w: u32, s: i32, v: u32| #[trigger] call_requires(*credit, (w, s, v)),
            old(self).wf(),
            old(self).rooted(),
            value > i32::MIN,
            visits(old(self).root().edges@) < u32::MAX || old(self).idle(),
        ensures
            forest_ok(final(self).nodes@, final(self).plays@, final(self).next_id),
            path_ok(final(self).nodes@, final(self).root_id, final(self).path@),
            credited(*credit, value, unit, old(self).nodes@, final(self).nodes@, old(self).path@),
            final(self).next_id == old(self).next_id,
            final(self).root_id == old(self).root_id,
            final(self).game == old(self).game,
            final(self).num_simulations == old(self).num_simulations,
            final(self).path == old(self).path,
            final(self).plays == old(self).plays,
    {
        let ghost nodes = self.nodes@;
        let ghost plays = self.plays@;
        let ghost path = self.path@;
        let ghost root = self.root_id;
        let ghost next_id = self.next_id;
        let len: usize = self.path.len();
        let mut s: i32 = if len % 2 == 1 {
            -value
        } else {
            value
        };
        let mut k: usize = 0;
        proof {
            lemma_credit_start(*credit, value, unit, nodes, plays, next_id, root, path);
        }
        while k < len
            invariant
                forall|w: u32, s: i32, v: u32| #[trigger] call_requires(*credit, (w, s, v)),
                value > i32::MIN,
                len == path.len(),
                k <= len,
                s == signed(value, (len - k) as nat),
                self.path@ == path,
                self.path == old(self).path,
                self.plays == old(self).plays,
                self.root_id == old(self).root_id,
                self.next_id == old(self).next_id,
                self.game == old(self).game,
                self.num_simulations == old(self).num_simulations,
                crediting(
                    *credit,
                    value,
                    unit,
                    nodes,
                    self.nodes@,
                    plays,
                    next_id,
                    root,
                    path,
                    k as int,
                ),
            decreases len - k,
        {
            let ghost a = self.nodes@;
            let (id, i): (u32, usize) = self.path[k];
            proof {
                assert(path[k as int] == (id, i));
                lemma_credit_ready(
                    *credit,
                    value,
                    unit,
                    nodes,
                    a,
                    plays,
                    next_id,
                    root,
                    path,
                    k as int,
                );
            }
            self.credit_edge(id, i, s, unit, credit);
            proof {
                assert(credited_at(*credit, value, unit, a, self.nodes@, path, k as int));
                lemma_credit_step(
                    *credit,
                    value,
                    unit,
                    nodes,
                    a,
                    self.nodes@,
                    plays,
                    next_id,
                    root,
                    path,
                    k as int,
                );
            }
            s = -s;
            k += 1;
        }
        proof {
            reveal(crediting);
        }
    }

    /// Adds a value, times `unit`, to every edge of the path, with the sign changed at every edge
    /// from the last up, counts the visit, and takes back the moves.
    #[verifier::rlimit(30)]
    pub fn backup<A: Fn(u32, i32, u32) -> u32>(&mut self, value: i32, unit: u32, credit: &A)
        requires
            forall|w: u32, s: i32, v: u32| #[trigger] call_requires(*credit, (w, s, v)),
            old(self).wf(),
            old(self).rooted(),
            value > i32::MIN,
            visits(old(self).root().edges@) < u32::MAX || old(self).idle(),
        ensures
            final(self).wf(),
            final(self).idle(),
            final(self).simulations() == old(self).simulations(),
            final(self).spec_root_id() == old(self).spec_root_id(),
            final(self).spec_next_id() == old(self).spec_next_id(),
            final(self).spec_plays() == old(self).spec_plays(),
            credited(
                *credit,
                value,
                unit,
                old(self).spec_nodes(),
                final(self).spec_nodes(),
                old(self).spec_path(),
            ),
            final(self).root().is_terminal == old(self).root().is_terminal,
            visits(final(self).root().edges@) == visits(old(self).root().edges@) + if old(
                self).idle() {
                0int
            } else {
                1
            },
            old(self).idle() ==> final(self).spec_game() == old(self).spec_game(),
            !old(self).idle() ==> final(self).spec_game().status == GameStatus::spec_ongoing(),
    {
        let ghost nodes = self.nodes@;
        let ghost plays = self.plays@;
        let ghost path = self.path@;
        let ghost root = self.root_id;
        let len: usize = self.path.len();
        self.credit_path(value, unit, credit);
        let ghost b = self.nodes@;
        proof {
            if len > 0 {
                assert(credited_at(*credit, value, unit, nodes, b, path, 0));
                lemma_visits_update(nodes[root].edges@, b[root].edges@, path[0].1 as int);
            }
            if len > 0 {
                assert(credited_at(*credit, value, unit, nodes, b, path, len - 1));
                assert(path.last() == path[len - 1]);
            }
        }
        while self.path.len() > 0
            invariant
                forest_ok(b, plays, self.next_id),
                self.nodes@ == b,
                self.plays@ == plays,
                self.root_id == root,
                self.next_id == old(self).next_id,
                self.num_simulations == old(self).num_simulations,
                self.path@.len() <= len,
                b.contains_key(root),
                path_ok(b, root, self.path@),
                self.game.wf(),
                self.walked_to(self.game@),
                self.path@.len() == len ==> self.game == old(self).game,
                self.path@.len() < len ==> self.game.status == GameStatus::spec_ongoing(),
            decreases self.path.len(),
        {
            let ghost before = self.path@;
            let ghost q = self.game@;
            self.path.pop();
            self.game.undo_move();
            proof {
                let (id, i) = before.last();
                assert(before[before.len() - 1] == before.last());
                assert(b.contains_key(id));
                let p = plays[id];
                let mv = b[id].edges@[i as int].mv;
                assert(edge_moves(b[id].edges@)[i as int] == mv);
                law_ordinary_games_judgeable(p);
                law_legal_list_exact(p.board, p.board.side, false);
                assert(p.board.legal_list(p.board.side, false).contains(mv));
                law_undo_after_make(p, mv, q);
                assert(self.game@ == p);
                if before.len() > 1 {
                    let (above, j) = before[before.len() - 2];
                    assert(self.path@.last() == before[before.len() - 2]);
                    assert(b[above].edges@[j as int].child_id == Some(
                        before[before.len() - 2 + 1].0,
                    ));
                    assert(link_ok(b, plays, above, j as int));
                }
                assert forall|k: int| 0 <= k < self.path@.len() implies self.path@[k]
                    == #[trigger] before[k] by {}
                assert(path_ok(b, root, self.path@)) by {
                    assert forall|k: int| 0 <= k < self.path@.len() implies b.contains_key((
                    #[trigger] self.path@[k]).0) && self.path@[k].1
                        < b[self.path@[k].0].edges@.len() by {
                        assert(self.path@[k] == before[k]);
                    }
                    assert forall|k: int| 0 <= k < self.path@.len() - 1 implies b[(
                    #[trigger] self.path@[k]).0].edges@[self.path@[k].1 as int].child_id == Some(
                        self.path@[k + 1].0,
                    ) by {
                        assert(self.path@[k] == before[k]);
                        assert(self.path@[k + 1] == before[k + 1]);
                    }
                }
            }
        }
    }

    /// One walk down the tree with the evaluation of where it ends.
    fn simulate<
        S: Fn(&Node) -> usize,
        A: Fn(u32, i32, u32) -> u32,
        E: Fn(&GameState, &Vec<Move>) -> (Vec<u32>, u32),
    >(&mut self, select: &S, credit: &A, evaluate: &E)
        requires
            selects(*select),
            forall|w: u32, s: i32, v: u32| #[trigger] call_requires(*credit, (w, s, v)),
            evaluates(*evaluate),
            old(self).wf(),
            old(self).idle(),
            old(self).searchable(),
            old(self).spec_next_id() < u32::MAX,
            visits(old(self).root().edges@) < u32::MAX,
        ensures
            final(self).wf(),
            final(self).idle(),
            final(self).searchable(),
            final(self).simulations() == old(self).simulations(),
            final(self).spec_root_id() == old(self).spec_root_id(),
            old(self).spec_next_id() <= final(self).spec_next_id() <= old(self).spec_next_id() + 1,
            final(self).root().is_terminal == old(self).root().is_terminal,
            visits(final(self).root().edges@) == visits(old(self).root().edges@) + if old(
                self).root().is_terminal {
                0int
            } else {
                1
            },
            final(self).spec_game()@ == old(self).spec_game()@,
            final(self).spec_game().status == if old(self).root().is_terminal {
                old(self).spec_game().status
            } else {
                GameStatus::spec_ongoing()
            },
            simulated(*select, *credit, *evaluate, *old(self), *final(self)),
    {
        let ghost root = self.root_id;
        let ghost plays = self.plays@;
        proof {
            assert(self.nodes@.contains_key(root));
        }
        let descent = self.descend(select);
        let ghost m = *self;
        assert(descended(*select, *old(self), m, descent));
        match descent {
            Descent::Ended(value) => {
                assert(self.plays@[root] == plays[root]);
                assert(self.nodes@.contains_key(root));
                self.backup(value, ONE, credit);
            },
            Descent::NeedEval => {
                let legal = self.legal_moves();
                let reply: (Vec<u32>, u32) = evaluate(&self.game, &legal);
                let ghost said = reply;
                assert(call_ensures(*evaluate, (&self.game, &legal), said));
                assert(evaluated(*evaluate, m.spec_game()@, said));
                let (priors, value): (Vec<u32>, u32) = reply;
                self.expand(priors);
                let ghost grown = *self;
                assert(self.plays@[root] == plays[root]);
                self.backup(1, value, credit);
                assert(settled(*credit, *evaluate, m, grown, *self, said));
            },
        }
        proof {
            let n = self.nodes@[root];
            if !n.is_terminal {
                assert(edge_moves(n.edges@).len() == n.edges@.len());
                assert(edge_moves(old(self).nodes@[root].edges@).len()
                    == old(self).nodes@[root].edges@.len());
                assert(old(self).nodes@.contains_key(root));
            }
        }
    }

    /// Counters have room for all simulations.
    pub open spec fn room(&self) -> bool {
        &&& self.spec_next_id() + self.simulations() < u32::MAX
        &&& self.rooted() ==> visits(self.root().edges@) + self.simulations() <= u32::MAX
    }

    pub fn has_room(&self) -> (r: bool)
        requires
            self.wf(),
        ensures
            r == self.room(),
    {
        let limit: usize = u32::MAX as usize;
        if self.num_simulations >= limit - self.next_id as usize {
            return false;
        }
        if self.needs_root() {
            return true;
        }
        self.total_visits() as usize <= limit - self.num_simulations
    }

    /// How often the edges of the root were followed in all.
    pub fn total_visits(&self) -> (r: u32)
        requires
            self.wf(),
            self.rooted(),
        ensures
            r == visits(self.root().edges@),
    {
        let root = self.nodes.get(&self.root_id).unwrap();
        let mut total: u32 = 0;
        let mut i: usize = 0;
        let ghost edges = root.edges@;
        assert(edges.take(0) =~= Seq::<Edge>::empty());
        while i < root.edges.len()
            invariant
                edges == root.edges@,
                visits(edges) <= u32::MAX,
                i <= edges.len(),
                total == visits(edges.take(i as int)),
            decreases edges.len() - i,
        {
            proof {
                assert(edges.take(i + 1).drop_last() =~= edges.take(i as int));
                lemma_visits_prefix(edges, i + 1);
            }
            total += root.edges[i].visit_count;
            i += 1;
        }
        assert(edges.take(i as int) =~= edges);
        total
    }

    /// Replaces the priors at the root.
    pub fn set_root_priors(&mut self, priors: &Vec<u32>)
        requires
            old(self).wf(),
            old(self).idle(),
            old(self).rooted(),
            priors@.len() == old(self).root().edges@.len(),
        ensures
            final(self).wf(),
            final(self).idle(),
            final(self).simulations() == old(self).simulations(),
            final(self).spec_root_id() == old(self).spec_root_id(),
            final(self).spec_next_id() == old(self).spec_next_id(),
            final(self).spec_plays() == old(self).spec_plays(),
            final(self).spec_game() == old(self).spec_game(),
            final(self).spec_nodes().dom() == old(self).spec_nodes().dom(),
            forall|id: u32|
                old(self).spec_nodes().contains_key(id) && id != old(self).spec_root_id()
                    ==> #[trigger] final(self).spec_nodes()[id] == old(self).spec_nodes()[id],
            final(self).root().is_terminal == old(self).root().is_terminal,
            final(self).root().terminal_value == old(self).root().terminal_value,
            reweighted(old(self).root().edges@, final(self).root().edges@, priors@),
            visits(final(self).root().edges@) == visits(old(self).root().edges@),
    {
        let ghost nodes = self.nodes@;
        let ghost plays = self.plays@;
        let id: u32 = self.root_id;
        let mut root = self.nodes.remove(&id).unwrap();
        let ghost before = root.edges@;
        let mut i: usize = 0;
        while i < root.edges.len()
            invariant
                i <= before.len(),
                priors@.len() == before.len(),
                root.edges@.len() == before.len(),
                root.is_terminal == nodes[id].is_terminal,
                root.terminal_value == nodes[id].terminal_value,
                forall|j: int|
                    0 <= j < i ==> #[trigger] root.edges@[j] == (Edge {
                        prior: priors@[j],
                        ..before[j]
                    }),
                forall|j: int| i <= j < before.len() ==> #[trigger] root.edges@[j] == before[j],
            decreases before.len() - i,
        {
            let e = &root.edges[i];
            let edge = Edge {
                mv: e.mv,
                child_id: e.child_id,
                prior: priors[i],
                visit_count: e.visit_count,
                total_value: e.total_value,
            };
            root.edges.set(i, edge);
            i += 1;
        }
        self.nodes.insert(id, root);
        proof {
            let b = self.nodes@;
            assert(b.dom() =~= nodes.dom());
            lemma_visits_same(before, root.edges@);
            assert(edge_moves(root.edges@) =~= edge_moves(before));
            assert forall|k: u32| #[trigger] b.contains_key(k) implies k < self.next_id && node_ok(
                b[k],
                plays[k],
            ) by {
                assert(nodes.contains_key(k));
            }
            assert forall|k: u32, j: int| b.contains_key(k) && 0 <= j < b[k].edges@.len() implies #[trigger] link_ok(
                b,
                plays,
                k,
                j,
            ) by {
                assert(link_ok(nodes, plays, k, j));
            }
            assert forall|x: u32, m: int, y: u32, n: int, c: u32| #[trigger]
                leads(b, x, m, c) && #[trigger] leads(b, y, n, c) implies x == y && m == n by {
                assert(leads(nodes, x, m, c) && leads(nodes, y, n, c));
            }
        }
    }

    /// How often each move at the root was followed.
    pub fn visit_counts(&self) -> (r: Vec<(Move, u32)>)
        requires
            self.wf(),
            self.rooted(),
        ensures
            counts_of(self.root().edges@, r@),
    {
        let root = self.nodes.get(&self.root_id).unwrap();
        let mut r: Vec<(Move, u32)> = Vec::new();
        let mut i: usize = 0;
        while i < root.edges.len()
            invariant
                i <= root.edges@.len(),
                r@.len() == i,
                forall|j: int|
                    0 <= j < i ==> #[trigger] r@[j] == (
                        root.edges@[j].mv,
                        root.edges@[j].visit_count,
                    ),
            decreases root.edges@.len() - i,
        {
            r.push((root.edges[i].mv, root.edges[i].visit_count));
            i += 1;
        }
        r
    }

    /// Searches: makes the root where there is none, gives it new priors if `noisy`, and runs the
    /// simulations. Returns how often each move at the root was followed.
    #[verifier::rlimit(30)]
    pub fn run<
        S: Fn(&Node) -> usize,
        A: Fn(u32, i32, u32) -> u32,
        E: Fn(&GameState, &Vec<Move>) -> (Vec<u32>, u32),
        N: Fn(&Node) -> Vec<u32>,
    >(&mut self, select: &S, credit: &A, evaluate: &E, noisy: bool, noise: &N) -> (r: Vec<
        (Move, u32),
    >)
        requires
            selects(*select),
            forall|w: u32, s: i32, v: u32| #[trigger] call_requires(*credit, (w, s, v)),
            evaluates(*evaluate),
            forall|n: Node| #[trigger] call_requires(*noise, (&n,)),
            forall|n: Node, p: Vec<u32>| #[trigger]
                call_ensures(*noise, (&n,), p) ==> p@.len() == n.edges@.len(),
            old(self).wf(),
            old(self).idle(),
            old(self).room(),
            old(self).rooted() && old(self).simulations() > 0 ==> old(self).searchable(),
            !old(self).rooted() && !old(self).spec_game().status.is_terminal ==> ordinary(
                old(self).spec_game()@,
            ) && (old(self).simulations() > 0 ==> !old(self).spec_game()@.stuck()),
        ensures
            final(self).wf(),
            final(self).idle(),
            final(self).rooted(),
            final(self).simulations() == old(self).simulations(),
            final(self).spec_game()@ == old(self).spec_game()@,
            old(self).rooted() ==> final(self).spec_root_id() == old(self).spec_root_id()
                && final(self).root().is_terminal == old(self).root().is_terminal,
            !old(self).rooted() ==> final(self).root().is_terminal
                == old(self).spec_game().status.is_terminal,
            final(self).spec_next_id() <= old(self).spec_next_id() + old(self).simulations() + 1,
            final(self).spec_game().status == if final(self).root().is_terminal || old(
                self).simulations() == 0 {
                old(self).spec_game().status
            } else {
                GameStatus::spec_ongoing()
            },
            counts_of(final(self).root().edges@, r@),
            final(self).root().is_terminal ==> r@.len() == 0,
            !final(self).root().is_terminal ==> {
                &&& edge_moves(final(self).root().edges@) == final(
                    self).spec_game()@.board.legal_list(final(self).spec_game()@.board.side, false)
                &&& visits(final(self).root().edges@) == old(self).simulations() + if old(
                    self).rooted() {
                    visits(old(self).root().edges@)
                } else {
                    0
                }
            },
            searched(
                *select,
                *credit,
                *evaluate,
                noisy,
                *noise,
                *old(self),
                *final(self),
                r@,
            ),
    {
        let ghost base = if self.rooted() {
            visits(self.root().edges@)
        } else {
            0
        };
        proof {
            if self.rooted() {
                lemma_visits_nonneg(self.root().edges@);
            }
        }
        if self.needs_root() {
            if self.game.status.is_terminal {
                self.create_root(Vec::new());
            } else {
                let legal = self.legal_moves();
                let reply: (Vec<u32>, u32) = evaluate(&self.game, &legal);
                let ghost said = reply;
                assert(call_ensures(*evaluate, (&self.game, &legal), said));
                assert(evaluated(*evaluate, old(self).spec_game()@, said));
                let (priors, _value): (Vec<u32>, u32) = reply;
                self.create_root(priors);
            }
        }
        let ghost made = *self;
        assert(root_ready(*evaluate, *old(self), made));
        assert(visits(self.root().edges@) == base);
        if noisy {
            let priors = noise(self.nodes.get(&self.root_id).unwrap());
            self.set_root_priors(&priors);
            assert(call_ensures(*noise, (&made.root(),), priors));
            assert(self.spec_nodes().remove(self.root_id) =~= made.spec_nodes().remove(
                self.root_id,
            ));
            assert(noised(*noise, made, *self));
        }
        assert(prepared(*evaluate, noisy, *noise, *old(self), *self));
        let ghost mut steps: Seq<Mcts> = Seq::empty().push(*self);
        let n: usize = self.num_simulations;
        let mut i: usize = 0;
        let ghost root = self.root_id;
        let ghost is_terminal = self.root().is_terminal;
        let ghost next = self.next_id;
        while i < n
            invariant
                selects(*select),
                forall|w: u32, s: i32, v: u32| #[trigger] call_requires(*credit, (w, s, v)),
                evaluates(*evaluate),
                i <= n,
                self.wf(),
                self.idle(),
                n > 0 ==> self.searchable(),
                self.rooted(),
                self.root_id == root,
                self.root().is_terminal == is_terminal,
                self.simulations() == n,
                n == old(self).simulations(),
                self.next_id <= next + i,
                next + n <= u32::MAX,
                0 <= base,
                base + n <= u32::MAX,
                visits(self.root().edges@) == base + if is_terminal {
                    0
                } else {
                    i as int
                },
                self.game@ == old(self).game@,
                self.game.status == if is_terminal || i == 0 {
                    old(self).game.status
                } else {
                    GameStatus::spec_ongoing()
                },
                steps.len() == i + 1,
                steps.last() == *self,
                prepared(*evaluate, noisy, *noise, *old(self), steps[0]),
                all_simulated(*select, *credit, *evaluate, steps),
            decreases n - i,
        {
            let ghost before = *self;
            self.simulate(select, credit, evaluate);
            proof {
                let next = steps.push(*self);
                assert forall|k: int| 0 <= k < next.len() - 1 implies #[trigger] simulated_at(
                    *select,
                    *credit,
                    *evaluate,
                    next,
                    k,
                ) by {
                    if k < steps.len() - 1 {
                        assert(simulated_at(*select, *credit, *evaluate, steps, k));
                    } else {
                        assert(next[k] == before);
                    }
                }
                steps = next;
            }
            i += 1;
        }
        let r = self.visit_counts();
        r
    }

    /// The moves that were followed, as action numbers, with their shares of all visits as `ratio`
    /// gives them.
    pub fn policy_target<R: Fn(u32, u32) -> u32>(&self, ratio: &R) -> (r: Vec<(u16, u32)>)
        requires
            forall|n: u32, d: u32| 0 < n <= d ==> #[trigger] call_requires(*ratio, (n, d)),
            self.wf(),
            self.idle(),
            self.rooted(),
        ensures
            r@.len() == followed(self.root().edges@).len(),
            forall|k: int|
                0 <= k < r@.len() ==> {
                    let e = followed(self.root().edges@)[k];
                    &&& (#[trigger] r@[k]).0 == action_number(self.spec_game()@.board.side, e.mv)
                    &&& call_ensures(
                        *ratio,
                        (e.visit_count, visits(self.root().edges@) as u32),
                        r@[k].1,
                    )
                },
    {
        let total: u32 = self.total_visits();
        let root = self.nodes.get(&self.root_id).unwrap();
        let side = self.game.board.side_to_move;
        let mut r: Vec<(u16, u32)> = Vec::new();
        let mut i: usize = 0;
        let ghost edges = root.edges@;
        let ghost p = self.game@;
        assert(edges.take(0) =~= Seq::<Edge>::empty());
        proof {
            reveal(Seq::filter);
            assert(node_ok(*root, p));
        }
        while i < root.edges.len()
            invariant
                forall|n: u32, d: u32| 0 < n <= d ==> #[trigger] call_requires(*ratio, (n, d)),
                edges == root.edges@,
                side == p.board.side,
                node_ok(*root, p),
                total == visits(edges),
                i <= edges.len(),
                r@.len() == followed(edges.take(i as int)).len(),
                forall|k: int|
                    0 <= k < r@.len() ==> {
                        let e = followed(edges.take(i as int))[k];
                        &&& (#[trigger] r@[k]).0 == action_number(side, e.mv)
                        &&& call_ensures(*ratio, (e.visit_count, total), r@[k].1)
                    },
            decreases edges.len() - i,
        {
            let e = &root.edges[i];
            let ghost a = followed(edges.take(i as int));
            let ghost b = followed(edges.take(i + 1));
            proof {
                reveal(Seq::filter);
                assert(edges.take(i + 1).drop_last() =~= edges.take(i as int));
                assert(edges.take(i + 1).last() == *e);
                lemma_visits_bound(edges, i as int);
                assert(edge_moves(edges)[i as int] == e.mv);
                law_ordinary_games_judgeable(p);
                law_legal_list_exact(p.board, p.board.side, false);
                assert(p.board.legal_list(p.board.side, false).contains(e.mv));
                assert(p.board.can_make(e.mv));
            }
            if e.visit_count > 0 {
                let id: i32 = move_to_action_id(e.mv, side);
                proof {
                    law_action_numbers(side, e.mv, e.mv);
                }
                r.push((id as u16, ratio(e.visit_count, total)));
                assert(b =~= a.push(*e));
            }
            i += 1;
        }
        assert(edges.take(i as int) =~= edges);
        r
    }

    /// The move followed most often, the last of several.
    pub fn best_move(visit_counts: &Vec<(Move, u32)>) -> (r: Move)
        requires
            visit_counts@.len() > 0,
        ensures
            exists|k: int|
                #![trigger visit_counts@[k]]
                {
                    &&& 0 <= k < visit_counts@.len()
                    &&& r == visit_counts@[k].0
                    &&& forall|j: int|
                        0 <= j < visit_counts@.len() ==> (#[trigger] visit_counts@[j]).1
                            <= visit_counts@[k].1
                    &&& forall|j: int|
                        k < j < visit_counts@.len() ==> (#[trigger] visit_counts@[j]).1
                            < visit_counts@[k].1
                },
    {
        let mut best: usize = 0;
        let mut i: usize = 1;
        while i < visit_counts.len()
            invariant
                best < i <= visit_counts@.len(),
                forall|j: int|
                    0 <= j < i ==> (#[trigger] visit_counts@[j]).1 <= visit_counts@[best as int].1,
                forall|j: int|
                    best < j < i ==> (#[trigger] visit_counts@[j]).1 < visit_counts@[best as int].1,
            decreases visit_counts@.len() - i,
        {
            if visit_counts[i].1 >= visit_counts[best].1 {
                best = i;
            }
            i += 1;
        }
        visit_counts[best].0
    }

    /// The node that a move from the root leads to.
    pub open spec fn next_root(&self, mv: Move) -> Option<u32> {
        if self.rooted() {
            child_for(self.root().edges@, mv)
        } else {
            None
        }
    }

    /// Makes a move of the game. The part of the tree below it stays, with all that was found there;
    /// without such a part the tree is dropped.
    pub fn advance(&mut self, mv: Move)
        requires
            old(self).wf(),
            old(self).idle(),
            old(self).spec_game()@.board.can_make(mv),
            old(self).spec_game()@.infos.len() + 1 < u32::MAX,
            forall|next: Play| #[trigger]
                old(self).spec_game()@.extended(mv, next) ==> next.judgeable(),
        ensures
            final(self).wf(),
            final(self).idle(),
            final(self).simulations() == old(self).simulations(),
            final(self).spec_next_id() == old(self).spec_next_id(),
            old(self).spec_game()@.extended(mv, final(self).spec_game()@),
            final(self).spec_game().status == final(self).spec_game()@.outcome(),
            advanced(*old(self), *final(self), mv),
            final(self).rooted() ==> {
                &&& visits(final(self).root().edges@) <= visits(old(self).root().edges@)
                &&& final(self).root().is_terminal == final(self).spec_game().status.is_terminal
            },
    {
        let ghost nodes = self.nodes@;
        let ghost plays = self.plays@;
        let ghost p = self.game@;
        self.game.make_move(mv);
        let found = match self.nodes.get(&self.root_id) {
            Some(root) => find_child(&root.edges, mv),
            None => None,
        };
        match found {
            Some(id) => {
                proof {
                    let j = lemma_child_for(nodes[self.root_id].edges@, mv);
                    assert(link_ok(nodes, plays, self.root_id, j));
                    lemma_extended_unique(p, mv, self.game@, plays[id]);
                    lemma_visits_bound(nodes[self.root_id].edges@, j);
                    assert forall|a: u32, j: int, c: u32| #[trigger]
                        leads(nodes, a, j, c) implies nodes.contains_key(c) by {
                        assert(link_ok(nodes, plays, a, j));
                    }
                }
                self.prune(id);
                self.root_id = id;
                proof {
                    lemma_kept_in_order(nodes, self.nodes@, plays, self.next_id, id);
                }
            },
            None => {
                self.nodes = HashMap::new();
                self.plays = Ghost(Map::empty());
                assert(self.nodes@ =~= Map::<u32, Node>::empty());
            },
        }
    }

    /// Keeps only the nodes that can be reached from one of them.
    #[verifier::rlimit(30)]
    fn prune(&mut self, start: u32)
        requires
            old(self).nodes@.contains_key(start),
            forall|a: u32, j: int, c: u32| #[trigger]
                leads(old(self).nodes@, a, j, c) ==> old(self).nodes@.contains_key(c),
        ensures
            kept_below(old(self).nodes@, final(self).nodes@, start),
            final(self).next_id == old(self).next_id,
            final(self).root_id == old(self).root_id,
            final(self).game == old(self).game,
            final(self).num_simulations == old(self).num_simulations,
            final(self).path == old(self).path,
            final(self).plays == old(self).plays,
    {
        let ghost nodes = self.nodes@;
        let mut alive: HashMap<u32, Node> = HashMap::new();
        let mut queue: Vec<u32> = Vec::new();
        queue.push(start);
        proof {
            assert(queue@[0] == start);
            assert(reach_in(nodes, start, start, 0));
        }
        while queue.len() > 0
            invariant
                self.next_id == old(self).next_id,
                self.root_id == old(self).root_id,
                self.game == old(self).game,
                self.num_simulations == old(self).num_simulations,
                self.path == old(self).path,
                self.plays == old(self).plays,
                nodes == old(self).nodes@,
                forall|a: u32, j: int, c: u32| #[trigger]
                    leads(nodes, a, j, c) ==> nodes.contains_key(c),
                parted(nodes, self.nodes@, alive@),
                alive@.contains_key(start) || queue@.contains(start),
                forall|k: int| 0 <= k < queue@.len() ==> nodes.contains_key(#[trigger] queue@[k]),
                forall|k: int|
                    0 <= k < queue@.len() ==> reachable(nodes, start, #[trigger] queue@[k]),
                forall|id: u32| #[trigger] alive@.contains_key(id) ==> reachable(nodes, start, id),
                forall|a: u32, j: int, c: u32|
                    alive@.contains_key(a) && #[trigger] leads(nodes, a, j, c)
                        ==> alive@.contains_key(c) || queue@.contains(c),
            decreases self.nodes@.dom().len(), queue@.len(),
        {
            let ghost q0 = queue@;
            let ghost alive0 = alive@;
            let id: u32 = queue.pop().unwrap();
            proof {
                assert(q0.last() == q0[q0.len() - 1]);
                assert(queue@ =~= q0.drop_last());
                assert forall|x: u32| #[trigger] q0.contains(x) implies x == id || queue@.contains(
                    x,
                ) by {
                    let k = choose|k: int| 0 <= k < q0.len() && q0[k] == x;
                    if k < queue@.len() {
                        assert(queue@[k] == x);
                    }
                }
                assert forall|k: int| 0 <= k < queue@.len() implies q0[k] == #[trigger] queue@[k] by {}
            }
            let ghost left = self.nodes@;
            let taken = self.nodes.remove(&id);
            if let Some(node) = taken {
                let mut i: usize = 0;
                let ghost q1 = queue@;
                while i < node.edges.len()
                    invariant
                        i <= node.edges@.len(),
                        nodes.contains_key(id),
                        nodes[id] == node,
                        reachable(nodes, start, id),
                        forall|a: u32, j: int, c: u32| #[trigger]
                            leads(nodes, a, j, c) ==> nodes.contains_key(c),
                        forall|k: int|
                            0 <= k < queue@.len() ==> nodes.contains_key(#[trigger] queue@[k])
                                && reachable(nodes, start, queue@[k]),
                        forall|x: u32| #[trigger] q1.contains(x) ==> queue@.contains(x),
                        forall|j: int, c: u32| #[trigger]
                            leads(nodes, id, j, c) && j < i ==> queue@.contains(c),
                    decreases node.edges@.len() - i,
                {
                    let ghost q2 = queue@;
                    if let Some(cid) = node.edges[i].child_id {
                        proof {
                            assert(leads(nodes, id, i as int, cid));
                            assert(child_of(nodes, id, cid));
                            let n = choose|n: nat| reach_in(nodes, start, id, n);
                            assert(reach_in(nodes, start, cid, n + 1));
                        }
                        queue.push(cid);
                        proof {
                            assert(queue@[q2.len() as int] == cid);
                            assert forall|x: u32| #[trigger] q2.contains(x) implies queue@.contains(
                                x,
                            ) by {
                                let k = choose|k: int| 0 <= k < q2.len() && q2[k] == x;
                                assert(queue@[k] == x);
                            }
                            assert forall|x: u32| #[trigger] q1.contains(x) implies queue@.contains(
                                x,
                            ) by {
                                assert(q2.contains(x));
                            }
                        }
                    }
                    proof {
                        assert forall|j: int, c: u32| #[trigger]
                            leads(nodes, id, j, c) && j < i + 1 implies queue@.contains(c) by {
                            if j < i {
                                assert(q2.contains(c));
                            }
                        }
                    }
                    i += 1;
                }
                alive.insert(id, node);
                proof {
                    assert(left.dom().contains(id));
                    assert(self.nodes@.dom() =~= left.dom().remove(id));
                    assert forall|a: u32, j: int, c: u32|
                        alive@.contains_key(a) && #[trigger] leads(nodes, a, j, c) implies alive@.contains_key(
                        c,
                    ) || queue@.contains(c) by {
                        if a != id {
                            assert(alive0.contains_key(a));
                            assert(alive0.contains_key(c) || q0.contains(c));
                            if q0.contains(c) && c != id {
                                assert(q1.contains(c));
                            }
                        }
                    }
                    if !alive@.contains_key(start) {
                        assert(q0.contains(start));
                        assert(q1.contains(start));
                    }
                }
            } else {
                proof {
                    assert(self.nodes@ =~= left);
                    assert(alive@.contains_key(id));
                    assert forall|a: u32, j: int, c: u32|
                        alive@.contains_key(a) && #[trigger] leads(nodes, a, j, c) implies alive@.contains_key(
                        c,
                    ) || queue@.contains(c) by {
                        assert(alive0.contains_key(c) || q0.contains(c));
                    }
                }
            }
        }
        proof {
            assert forall|id: u32| #[trigger] alive@.contains_key(id) <==> nodes.contains_key(id)
                && reachable(nodes, start, id) by {
                if nodes.contains_key(id) && reachable(nodes, start, id) {
                    let n = choose|n: nat| reach_in(nodes, start, id, n);
                    lemma_closed_holds_reachable(nodes, alive@, start, id, n);
                }
            }
        }
        self.nodes = alive;
    }
}

/// A walk from `a` along the edges that `select` picks ended in `m`, as `r` says.
pub open spec fn descended<S: Fn(&Node) -> usize>(
    select: S,
    a: Mcts,
    m: Mcts,
    r: Descent,
) -> bool {
    &&& m.spec_root_id() == a.spec_root_id()
    &&& path_ok(a.spec_nodes(), a.spec_root_id(), m.spec_path())
    &&& picked(select, a.spec_nodes(), m.spec_path())
    &&& match r {
        Descent::Ended(value) => m.ended(a, value),
        Descent::NeedEval => {
            &&& m.awaiting()
            &&& m.spec_nodes() == a.spec_nodes()
            &&& m.spec_plays() == a.spec_plays()
            &&& m.spec_next_id() == a.spec_next_id()
        },
    }
}

/// `evaluate` may say this of a game and its legal moves.
pub open spec fn evaluated<E: Fn(&GameState, &Vec<Move>) -> (Vec<u32>, u32)>(
    evaluate: E,
    p: Play,
    said: (Vec<u32>, u32),
) -> bool {
    exists|g: GameState, moves: Vec<Move>| #[trigger]
        call_ensures(evaluate, (&g, &moves), said) && g@ == p && moves@ == p.board.legal_list(
            p.board.side,
            false,
        )
}

/// The game at which the walk in `m` stands was given a node with these priors, and its value was
/// credited along the path.
pub open spec fn evaluated_node<A: Fn(u32, i32, u32) -> u32>(
    credit: A,
    m: Mcts,
    grown: Mcts,
    b: Mcts,
    priors: Seq<u32>,
    value: u32,
) -> bool {
    let p = m.spec_game()@;
    let leaf = grown.spec_nodes()[m.spec_next_id()];
    let (id, i) = m.spec_path().last();
    &&& attached(m.spec_nodes(), grown.spec_nodes(), id, i as int, m.spec_next_id(), leaf)
    &&& !leaf.is_terminal
    &&& fresh_edges(leaf.edges@, p.board.legal_list(p.board.side, false), priors)
    &&& credited(credit, 1, value, grown.spec_nodes(), b.spec_nodes(), m.spec_path())
}

/// The game at which the walk in `m` stands was given a node with the priors that were said of it,
/// and its value was credited along the path.
pub open spec fn settled<
    A: Fn(u32, i32, u32) -> u32,
    E: Fn(&GameState, &Vec<Move>) -> (Vec<u32>, u32),
>(credit: A, evaluate: E, m: Mcts, grown: Mcts, b: Mcts, said: (Vec<u32>, u32)) -> bool {
    &&& evaluated(evaluate, m.spec_game()@, said)
    &&& evaluated_node(credit, m, grown, b, said.0@, said.1)
}

/// One simulation leads from `a` to `b`: a walk down, then the value of where it ended credited
/// along the path, after an evaluation if the game goes on there.
pub open spec fn simulated<
    S: Fn(&Node) -> usize,
    A: Fn(u32, i32, u32) -> u32,
    E: Fn(&GameState, &Vec<Move>) -> (Vec<u32>, u32),
>(select: S, credit: A, evaluate: E, a: Mcts, b: Mcts) -> bool {
    exists|m: Mcts, r: Descent| #[trigger]
        descended(select, a, m, r) && match r {
            Descent::Ended(value) => credited(
                credit,
                value,
                ONE,
                m.spec_nodes(),
                b.spec_nodes(),
                m.spec_path(),
            ),
            Descent::NeedEval => exists|grown: Mcts, said: (Vec<u32>, u32)| #[trigger]
                settled(credit, evaluate, m, grown, b, said),
        }
}

pub open spec fn simulated_at<
    S: Fn(&Node) -> usize,
    A: Fn(u32, i32, u32) -> u32,
    E: Fn(&GameState, &Vec<Move>) -> (Vec<u32>, u32),
>(select: S, credit: A, evaluate: E, steps: Seq<Mcts>, k: int) -> bool {
    simulated(select, credit, evaluate, steps[k], steps[k + 1])
}

/// Each step but the first comes from the one before by a simulation.
pub open spec fn all_simulated<
    S: Fn(&Node) -> usize,
    A: Fn(u32, i32, u32) -> u32,
    E: Fn(&GameState, &Vec<Move>) -> (Vec<u32>, u32),
>(select: S, credit: A, evaluate: E, steps: Seq<Mcts>) -> bool {
    forall|k: int|
        0 <= k < steps.len() - 1 ==> #[trigger] simulated_at(select, credit, evaluate, steps, k)
}

/// `b` has the tree of `a` or, if there is none, a root alone: with the priors that were said of the
/// game, or as one that has ended.
pub open spec fn root_ready<E: Fn(&GameState, &Vec<Move>) -> (Vec<u32>, u32)>(
    evaluate: E,
    a: Mcts,
    b: Mcts,
) -> bool {
    let p = a.spec_game()@;
    if a.rooted() {
        b.spec_nodes() == a.spec_nodes() && b.spec_root_id() == a.spec_root_id()
    } else {
        &&& b.spec_root_id() == a.spec_next_id()
        &&& b.spec_nodes().dom() == Set::<u32>::empty().insert(a.spec_next_id())
        &&& b.root().is_terminal == a.spec_game().status.is_terminal
        &&& if b.root().is_terminal {
            b.root().edges@.len() == 0 && b.root().terminal_value == result_value(
                a.spec_game().status,
                p.board.side,
            )
        } else {
            exists|said: (Vec<u32>, u32)| #[trigger]
                evaluated(evaluate, p, said) && fresh_edges(
                    b.root().edges@,
                    p.board.legal_list(p.board.side, false),
                    said.0@,
                )
        }
    }
}

/// `b` is `a` with priors of the root that `noise` gives.
pub open spec fn noised<N: Fn(&Node) -> Vec<u32>>(noise: N, a: Mcts, b: Mcts) -> bool {
    &&& b.spec_root_id() == a.spec_root_id()
    &&& b.spec_nodes().remove(b.spec_root_id()) == a.spec_nodes().remove(a.spec_root_id())
    &&& exists|p: Vec<u32>| #[trigger]
        call_ensures(noise, (&a.root(),), p) && reweighted(a.root().edges@, b.root().edges@, p@)
}

/// A search led from `before` to `after` and followed each legal move as often as `counts` says: the
/// root is made, noise is mixed into its priors, and all simulations are run.
pub open spec fn searched<
    S: Fn(&Node) -> usize,
    A: Fn(u32, i32, u32) -> u32,
    E: Fn(&GameState, &Vec<Move>) -> (Vec<u32>, u32),
    N: Fn(&Node) -> Vec<u32>,
>(
    select: S,
    credit: A,
    evaluate: E,
    noisy: bool,
    noise: N,
    before: Mcts,
    after: Mcts,
    counts: Seq<(Move, u32)>,
) -> bool {
    &&& counts_of(after.root().edges@, counts)
    &&& exists|steps: Seq<Mcts>|
        {
            &&& #[trigger] all_simulated(select, credit, evaluate, steps)
            &&& steps.len() == before.simulations() + 1
            &&& prepared(evaluate, noisy, noise, before, steps[0])
            &&& steps.last() == after
        }
}

/// The tree of `b` is the part of that of `a` below the move, with all that was found there; it is
/// empty if there is no such part.
pub open spec fn advanced(a: Mcts, b: Mcts, mv: Move) -> bool {
    match a.next_root(mv) {
        Some(c) => {
            &&& b.rooted()
            &&& b.spec_root_id() == c
            &&& kept_below(a.spec_nodes(), b.spec_nodes(), c)
        },
        None => b.spec_nodes() == Map::<u32, Node>::empty(),
    }
}

/// `b` is ready for the simulations of a search from `a`.
pub open spec fn prepared<
    E: Fn(&GameState, &Vec<Move>) -> (Vec<u32>, u32),
    N: Fn(&Node) -> Vec<u32>,
>(evaluate: E, noisy: bool, noise: N, a: Mcts, b: Mcts) -> bool {
    exists|made: Mcts| #[trigger]
        root_ready(evaluate, a, made) && if noisy {
            noised(noise, made, b)
        } else {
            b == made
        }
}

/// `b` is `a` with one edge of one node replaced.
pub open spec fn edge_set(
    a: Map<u32, Node>,
    b: Map<u32, Node>,
    id: u32,
    i: int,
    edge: Edge,
) -> bool {
    &&& b.dom() == a.dom()
    &&& forall|k: u32| a.contains_key(k) && k != id ==> #[trigger] b[k] == a[k]
    &&& b[id].is_terminal == a[id].is_terminal
    &&& b[id].terminal_value == a[id].terminal_value
    &&& b[id].edges@ == a[id].edges@.update(i, edge)
}

/// `b` is `a` with a new node on an edge.
pub open spec fn attached(
    a: Map<u32, Node>,
    b: Map<u32, Node>,
    id: u32,
    i: int,
    new_id: u32,
    node: Node,
) -> bool {
    edge_set(
        a.insert(new_id, node),
        b,
        id,
        i,
        Edge { child_id: Some(new_id), ..a[id].edges@[i] },
    )
}

/// The `k`-th edge of the path is visited once more and has been given a value that `credit` allows.
pub open spec fn credited_at<A: Fn(u32, i32, u32) -> u32>(
    credit: A,
    value: i32,
    unit: u32,
    a: Map<u32, Node>,
    b: Map<u32, Node>,
    path: Seq<(u32, usize)>,
    k: int,
) -> bool {
    let (id, i) = path[k];
    let e = a[id].edges@[i as int];
    let f = b[id].edges@[i as int];
    &&& b[id].is_terminal == a[id].is_terminal
    &&& b[id].terminal_value == a[id].terminal_value
    &&& b[id].edges@ == a[id].edges@.update(i as int, f)
    &&& f.mv == e.mv
    &&& f.child_id == e.child_id
    &&& f.prior == e.prior
    &&& f.visit_count == e.visit_count + 1
    &&& call_ensures(
        credit,
        (e.total_value, signed(value, (path.len() - k) as nat), unit),
        f.total_value,
    )
}

/// The first `n` edges of the path are credited, and no other edge is changed.
pub open spec fn credited_to<A: Fn(u32, i32, u32) -> u32>(
    credit: A,
    value: i32,
    unit: u32,
    a: Map<u32, Node>,
    b: Map<u32, Node>,
    path: Seq<(u32, usize)>,
    n: int,
) -> bool {
    &&& b.dom() == a.dom()
    &&& forall|k: int| 0 <= k < n ==> #[trigger] credited_at(credit, value, unit, a, b, path, k)
    &&& forall|id: u32| #[trigger]
        a.contains_key(id) && (forall|k: int| 0 <= k < n ==> (#[trigger] path[k]).0 != id)
            ==> b[id] == a[id]
}

/// Every edge of the path is credited, and no other edge is changed.
pub open spec fn credited<A: Fn(u32, i32, u32) -> u32>(
    credit: A,
    value: i32,
    unit: u32,
    a: Map<u32, Node>,
    b: Map<u32, Node>,
    path: Seq<(u32, usize)>,
) -> bool {
    credited_to(credit, value, unit, a, b, path, path.len() as int)
}

/// The nodes of a path come in the order in which they were made.
proof fn lemma_path_descends(
    nodes: Map<u32, Node>,
    plays: Map<u32, Play>,
    next_id: u32,
    root: u32,
    path: Seq<(u32, usize)>,
)
    requires
        forest_ok(nodes, plays, next_id),
        path_ok(nodes, root, path),
    ensures
        forall|i: int, j: int| 0 <= i < j < path.len() ==> path[i].0 < path[j].0,
    decreases path.len(),
{
    if path.len() > 1 {
        let rest = path.drop_last();
        assert forall|k: int| 0 <= k < rest.len() implies nodes.contains_key((
        #[trigger] rest[k]).0) && rest[k].1 < nodes[rest[k].0].edges@.len() by {
            assert(rest[k] == path[k]);
        }
        assert forall|k: int| 0 <= k < rest.len() - 1 implies nodes[(
        #[trigger] rest[k]).0].edges@[rest[k].1 as int].child_id == Some(rest[k + 1].0) by {
            assert(rest[k] == path[k]);
            assert(rest[k + 1] == path[k + 1]);
        }
        lemma_path_descends(nodes, plays, next_id, root, rest);
        let n = path.len() - 2;
        assert(nodes[path[n].0].edges@[path[n].1 as int].child_id == Some(path[n + 1].0));
        assert(link_ok(nodes, plays, path[n].0, path[n].1 as int));
        assert forall|i: int, j: int| 0 <= i < j < path.len() implies path[i].0 < path[j].0 by {
            assert(rest[i] == path[i]);
            if j < rest.len() {
                assert(rest[j] == path[j]);
            } else {
                assert(rest[n] == path[n]);
                if i < n {
                    assert(rest[i].0 < rest[n].0);
                }
            }
        }
    }
}

/// Counting a visit keeps the tree in order where the edge above has room for it.
proof fn lemma_counted(
    a: Map<u32, Node>,
    b: Map<u32, Node>,
    plays: Map<u32, Play>,
    next_id: u32,
    id: u32,
    i: int,
    edge: Edge,
)
    requires
        forest_ok(a, plays, next_id),
        a.contains_key(id),
        0 <= i < a[id].edges@.len(),
        edge_set(a, b, id, i, edge),
        edge.mv == a[id].edges@[i].mv,
        edge.child_id == a[id].edges@[i].child_id,
        edge.visit_count == a[id].edges@[i].visit_count + 1,
        forall|x: u32, m: int| #[trigger]
            leads(a, x, m, id) ==> visits(a[id].edges@) < a[x].edges@[m].visit_count,
    ensures
        forest_ok(b, plays, next_id),
{
    lemma_visits_update(a[id].edges@, b[id].edges@, i);
    assert(edge_moves(b[id].edges@) =~= edge_moves(a[id].edges@));
    assert forall|k: u32| #[trigger] b.contains_key(k) implies k < next_id && node_ok(
        b[k],
        plays[k],
    ) by {
        assert(a.contains_key(k));
    }
    assert forall|k: u32, j: int| b.contains_key(k) && 0 <= j < b[k].edges@.len() implies #[trigger] link_ok(
        b,
        plays,
        k,
        j,
    ) by {
        assert(a.contains_key(k));
        assert(link_ok(a, plays, k, j));
        if let Some(c) = a[k].edges@[j].child_id {
            assert(a.contains_key(c));
            if c == id {
                assert(leads(a, k, j, id));
            }
        }
    }
    assert forall|x: u32, m: int, y: u32, n: int, c: u32| #[trigger]
        leads(b, x, m, c) && #[trigger] leads(b, y, n, c) implies x == y && m == n by {
        assert(a.contains_key(x) && a.contains_key(y));
        assert(leads(a, x, m, c) && leads(a, y, n, c));
    }
}

/// There is room for one more visit at the `k`-th edge of the path.
pub open spec fn room_at(nodes: Map<u32, Node>, path: Seq<(u32, usize)>, k: int) -> bool {
    let counts = visits(nodes[path[k].0].edges@);
    if k == 0 {
        counts < u32::MAX
    } else {
        counts < nodes[path[k - 1].0].edges@[path[k - 1].1 as int].visit_count
    }
}

/// The first `k` edges of the path are credited, the tree is in order, and there is room for the
/// next.
#[verifier::opaque]
spec fn crediting<A: Fn(u32, i32, u32) -> u32>(
    credit: A,
    value: i32,
    unit: u32,
    nodes: Map<u32, Node>,
    a: Map<u32, Node>,
    plays: Map<u32, Play>,
    next_id: u32,
    root: u32,
    path: Seq<(u32, usize)>,
    k: int,
) -> bool {
    &&& path_ok(nodes, root, path)
    &&& path_ok(a, root, path)
    &&& forest_ok(a, plays, next_id)
    &&& forall|i: int, j: int| 0 <= i < j < path.len() ==> path[i].0 < path[j].0
    &&& forall|id: u32| #[trigger] nodes.contains_key(id) ==> root <= id
    &&& credited_to(credit, value, unit, nodes, a, path, k)
    &&& k < path.len() ==> room_at(a, path, k)
}

proof fn lemma_credit_start<A: Fn(u32, i32, u32) -> u32>(
    credit: A,
    value: i32,
    unit: u32,
    nodes: Map<u32, Node>,
    plays: Map<u32, Play>,
    next_id: u32,
    root: u32,
    path: Seq<(u32, usize)>,
)
    requires
        forest_ok(nodes, plays, next_id),
        path_ok(nodes, root, path),
        forall|id: u32| #[trigger] nodes.contains_key(id) ==> root <= id,
        visits(nodes[root].edges@) < u32::MAX || path.len() == 0,
    ensures
        crediting(credit, value, unit, nodes, nodes, plays, next_id, root, path, 0),
{
    reveal(crediting);
    lemma_path_descends(nodes, plays, next_id, root, path);
}

/// The next edge is there and has room for a visit.
proof fn lemma_credit_ready<A: Fn(u32, i32, u32) -> u32>(
    credit: A,
    value: i32,
    unit: u32,
    nodes: Map<u32, Node>,
    a: Map<u32, Node>,
    plays: Map<u32, Play>,
    next_id: u32,
    root: u32,
    path: Seq<(u32, usize)>,
    k: int,
)
    requires
        0 <= k < path.len(),
        crediting(credit, value, unit, nodes, a, plays, next_id, root, path, k),
    ensures
        a.contains_key(path[k].0),
        path[k].1 < a[path[k].0].edges@.len(),
        a[path[k].0].edges@[path[k].1 as int].visit_count < u32::MAX,
{
    reveal(crediting);
    lemma_visits_bound(a[path[k].0].edges@, path[k].1 as int);
}

/// Crediting the next edge of the path keeps the tree in order.
proof fn lemma_credit_step<A: Fn(u32, i32, u32) -> u32>(
    credit: A,
    value: i32,
    unit: u32,
    nodes: Map<u32, Node>,
    a: Map<u32, Node>,
    b: Map<u32, Node>,
    plays: Map<u32, Play>,
    next_id: u32,
    root: u32,
    path: Seq<(u32, usize)>,
    k: int,
)
    requires
        0 <= k < path.len(),
        crediting(credit, value, unit, nodes, a, plays, next_id, root, path, k),
        edge_set(a, b, path[k].0, path[k].1 as int, b[path[k].0].edges@[path[k].1 as int]),
        credited_at(credit, value, unit, a, b, path, k),
    ensures
        crediting(credit, value, unit, nodes, b, plays, next_id, root, path, k + 1),
{
    reveal(crediting);
    let (id, i) = path[k];
    let edge = b[id].edges@[i as int];
    assert(a.contains_key(id));
    assert forall|x: u32, m: int| #[trigger] leads(a, x, m, id) implies visits(a[id].edges@)
        < a[x].edges@[m].visit_count by {
        assert(link_ok(a, plays, x, m));
        assert(nodes.contains_key(x));
        if k > 0 {
            assert(a.contains_key(path[k - 1].0));
            assert(a[path[k - 1].0].edges@[path[k - 1].1 as int].child_id == Some(
                path[k - 1 + 1].0,
            ));
            assert(leads(a, path[k - 1].0, path[k - 1].1 as int, id));
        }
    }
    lemma_counted(a, b, plays, next_id, id, i as int, edge);
    lemma_edge_set_path(a, b, id, i as int, edge, root, path);
    assert(nodes[id] == a[id]) by {
        assert(nodes.contains_key(id));
        assert(forall|j: int| 0 <= j < k ==> (#[trigger] path[j]).0 != id);
    }
    assert forall|j: int| 0 <= j < k + 1 implies #[trigger] credited_at(
        credit,
        value,
        unit,
        nodes,
        b,
        path,
        j,
    ) by {
        if j < k {
            assert(credited_at(credit, value, unit, nodes, a, path, j));
            assert(path[j].0 != id);
            assert(a.contains_key(path[j].0));
        }
    }
    assert forall|x: u32| #[trigger]
        nodes.contains_key(x) && (forall|j: int|
            0 <= j < k + 1 ==> (#[trigger] path[j]).0 != x) implies b[x] == nodes[x] by {
        assert(path[k].0 != x);
        assert(a.contains_key(x));
    }
    lemma_visits_update(a[id].edges@, b[id].edges@, i as int);
    if k + 1 < path.len() {
        let next = path[k + 1].0;
        assert(a[path[k].0].edges@[path[k].1 as int].child_id == Some(next));
        assert(link_ok(a, plays, id, i as int));
        assert(a.contains_key(next));
        assert(next != id);
        assert(b[next] == a[next]);
    }
}

/// A path stays one when an edge keeps its child.
proof fn lemma_edge_set_path(
    a: Map<u32, Node>,
    b: Map<u32, Node>,
    id: u32,
    i: int,
    edge: Edge,
    root: u32,
    path: Seq<(u32, usize)>,
)
    requires
        edge_set(a, b, id, i, edge),
        0 <= i < a[id].edges@.len(),
        edge.child_id == a[id].edges@[i].child_id,
        path_ok(a, root, path),
    ensures
        path_ok(b, root, path),
{
    assert forall|k: int| 0 <= k < path.len() implies b.contains_key((#[trigger] path[k]).0)
        && path[k].1 < b[path[k].0].edges@.len() by {
        assert(a.contains_key(path[k].0));
    }
    assert forall|k: int| 0 <= k < path.len() - 1 implies b[(
    #[trigger] path[k]).0].edges@[path[k].1 as int].child_id == Some(path[k + 1].0) by {
        assert(a.contains_key(path[k].0));
        assert(a[path[k].0].edges@[path[k].1 as int].child_id == Some(path[k + 1].0));
    }
}

/// `evaluate` gives every list of moves as many priors.
pub open spec fn evaluates<E: Fn(&GameState, &Vec<Move>) -> (Vec<u32>, u32)>(evaluate: E) -> bool {
    &&& forall|g: GameState, m: Vec<Move>| #[trigger] call_requires(evaluate, (&g, &m))
    &&& forall|g: GameState, m: Vec<Move>, r: (Vec<u32>, u32)| #[trigger]
        call_ensures(evaluate, (&g, &m), r) ==> r.0@.len() == m@.len()
}

/// `counts` lists the moves of the edges with their visits.
pub open spec fn counts_of(edges: Seq<Edge>, counts: Seq<(Move, u32)>) -> bool {
    &&& counts.len() == edges.len()
    &&& forall|j: int|
        0 <= j < counts.len() ==> #[trigger] counts[j] == (edges[j].mv, edges[j].visit_count)
}

/// The edges that were followed at least once.
pub open spec fn followed(edges: Seq<Edge>) -> Seq<Edge> {
    edges.filter(|e: Edge| e.visit_count > 0)
}

/// The edges with other priors.
pub open spec fn reweighted(a: Seq<Edge>, b: Seq<Edge>, priors: Seq<u32>) -> bool {
    &&& b.len() == a.len()
    &&& forall|j: int| 0 <= j < a.len() ==> #[trigger] b[j] == (Edge { prior: priors[j], ..a[j] })
}

proof fn lemma_visits_same(a: Seq<Edge>, b: Seq<Edge>)
    requires
        a.len() == b.len(),
        forall|j: int| 0 <= j < a.len() ==> (#[trigger] b[j]).visit_count == a[j].visit_count,
    ensures
        visits(a) == visits(b),
    decreases a.len(),
{
    if a.len() > 0 {
        lemma_visits_same(a.drop_last(), b.drop_last());
    }
}

proof fn lemma_visits_prefix(edges: Seq<Edge>, n: int)
    requires
        0 <= n <= edges.len(),
    ensures
        0 <= visits(edges.take(n)) <= visits(edges),
    decreases edges.len() - n,
{
    lemma_visits_nonneg(edges.take(n));
    if n < edges.len() {
        assert(edges.take(n + 1).drop_last() =~= edges.take(n));
        lemma_visits_prefix(edges, n + 1);
    } else {
        assert(edges.take(n) =~= edges);
    }
}

/// Where the first edge with the move leads.
pub open spec fn child_for(edges: Seq<Edge>, mv: Move) -> Option<u32>
    decreases edges.len(),
{
    if edges.len() == 0 {
        None
    } else if edges[0].mv == mv {
        edges[0].child_id
    } else {
        child_for(edges.drop_first(), mv)
    }
}

fn find_child(edges: &Vec<Edge>, mv: Move) -> (r: Option<u32>)
    ensures
        r == child_for(edges@, mv),
{
    let mut i: usize = 0;
    assert(edges@.skip(0) =~= edges@);
    while i < edges.len()
        invariant
            i <= edges@.len(),
            child_for(edges@, mv) == child_for(edges@.skip(i as int), mv),
        decreases edges@.len() - i,
    {
        assert(edges@.skip(i as int).drop_first() =~= edges@.skip(i + 1));
        if edges[i].mv == mv {
            return edges[i].child_id;
        }
        i += 1;
    }
    None
}

proof fn lemma_child_for(edges: Seq<Edge>, mv: Move) -> (j: int)
    requires
        child_for(edges, mv) is Some,
    ensures
        0 <= j < edges.len(),
        edges[j].mv == mv,
        edges[j].child_id == child_for(edges, mv),
    decreases edges.len(),
{
    if edges[0].mv == mv {
        0
    } else {
        let j = lemma_child_for(edges.drop_first(), mv);
        j + 1
    }
}

/// An edge leads from the one node to the other.
pub open spec fn child_of(nodes: Map<u32, Node>, a: u32, b: u32) -> bool {
    exists|j: int| leads(nodes, a, j, b)
}

/// `n` edges lead from the one node to the other.
pub open spec fn reach_in(nodes: Map<u32, Node>, a: u32, b: u32, n: nat) -> bool
    decreases n,
{
    if n == 0 {
        a == b
    } else {
        exists|c: u32| #[trigger] child_of(nodes, c, b) && reach_in(nodes, a, c, (n - 1) as nat)
    }
}

/// Edges lead from the one node to the other.
pub open spec fn reachable(nodes: Map<u32, Node>, a: u32, b: u32) -> bool {
    exists|n: nat| reach_in(nodes, a, b, n)
}

/// `b` holds the nodes of `a` that can be reached from `start`, unchanged.
pub open spec fn kept_below(a: Map<u32, Node>, b: Map<u32, Node>, start: u32) -> bool {
    &&& forall|id: u32| #[trigger]
        b.contains_key(id) <==> a.contains_key(id) && reachable(a, start, id)
    &&& forall|id: u32| b.contains_key(id) ==> #[trigger] b[id] == a[id]
}

/// The nodes are parted into those still there and those taken out.
spec fn parted(nodes: Map<u32, Node>, left: Map<u32, Node>, taken: Map<u32, Node>) -> bool {
    forall|id: u32|
        #![trigger left.contains_key(id)]
        #![trigger taken.contains_key(id)]
        #![trigger nodes.contains_key(id)]
        {
            &&& nodes.contains_key(id) <==> left.contains_key(id) || taken.contains_key(id)
            &&& !(left.contains_key(id) && taken.contains_key(id))
            &&& left.contains_key(id) ==> left[id] == nodes[id]
            &&& taken.contains_key(id) ==> taken[id] == nodes[id]
        }
}

/// What holds the start and every child of its nodes holds all that can be reached.
proof fn lemma_closed_holds_reachable(
    nodes: Map<u32, Node>,
    held: Map<u32, Node>,
    start: u32,
    id: u32,
    n: nat,
)
    requires
        held.contains_key(start),
        forall|a: u32, j: int, c: u32|
            held.contains_key(a) && #[trigger] leads(nodes, a, j, c) ==> held.contains_key(c),
        reach_in(nodes, start, id, n),
    ensures
        held.contains_key(id),
    decreases n,
{
    if n > 0 {
        let c = choose|c: u32| #[trigger]
            child_of(nodes, c, id) && reach_in(nodes, start, c, (n - 1) as nat);
        lemma_closed_holds_reachable(nodes, held, start, c, (n - 1) as nat);
        let j = choose|j: int| leads(nodes, c, j, id);
        assert(leads(nodes, c, j, id));
    }
}

proof fn lemma_reach_up(
    nodes: Map<u32, Node>,
    plays: Map<u32, Play>,
    next_id: u32,
    a: u32,
    b: u32,
    n: nat,
)
    requires
        forest_ok(nodes, plays, next_id),
        reach_in(nodes, a, b, n),
    ensures
        a <= b,
    decreases n,
{
    if n > 0 {
        let c = choose|c: u32| #[trigger]
            child_of(nodes, c, b) && reach_in(nodes, a, c, (n - 1) as nat);
        lemma_reach_up(nodes, plays, next_id, a, c, (n - 1) as nat);
        let j = choose|j: int| leads(nodes, c, j, b);
        assert(link_ok(nodes, plays, c, j));
    }
}

/// The part of a tree below a node is a tree in order.
proof fn lemma_kept_in_order(
    a: Map<u32, Node>,
    b: Map<u32, Node>,
    plays: Map<u32, Play>,
    next_id: u32,
    start: u32,
)
    requires
        forest_ok(a, plays, next_id),
        a.contains_key(start),
        kept_below(a, b, start),
    ensures
        forest_ok(b, plays, next_id),
        b.contains_key(start),
        forall|id: u32| #[trigger] b.contains_key(id) ==> start <= id,
{
    assert(reach_in(a, start, start, 0));
    assert forall|id: u32| #[trigger] b.contains_key(id) implies start <= id by {
        let n = choose|n: nat| reach_in(a, start, id, n);
        lemma_reach_up(a, plays, next_id, start, id, n);
    }
    assert forall|k: u32, j: int| b.contains_key(k) && 0 <= j < b[k].edges@.len() implies #[trigger] link_ok(
        b,
        plays,
        k,
        j,
    ) by {
        assert(link_ok(a, plays, k, j));
        if let Some(c) = a[k].edges@[j].child_id {
            assert(leads(a, k, j, c));
            assert(child_of(a, k, c));
            let n = choose|n: nat| reach_in(a, start, k, n);
            assert(reach_in(a, start, c, n + 1));
            assert(b.contains_key(c));
        }
    }
    assert forall|x: u32, m: int, y: u32, n: int, c: u32| #[trigger]
        leads(b, x, m, c) && #[trigger] leads(b, y, n, c) implies x == y && m == n by {
        assert(leads(a, x, m, c) && leads(a, y, n, c));
    }
}

/// `select` picks an edge at every node that has one.
pub open spec fn selects<S: Fn(&Node) -> usize>(select: S) -> bool {
    &&& forall|n: Node| n.edges@.len() > 0 ==> #[trigger] call_requires(select, (&n,))
    &&& forall|n: Node, i: usize| #[trigger]
        call_ensures(select, (&n,), i) && n.edges@.len() > 0 ==> i < n.edges@.len()
}

/// Every edge of the path is one that `select` picks at its node.
pub open spec fn picked<S: Fn(&Node) -> usize>(
    select: S,
    nodes: Map<u32, Node>,
    path: Seq<(u32, usize)>,
) -> bool {
    forall|k: int|
        0 <= k < path.len() ==> call_ensures(select, (&nodes[(#[trigger] path[k]).0],), path[k].1)
}

/// The edges of a node whose game goes on are legal moves.
proof fn lemma_edges_legal(node: Node, p: Play, i: int)
    requires
        node_ok(node, p),
        !node.is_terminal,
        0 <= i < node.edges@.len(),
    ensures
        ordinary(p),
        p.board.legal(node.edges@[i].mv, p.board.side),
{
    let list = p.board.legal_list(p.board.side, false);
    law_ordinary_games_judgeable(p);
    law_legal_list_exact(p.board, p.board.side, false);
    assert(edge_moves(node.edges@)[i] == node.edges@[i].mv);
    assert(list.contains(list[i]));
}

/// A path goes on along an edge that is picked at the node where it stands.
proof fn lemma_longer_path<S: Fn(&Node) -> usize>(
    select: S,
    nodes: Map<u32, Node>,
    root: u32,
    path: Seq<(u32, usize)>,
    id: u32,
    i: usize,
)
    requires
        path_ok(nodes, root, path),
        picked(select, nodes, path),
        nodes.contains_key(id),
        i < nodes[id].edges@.len(),
        call_ensures(select, (&nodes[id],), i),
        path.len() == 0 ==> id == root,
        path.len() > 0 ==> nodes[path.last().0].edges@[path.last().1 as int].child_id == Some(id),
    ensures
        path_ok(nodes, root, path.push((id, i))),
        picked(select, nodes, path.push((id, i))),
{
    let more = path.push((id, i));
    assert forall|k: int| 0 <= k < more.len() - 1 implies nodes[(
    #[trigger] more[k]).0].edges@[more[k].1 as int].child_id == Some(more[k + 1].0) by {
        assert(more[k] == path[k]);
        if k == path.len() - 1 {
            assert(path[k] == path.last());
        }
    }
    assert forall|k: int| 0 <= k < more.len() implies nodes.contains_key((
    #[trigger] more[k]).0) && more[k].1 < nodes[more[k].0].edges@.len() && call_ensures(
        select,
        (&nodes[more[k].0],),
        more[k].1,
    ) by {
        if k < path.len() {
            assert(more[k] == path[k]);
        }
    }
    if path.len() > 0 {
        assert(more[0] == path[0]);
    }
}

/// A new node changes no edge of the path but that it hangs on.
proof fn lemma_attached_path(
    a: Map<u32, Node>,
    b: Map<u32, Node>,
    id: u32,
    i: int,
    new_id: u32,
    node: Node,
    root: u32,
    path: Seq<(u32, usize)>,
)
    requires
        attached(a, b, id, i, new_id, node),
        a.contains_key(id),
        !a.contains_key(new_id),
        0 <= i < a[id].edges@.len(),
        a[id].edges@[i].child_id is None,
        path_ok(a, root, path),
        a.contains_key(root),
    ensures
        path_ok(b, root, path),
        visits(b[root].edges@) == visits(a[root].edges@),
        b[root].is_terminal == a[root].is_terminal,
        b[id].edges@[i].mv == a[id].edges@[i].mv,
{
    lemma_visits_update(a[id].edges@, b[id].edges@, i);
    assert forall|k: int| 0 <= k < path.len() implies b.contains_key((#[trigger] path[k]).0)
        && path[k].1 < b[path[k].0].edges@.len() by {
        assert(a.contains_key(path[k].0));
    }
    assert forall|k: int| 0 <= k < path.len() - 1 implies b[(
    #[trigger] path[k]).0].edges@[path[k].1 as int].child_id == Some(path[k + 1].0) by {
        assert(a.contains_key(path[k].0));
        assert(a[path[k].0].edges@[path[k].1 as int].child_id == Some(path[k + 1].0));
    }
}

/// New edges for the moves, in their order, with their priors.
pub open spec fn fresh_edges(edges: Seq<Edge>, moves: Seq<Move>, priors: Seq<u32>) -> bool {
    &&& edges.len() == moves.len()
    &&& forall|j: int|
        0 <= j < edges.len() ==> {
            let e = #[trigger] edges[j];
            &&& e.mv == moves[j]
            &&& e.prior == priors[j]
            &&& e.child_id is None
            &&& e.visit_count == 0
            &&& e.total_value == 0
        }
}

} // verus!
