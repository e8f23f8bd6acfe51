//! Tree search driven from outside: the search walks to a leaf, the caller evaluates it, and the
//! search takes the evaluation back into the tree.
//!
//! Priors and values are bit patterns of floating-point numbers that this module only stores. The
//! caller supplies `select`, which picks an edge of a node, and `credit`, which adds a multiple of a
//! value to an accumulated value.

use vstd::prelude::*;

use crate::kernel::game::{GameState, GameView};
use crate::kernel::tree::{
    backed_up, backup_path, collect_leaf, edge_moves, expand_leaf, expanded_at, expanded_with,
    grows, is_fresh, leaf_node, lemma_backup_grows, lemma_expansion_grows, lemma_grows_refl,
    lemma_grows_trans, lemma_path_stays, lemma_visits_nonneg, lemma_visits_zero, lemma_walk_grows,
    lemma_walk_reaches_leaf, marked_ended, new_edges, node_at, on_path, ordinary, prior_moves,
    selects, tree_ok, visits, walked, Edge, Node,
};
use crate::kernel::types::Move;

verus! {

/// The bit pattern of the floating-point number one.
pub const ONE: u64 = 0x3ff0_0000_0000_0000;

/// How much to search.
#[derive(Debug, Clone, Copy, PartialEq, Eq, Structural)]
pub struct MctsConfig {
    pub n_simulations: u32,
    /// How many leaves are collected before they are evaluated together.
    pub collect_batch_size: u32,
}

impl Default for MctsConfig {
    fn default() -> (r: MctsConfig)
        ensures
            r == (MctsConfig { n_simulations: 200, collect_batch_size: 1 }),
    {
        MctsConfig { n_simulations: 200, collect_batch_size: 1 }
    }
}

/// What a step of the search came to.
#[derive(Debug)]
pub enum StepResult<'a> {
    /// The leaf has to be evaluated.
    NeedEval { state: &'a GameState },
    /// The simulation is complete: the game at the leaf has ended.
    Done,
}

#[derive(Debug)]
pub struct Mcts {
    config: MctsConfig,
    root: Option<Box<Node>>,
    simulations_done: u32,
    pending_path: Option<Vec<usize>>,
    /// Leaves of the current wave that wait for evaluation.
    leaves: Vec<Vec<usize>>,
    /// Leaves of the current wave whose games have ended, with their values.
    ended: Vec<(Vec<usize>, i32)>,
}

/// Two games at the same position after as many moves.
pub open spec fn same_game(a: GameView, b: GameView) -> bool {
    a.position.fen() == b.position.fen() && a.history.len() == b.history.len()
}

fn same_state(a: &GameState, b: &GameState) -> (r: bool)
    ensures
        r == same_game(a@, b@),
{
    proof {
        assert(a@.history.len() == a.history@.len());
        assert(b@.history.len() == b.history@.len());
    }
    let fen = a.position.to_fen();
    let other = b.position.to_fen();
    fen == other && a.history.len() == b.history.len()
}

/// The path leads to a leaf whose game goes on.
pub open spec fn open_leaf(root: Node, path: Seq<usize>) -> bool {
    &&& path.len() > 0
    &&& on_path(root, path)
    &&& !node_at(root, path).state@.outcome().is_terminal
}

impl Mcts {
    /// The root of the tree.
    pub closed spec fn spec_root(&self) -> Option<Node> {
        match self.root {
            Some(r) => Some(*r),
            None => None,
        }
    }

    pub closed spec fn spec_config(&self) -> MctsConfig {
        self.config
    }

    /// The number of simulations since the root was set.
    pub closed spec fn done(&self) -> u32 {
        self.simulations_done
    }

    /// The path to the leaf that waits for evaluation.
    pub closed spec fn pending(&self) -> Option<Seq<usize>> {
        match self.pending_path {
            Some(p) => Some(p@),
            None => None,
        }
    }

    /// The paths to the leaves of the current wave that wait for evaluation.
    pub closed spec fn wave_leaves(&self) -> Seq<Seq<usize>> {
        self.leaves@.map_values(|p: Vec<usize>| p@)
    }

    /// The paths to the leaves of the current wave whose games have ended, with their values.
    pub closed spec fn wave_ended(&self) -> Seq<(Seq<usize>, i32)> {
        self.ended@.map_values(|p: (Vec<usize>, i32)| (p.0@, p.1))
    }

    /// The tree is in order, and what is pending leads to its leaves.
    pub open spec fn wf(&self) -> bool {
        &&& self.spec_root() matches Some(r) ==> tree_ok(r)
        &&& self.pending() matches Some(p) ==> {
            &&& self.spec_root() is Some
            &&& open_leaf(self.spec_root().unwrap(), p)
            &&& !node_at(self.spec_root().unwrap(), p).is_expanded
        }
        &&& forall|j: int|
            0 <= j < self.wave_leaves().len() ==> self.spec_root() is Some && open_leaf(
                self.spec_root().unwrap(),
                #[trigger] self.wave_leaves()[j],
            )
        &&& forall|j: int|
            0 <= j < self.wave_ended().len() ==> {
                let (p, v) = #[trigger] self.wave_ended()[j];
                &&& self.spec_root() is Some
                &&& on_path(self.spec_root().unwrap(), p)
                &&& -1 <= v <= 1
            }
    }

    /// Nothing waits for evaluation.
    pub open spec fn idle(&self) -> bool {
        &&& self.pending() is None
        &&& self.wave_leaves().len() == 0
        &&& self.wave_ended().len() == 0
    }

    /// The root can be searched.
    pub open spec fn searchable(&self) -> bool {
        &&& self.spec_root() is Some
        &&& self.spec_root().unwrap().is_expanded
        &&& !self.spec_root().unwrap().is_terminal
    }

    pub fn new(config: MctsConfig) -> (r: Mcts)
        ensures
            r.wf(),
            r.idle(),
            r.spec_config() == config,
            r.spec_root() is None,
            r.done() == 0,
    {
        Mcts {
            config,
            root: None,
            simulations_done: 0,
            pending_path: None,
            leaves: Vec::new(),
            ended: Vec::new(),
        }
    }

    pub fn config(&self) -> (r: &MctsConfig)
        ensures
            *r == self.spec_config(),
    {
        &self.config
    }

    pub fn simulations_done(&self) -> (r: u32)
        ensures
            r == self.done(),
    {
        self.simulations_done
    }

    /// Sets the root: the tree is kept if its root is the same game, else a new one is started.
    /// Says whether the root has to be evaluated.
    pub fn init_root(&mut self, root_state: GameState) -> (r: bool)
        requires
            old(self).wf(),
            root_state.wf(),
            ordinary(root_state@),
        ensures
            final(self).wf(),
            final(self).idle(),
            final(self).done() == 0,
            final(self).spec_config() == old(self).spec_config(),
            final(self).spec_root() is Some,
            r == !final(self).spec_root().unwrap().is_expanded,
            match old(self).spec_root() {
                Some(kept) if same_game(kept.state@, root_state@) => final(self).spec_root()
                    == Some(kept),
                _ => is_fresh(final(self).spec_root().unwrap(), root_state@),
            },
    {
        self.simulations_done = 0;
        self.pending_path = None;
        self.leaves = Vec::new();
        self.ended = Vec::new();
        let root: Box<Node> = match self.root.take() {
            Some(r) => {
                if same_state(&r.state, &root_state) {
                    r
                } else {
                    Box::new(Node::new(root_state))
                }
            },
            None => Box::new(Node::new(root_state)),
        };
        let need_eval = !root.is_expanded;
        self.root = Some(root);
        need_eval
    }

    /// Takes the evaluation of the root: one prior for each legal move, in their order. A root whose
    /// game has ended is marked instead; an expanded root stays as it is.
    pub fn feed_root_eval(&mut self, priors: Vec<(Move, u64)>)
        requires
            old(self).wf(),
            old(self).idle(),
            old(self).spec_root() is Some,
            ({
                let root = old(self).spec_root().unwrap();
                !root.is_expanded && !root.state@.outcome().is_terminal ==> prior_moves(priors@)
                    == root.state@.position.legal_list()
            }),
        ensures
            final(self).wf(),
            final(self).idle(),
            final(self).done() == old(self).done(),
            final(self).spec_config() == old(self).spec_config(),
            final(self).spec_root() is Some,
            ({
                let a = old(self).spec_root().unwrap();
                let b = final(self).spec_root().unwrap();
                if !a.is_expanded && a.state@.outcome().is_terminal {
                    marked_ended(a, b)
                } else {
                    expanded_with(a, b, priors@)
                }
            }),
    {
        let mut root: Box<Node> = self.root.take().unwrap();
        let ghost a = *root;
        if !root.is_expanded {
            if !root.mark_if_ended() {
                root.edges = new_edges(&priors);
                root.is_expanded = true;
                assert(edge_moves(root.edges@) =~= prior_moves(priors@));
            }
        }
        self.root = Some(root);
    }

    /// The game at the root.
    pub fn root_state(&self) -> (r: &GameState)
        requires
            self.spec_root() is Some,
        ensures
            *r == self.spec_root().unwrap().state,
    {
        match &self.root {
            Some(root) => &root.state,
            None => vstd::pervasive::unreached(),
        }
    }

    /// Whether there is nothing to search: no root, or a root whose game has ended.
    pub fn is_terminal(&self) -> (r: bool)
        ensures
            r == (self.spec_root() matches Some(root) ==> root.is_terminal),
    {
        match &self.root {
            Some(root) => root.is_terminal,
            None => true,
        }
    }

    /// Whether noise is still to be mixed into the priors of the root: once, and only where there is
    /// a choice.
    pub fn wants_noise(&self) -> (r: bool)
        requires
            self.spec_root() is Some,
        ensures
            r == (!self.spec_root().unwrap().noise_added && self.spec_root().unwrap().edges@.len()
                >= 2),
    {
        match &self.root {
            Some(root) => !root.noise_added && root.edges.len() >= 2,
            None => false,
        }
    }

    /// Replaces the priors of the root and notes that noise was mixed in.
    pub fn add_noise(&mut self, priors: Vec<u64>)
        requires
            old(self).wf(),
            old(self).idle(),
            old(self).spec_root() is Some,
            priors@.len() == old(self).spec_root().unwrap().edges@.len(),
        ensures
            final(self).wf(),
            final(self).idle(),
            final(self).done() == old(self).done(),
            final(self).spec_config() == old(self).spec_config(),
            final(self).spec_root() is Some,
            reweighted(old(self).spec_root().unwrap(), final(self).spec_root().unwrap(), priors@),
    {
        let mut root: Box<Node> = self.root.take().unwrap();
        let ghost a = *root;
        let mut i: usize = 0;
        while i < root.edges.len()
            invariant
                i <= a.edges@.len(),
                priors@.len() == a.edges@.len(),
                tree_ok(a),
                root.edges@.len() == a.edges@.len(),
                root.state == a.state,
                root.to_play == a.to_play,
                root.is_expanded == a.is_expanded,
                root.is_terminal == a.is_terminal,
                root.terminal_value == a.terminal_value,
                forall|j: int|
                    0 <= j < a.edges@.len() ==> {
                        let e = #[trigger] root.edges@[j];
                        &&& e.mv == a.edges@[j].mv
                        &&& e.n == a.edges@[j].n
                        &&& e.w == a.edges@[j].w
                        &&& e.child == a.edges@[j].child
                        &&& e.prior == if j < i {
                            priors@[j]
                        } else {
                            a.edges@[j].prior
                        }
                    },
            decreases a.edges@.len() - i,
        {
            root.edges[i].prior = priors[i];
            i += 1;
        }
        root.noise_added = true;
        proof {
            lemma_reweighted_ok(a, *root, priors@);
        }
        self.root = Some(root);
    }

    /// One simulation from the root, after noise is mixed into its priors, if there is to be any and
    /// it lacks it. If the game at the leaf has ended its value is taken into the tree at once; else
    /// the leaf waits for its evaluation.
    pub fn step<F: Fn(&Node) -> usize, A: Fn(u64, i32, u64) -> u64, N: Fn(&Node) -> Vec<u64>>(
        &mut self,
        select: &F,
        credit: &A,
        noisy: bool,
        noise: &N,
    ) -> (r: StepResult<'_>)
        requires
            selects(*select),
            forall|w: u64, s: i32| #[trigger] call_requires(*credit, (w, s, ONE)),
            forall|n: Node| #[trigger] call_requires(*noise, (&n,)),
            forall|n: Node, p: Vec<u64>| #[trigger]
                call_ensures(*noise, (&n,), p) ==> p@.len() == n.edges@.len(),
            old(self).wf(),
            old(self).idle(),
            old(self).searchable(),
            visits(old(self).spec_root().unwrap().edges@) < u32::MAX,
            old(self).done() < u32::MAX,
        ensures
            final(self).wf(),
            final(self).searchable(),
            final(self).spec_config() == old(self).spec_config(),
            final(self).spec_root() is Some,
            final(self).spec_root().unwrap().state@ == old(self).spec_root().unwrap().state@,
            visits(final(self).spec_root().unwrap().edges@) == visits(
                old(self).spec_root().unwrap().edges@,
            ) + 1,
            stepped(*select, *credit, noisy, *noise, *old(self), *final(self), r is NeedEval),
            match r {
                StepResult::Done => true,
                StepResult::NeedEval { state } => {
                    &&& *state == node_at(
                        final(self).spec_root().unwrap(),
                        final(self).pending().unwrap(),
                    ).state
                    &&& state.wf()
                    &&& ordinary(state@)
                },
            },
    {
        self.mix_noise(noisy, noise);
        let mut root: Box<Node> = self.root.take().unwrap();
        let ghost a = *root;
        let mut path: Vec<usize> = Vec::new();
        let ended = collect_leaf(&mut *root, select, &mut path);
        let ghost mid = *root;
        proof {
            assert(path@.skip(0) =~= path@);
            lemma_walk_reaches_leaf(*select, a, mid, path@, ended);
            lemma_walk_grows(*select, a, mid, path@, ended);
        }
        if ended {
            let value: i32 = leaf_node(&*root, &path, 0).terminal_value;
            backup_path(&mut *root, &path, 0, value, ONE, credit);
            proof {
                lemma_backup_grows(*credit, value, ONE, mid, *root, path@);
                lemma_grows_trans(a, mid, *root);
            }
            self.root = Some(root);
            self.simulations_done = self.simulations_done + 1;
            return StepResult::Done;
        }
        self.root = Some(root);
        self.pending_path = Some(path);
        match (&self.root, &self.pending_path) {
            (Some(root), Some(path)) => StepResult::NeedEval {
                state: &leaf_node(&**root, path, 0).state,
            },
            _ => vstd::pervasive::unreached(),
        }
    }

    /// Takes the evaluation of the waiting leaf: one prior for each legal move, in their order, and
    /// its value as a bit pattern.
    pub fn feed_eval<A: Fn(u64, i32, u64) -> u64>(
        &mut self,
        priors: Vec<(Move, u64)>,
        value: u64,
        credit: &A,
    )
        requires
            forall|w: u64, s: i32| #[trigger] call_requires(*credit, (w, s, value)),
            old(self).wf(),
            old(self).pending() is Some,
            old(self).wave_leaves().len() == 0,
            old(self).wave_ended().len() == 0,
            old(self).done() < u32::MAX,
            prior_moves(priors@) == node_at(
                old(self).spec_root().unwrap(),
                old(self).pending().unwrap(),
            ).state@.position.legal_list(),
        ensures
            final(self).wf(),
            final(self).idle(),
            final(self).done() == old(self).done() + 1,
            final(self).spec_config() == old(self).spec_config(),
            final(self).spec_root() is Some,
            visits(final(self).spec_root().unwrap().edges@) == visits(
                old(self).spec_root().unwrap().edges@,
            ),
            grows(old(self).spec_root().unwrap(), final(self).spec_root().unwrap()),
            taken_in(
                *credit,
                old(self).spec_root().unwrap(),
                final(self).spec_root().unwrap(),
                old(self).pending().unwrap(),
                priors@,
                value,
            ),
    {
        let path: Vec<usize> = self.pending_path.take().unwrap();
        let mut root: Box<Node> = self.root.take().unwrap();
        take_in(&mut *root, &path, &priors, value, credit);
        self.root = Some(root);
        self.simulations_done = self.simulations_done + 1;
    }

    /// How many leaves to collect next: what is left to do, at most a batch.
    pub fn next_wave(&self) -> (r: u32)
        ensures
            r == wave_size(*self),
    {
        if self.simulations_done >= self.config.n_simulations {
            return 0;
        }
        let left: u32 = self.config.n_simulations - self.simulations_done;
        let width: u32 = if self.config.collect_batch_size >= 1 {
            self.config.collect_batch_size
        } else {
            1
        };
        if left < width {
            left
        } else {
            width
        }
    }

    /// Collects a leaf for the current wave. `charge` alters the accumulated values along the path,
    /// so that the next leaf is looked for elsewhere.
    pub fn collect<F: Fn(&Node) -> usize, C: Fn(u64, i32, u64) -> u64>(
        &mut self,
        select: &F,
        charge: &C,
    )
        requires
            selects(*select),
            forall|w: u64, s: i32| #[trigger] call_requires(*charge, (w, s, ONE)),
            old(self).wf(),
            old(self).pending() is None,
            old(self).searchable(),
            visits(old(self).spec_root().unwrap().edges@) < u32::MAX,
        ensures
            final(self).wf(),
            final(self).pending() is None,
            final(self).searchable(),
            final(self).done() == old(self).done(),
            final(self).spec_config() == old(self).spec_config(),
            visits(final(self).spec_root().unwrap().edges@) == visits(
                old(self).spec_root().unwrap().edges@,
            ) + 1,
            grows(old(self).spec_root().unwrap(), final(self).spec_root().unwrap()),
            collected(*select, *charge, *old(self), *final(self)),
    {
        let ghost leaves = self.wave_leaves();
        let ghost over = self.wave_ended();
        let mut root: Box<Node> = self.root.take().unwrap();
        let ghost a = *root;
        let mut path: Vec<usize> = Vec::new();
        let ended = collect_leaf(&mut *root, select, &mut path);
        let ghost mid = *root;
        proof {
            assert(path@.skip(0) =~= path@);
            lemma_walk_reaches_leaf(*select, a, mid, path@, ended);
            lemma_walk_grows(*select, a, mid, path@, ended);
        }
        let value: i32 = leaf_node(&*root, &path, 0).terminal_value;
        backup_path(&mut *root, &path, 0, 0, ONE, charge);
        proof {
            lemma_backup_grows(*charge, 0, ONE, mid, *root, path@);
            lemma_grows_trans(a, mid, *root);
            lemma_path_stays(mid, *root, path@);
            assert forall|j: int| 0 <= j < leaves.len() implies open_leaf(
                *root,
                #[trigger] leaves[j],
            ) by {
                lemma_path_stays(a, *root, leaves[j]);
            }
            assert forall|j: int| 0 <= j < over.len() implies on_path(
                *root,
                (#[trigger] over[j]).0,
            ) by {
                lemma_path_stays(a, *root, over[j].0);
            }
        }
        let ghost path_view = path@;
        self.root = Some(root);
        if ended {
            self.ended.push((path, value));
            assert(self.wave_ended() =~= over.push((path_view, value)));
        } else {
            self.leaves.push(path);
            assert(self.wave_leaves() =~= leaves.push(path_view));
        }
    }

    /// The games at the leaves of the current wave that wait for evaluation.
    pub fn wave_states(&self) -> (r: Vec<&GameState>)
        requires
            self.wf(),
        ensures
            r@.len() == self.wave_leaves().len(),
            forall|j: int|
                0 <= j < r@.len() ==> *(#[trigger] r@[j]) == node_at(
                    self.spec_root().unwrap(),
                    self.wave_leaves()[j],
                ).state,
    {
        let mut r: Vec<&GameState> = Vec::new();
        match &self.root {
            None => {
                proof {
                    if self.wave_leaves().len() > 0 {
                        assert(open_leaf(self.spec_root().unwrap(), self.wave_leaves()[0]));
                    }
                }
            },
            Some(root) => {
                let mut i: usize = 0;
                while i < self.leaves.len()
                    invariant
                        self.wf(),
                        i <= self.leaves@.len(),
                        r@.len() == i,
                        self.spec_root() == Some(**root),
                        self.wave_leaves().len() == self.leaves@.len(),
                        forall|j: int|
                            0 <= j < i ==> *(#[trigger] r@[j]) == node_at(
                                **root,
                                self.wave_leaves()[j],
                            ).state,
                    decreases self.leaves@.len() - i,
                {
                    proof {
                        assert(open_leaf(**root, self.wave_leaves()[i as int]));
                        assert(self.wave_leaves()[i as int] == self.leaves@[i as int]@);
                        assert(self.leaves@[i as int]@.skip(0) =~= self.leaves@[i as int]@);
                    }
                    r.push(&leaf_node(&**root, &self.leaves[i], 0).state);
                    i += 1;
                }
            },
        }
        r
    }

    /// Takes the evaluations of the leaves of the wave, in their order, then the values of the
    /// leaves whose games have ended. The wave is then over and its leaves count as simulations.
    pub fn feed_wave<A: Fn(u64, i32, u64) -> u64>(
        &mut self,
        results: Vec<(Vec<(Move, u64)>, u64)>,
        credit: &A,
    )
        requires
            forall|w: u64, s: i32, v: u64| #[trigger] call_requires(*credit, (w, s, v)),
            old(self).wf(),
            old(self).pending() is None,
            old(self).spec_root() is Some,
            results@.len() == old(self).wave_leaves().len(),
            forall|j: int|
                0 <= j < results@.len() ==> prior_moves((#[trigger] results@[j]).0@) == node_at(
                    old(self).spec_root().unwrap(),
                    old(self).wave_leaves()[j],
                ).state@.position.legal_list(),
            old(self).done() + old(self).wave_leaves().len() + old(self).wave_ended().len()
                <= u32::MAX,
        ensures
            final(self).wf(),
            final(self).idle(),
            final(self).done() == old(self).done() + old(self).wave_leaves().len() + old(
                self,
            ).wave_ended().len(),
            final(self).spec_config() == old(self).spec_config(),
            final(self).spec_root() is Some,
            visits(final(self).spec_root().unwrap().edges@) == visits(
                old(self).spec_root().unwrap().edges@,
            ),
            grows(old(self).spec_root().unwrap(), final(self).spec_root().unwrap()),
            wave_taken_in(*credit, *old(self), *final(self), results@),
    {
        let ghost leaf_paths = self.wave_leaves();
        let ghost over = self.wave_ended();
        let ghost old_done = self.simulations_done;
        let mut root: Box<Node> = self.root.take().unwrap();
        let ghost a = *root;
        proof {
            lemma_grows_refl(a);
            assert(leaf_paths.take(0) =~= Seq::empty());
            assert(all_taken_in(*credit, a, a, leaf_paths.take(0), results@.take(0)));
        }
        let mut i: usize = 0;
        while i < self.leaves.len()
            invariant
                i <= self.leaves@.len(),
                leaf_paths == self.wave_leaves(),
                leaf_paths.len() == self.leaves@.len(),
                over == self.wave_ended(),
                self.root is None,
                self.pending_path is None,
                self.simulations_done == old_done,
                self.config == old(self).spec_config(),
                results@.len() == leaf_paths.len(),
                forall|w: u64, s: i32, v: u64| #[trigger] call_requires(*credit, (w, s, v)),
                tree_ok(a),
                tree_ok(*root),
                grows(a, *root),
                visits(root.edges@) == visits(a.edges@),
                forall|j: int|
                    0 <= j < leaf_paths.len() ==> open_leaf(a, #[trigger] leaf_paths[j]),
                forall|j: int|
                    0 <= j < results@.len() ==> prior_moves((#[trigger] results@[j]).0@) == node_at(
                        a,
                        leaf_paths[j],
                    ).state@.position.legal_list(),
                all_taken_in(
                    *credit,
                    a,
                    *root,
                    leaf_paths.take(i as int),
                    results@.take(i as int),
                ),
            decreases self.leaves@.len() - i,
        {
            let ghost before = *root;
            let ghost p = leaf_paths[i as int];
            proof {
                assert(open_leaf(a, leaf_paths[i as int]));
                assert(self.leaves@[i as int]@ == p);
                lemma_path_stays(a, before, p);
                assert(prior_moves(results@[i as int].0@) == node_at(
                    a,
                    p,
                ).state@.position.legal_list());
            }
            take_in(&mut *root, &self.leaves[i], &results[i].0, results[i].1, credit);
            proof {
                lemma_grows_trans(a, before, *root);
                assert(leaf_paths.take(i + 1).drop_last() =~= leaf_paths.take(i as int));
                assert(results@.take(i + 1).drop_last() =~= results@.take(i as int));
                lemma_one_more_taken_in(
                    *credit,
                    a,
                    before,
                    *root,
                    leaf_paths.take(i + 1),
                    results@.take(i + 1),
                );
            }
            i += 1;
        }
        let ghost mid = *root;
        proof {
            assert(leaf_paths.take(leaf_paths.len() as int) =~= leaf_paths);
            assert(results@.take(results@.len() as int) =~= results@);
            assert(over.take(0) =~= Seq::empty());
        }
        let mut k: usize = 0;
        while k < self.ended.len()
            invariant
                k <= self.ended@.len(),
                leaf_paths == self.wave_leaves(),
                over == self.wave_ended(),
                over.len() == self.ended@.len(),
                self.root is None,
                self.pending_path is None,
                self.simulations_done == old_done,
                self.config == old(self).spec_config(),
                forall|w: u64, s: i32, v: u64| #[trigger] call_requires(*credit, (w, s, v)),
                tree_ok(*root),
                grows(a, *root),
                visits(root.edges@) == visits(a.edges@),
                forall|j: int|
                    0 <= j < over.len() ==> on_path(a, (#[trigger] over[j]).0) && -1 <= over[j].1
                        <= 1,
                all_backed_up(*credit, mid, *root, over.take(k as int)),
            decreases self.ended@.len() - k,
        {
            let ghost before = *root;
            let ghost p = over[k as int];
            proof {
                assert(on_path(a, over[k as int].0));
                assert(self.ended@[k as int].0@ == p.0);
                lemma_path_stays(a, before, p.0);
                assert(p.0.skip(0) =~= p.0);
            }
            backup_path(&mut *root, &self.ended[k].0, 0, self.ended[k].1, ONE, credit);
            proof {
                lemma_backup_grows(*credit, p.1, ONE, before, *root, p.0);
                lemma_grows_trans(a, before, *root);
                assert(over.take(k + 1).drop_last() =~= over.take(k as int));
                lemma_one_more_backed_up(*credit, mid, before, *root, over.take(k + 1));
            }
            k += 1;
        }
        assert(over.take(over.len() as int) =~= over);
        self.simulations_done = self.simulations_done + self.leaves.len() as u32
            + self.ended.len() as u32;
        self.leaves = Vec::new();
        self.ended = Vec::new();
        self.root = Some(root);
    }

    /// Searches a game from the root with as many simulations as configured, in waves, and returns
    /// how often each legal move was followed; nothing if the game has ended. `noise` gives the
    /// priors of the root with noise mixed in, if there is to be any.
    #[verifier::rlimit(30)]
    pub fn run<
        F: Fn(&Node) -> usize,
        C: Fn(u64, i32, u64) -> u64,
        A: Fn(u64, i32, u64) -> u64,
        E: Fn(&GameState) -> (Vec<(Move, u64)>, u64),
        N: Fn(&Node) -> Vec<u64>,
    >(
        &mut self,
        root_state: GameState,
        select: &F,
        charge: &C,
        credit: &A,
        evaluate: &E,
        noisy: bool,
        noise: &N,
    ) -> (r: Vec<(Move, u32)>)
        requires
            selects(*select),
            forall|w: u64, s: i32, v: u64| #[trigger] call_requires(*charge, (w, s, v)),
            forall|w: u64, s: i32, v: u64| #[trigger] call_requires(*credit, (w, s, v)),
            evaluates(*evaluate),
            forall|n: Node| #[trigger] call_requires(*noise, (&n,)),
            forall|n: Node, p: Vec<u64>| #[trigger]
                call_ensures(*noise, (&n,), p) ==> p@.len() == n.edges@.len(),
            old(self).wf(),
            root_state.wf(),
            ordinary(root_state@),
            old(self).kept_visits(root_state@) + old(self).spec_config().n_simulations <= u32::MAX,
        ensures
            final(self).wf(),
            final(self).idle(),
            final(self).spec_config() == old(self).spec_config(),
            final(self).spec_root() is Some,
            root_state@.outcome().is_terminal && old(self).kept(root_state@) is None ==> r@.len()
                == 0,
            final(self).spec_root().unwrap().is_terminal ==> r@.len() == 0,
            !final(self).spec_root().unwrap().is_terminal ==> {
                &&& counts_of(final(self).spec_root().unwrap().edges@, r@)
                &&& edge_moves(final(self).spec_root().unwrap().edges@)
                    == final(self).spec_root().unwrap().state@.position.legal_list()
                &&& visits(final(self).spec_root().unwrap().edges@) == old(self).kept_visits(
                    root_state@,
                ) + old(self).spec_config().n_simulations
                &&& final(self).done() == old(self).spec_config().n_simulations
            },
            match old(self).kept(root_state@) {
                Some(kept) => final(self).spec_root().unwrap().state@ == kept.state@,
                None => final(self).spec_root().unwrap().state@ == root_state@,
            },
            searched(
                *select,
                *charge,
                *credit,
                *evaluate,
                noisy,
                *noise,
                *old(self),
                *final(self),
                root_state@,
                r@,
            ),
    {
        let ghost base = self.kept_visits(root_state@);
        let ghost limit = self.spec_config().n_simulations;
        let ghost origin = match self.kept(root_state@) {
            Some(kept) => kept.state@,
            None => root_state@,
        };
        proof {
            if let Some(kept) = self.kept(root_state@) {
                lemma_visits_nonneg(kept.edges@);
            }
        }
        let need_eval = self.init_root(root_state);
        let ghost first = self.spec_root().unwrap();
        if need_eval {
            let reply = evaluate(self.root_state());
            let ghost said = reply;
            assert(call_ensures(*evaluate, (&first.state,), said));
            let (priors, _value) = reply;
            self.feed_root_eval(priors);
        }
        let ghost made = self.spec_root().unwrap();
        proof {
            assert(root_from(*evaluate, first, made));
            assert(root_made(*evaluate, *old(self), root_state@, made));
            let b = self.spec_root().unwrap();
            assert(b.state@ == origin);
            if !b.is_terminal {
                assert(visits(b.edges@) == base) by {
                    if need_eval {
                        lemma_visits_zero(b.edges@);
                    }
                }
            }
        }
        if self.is_terminal() {
            return Vec::new();
        }
        let mut want: u32 = self.next_wave();
        if want > 0 {
            self.mix_noise(noisy, noise);
        }
        let ghost mut steps: Seq<Mcts> = Seq::empty().push(*self);
        while want > 0
            invariant
                selects(*select),
                forall|w: u64, s: i32, v: u64| #[trigger] call_requires(*charge, (w, s, v)),
                forall|w: u64, s: i32, v: u64| #[trigger] call_requires(*credit, (w, s, v)),
                evaluates(*evaluate),
                self.wf(),
                self.idle(),
                self.searchable(),
                self.spec_config() == old(self).spec_config(),
                self.spec_root().unwrap().state@ == origin,
                limit == self.spec_config().n_simulations,
                base + limit <= u32::MAX,
                0 <= base,
                self.done() <= limit,
                want <= limit - self.done(),
                want == 0 ==> self.done() == limit,
                visits(self.spec_root().unwrap().edges@) == base + self.done(),
                want == wave_size(*self),
                steps.len() > 0,
                steps.last() == *self,
                steps[0].done() == 0,
                steps[0].spec_config() == old(self).spec_config(),
                steps[0].spec_root() is Some,
                mixed(
                    noisy && limit > 0,
                    *noise,
                    made,
                    steps[0].spec_root().unwrap(),
                ),
                all_waves(*select, *charge, *credit, *evaluate, steps),
            decreases limit - self.done(),
        {
            self.run_wave(want, select, charge, credit, evaluate);
            proof {
                lemma_one_more_wave(*select, *charge, *credit, *evaluate, steps, *self);
                steps = steps.push(*self);
            }
            want = self.next_wave();
        }
        self.visit_counts()
    }

    /// One wave: leaves are collected, evaluated, and taken into the tree.
    #[verifier::rlimit(30)]
    fn run_wave<
        F: Fn(&Node) -> usize,
        C: Fn(u64, i32, u64) -> u64,
        A: Fn(u64, i32, u64) -> u64,
        E: Fn(&GameState) -> (Vec<(Move, u64)>, u64),
    >(&mut self, want: u32, select: &F, charge: &C, credit: &A, evaluate: &E)
        requires
            selects(*select),
            forall|w: u64, s: i32, v: u64| #[trigger] call_requires(*charge, (w, s, v)),
            forall|w: u64, s: i32, v: u64| #[trigger] call_requires(*credit, (w, s, v)),
            evaluates(*evaluate),
            old(self).wf(),
            old(self).idle(),
            old(self).searchable(),
            want == wave_size(*old(self)),
            visits(old(self).spec_root().unwrap().edges@) + want <= u32::MAX,
        ensures
            final(self).wf(),
            final(self).idle(),
            final(self).searchable(),
            final(self).spec_config() == old(self).spec_config(),
            final(self).spec_root().unwrap().state@ == old(self).spec_root().unwrap().state@,
            final(self).done() == old(self).done() + want,
            visits(final(self).spec_root().unwrap().edges@) == visits(
                old(self).spec_root().unwrap().edges@,
            ) + want,
            waved(*select, *charge, *credit, *evaluate, *old(self), *final(self)),
    {
        let ghost start = *self;
        let ghost origin = self.spec_root().unwrap().state@;
        let ghost base = visits(self.spec_root().unwrap().edges@);
        let ghost mut xs: Seq<Mcts> = Seq::empty().push(*self);
        let mut j: u32 = 0;
        while j < want
            invariant
                j <= want,
                self.done() == start.done(),
                selects(*select),
                forall|w: u64, s: i32, v: u64| #[trigger] call_requires(*charge, (w, s, v)),
                self.wf(),
                self.pending() is None,
                self.searchable(),
                self.spec_config() == start.spec_config(),
                self.spec_root().unwrap().state@ == origin,
                base + want <= u32::MAX,
                visits(self.spec_root().unwrap().edges@) == base + j,
                self.wave_leaves().len() + self.wave_ended().len() == j,
                xs.len() == j + 1,
                xs[0] == start,
                xs.last() == *self,
                forall|k: int|
                    0 <= k < xs.len() - 1 ==> #[trigger] collected_at(*select, *charge, xs, k),
            decreases want - j,
        {
            let ghost was = *self;
            self.collect(select, charge);
            proof {
                let next = xs.push(*self);
                assert forall|k: int| 0 <= k < next.len() - 1 implies #[trigger] collected_at(
                    *select,
                    *charge,
                    next,
                    k,
                ) by {
                    if k < xs.len() - 1 {
                        assert(collected_at(*select, *charge, xs, k));
                    } else {
                        assert(next[k] == was);
                    }
                }
                xs = next;
            }
            j += 1;
        }
        let results = self.evaluate_wave(evaluate);
        let ghost replies = results@;
        self.feed_wave(results, credit);
        assert(wave_with(*select, *charge, *credit, *evaluate, *self, xs, replies));
    }

    /// Mixes noise into the priors of the root, if there is to be any and it still lacks it.
    pub fn mix_noise<N: Fn(&Node) -> Vec<u64>>(&mut self, noisy: bool, noise: &N)
        requires
            forall|n: Node| #[trigger] call_requires(*noise, (&n,)),
            forall|n: Node, p: Vec<u64>| #[trigger]
                call_ensures(*noise, (&n,), p) ==> p@.len() == n.edges@.len(),
            old(self).wf(),
            old(self).idle(),
            old(self).spec_root() is Some,
        ensures
            final(self).wf(),
            final(self).idle(),
            final(self).done() == old(self).done(),
            final(self).spec_config() == old(self).spec_config(),
            final(self).spec_root() is Some,
            visits(final(self).spec_root().unwrap().edges@) == visits(
                old(self).spec_root().unwrap().edges@,
            ),
            mixed(
                noisy,
                *noise,
                old(self).spec_root().unwrap(),
                final(self).spec_root().unwrap(),
            ),
    {
        if noisy && self.wants_noise() {
            let ghost before = self.spec_root().unwrap();
            let priors = match &self.root {
                Some(root) => noise(&**root),
                None => vstd::pervasive::unreached(),
            };
            self.add_noise(priors);
            proof {
                lemma_visits_reweighted(before.edges@, self.spec_root().unwrap().edges@);
            }
        }
    }

    /// Evaluates the leaves of the current wave one by one.
    fn evaluate_wave<E: Fn(&GameState) -> (Vec<(Move, u64)>, u64)>(&self, evaluate: &E) -> (r: Vec<
        (Vec<(Move, u64)>, u64),
    >)
        requires
            evaluates(*evaluate),
            self.wf(),
        ensures
            r@.len() == self.wave_leaves().len(),
            forall|j: int|
                0 <= j < r@.len() ==> prior_moves((#[trigger] r@[j]).0@) == node_at(
                    self.spec_root().unwrap(),
                    self.wave_leaves()[j],
                ).state@.position.legal_list(),
            replied(*evaluate, *self, r@),
    {
        let states = self.wave_states();
        let mut r: Vec<(Vec<(Move, u64)>, u64)> = Vec::new();
        let mut i: usize = 0;
        while i < states.len()
            invariant
                evaluates(*evaluate),
                self.wf(),
                i <= states@.len(),
                r@.len() == i,
                states@.len() == self.wave_leaves().len(),
                forall|j: int|
                    0 <= j < states@.len() ==> *(#[trigger] states@[j]) == node_at(
                        self.spec_root().unwrap(),
                        self.wave_leaves()[j],
                    ).state,
                forall|j: int|
                    0 <= j < i ==> prior_moves((#[trigger] r@[j]).0@) == node_at(
                        self.spec_root().unwrap(),
                        self.wave_leaves()[j],
                    ).state@.position.legal_list(),
                forall|j: int|
                    0 <= j < i ==> call_ensures(
                        *evaluate,
                        (&node_at(self.spec_root().unwrap(), self.wave_leaves()[j]).state,),
                        #[trigger] r@[j],
                    ),
            decreases states@.len() - i,
        {
            proof {
                assert(open_leaf(self.spec_root().unwrap(), self.wave_leaves()[i as int]));
                lemma_leaf_ok(self.spec_root().unwrap(), self.wave_leaves()[i as int]);
                assert(*states@[i as int] == node_at(
                    self.spec_root().unwrap(),
                    self.wave_leaves()[i as int],
                ).state);
            }
            r.push(evaluate(states[i]));
            i += 1;
        }
        r
    }

    /// The root that is kept for a game.
    pub open spec fn kept(&self, g: GameView) -> Option<Node> {
        match self.spec_root() {
            Some(root) if same_game(root.state@, g) => Some(root),
            _ => None,
        }
    }

    /// How often the moves of the root that is kept for a game were followed before.
    pub open spec fn kept_visits(&self, g: GameView) -> int {
        match self.kept(g) {
            Some(root) => visits(root.edges@),
            None => 0,
        }
    }

    /// The number of times each move of the root was followed.
    pub fn visit_counts(&self) -> (r: Vec<(Move, u32)>)
        ensures
            match self.spec_root() {
                Some(root) => counts_of(root.edges@, r@),
                None => r@.len() == 0,
            },
    {
        let mut r: Vec<(Move, u32)> = Vec::new();
        match &self.root {
            Some(root) => {
                let mut i: usize = 0;
                while i < root.edges.len()
                    invariant
                        i <= root.edges@.len(),
                        r@.len() == i,
                        forall|j: int|
                            0 <= j < i ==> #[trigger] r@[j] == (
                                root.edges@[j].mv,
                                root.edges@[j].n,
                            ),
                    decreases root.edges@.len() - i,
                {
                    r.push((root.edges[i].mv, root.edges[i].n));
                    i += 1;
                }
            },
            None => {},
        }
        r
    }

    /// Makes the subtree behind a move the new tree; without such a subtree there is none.
    pub fn advance(&mut self, mv: Move)
        requires
            old(self).wf(),
            old(self).idle(),
        ensures
            final(self).wf(),
            final(self).idle(),
            final(self).done() == old(self).done(),
            final(self).spec_config() == old(self).spec_config(),
            final(self).spec_root() == match old(self).spec_root() {
                Some(root) => child_by(root.edges@, mv),
                None => None,
            },
    {
        match self.root.take() {
            None => {},
            Some(mut root) => {
                let ghost a = *root;
                let mut i: usize = 0;
                assert(a.edges@.skip(0) =~= a.edges@);
                while i < root.edges.len()
                    invariant
                        i <= a.edges@.len(),
                        *root == a,
                        tree_ok(a),
                        self.root is None,
                        self.idle(),
                        self.done() == old(self).done(),
                        self.spec_config() == old(self).spec_config(),
                        old(self).spec_root() == Some(a),
                        child_by(a.edges@, mv) == child_by(a.edges@.skip(i as int), mv),
                    decreases a.edges@.len() - i,
                {
                    proof {
                        let rest = a.edges@.skip(i as int);
                        assert(rest[0] == a.edges@[i as int]);
                        assert(rest.drop_first() =~= a.edges@.skip(i + 1));
                    }
                    if root.edges[i].mv == mv {
                        proof {
                            if a.edges@[i as int].child is Some {
                                assert(tree_ok(*a.edges@[i as int].child.unwrap()));
                            }
                        }
                        self.root = root.edges[i].child.take();
                        return;
                    }
                    i += 1;
                }
                assert(a.edges@.skip(a.edges@.len() as int) =~= Seq::empty());
            },
        }
    }

    /// Forgets the tree.
    pub fn reset(&mut self)
        requires
            old(self).wf(),
        ensures
            final(self).wf(),
            final(self).idle(),
            final(self).spec_root() is None,
            final(self).done() == old(self).done(),
            final(self).spec_config() == old(self).spec_config(),
    {
        self.root = None;
        self.pending_path = None;
        self.leaves = Vec::new();
        self.ended = Vec::new();
    }
}

/// How many leaves the next wave has: what is left to do, at most a batch.
pub open spec fn wave_size(m: Mcts) -> int {
    if m.done() < m.spec_config().n_simulations {
        let left = m.spec_config().n_simulations - m.done();
        let width = if m.spec_config().collect_batch_size >= 1 {
            m.spec_config().collect_batch_size as int
        } else {
            1
        };
        if left < width {
            left
        } else {
            width
        }
    } else {
        0
    }
}

/// From `a` to `b` one more leaf was collected, along the edges that `select` picks, and `charge`
/// altered the values on the way to it.
pub open spec fn collected<F: Fn(&Node) -> usize, C: Fn(u64, i32, u64) -> u64>(
    select: F,
    charge: C,
    a: Mcts,
    b: Mcts,
) -> bool {
    exists|path: Seq<usize>, mid: Node, ended: bool|
        {
            &&& #[trigger] walked(select, a.spec_root().unwrap(), mid, path, ended)
            &&& backed_up(charge, 0, ONE, mid, b.spec_root().unwrap(), path)
            &&& if ended {
                &&& b.wave_leaves() == a.wave_leaves()
                &&& b.wave_ended() == a.wave_ended().push(
                    (path, node_at(mid, path).terminal_value),
                )
            } else {
                &&& b.wave_leaves() == a.wave_leaves().push(path)
                &&& b.wave_ended() == a.wave_ended()
            }
        }
}

pub open spec fn collected_at<F: Fn(&Node) -> usize, C: Fn(u64, i32, u64) -> u64>(
    select: F,
    charge: C,
    xs: Seq<Mcts>,
    k: int,
) -> bool {
    collected(select, charge, xs[k], xs[k + 1])
}

/// The results are what `evaluate` may say of the leaves of the wave.
pub open spec fn replied<E: Fn(&GameState) -> (Vec<(Move, u64)>, u64)>(
    evaluate: E,
    m: Mcts,
    results: Seq<(Vec<(Move, u64)>, u64)>,
) -> bool {
    &&& results.len() == m.wave_leaves().len()
    &&& forall|j: int|
        0 <= j < results.len() ==> call_ensures(
            evaluate,
            (&node_at(m.spec_root().unwrap(), m.wave_leaves()[j]).state,),
            #[trigger] results[j],
        )
}

/// From `a` to `b` the results of the wave were taken into the tree, then the values of the leaves
/// whose games have ended.
pub open spec fn wave_taken_in<A: Fn(u64, i32, u64) -> u64>(
    credit: A,
    a: Mcts,
    b: Mcts,
    results: Seq<(Vec<(Move, u64)>, u64)>,
) -> bool {
    exists|mid: Node| #[trigger]
        all_taken_in(credit, a.spec_root().unwrap(), mid, a.wave_leaves(), results)
            && all_backed_up(credit, mid, b.spec_root().unwrap(), a.wave_ended())
}

/// A wave leads from the first of `xs` to `b`: its leaves are collected one after the other,
/// evaluated, and taken into the tree.
pub open spec fn wave_with<
    F: Fn(&Node) -> usize,
    C: Fn(u64, i32, u64) -> u64,
    A: Fn(u64, i32, u64) -> u64,
    E: Fn(&GameState) -> (Vec<(Move, u64)>, u64),
>(
    select: F,
    charge: C,
    credit: A,
    evaluate: E,
    b: Mcts,
    xs: Seq<Mcts>,
    results: Seq<(Vec<(Move, u64)>, u64)>,
) -> bool {
    &&& xs.len() == wave_size(xs[0]) + 1
    &&& forall|k: int|
        0 <= k < xs.len() - 1 ==> #[trigger] collected_at(select, charge, xs, k)
    &&& replied(evaluate, xs.last(), results)
    &&& wave_taken_in(credit, xs.last(), b, results)
    &&& b.spec_config() == xs[0].spec_config()
    &&& b.done() == xs[0].done() + wave_size(xs[0])
}

/// A wave leads from `a` to `b`.
pub open spec fn waved<
    F: Fn(&Node) -> usize,
    C: Fn(u64, i32, u64) -> u64,
    A: Fn(u64, i32, u64) -> u64,
    E: Fn(&GameState) -> (Vec<(Move, u64)>, u64),
>(select: F, charge: C, credit: A, evaluate: E, a: Mcts, b: Mcts) -> bool {
    exists|xs: Seq<Mcts>, results: Seq<(Vec<(Move, u64)>, u64)>| #[trigger]
        wave_with(select, charge, credit, evaluate, b, xs, results) && xs[0] == a
}

pub open spec fn wave_at<
    F: Fn(&Node) -> usize,
    C: Fn(u64, i32, u64) -> u64,
    A: Fn(u64, i32, u64) -> u64,
    E: Fn(&GameState) -> (Vec<(Move, u64)>, u64),
>(select: F, charge: C, credit: A, evaluate: E, steps: Seq<Mcts>, k: int) -> bool {
    waved(select, charge, credit, evaluate, steps[k], steps[k + 1])
}

/// Each step but the first comes from the one before by a wave.
pub open spec fn all_waves<
    F: Fn(&Node) -> usize,
    C: Fn(u64, i32, u64) -> u64,
    A: Fn(u64, i32, u64) -> u64,
    E: Fn(&GameState) -> (Vec<(Move, u64)>, u64),
>(select: F, charge: C, credit: A, evaluate: E, steps: Seq<Mcts>) -> bool {
    forall|k: int|
        0 <= k < steps.len() - 1 ==> #[trigger] wave_at(
            select,
            charge,
            credit,
            evaluate,
            steps,
            k,
        )
}

proof fn lemma_one_more_wave<
    F: Fn(&Node) -> usize,
    C: Fn(u64, i32, u64) -> u64,
    A: Fn(u64, i32, u64) -> u64,
    E: Fn(&GameState) -> (Vec<(Move, u64)>, u64),
>(select: F, charge: C, credit: A, evaluate: E, steps: Seq<Mcts>, b: Mcts)
    requires
        steps.len() > 0,
        all_waves(select, charge, credit, evaluate, steps),
        waved(select, charge, credit, evaluate, steps.last(), b),
    ensures
        all_waves(select, charge, credit, evaluate, steps.push(b)),
{
    let next = steps.push(b);
    assert forall|k: int| 0 <= k < next.len() - 1 implies #[trigger] wave_at(
        select,
        charge,
        credit,
        evaluate,
        next,
        k,
    ) by {
        assert(next[k] == steps[k]);
        if k < steps.len() - 1 {
            assert(next[k + 1] == steps[k + 1]);
            assert(wave_at(select, charge, credit, evaluate, steps, k));
        }
    }
}

/// The root `b` is `a`, expanded with what `evaluate` says of its game if it was not, or marked if
/// its game has ended.
pub open spec fn root_from<E: Fn(&GameState) -> (Vec<(Move, u64)>, u64)>(
    evaluate: E,
    a: Node,
    b: Node,
) -> bool {
    if a.is_expanded {
        b == a
    } else if a.state@.outcome().is_terminal {
        marked_ended(a, b)
    } else {
        exists|said: (Vec<(Move, u64)>, u64)| #[trigger]
            call_ensures(evaluate, (&a.state,), said) && expanded_with(a, b, said.0@)
    }
}

/// The root for a search of `g`: that of the tree if it is the same game, else a new one.
pub open spec fn root_made<E: Fn(&GameState) -> (Vec<(Move, u64)>, u64)>(
    evaluate: E,
    before: Mcts,
    g: GameView,
    made: Node,
) -> bool {
    exists|first: Node| #[trigger]
        root_from(evaluate, first, made) && match before.kept(g) {
            Some(kept) => first == kept,
            None => is_fresh(first, g),
        }
}

/// A search of the game `g` led from `before` to `after` and followed each legal move as often as
/// `counts` says; there are no counts if the game has ended. The root is made, noise is mixed into
/// its priors, and waves are run until all simulations are done.
pub open spec fn searched<
    F: Fn(&Node) -> usize,
    C: Fn(u64, i32, u64) -> u64,
    A: Fn(u64, i32, u64) -> u64,
    E: Fn(&GameState) -> (Vec<(Move, u64)>, u64),
    N: Fn(&Node) -> Vec<u64>,
>(
    select: F,
    charge: C,
    credit: A,
    evaluate: E,
    noisy: bool,
    noise: N,
    before: Mcts,
    after: Mcts,
    g: GameView,
    counts: Seq<(Move, u32)>,
) -> bool {
    &&& after.spec_root() is Some
    &&& after.spec_config() == before.spec_config()
    &&& exists|made: Node| #[trigger]
        root_made(evaluate, before, g, made) && if made.is_terminal {
            after.spec_root().unwrap() == made && counts.len() == 0
        } else {
            &&& counts_of(after.spec_root().unwrap().edges@, counts)
            &&& exists|steps: Seq<Mcts>|
                {
                    &&& #[trigger] all_waves(select, charge, credit, evaluate, steps)
                    &&& steps.len() > 0
                    &&& steps[0].spec_config() == before.spec_config()
                    &&& steps[0].spec_root() is Some
                    &&& mixed(
                        noisy && before.spec_config().n_simulations > 0,
                        noise,
                        made,
                        steps[0].spec_root().unwrap(),
                    )
                    &&& steps[0].done() == 0
                    &&& steps.last() == after
                    &&& after.done() == before.spec_config().n_simulations
                }
        }
}

/// One step leads from `a` to `b`: noise is mixed into the priors of the root, and a walk down from
/// it along the edges that `select` picks ends at a leaf that now waits for its evaluation, or at a
/// game that has ended, whose value is credited along the path.
pub open spec fn stepped<
    F: Fn(&Node) -> usize,
    A: Fn(u64, i32, u64) -> u64,
    N: Fn(&Node) -> Vec<u64>,
>(select: F, credit: A, noisy: bool, noise: N, a: Mcts, b: Mcts, waits: bool) -> bool {
    exists|root: Node| #[trigger]
        mixed(noisy, noise, a.spec_root().unwrap(), root) && if waits {
            &&& b.done() == a.done()
            &&& b.wave_leaves().len() == 0
            &&& b.wave_ended().len() == 0
            &&& b.pending() is Some
            &&& walked(select, root, b.spec_root().unwrap(), b.pending().unwrap(), false)
        } else {
            &&& b.done() == a.done() + 1
            &&& b.idle()
            &&& exists|path: Seq<usize>, mid: Node|
                {
                    &&& #[trigger] walked(select, root, mid, path, true)
                    &&& backed_up(
                        credit,
                        node_at(mid, path).terminal_value,
                        ONE,
                        mid,
                        b.spec_root().unwrap(),
                        path,
                    )
                }
        }
}

/// The root `b` is `a`, with noise mixed into its priors if there is to be any and it lacks it.
pub open spec fn mixed<N: Fn(&Node) -> Vec<u64>>(noisy: bool, noise: N, a: Node, b: Node) -> bool {
    if noisy && !a.noise_added && a.edges@.len() >= 2 {
        exists|p: Vec<u64>| #[trigger] call_ensures(noise, (&a,), p) && reweighted(a, b, p@)
    } else {
        b == a
    }
}

/// `evaluate` gives, for every game that goes on, one prior for each legal move, in their order.
pub open spec fn evaluates<E: Fn(&GameState) -> (Vec<(Move, u64)>, u64)>(evaluate: E) -> bool {
    &&& forall|s: GameState| #[trigger] call_requires(evaluate, (&s,))
    &&& forall|s: GameState, r: (Vec<(Move, u64)>, u64)| #[trigger]
        call_ensures(evaluate, (&s,), r) && s.wf() && ordinary(s@) && !s@.outcome().is_terminal
            ==> prior_moves(r.0@) == s@.position.legal_list()
}

proof fn lemma_visits_reweighted(a: Seq<Edge>, b: Seq<Edge>)
    requires
        a.len() == b.len(),
        forall|j: int| 0 <= j < a.len() ==> (#[trigger] b[j]).n == a[j].n,
    ensures
        visits(a) == visits(b),
    decreases a.len(),
{
    if a.len() > 0 {
        assert(b[a.len() - 1].n == a[a.len() - 1].n);
        lemma_visits_reweighted(a.drop_last(), b.drop_last());
    }
}

/// The node at the end of a path is in order.
pub(crate) proof fn lemma_leaf_ok(root: Node, path: Seq<usize>)
    requires
        tree_ok(root),
        on_path(root, path),
    ensures
        tree_ok(node_at(root, path)),
    decreases path.len(),
{
    if path.len() > 0 {
        let i = path[0] as int;
        assert(tree_ok(*root.edges@[i].child.unwrap()));
        lemma_leaf_ok(*root.edges@[i].child.unwrap(), path.drop_first());
    }
}

/// The tree `b` is `a` with the leaf at the end of the path expanded and its value added along the
/// path.
pub open spec fn taken_in<A: Fn(u64, i32, u64) -> u64>(
    credit: A,
    a: Node,
    b: Node,
    path: Seq<usize>,
    priors: Seq<(Move, u64)>,
    value: u64,
) -> bool {
    exists|mid: Node| #[trigger]
        expanded_at(a, mid, path, priors) && backed_up(credit, 1, value, mid, b, path)
}

/// The tree `b` is `a` with the evaluations taken in one after the other.
pub open spec fn all_taken_in<A: Fn(u64, i32, u64) -> u64>(
    credit: A,
    a: Node,
    b: Node,
    paths: Seq<Seq<usize>>,
    results: Seq<(Vec<(Move, u64)>, u64)>,
) -> bool
    decreases paths.len(),
{
    if paths.len() == 0 {
        b == a
    } else {
        exists|mid: Node|
            all_taken_in(credit, a, mid, paths.drop_last(), results.drop_last())
                && #[trigger] taken_in(
                credit,
                mid,
                b,
                paths.last(),
                results.last().0@,
                results.last().1,
            )
    }
}

/// The tree `b` is `a` with the values of ended games added one after the other.
pub open spec fn all_backed_up<A: Fn(u64, i32, u64) -> u64>(
    credit: A,
    a: Node,
    b: Node,
    ended: Seq<(Seq<usize>, i32)>,
) -> bool
    decreases ended.len(),
{
    if ended.len() == 0 {
        b == a
    } else {
        exists|mid: Node|
            all_backed_up(credit, a, mid, ended.drop_last()) && #[trigger] backed_up(
                credit,
                ended.last().1,
                ONE,
                mid,
                b,
                ended.last().0,
            )
    }
}

proof fn lemma_one_more_taken_in<A: Fn(u64, i32, u64) -> u64>(
    credit: A,
    a: Node,
    mid: Node,
    b: Node,
    paths: Seq<Seq<usize>>,
    results: Seq<(Vec<(Move, u64)>, u64)>,
)
    requires
        paths.len() > 0,
        all_taken_in(credit, a, mid, paths.drop_last(), results.drop_last()),
        taken_in(credit, mid, b, paths.last(), results.last().0@, results.last().1),
    ensures
        all_taken_in(credit, a, b, paths, results),
{
}

proof fn lemma_one_more_backed_up<A: Fn(u64, i32, u64) -> u64>(
    credit: A,
    a: Node,
    mid: Node,
    b: Node,
    ended: Seq<(Seq<usize>, i32)>,
)
    requires
        ended.len() > 0,
        all_backed_up(credit, a, mid, ended.drop_last()),
        backed_up(credit, ended.last().1, ONE, mid, b, ended.last().0),
    ensures
        all_backed_up(credit, a, b, ended),
{
}

/// Expands a leaf and adds its value along the path to it.
fn take_in<A: Fn(u64, i32, u64) -> u64>(
    root: &mut Node,
    path: &Vec<usize>,
    priors: &Vec<(Move, u64)>,
    value: u64,
    credit: &A,
)
    requires
        forall|w: u64, s: i32| #[trigger] call_requires(*credit, (w, s, value)),
        tree_ok(*old(root)),
        open_leaf(*old(root), path@),
        !node_at(*old(root), path@).is_expanded ==> prior_moves(priors@) == node_at(
            *old(root),
            path@,
        ).state@.position.legal_list(),
    ensures
        tree_ok(*final(root)),
        visits(final(root).edges@) == visits(old(root).edges@),
        grows(*old(root), *final(root)),
        taken_in(*credit, *old(root), *final(root), path@, priors@, value),
{
    let ghost a = *root;
    assert(path@.skip(0) =~= path@);
    expand_leaf(root, path, 0, priors);
    let ghost mid = *root;
    proof {
        lemma_expansion_grows(a, mid, path@, priors@);
        lemma_path_stays(a, mid, path@);
    }
    backup_path(root, path, 0, 1, value, credit);
    proof {
        lemma_backup_grows(*credit, 1, value, mid, *root, path@);
        lemma_grows_trans(a, mid, *root);
    }
}

/// The node `b` is `a` with other priors and the note that noise was mixed in.
pub open spec fn reweighted(a: Node, b: Node, priors: Seq<u64>) -> bool {
    &&& b.state == a.state
    &&& b.to_play == a.to_play
    &&& b.is_expanded == a.is_expanded
    &&& b.is_terminal == a.is_terminal
    &&& b.terminal_value == a.terminal_value
    &&& b.noise_added
    &&& b.edges@.len() == a.edges@.len()
    &&& forall|j: int|
        0 <= j < a.edges@.len() ==> {
            let e = #[trigger] b.edges@[j];
            &&& e.mv == a.edges@[j].mv
            &&& e.n == a.edges@[j].n
            &&& e.w == a.edges@[j].w
            &&& e.child == a.edges@[j].child
            &&& e.prior == priors[j]
        }
}

proof fn lemma_reweighted_ok(a: Node, b: Node, priors: Seq<u64>)
    requires
        tree_ok(a),
        reweighted(a, b, priors),
    ensures
        tree_ok(b),
{
    assert(edge_moves(b.edges@) =~= edge_moves(a.edges@));
    assert forall|j: int|
        0 <= j < b.edges@.len() && (#[trigger] b.edges@[j]).child is Some implies {
        &&& b.edges@[j].child.unwrap().state@ == b.state@.after(b.edges@[j].mv)
        &&& visits(b.edges@[j].child.unwrap().edges@) <= b.edges@[j].n
        &&& tree_ok(*b.edges@[j].child.unwrap())
    } by {
        assert(a.edges@[j].child is Some);
    }
}

/// `counts` lists the moves of the edges with how often they were followed.
pub open spec fn counts_of(edges: Seq<Edge>, counts: Seq<(Move, u32)>) -> bool {
    &&& counts.len() == edges.len()
    &&& forall|j: int|
        0 <= j < edges.len() ==> #[trigger] counts[j] == (edges[j].mv, edges[j].n)
}

/// The child of the first edge with the given move.
pub open spec fn child_by(edges: Seq<Edge>, mv: Move) -> Option<Node>
    decreases edges.len(),
{
    if edges.len() == 0 {
        None
    } else if edges[0].mv == mv {
        match edges[0].child {
            Some(c) => Some(*c),
            None => None,
        }
    } else {
        child_by(edges.drop_first(), mv)
    }
}

} // verus!
