//! A game played against itself step by step: it goes on until it needs an evaluation, which the
//! caller hands in.

use vstd::prelude::*;

use crate::engine::constants::MAX_TOTAL_PLIES;
use crate::engine::encode::{encode_state, EncodedState};
use crate::engine::game::Play;
use crate::engine::mcts::{
    credited, descended, evaluated_node, edge_moves, fresh_edges, noised, selects, visits, Descent,
    Mcts, Node, ONE,
};
use crate::engine::selfplay::{encodes, moved_on, SelfPlay};
use crate::engine::types::Move;

verus! {

/// What a game waits for.
#[derive(Debug, Clone, Copy, PartialEq, Eq, Structural)]
pub enum Awaited {
    Root,
    Leaf,
}

/// A game with the state of the search of its current position.
pub struct Driver {
    pub game: SelfPlay,
    /// The root is there and its noise is mixed in.
    pub started: bool,
    /// How many simulations are done.
    pub done: usize,
    pub awaited: Option<Awaited>,
}

impl Driver {
    pub open spec fn sims(&self) -> int {
        self.game.mcts.simulations() as int
    }

    /// How many moves were made.
    pub open spec fn moves_made(&self) -> int {
        self.game.samples().len() as int
    }

    /// The counters are where so many moves and simulations have brought them.
    pub open spec fn counted(&self) -> bool {
        let n = self.moves_made();
        let sims = self.sims();
        let done = if self.started {
            self.done as int
        } else {
            0
        };
        &&& (sims + 1) * 301 <= u32::MAX
        &&& 0 <= n <= 300
        &&& self.done <= sims
        &&& self.game.mcts.spec_next_id() <= n * (sims + 1) + done + if self.game.mcts.rooted() {
            1int
        } else {
            0
        }
        &&& self.game.mcts.rooted() ==> visits(self.game.mcts.root().edges@) <= n * sims + done
    }

    /// The game waits for nothing.
    pub open spec fn ready(&self) -> bool {
        &&& self.awaited is None
        &&& self.game.wf()
        &&& self.counted()
        &&& self.started ==> self.game.mcts.rooted() && !self.game.over()
    }

    /// The game waits for an evaluation of the position in `asked`.
    pub open spec fn waiting(&self) -> bool {
        &&& self.counted()
        &&& match self.awaited {
            Some(Awaited::Root) => {
                &&& self.game.wf()
                &&& !self.game.over()
                &&& !self.game.mcts.rooted()
                &&& !self.started
            },
            Some(Awaited::Leaf) => {
                &&& self.game.noted()
                &&& self.game.mcts.wf()
                &&& self.game.mcts.awaiting()
                &&& self.game.mcts.rooted()
                &&& !self.game.mcts.root().is_terminal
                &&& self.game.mcts.spec_plays()[self.game.mcts.spec_root_id()]
                    == self.game.played().last()
                &&& !self.game.played().last().outcome().is_terminal
                &&& self.started
                &&& self.done < self.sims()
            },
            None => false,
        }
    }

    /// The game whose evaluation is waited for.
    pub open spec fn asked(&self) -> Play {
        self.game.mcts.spec_game()@
    }

    /// A game from the starting board.
    pub fn new(num_simulations: usize, temperature_moves: usize) -> (r: Driver)
        requires
            (num_simulations + 1) * 301 <= u32::MAX,
        ensures
            r.ready(),
            !r.game.over(),
            !r.started,
            r.moves_made() == 0,
            r.sims() == num_simulations,
            r.game.warm_moves() == temperature_moves,
            r.game.mcts.spec_nodes() == Map::<u32, Node>::empty(),
    {
        Driver {
            game: SelfPlay::new(num_simulations, temperature_moves),
            started: false,
            done: 0,
            awaited: None,
        }
    }

    /// The planes and the legal moves of the position whose evaluation is waited for.
    pub fn question(&mut self) -> (r: (EncodedState, Vec<Move>))
        requires
            old(self).waiting(),
        ensures
            final(self).waiting(),
            same_driver(*old(self), *final(self)),
            encodes(r.0, old(self).asked()),
            r.1@ == old(self).asked().board.legal_list(old(self).asked().board.side, false),
    {
        let state = encode_state(self.game.mcts.game());
        let moves = self.game.mcts.legal_moves();
        (state, moves)
    }

    /// Lets the game go on until it needs an evaluation. Says whether it does; if not, it is over.
    #[verifier::rlimit(30)]
    pub fn go_on<
        S: Fn(&Node) -> usize,
        A: Fn(u32, i32, u32) -> u32,
        N: Fn(&Node) -> Vec<u32>,
        R: Fn(u32, u32) -> u32,
        C: Fn(&Vec<(Move, u32)>, bool) -> usize,
    >(
        &mut self,
        select: &S,
        credit: &A,
        noisy: bool,
        noise: &N,
        ratio: &R,
        sample: &C,
    ) -> (r: bool)
        requires
            selects(*select),
            forall|w: u32, s: i32, v: u32| #[trigger] call_requires(*credit, (w, s, v)),
            forall|n: Node| #[trigger] call_requires(*noise, (&n,)),
            forall|n: Node, p: Vec<u32>| #[trigger]
                call_ensures(*noise, (&n,), p) ==> p@.len() == n.edges@.len(),
            forall|n: u32, d: u32| 0 < n <= d ==> #[trigger] call_requires(*ratio, (n, d)),
            forall|c: Vec<(Move, u32)>, warm: bool|
                c@.len() > 0 ==> #[trigger] call_requires(*sample, (&c, warm)),
            forall|c: Vec<(Move, u32)>, warm: bool, i: usize|
                c@.len() > 0 && #[trigger] call_ensures(*sample, (&c, warm), i) ==> i < c@.len(),
            old(self).ready(),
        ensures
            r ==> final(self).waiting(),
            !r ==> final(self).ready() && final(self).game.over(),
            final(self).sims() == old(self).sims(),
            final(self).game.warm_moves() == old(self).game.warm_moves(),
            acted_out(*select, *credit, noisy, *noise, *ratio, *sample, *old(self), *final(self)),
    {
        let ghost first = *self;
        let ghost mut states: Seq<Driver> = Seq::empty().push(*self);
        proof {
            lemma_trace_starts(*select, *credit, noisy, *noise, *ratio, *sample, first);
        }
        while !self.game.is_over()
            invariant
                selects(*select),
                forall|w: u32, s: i32, v: u32| #[trigger] call_requires(*credit, (w, s, v)),
                forall|n: Node| #[trigger] call_requires(*noise, (&n,)),
                forall|n: Node, p: Vec<u32>| #[trigger]
                    call_ensures(*noise, (&n,), p) ==> p@.len() == n.edges@.len(),
                forall|n: u32, d: u32| 0 < n <= d ==> #[trigger] call_requires(*ratio, (n, d)),
                forall|c: Vec<(Move, u32)>, warm: bool|
                    c@.len() > 0 ==> #[trigger] call_requires(*sample, (&c, warm)),
                forall|c: Vec<(Move, u32)>, warm: bool, i: usize|
                    c@.len() > 0 && #[trigger] call_ensures(*sample, (&c, warm), i) ==> i
                        < c@.len(),
                first == *old(self),
                self.ready(),
                self.sims() == first.sims(),
                self.game.warm_moves() == first.game.warm_moves(),
                states.len() > 0,
                states[0] == first,
                states.last() == *self,
                traced(*select, *credit, noisy, *noise, *ratio, *sample, states),
            decreases
                    (if self.game.over() {
                        0
                    } else {
                        1 + MAX_TOTAL_PLIES - self.moves_made()
                    }),
                    (if self.started {
                        0int
                    } else {
                        1
                    }),
                    self.sims() - self.done,
        {
            let ghost n = self.moves_made();
            let ghost sims = self.sims();
            proof {
                let p = self.game.mcts.spec_game()@;
                assert(p.plies() < MAX_TOTAL_PLIES);
                assert(n < 300);
                lemma_bounds(n, sims);
                if self.game.mcts.rooted() {
                    let root = self.game.mcts.root();
                    assert(self.game.mcts.spec_nodes().contains_key(
                        self.game.mcts.spec_root_id(),
                    ));
                    assert(edge_moves(root.edges@).len() == root.edges@.len());
                }
            }
            if !self.started {
                if self.game.mcts.needs_root() {
                    self.awaited = Some(Awaited::Root);
                    proof {
                        assert(asks_root(states.last(), *self));
                        lemma_trace_goes_on(
                            *select,
                            *credit,
                            noisy,
                            *noise,
                            *ratio,
                            *sample,
                            states,
                            *self,
                        );
                        states = states.push(*self);
                    }
                    return true;
                }
                if noisy {
                    let priors = noise(self.game.mcts.root_node());
                    self.game.mcts.set_root_priors(&priors);
                    proof {
                        let m = states.last().game.mcts;
                        assert(call_ensures(*noise, (&m.root(),), priors));
                        assert(self.game.mcts.spec_nodes().remove(m.spec_root_id())
                            =~= m.spec_nodes().remove(m.spec_root_id()));
                        assert(noised(*noise, m, self.game.mcts));
                    }
                }
                self.started = true;
                self.done = 0;
                proof {
                    assert(begins(noisy, *noise, states.last(), *self));
                    lemma_trace_goes_on(
                        *select,
                        *credit,
                        noisy,
                        *noise,
                        *ratio,
                        *sample,
                        states,
                        *self,
                    );
                    states = states.push(*self);
                }
            } else if self.done < self.game.mcts.num_simulations() {
                let ghost root = self.game.mcts.spec_root_id();
                let ghost line = self.game.played();
                let descent = self.game.mcts.descend(select);
                let ghost m = self.game.mcts;
                assert(descended(*select, states.last().game.mcts, m, descent));
                match descent {
                    Descent::Ended(value) => {
                        self.game.mcts.backup(value, ONE, credit);
                        self.done = self.done + 1;
                        proof {
                            assert(walks(*select, *credit, states.last(), *self, m, descent));
                            lemma_trace_goes_on(
                                *select,
                                *credit,
                                noisy,
                                *noise,
                                *ratio,
                                *sample,
                                states,
                                *self,
                            );
                            states = states.push(*self);
                        }
                    },
                    Descent::NeedEval => {
                        self.awaited = Some(Awaited::Leaf);
                        proof {
                            assert(walks(*select, *credit, states.last(), *self, m, descent));
                            lemma_trace_goes_on(
                                *select,
                                *credit,
                                noisy,
                                *noise,
                                *ratio,
                                *sample,
                                states,
                                *self,
                            );
                            states = states.push(*self);
                        }
                        return true;
                    },
                }
            } else {
                let counts = self.game.mcts.visit_counts();
                let warm = self.game.is_exploring();
                let index: usize = sample(&counts, warm);
                self.game.play(index, ratio);
                self.started = false;
                self.done = 0;
                proof {
                    assert(plays(*ratio, *sample, states.last(), *self, counts, index));
                    lemma_trace_goes_on(
                        *select,
                        *credit,
                        noisy,
                        *noise,
                        *ratio,
                        *sample,
                        states,
                        *self,
                    );
                    states = states.push(*self);
                    assert(self.game.samples().drop_last().len() == n);
                }
            }
        }
        false
    }

    /// Takes the evaluation that is waited for: the priors of the legal moves, in their order, and
    /// the value, which counts for a leaf only.
    pub fn feed<A: Fn(u32, i32, u32) -> u32>(&mut self, priors: Vec<u32>, value: u32, credit: &A)
        requires
            forall|w: u32, s: i32, v: u32| #[trigger] call_requires(*credit, (w, s, v)),
            old(self).waiting(),
            priors@.len() == old(self).asked().board.legal_list(
                old(self).asked().board.side,
                false,
            ).len(),
        ensures
            final(self).ready(),
            final(self).sims() == old(self).sims(),
            final(self).game.warm_moves() == old(self).game.warm_moves(),
            final(self).game.samples() == old(self).game.samples(),
            final(self).game.played() == old(self).game.played(),
            final(self).started == old(self).started,
            fed(*credit, *old(self), *final(self), priors@, value),
    {
        let ghost n = self.moves_made();
        let ghost sims = self.sims();
        let ghost a = *self;
        proof {
            lemma_bounds(n, sims);
            if self.awaited == Some(Awaited::Leaf) {
                assert(n < 300) by {
                    assert(self.game.played().last().plies() < MAX_TOTAL_PLIES);
                }
            } else {
                assert(n < 300) by {
                    assert(self.game.mcts.spec_game()@.plies() < MAX_TOTAL_PLIES);
                }
            }
        }
        match self.awaited {
            Some(Awaited::Root) => {
                self.game.mcts.create_root(priors);
                self.awaited = None;
            },
            Some(Awaited::Leaf) => {
                self.game.mcts.expand(priors);
                let ghost grown = self.game.mcts;
                self.game.mcts.backup(1, value, credit);
                self.done = self.done + 1;
                self.awaited = None;
                assert(evaluated_node(
                    *credit,
                    a.game.mcts,
                    grown,
                    self.game.mcts,
                    priors@,
                    value,
                ));
            },
            None => {},
        }
    }
}

/// Both have the same game, tree and counters.
pub open spec fn same_driver(a: Driver, b: Driver) -> bool {
    &&& b.game.samples() == a.game.samples()
    &&& b.game.played() == a.game.played()
    &&& b.game.warm_moves() == a.game.warm_moves()
    &&& b.game.mcts.spec_nodes() == a.game.mcts.spec_nodes()
    &&& b.game.mcts.spec_plays() == a.game.mcts.spec_plays()
    &&& b.game.mcts.spec_next_id() == a.game.mcts.spec_next_id()
    &&& b.game.mcts.spec_root_id() == a.game.mcts.spec_root_id()
    &&& b.game.mcts.spec_path() == a.game.mcts.spec_path()
    &&& b.game.mcts.simulations() == a.game.mcts.simulations()
    &&& b.game.mcts.spec_game()@ == a.game.mcts.spec_game()@
    &&& b.game.mcts.spec_game().status == a.game.mcts.spec_game().status
    &&& b.started == a.started
    &&& b.done == a.done
    &&& b.awaited == a.awaited
}

/// The position has no node yet, and its evaluation is asked for.
pub open spec fn asks_root(a: Driver, b: Driver) -> bool {
    &&& !a.started
    &&& !a.game.mcts.rooted()
    &&& !a.game.over()
    &&& b == (Driver { awaited: Some(Awaited::Root), ..a })
}

/// The search of the position begins, with noise in the priors of the root if there is to be any.
pub open spec fn begins<N: Fn(&Node) -> Vec<u32>>(noisy: bool, noise: N, a: Driver, b: Driver) -> bool {
    &&& !a.started
    &&& a.game.mcts.rooted()
    &&& !a.game.over()
    &&& b.started
    &&& b.done == 0
    &&& b.awaited is None
    &&& b.game.samples() == a.game.samples()
    &&& b.game.played() == a.game.played()
    &&& if noisy {
        noised(noise, a.game.mcts, b.game.mcts)
    } else {
        b.game.mcts == a.game.mcts
    }
}

/// A simulation is left, and a walk led to `m`: to a game that has ended, whose value was credited,
/// or to one whose evaluation is asked for.
pub open spec fn walks<S: Fn(&Node) -> usize, A: Fn(u32, i32, u32) -> u32>(
    select: S,
    credit: A,
    a: Driver,
    b: Driver,
    m: Mcts,
    descent: Descent,
) -> bool {
    &&& a.started
    &&& a.done < a.sims()
    &&& b.started
    &&& b.game.samples() == a.game.samples()
    &&& b.game.played() == a.game.played()
    &&& descended(select, a.game.mcts, m, descent)
    &&& match descent {
        Descent::Ended(value) => {
            &&& b.awaited is None
            &&& b.done == a.done + 1
            &&& credited(
                credit,
                value,
                ONE,
                m.spec_nodes(),
                b.game.mcts.spec_nodes(),
                m.spec_path(),
            )
        },
        Descent::NeedEval => {
            &&& b.awaited == Some(Awaited::Leaf)
            &&& b.done == a.done
            &&& b.game.mcts == m
        },
    }
}

/// All simulations are done, and the move that `sample` picked by their counts was played.
pub open spec fn plays<R: Fn(u32, u32) -> u32, C: Fn(&Vec<(Move, u32)>, bool) -> usize>(
    ratio: R,
    sample: C,
    a: Driver,
    b: Driver,
    counts: Vec<(Move, u32)>,
    index: usize,
) -> bool {
    &&& a.started
    &&& a.done >= a.sims()
    &&& !b.started
    &&& b.awaited is None
    &&& crate::engine::mcts::counts_of(a.game.mcts.root().edges@, counts@)
    &&& call_ensures(
        sample,
        (&counts, a.game.samples().len() < a.game.warm_moves()),
        index,
    )
    &&& moved_on(ratio, a.game, b.game, index)
}

/// What a game does next.
pub open spec fn acted<
    S: Fn(&Node) -> usize,
    A: Fn(u32, i32, u32) -> u32,
    N: Fn(&Node) -> Vec<u32>,
    R: Fn(u32, u32) -> u32,
    C: Fn(&Vec<(Move, u32)>, bool) -> usize,
>(
    select: S,
    credit: A,
    noisy: bool,
    noise: N,
    ratio: R,
    sample: C,
    a: Driver,
    b: Driver,
) -> bool {
    ||| asks_root(a, b)
    ||| begins(noisy, noise, a, b)
    ||| exists|m: Mcts, descent: Descent| #[trigger] walks(select, credit, a, b, m, descent)
    ||| exists|counts: Vec<(Move, u32)>, index: usize| #[trigger]
        plays(ratio, sample, a, b, counts, index)
}

pub open spec fn acted_at<
    S: Fn(&Node) -> usize,
    A: Fn(u32, i32, u32) -> u32,
    N: Fn(&Node) -> Vec<u32>,
    R: Fn(u32, u32) -> u32,
    C: Fn(&Vec<(Move, u32)>, bool) -> usize,
>(
    select: S,
    credit: A,
    noisy: bool,
    noise: N,
    ratio: R,
    sample: C,
    states: Seq<Driver>,
    k: int,
) -> bool {
    acted(select, credit, noisy, noise, ratio, sample, states[k], states[k + 1])
}

/// The game went through these states, one action after the other.
#[verifier::opaque]
pub open spec fn traced<
    S: Fn(&Node) -> usize,
    A: Fn(u32, i32, u32) -> u32,
    N: Fn(&Node) -> Vec<u32>,
    R: Fn(u32, u32) -> u32,
    C: Fn(&Vec<(Move, u32)>, bool) -> usize,
>(
    select: S,
    credit: A,
    noisy: bool,
    noise: N,
    ratio: R,
    sample: C,
    states: Seq<Driver>,
) -> bool {
    forall|k: int|
        0 <= k < states.len() - 1 ==> #[trigger] acted_at(
            select,
            credit,
            noisy,
            noise,
            ratio,
            sample,
            states,
            k,
        )
}

/// The game went from `a` to `b` by its actions.
pub open spec fn acted_out<
    S: Fn(&Node) -> usize,
    A: Fn(u32, i32, u32) -> u32,
    N: Fn(&Node) -> Vec<u32>,
    R: Fn(u32, u32) -> u32,
    C: Fn(&Vec<(Move, u32)>, bool) -> usize,
>(
    select: S,
    credit: A,
    noisy: bool,
    noise: N,
    ratio: R,
    sample: C,
    a: Driver,
    b: Driver,
) -> bool {
    exists|states: Seq<Driver>|
        {
            &&& #[trigger] traced(select, credit, noisy, noise, ratio, sample, states)
            &&& states.len() > 0
            &&& states[0] == a
            &&& states.last() == b
        }
}

/// The evaluation was taken into the tree: the root was made with the priors, or the leaf, whose
/// value was then credited along the path to it.
pub open spec fn fed<A: Fn(u32, i32, u32) -> u32>(
    credit: A,
    a: Driver,
    b: Driver,
    priors: Seq<u32>,
    value: u32,
) -> bool {
    let p = a.asked();
    match a.awaited {
        Some(Awaited::Root) => {
            &&& b.game.mcts.rooted()
            &&& b.game.mcts.spec_nodes().dom() == Set::<u32>::empty().insert(
                b.game.mcts.spec_root_id(),
            )
            &&& !b.game.mcts.root().is_terminal
            &&& fresh_edges(
                b.game.mcts.root().edges@,
                p.board.legal_list(p.board.side, false),
                priors,
            )
            &&& b.done == a.done
        },
        Some(Awaited::Leaf) => {
            &&& exists|grown: Mcts| #[trigger]
                evaluated_node(credit, a.game.mcts, grown, b.game.mcts, priors, value)
            &&& b.done == a.done + 1
        },
        None => false,
    }
}

proof fn lemma_bounds(n: int, sims: int)
    requires
        0 <= n <= 300,
        0 <= sims,
        (sims + 1) * 301 <= u32::MAX,
    ensures
        (n + 1) * (sims + 1) == n * (sims + 1) + sims + 1,
        (n + 1) * sims == n * sims + sims,
        0 <= n * (sims + 1) <= 300 * (sims + 1),
        0 <= n * sims <= 300 * sims,
        n < 300 ==> (n + 1) * (sims + 1) <= 300 * (sims + 1),
{
    assert((n + 1) * (sims + 1) == n * (sims + 1) + sims + 1) by (nonlinear_arith);
    assert((n + 1) * sims == n * sims + sims) by (nonlinear_arith);
    assert(0 <= n * (sims + 1) <= 300 * (sims + 1)) by (nonlinear_arith)
        requires
            0 <= n <= 300,
            0 <= sims,
    ;
    assert(0 <= n * sims <= 300 * sims) by (nonlinear_arith)
        requires
            0 <= n <= 300,
            0 <= sims,
    ;
    if n < 300 {
        assert((n + 1) * (sims + 1) <= 300 * (sims + 1)) by (nonlinear_arith)
            requires
                n < 300,
                0 <= sims,
        ;
    }
}

proof fn lemma_trace_starts<
    S: Fn(&Node) -> usize,
    A: Fn(u32, i32, u32) -> u32,
    N: Fn(&Node) -> Vec<u32>,
    R: Fn(u32, u32) -> u32,
    C: Fn(&Vec<(Move, u32)>, bool) -> usize,
>(
    select: S,
    credit: A,
    noisy: bool,
    noise: N,
    ratio: R,
    sample: C,
    a: Driver,
)
    ensures
        traced(select, credit, noisy, noise, ratio, sample, Seq::empty().push(a)),
{
    reveal(traced);
}

proof fn lemma_trace_goes_on<
    S: Fn(&Node) -> usize,
    A: Fn(u32, i32, u32) -> u32,
    N: Fn(&Node) -> Vec<u32>,
    R: Fn(u32, u32) -> u32,
    C: Fn(&Vec<(Move, u32)>, bool) -> usize,
>(
    select: S,
    credit: A,
    noisy: bool,
    noise: N,
    ratio: R,
    sample: C,
    states: Seq<Driver>,
    b: Driver,
)
    requires
        states.len() > 0,
        traced(select, credit, noisy, noise, ratio, sample, states),
        acted(select, credit, noisy, noise, ratio, sample, states.last(), b),
    ensures
        traced(select, credit, noisy, noise, ratio, sample, states.push(b)),
{
    reveal(traced);
    let more = states.push(b);
    assert forall|k: int| 0 <= k < more.len() - 1 implies #[trigger] acted_at(
        select,
        credit,
        noisy,
        noise,
        ratio,
        sample,
        more,
        k,
    ) by {
        assert(more[k] == states[k]);
        if k < states.len() - 1 {
            assert(more[k + 1] == states[k + 1]);
            assert(acted_at(select, credit, noisy, noise, ratio, sample, states, k));
        }
    }
}

} // verus!
