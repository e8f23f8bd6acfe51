//! Requests for evaluation: what is asked of a position, how requests are gathered into a batch, and
//! how the answers are handed back.

use vstd::prelude::*;

use crate::kernel::encode::{encode, law_canonical_actions, plane_cell, seen_move, to_canonical_action};
use crate::kernel::game::{GameState, GameView};
use crate::kernel::setup::law_legal_list_exact;
use crate::kernel::tree::prior_moves;
use crate::kernel::types::{action_number, Move};

verus! {

/// An evaluation: a prior for each legal move and a value, as bit patterns of floating-point numbers.
pub type EvalReply = (Vec<(Move, u64)>, u64);

/// What is asked of a position: its planes in hundredths, its legal moves, and their actions as seen
/// from the side to move.
#[derive(Debug)]
pub struct EvalInput {
    pub input: Vec<u8>,
    pub moves: Vec<Move>,
    pub legal_ids: Vec<usize>,
}

/// The question asks about the game.
pub open spec fn asks(q: EvalInput, g: GameView) -> bool {
    &&& q.input@.len() == 8910
    &&& forall|i: int| 0 <= i < 8910 ==> #[trigger] q.input@[i] == plane_cell(g, i)
    &&& q.moves@ == g.position.legal_list()
    &&& q.legal_ids@.len() == q.moves@.len()
    &&& forall|j: int|
        0 <= j < q.moves@.len() ==> #[trigger] q.legal_ids@[j] == action_number(
            seen_move(q.moves@[j], g.position.side),
        )
}

/// The question about a game.
pub fn make_eval_input(state: &GameState) -> (r: EvalInput)
    requires
        state.wf(),
        state@.position.all_judgeable(),
    ensures
        asks(r, state@),
{
    proof {
        assert(state@.position_at(state@.history.len() as int).wf());
        law_legal_list_exact(state@.position);
    }
    let input = encode(state);
    let moves = state.position.legal_moves();
    let perspective = state.position.side_to_move;
    let mut legal_ids: Vec<usize> = Vec::new();
    let mut i: usize = 0;
    while i < moves.len()
        invariant
            i <= moves@.len(),
            perspective == state@.position.side,
            moves@ == state@.position.legal_list(),
            forall|mv: Move| #[trigger] moves@.contains(mv) ==> mv.on_board(),
            legal_ids@.len() == i,
            forall|j: int|
                0 <= j < i ==> #[trigger] legal_ids@[j] == action_number(
                    seen_move(moves@[j], perspective),
                ),
        decreases moves@.len() - i,
    {
        let mv = moves[i];
        proof {
            assert(moves@.contains(mv));
            law_canonical_actions(mv, mv, perspective);
        }
        legal_ids.push(to_canonical_action(mv, perspective));
        i += 1;
    }
    EvalInput { input, moves, legal_ids }
}

/// A request: about one position, or about several whose answers go back together. `T` and `U` are
/// where the answers go.
#[derive(Debug)]
pub enum InferRequest<T, U> {
    One { input: EvalInput, reply: T },
    WorkerBatch { inputs: Vec<EvalInput>, replies: U },
}

/// The questions of one request within a batch.
#[derive(Debug)]
pub struct BatchReplyGroup<U> {
    pub reply: U,
    pub start_idx: usize,
    pub len: usize,
}

/// Requests gathered for one evaluation.
#[derive(Debug)]
pub struct Batch<T, U> {
    pub inputs: Vec<EvalInput>,
    pub ones: Vec<(usize, T)>,
    pub batches: Vec<BatchReplyGroup<U>>,
}

impl<T, U> Batch<T, U> {
    /// Every request has its questions in the batch.
    pub open spec fn wf(self) -> bool {
        &&& forall|i: int| 0 <= i < self.ones@.len() ==> (#[trigger] self.ones@[i]).0
            < self.inputs@.len()
        &&& forall|i: int|
            0 <= i < self.batches@.len() ==> (#[trigger] self.batches@[i]).start_idx
                + self.batches@[i].len <= self.inputs@.len()
    }

    pub fn new() -> (r: Batch<T, U>)
        ensures
            r.wf(),
            r.inputs@.len() == 0,
            r.ones@.len() == 0,
            r.batches@.len() == 0,
    {
        Batch { inputs: Vec::new(), ones: Vec::new(), batches: Vec::new() }
    }

    /// Adds a request to the batch.
    pub fn extend_infer_msg(&mut self, msg: InferRequest<T, U>)
        requires
            old(self).wf(),
        ensures
            final(self).wf(),
            match msg {
                InferRequest::One { input, reply } => {
                    &&& final(self).inputs@ == old(self).inputs@.push(input)
                    &&& final(self).ones@ == old(self).ones@.push(
                        (old(self).inputs@.len() as usize, reply),
                    )
                    &&& final(self).batches@ == old(self).batches@
                },
                InferRequest::WorkerBatch { inputs, replies } => {
                    &&& final(self).inputs@ == old(self).inputs@ + inputs@
                    &&& final(self).ones@ == old(self).ones@
                    &&& final(self).batches@ == old(self).batches@.push(
                        BatchReplyGroup {
                            reply: replies,
                            start_idx: old(self).inputs@.len() as usize,
                            len: inputs@.len() as usize,
                        },
                    )
                },
            },
    {
        match msg {
            InferRequest::One { input, reply } => {
                let idx: usize = self.inputs.len();
                self.inputs.push(input);
                self.ones.push((idx, reply));
            },
            InferRequest::WorkerBatch { inputs, replies } => {
                let start_idx: usize = self.inputs.len();
                let len: usize = inputs.len();
                let mut inputs = inputs;
                self.inputs.append(&mut inputs);
                self.batches.push(BatchReplyGroup { reply: replies, start_idx, len });
            },
        }
    }

    /// Whether to wait for more requests: while the batch is not full and there is time left.
    pub fn wants_more(&self, batch_size: usize, time_left: bool) -> (r: bool)
        ensures
            r == (self.inputs@.len() < batch_size && time_left),
    {
        self.inputs.len() < batch_size && time_left
    }
}

/// Two evaluations say the same.
pub open spec fn same_reply(a: EvalReply, b: EvalReply) -> bool {
    a.0@ == b.0@ && a.1 == b.1
}

fn clone_reply(r: &EvalReply) -> (c: EvalReply)
    ensures
        same_reply(c, *r),
{
    let mut priors: Vec<(Move, u64)> = Vec::new();
    let mut i: usize = 0;
    while i < r.0.len()
        invariant
            i <= r.0@.len(),
            priors@ == r.0@.take(i as int),
        decreases r.0@.len() - i,
    {
        priors.push(r.0[i]);
        i += 1;
        assert(priors@ =~= r.0@.take(i as int));
    }
    assert(priors@ =~= r.0@);
    (priors, r.1)
}

/// The elements in the opposite order.
pub fn reversed<T>(v: Vec<T>) -> (r: Vec<T>)
    ensures
        r@ == v@.reverse(),
{
    let ghost all = v@;
    let mut v = v;
    let mut r: Vec<T> = Vec::new();
    while v.len() > 0
        invariant
            v@.len() + r@.len() == all.len(),
            v@ == all.take(v@.len() as int),
            forall|i: int| 0 <= i < r@.len() ==> r@[i] == all[all.len() - 1 - i],
        decreases v@.len(),
    {
        let x = v.pop().unwrap();
        assert(x == all[v@.len() as int]);
        assert(v@ =~= all.take(v@.len() as int));
        r.push(x);
    }
    assert(r@ =~= all.reverse());
    r
}

pub open spec fn answered<T>(n: int) -> spec_fn((usize, T)) -> bool {
    |o: (usize, T)| o.0 < n
}

/// Each single request whose question was answered gets its answer.
pub open spec fn ones_served<T>(
    ones: Seq<(usize, T)>,
    results: Seq<EvalReply>,
    out: Seq<(T, EvalReply)>,
) -> bool {
    let served = ones.filter(answered(results.len() as int));
    &&& out.len() == served.len()
    &&& forall|i: int|
        0 <= i < out.len() ==> (#[trigger] out[i]).0 == served[i].1 && same_reply(
            out[i].1,
            results[served[i].0 as int],
        )
}

/// Each request about several positions gets its answers, in the order of its questions.
pub open spec fn groups_served<U>(
    groups: Seq<BatchReplyGroup<U>>,
    results: Seq<EvalReply>,
    out: Seq<(U, Vec<EvalReply>)>,
) -> bool {
    &&& out.len() == groups.len()
    &&& forall|i: int|
        0 <= i < out.len() ==> {
            &&& (#[trigger] out[i]).0 == groups[i].reply
            &&& out[i].1@.len() == groups[i].len
            &&& forall|k: int|
                0 <= k < groups[i].len ==> same_reply(
                    #[trigger] out[i].1@[k],
                    results[groups[i].start_idx + k],
                )
        }
}

/// Hands the answers back to the requests they belong to.
pub fn scatter_results<T, U>(
    results: Vec<EvalReply>,
    ones: Vec<(usize, T)>,
    batches: Vec<BatchReplyGroup<U>>,
) -> (r: (Vec<(T, EvalReply)>, Vec<(U, Vec<EvalReply>)>))
    requires
        forall|i: int|
            0 <= i < batches@.len() ==> (#[trigger] batches@[i]).start_idx + batches@[i].len
                <= results@.len(),
    ensures
        ones_served(ones@, results@, r.0@),
        groups_served(batches@, results@, r.1@),
{
    let ghost all_ones = ones@;
    let ghost all_groups = batches@;
    let ghost p = answered::<T>(results@.len() as int);
    let mut singles: Vec<(T, EvalReply)> = Vec::new();
    let mut todo = reversed(ones);
    let ghost mut done: Seq<(usize, T)> = Seq::empty();
    proof {
        reveal(Seq::filter);
        assert(all_ones.take(0) =~= done);
    }
    while todo.len() > 0
        invariant
            done.len() + todo@.len() == all_ones.len(),
            done == all_ones.take(done.len() as int),
            forall|i: int|
                0 <= i < todo@.len() ==> #[trigger] todo@[i] == all_ones[all_ones.len() - 1 - i],
            p == answered::<T>(results@.len() as int),
            ones_served(done, results@, singles@),
        decreases todo@.len(),
    {
        let ghost rest = todo@;
        let (idx, tx) = todo.pop().unwrap();
        let ghost k = done.len() as int;
        let ghost before = singles@;
        proof {
            assert(rest[rest.len() - 1] == all_ones[k]);
            done.lemma_filter_push((idx, tx), p);
            assert(all_ones.take(k + 1) =~= done.push((idx, tx)));
        }
        if idx < results.len() {
            singles.push((tx, clone_reply(&results[idx])));
        }
        proof {
            done = done.push((idx, tx));
        }
    }
    assert(done =~= all_ones);
    let mut groups: Vec<(U, Vec<EvalReply>)> = Vec::new();
    let mut waiting = reversed(batches);
    let ghost mut n: int = 0;
    while waiting.len() > 0
        invariant
            0 <= n,
            n + waiting@.len() == all_groups.len(),
            forall|i: int|
                0 <= i < waiting@.len() ==> #[trigger] waiting@[i] == all_groups[all_groups.len()
                    - 1 - i],
            forall|i: int|
                0 <= i < all_groups.len() ==> (#[trigger] all_groups[i]).start_idx
                    + all_groups[i].len <= results@.len(),
            groups_served(all_groups.take(n), results@, groups@),
        decreases waiting@.len(),
    {
        let ghost rest = waiting@;
        let g = waiting.pop().unwrap();
        assert(rest[rest.len() - 1] == all_groups[n]);
        let mut slice: Vec<EvalReply> = Vec::new();
        let mut k: usize = 0;
        let total: usize = results.len();
        while k < g.len
            invariant
                k <= g.len,
                total == results@.len(),
                g.start_idx + g.len <= results@.len(),
                slice@.len() == k,
                forall|j: int|
                    0 <= j < k ==> same_reply(#[trigger] slice@[j], results@[g.start_idx + j]),
            decreases g.len - k,
        {
            slice.push(clone_reply(&results[g.start_idx + k]));
            k += 1;
        }
        let ghost before = groups@;
        groups.push((g.reply, slice));
        proof {
            let now = all_groups.take(n + 1);
            assert forall|i: int| 0 <= i < groups@.len() implies {
                &&& (#[trigger] groups@[i]).0 == now[i].reply
                &&& groups@[i].1@.len() == now[i].len
                &&& forall|k: int|
                    0 <= k < now[i].len ==> same_reply(
                        #[trigger] groups@[i].1@[k],
                        results@[now[i].start_idx + k],
                    )
            } by {
                if i < before.len() {
                    assert(groups@[i] == before[i]);
                    assert(now[i] == all_groups.take(n)[i]);
                }
            }
            n = n + 1;
        }
    }
    assert(all_groups.take(n) =~= all_groups);
    (singles, groups)
}

/// In a well formed batch with an answer for each question no request goes without its answers.
pub proof fn law_every_request_answered<T, U>(b: Batch<T, U>, results: Seq<EvalReply>)
    requires
        b.wf(),
        results.len() == b.inputs@.len(),
    ensures
        b.ones@.filter(answered(results.len() as int)) == b.ones@,
{
    lemma_filter_all(b.ones@, answered(results.len() as int));
}

proof fn lemma_filter_all<A>(s: Seq<A>, p: spec_fn(A) -> bool)
    requires
        forall|i: int| 0 <= i < s.len() ==> p(#[trigger] s[i]),
    ensures
        s.filter(p) == s,
    decreases s.len(),
{
    reveal(Seq::filter);
    if s.len() > 0 {
        let front = s.drop_last();
        assert forall|i: int| 0 <= i < front.len() implies p(#[trigger] front[i]) by {
            assert(p(s[i]));
        }
        lemma_filter_all(front, p);
        assert(front.push(s.last()) =~= s);
    }
}

/// The model that knows nothing: every legal move is as good as any other.
#[derive(Debug)]
pub struct UniformBatch;

impl UniformBatch {
    /// The same prior for every move, and the value zero. `share` gives the bit pattern of one part
    /// in so many.
    pub fn evaluate_batch<S: Fn(usize) -> u64>(
        &self,
        inputs: &Vec<EvalInput>,
        share: &S,
    ) -> (r: Vec<EvalReply>)
        requires
            forall|n: usize| n > 0 ==> #[trigger] call_requires(*share, (n,)),
        ensures
            r@.len() == inputs@.len(),
            forall|i: int|
                0 <= i < r@.len() ==> uniform(*share, inputs@[i].moves@, #[trigger] r@[i]),
    {
        let mut r: Vec<EvalReply> = Vec::new();
        let mut i: usize = 0;
        while i < inputs.len()
            invariant
                i <= inputs@.len(),
                forall|n: usize| n > 0 ==> #[trigger] call_requires(*share, (n,)),
                r@.len() == i,
                forall|j: int|
                    0 <= j < i ==> uniform(*share, inputs@[j].moves@, #[trigger] r@[j]),
            decreases inputs@.len() - i,
        {
            r.push(uniform_reply(&inputs[i].moves, share));
            i += 1;
        }
        r
    }
}

/// The evaluation gives every move the share of one among them, and the value zero.
pub open spec fn uniform<S: Fn(usize) -> u64>(share: S, moves: Seq<Move>, r: EvalReply) -> bool {
    &&& prior_moves(r.0@) == moves
    &&& r.1 == 0
    &&& moves.len() > 0 ==> exists|p: u64|
        call_ensures(share, (moves.len() as usize,), p) && #[trigger] all_priors(r.0@, p)
}

pub open spec fn all_priors(priors: Seq<(Move, u64)>, p: u64) -> bool {
    forall|j: int| 0 <= j < priors.len() ==> (#[trigger] priors[j]).1 == p
}

/// The same prior for every move, and the value zero.
pub fn uniform_reply<S: Fn(usize) -> u64>(moves: &Vec<Move>, share: &S) -> (r: EvalReply)
    requires
        forall|n: usize| n > 0 ==> #[trigger] call_requires(*share, (n,)),
    ensures
        uniform(*share, moves@, r),
{
    let mut priors: Vec<(Move, u64)> = Vec::new();
    let n: usize = moves.len();
    if n == 0 {
        assert(prior_moves(priors@) =~= moves@);
        return (priors, 0);
    }
    let p: u64 = share(n);
    let mut i: usize = 0;
    while i < n
        invariant
            i <= n,
            n == moves@.len(),
            call_ensures(*share, (n,), p),
            prior_moves(priors@) == moves@.take(i as int),
            priors@.len() == i,
            all_priors(priors@, p),
        decreases n - i,
    {
        let ghost before = priors@;
        priors.push((moves[i], p));
        i += 1;
        assert(prior_moves(priors@) =~= moves@.take(i as int));
    }
    proof {
        assert(moves@.take(n as int) =~= moves@);
        assert(moves@.len() as usize == n);
        assert(call_ensures(*share, (moves@.len() as usize,), p) && all_priors(priors@, p));
        assert(prior_moves(priors@) == moves@);
        let r: EvalReply = (priors, 0u64);
        assert(r.0@ == priors@);
        assert(all_priors(r.0@, p));
        assert(uniform(*share, moves@, r));
    }
    (priors, 0)
}

/// Knows nothing: every legal move is as good as any other.
#[derive(Debug)]
pub struct UniformEvaluator;

impl UniformEvaluator {
    /// The same prior for every legal move, in their order, and the value zero.
    pub fn evaluate<S: Fn(usize) -> u64>(&self, state: &GameState, share: &S) -> (r: EvalReply)
        requires
            forall|n: usize| n > 0 ==> #[trigger] call_requires(*share, (n,)),
            state.wf(),
            state@.position.all_judgeable(),
        ensures
            uniform(*share, state@.position.legal_list(), r),
    {
        proof {
            assert(state@.position_at(state@.history.len() as int).wf());
        }
        let moves = state.position.legal_moves();
        uniform_reply(&moves, share)
    }
}

/// Which model to use.
#[derive(Debug)]
pub enum ModelChoice {
    /// None is there: the one that knows nothing, under this version.
    Uniform(i64),
    /// The file of this version.
    Load(i64, String),
}

/// The model to use, given the version that is noted and the newest file.
pub fn choose_model(version: Option<i64>, latest: Option<(i64, String)>) -> (r: ModelChoice)
    ensures
        match (latest, r) {
            (Some((v, path)), ModelChoice::Load(w, p)) => w == v && p == path,
            (None, ModelChoice::Uniform(w)) => w == match version {
                Some(v) => v,
                None => 0,
            },
            _ => false,
        },
{
    match latest {
        Some((v, path)) => ModelChoice::Load(v, path),
        None => ModelChoice::Uniform(
            match version {
                Some(v) => v,
                None => 0,
            },
        ),
    }
}

} // verus!
