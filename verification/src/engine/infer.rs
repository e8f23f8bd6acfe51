//! Evaluation of many games at once: the batch, the shapes of the answer, and when to reload the
//! model.

use vstd::prelude::*;

use crate::engine::encode::STATE_F32_SIZE;

verus! {

/// Number of actions.
pub const ACTIONS: usize = 8100;

/// Which part of an answer has an unexpected shape.
#[derive(Debug, Clone, Copy, PartialEq, Eq, Structural)]
pub enum ShapeFault {
    Policy,
    Value,
}

/// The evaluation of a game: its value and a number for each action.
#[derive(Debug)]
pub struct EvalResponse<T> {
    pub value: T,
    pub policy_logits: Vec<T>,
}

/// The states of a batch one after the other.
pub fn stack_states<T: Copy>(states: &Vec<Vec<T>>) -> (r: Vec<T>)
    requires
        forall|i: int| 0 <= i < states@.len() ==> (#[trigger] states@[i])@.len() == STATE_F32_SIZE,
        states@.len() * STATE_F32_SIZE <= usize::MAX,
    ensures
        r@.len() == states@.len() * STATE_F32_SIZE,
        forall|i: int, j: int|
            0 <= i < states@.len() && 0 <= j < STATE_F32_SIZE ==> r@[i * STATE_F32_SIZE + j]
                == #[trigger] states@[i]@[j],
{
    let mut r: Vec<T> = Vec::new();
    let mut k: usize = 0;
    while k < states.len()
        invariant
            forall|i: int|
                0 <= i < states@.len() ==> (#[trigger] states@[i])@.len() == STATE_F32_SIZE,
            k <= states@.len(),
            r@.len() == k * STATE_F32_SIZE,
            forall|i: int, j: int|
                0 <= i < k && 0 <= j < STATE_F32_SIZE ==> r@[i * STATE_F32_SIZE + j]
                    == #[trigger] states@[i]@[j],
        decreases states@.len() - k,
    {
        let ghost before = r@;
        let state = &states[k];
        let mut j: usize = 0;
        while j < state.len()
            invariant
                state@.len() == STATE_F32_SIZE,
                j <= state@.len(),
                before.len() == k * STATE_F32_SIZE,
                r@ == before + state@.take(j as int),
            decreases state@.len() - j,
        {
            r.push(state[j]);
            assert(r@ =~= before + state@.take(j + 1));
            j += 1;
        }
        assert(state@.take(j as int) =~= state@);
        k += 1;
    }
    r
}

/// The shape is that of a matrix with so many rows and columns.
pub open spec fn is_matrix(shape: Seq<i64>, rows: int, columns: int) -> bool {
    shape.len() == 2 && shape[0] == rows && shape[1] == columns
}

/// What is wrong with the shapes of an answer to a batch, if anything.
pub open spec fn shape_fault(policy: Seq<i64>, value: Seq<i64>, batch_size: int) -> Option<
    ShapeFault,
> {
    if !is_matrix(policy, batch_size, 8100) {
        Some(ShapeFault::Policy)
    } else if !is_matrix(value, batch_size, 1) {
        Some(ShapeFault::Value)
    } else {
        None
    }
}

/// The answer to each game of a batch, from the rows of the two matrices.
pub fn split_responses<T: Copy>(
    policy_shape: &[i64],
    policy: &[T],
    value_shape: &[i64],
    value: &[T],
    batch_size: usize,
) -> (r: Result<Vec<EvalResponse<T>>, ShapeFault>)
    requires
        batch_size <= i64::MAX,
        is_matrix(policy_shape@, batch_size as int, 8100) ==> policy@.len() == batch_size * 8100,
        is_matrix(value_shape@, batch_size as int, 1) ==> value@.len() == batch_size,
    ensures
        match r {
            Err(fault) => shape_fault(policy_shape@, value_shape@, batch_size as int) == Some(
                fault,
            ),
            Ok(all) => {
                &&& shape_fault(policy_shape@, value_shape@, batch_size as int) is None
                &&& all@.len() == batch_size
                &&& forall|i: int|
                    0 <= i < batch_size ==> {
                        &&& (#[trigger] all@[i]).value == value@[i]
                        &&& all@[i].policy_logits@ == policy@.subrange(i * 8100, (i + 1) * 8100)
                    }
            },
        },
{
    let rows: i64 = batch_size as i64;
    if policy_shape.len() != 2 || policy_shape[0] != rows || policy_shape[1] != 8100 {
        return Err(ShapeFault::Policy);
    }
    if value_shape.len() != 2 || value_shape[0] != rows || value_shape[1] != 1 {
        return Err(ShapeFault::Value);
    }
    let cells: usize = policy.len();
    let mut all: Vec<EvalResponse<T>> = Vec::new();
    let mut i: usize = 0;
    while i < batch_size
        invariant
            i <= batch_size,
            cells == policy@.len(),
            policy@.len() == batch_size * 8100,
            value@.len() == batch_size,
            all@.len() == i,
            forall|k: int|
                0 <= k < i ==> {
                    &&& (#[trigger] all@[k]).value == value@[k]
                    &&& all@[k].policy_logits@ == policy@.subrange(k * 8100, (k + 1) * 8100)
                },
        decreases batch_size - i,
    {
        let start: usize = i * ACTIONS;
        let mut policy_logits: Vec<T> = Vec::new();
        let mut j: usize = 0;
        while j < ACTIONS
            invariant
                j <= ACTIONS,
                i < batch_size,
                start == i * 8100,
                cells == policy@.len(),
                policy@.len() == batch_size * 8100,
                policy_logits@ == policy@.subrange(start as int, start + j),
            decreases ACTIONS - j,
        {
            policy_logits.push(policy[start + j]);
            assert(policy_logits@ =~= policy@.subrange(start as int, start + j + 1));
            j += 1;
        }
        all.push(EvalResponse { value: value[i], policy_logits });
        i += 1;
    }
    Ok(all)
}

/// The counters of a server that evaluates batches with the model of some generation.
#[derive(Debug, Clone, Copy, PartialEq, Eq, Structural)]
pub struct EvalServer {
    pub max_batch_size: usize,
    pub generation: u64,
    pub total_evals: u64,
    pub recent_evals: u64,
}

impl EvalServer {
    pub fn new(max_batch_size: usize, generation: u64) -> (r: EvalServer)
        ensures
            r == (EvalServer { max_batch_size, generation, total_evals: 0, recent_evals: 0 }),
    {
        EvalServer { max_batch_size, generation, total_evals: 0, recent_evals: 0 }
    }

    /// Whether a batch of this size may still grow.
    pub fn wants_more(&self, batch_size: usize) -> (r: bool)
        ensures
            r == (batch_size < self.max_batch_size),
    {
        batch_size < self.max_batch_size
    }

    /// Counts an evaluated batch. When the total passes a multiple of ten thousand, the evaluations
    /// since the last report are returned, and counted anew.
    pub fn count_batch(&mut self, batch_size: usize) -> (r: Option<u64>)
        requires
            old(self).recent_evals <= old(self).total_evals,
            old(self).total_evals + batch_size <= u64::MAX,
        ensures
            final(self).max_batch_size == old(self).max_batch_size,
            final(self).generation == old(self).generation,
            final(self).total_evals == old(self).total_evals + batch_size,
            r == if (old(self).total_evals + batch_size) % 10000 < batch_size {
                Some((old(self).recent_evals + batch_size) as u64)
            } else {
                None
            },
            final(self).recent_evals == if r is Some {
                0
            } else {
                old(self).recent_evals + batch_size
            },
    {
        self.total_evals = self.total_evals + batch_size as u64;
        self.recent_evals = self.recent_evals + batch_size as u64;
        if self.total_evals % 10000 < batch_size as u64 {
            let recent: u64 = self.recent_evals;
            self.recent_evals = 0;
            Some(recent)
        } else {
            None
        }
    }

    /// Whether a model of this generation is to be loaded.
    pub fn wants_reload(&self, generation: u64) -> (r: bool)
        ensures
            r == (generation != self.generation),
    {
        generation != self.generation
    }

    /// Notes that a model of this generation is in use.
    pub fn reloaded(&mut self, generation: u64)
        ensures
            *final(self) == (EvalServer { generation, ..*old(self) }),
    {
        self.generation = generation;
    }
}

} // verus!
