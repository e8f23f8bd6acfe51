//! Settings of a run, what overrides them, and when a run stops. Floating-point settings are carried
//! as bit patterns.

use vstd::prelude::*;

verus! {

#[derive(Debug, Clone, Copy, PartialEq, Eq, Structural)]
pub struct NetworkConfig {
    pub hidden_channels: usize,
    pub residual_blocks: usize,
    pub policy_head_channels: usize,
    pub value_head_channels: usize,
    pub value_fc_hidden: usize,
}

#[derive(Debug, Clone, Copy, PartialEq, Eq, Structural)]
pub struct MctsConfig {
    pub n_simulations: u32,
    pub c_puct: u64,
    pub dirichlet_alpha: u64,
    pub dirichlet_epsilon: u64,
    /// In so many first plies moves are drawn by chance.
    pub temperature_moves: u32,
}

#[derive(Debug, Clone, Copy, PartialEq, Eq, Structural)]
pub struct TrainConfig {
    pub batch_size: usize,
    pub learning_rate: u64,
    pub weight_decay: u64,
    pub grad_clip_norm: u64,
    pub buffer_capacity: usize,
    pub min_buffer_size: usize,
    pub target_reuse: u64,
    pub steps_per_iteration: u32,
    pub weight_sync_interval: u32,
}

#[derive(Debug)]
pub struct DataGenConfig {
    pub samples_dir: String,
    pub model_dir: String,
    pub num_workers: usize,
    /// Games that a worker plays side by side.
    pub games_per_worker: usize,
    pub eval_batch_size: usize,
    pub inference_timeout_ms: u64,
    pub shard_games: u32,
    pub max_pending_shards: usize,
    pub model_export_interval: u32,
    pub keep_recent_models: usize,
    pub checkpoint_every: u32,
    pub keep_checkpoints: usize,
}

#[derive(Debug)]
pub struct RunConfig {
    pub profile: String,
    pub device: String,
    pub total_samples: u64,
    pub network: NetworkConfig,
    pub mcts: MctsConfig,
    pub train: TrainConfig,
    pub datagen: DataGenConfig,
}

/// Settings given on the command line.
#[derive(Debug)]
pub struct Overrides {
    pub workers: Option<usize>,
    pub games_per_worker: Option<usize>,
    pub n_simulations: Option<u32>,
    pub eval_batch_size: Option<usize>,
    pub inference_timeout_ms: Option<u64>,
    pub total_samples: Option<u64>,
    pub shard_games: Option<u32>,
    pub device: Option<String>,
}

/// The given value, or else the other one.
pub open spec fn given<T>(v: Option<T>, other: T) -> T {
    match v {
        Some(x) => x,
        None => other,
    }
}

/// Replaces the settings that are given on the command line.
pub fn apply_overrides(rc: &mut RunConfig, cli: &Overrides)
    ensures
        final(rc).profile == old(rc).profile,
        final(rc).network == old(rc).network,
        final(rc).train == old(rc).train,
        final(rc).device@ == match cli.device {
            Some(d) => d@,
            None => old(rc).device@,
        },
        final(rc).total_samples == given(cli.total_samples, old(rc).total_samples),
        final(rc).mcts == (MctsConfig {
            n_simulations: given(cli.n_simulations, old(rc).mcts.n_simulations),
            ..old(rc).mcts
        }),
        final(rc).datagen == (DataGenConfig {
            num_workers: given(cli.workers, old(rc).datagen.num_workers),
            games_per_worker: given(cli.games_per_worker, old(rc).datagen.games_per_worker),
            eval_batch_size: given(cli.eval_batch_size, old(rc).datagen.eval_batch_size),
            inference_timeout_ms: given(
                cli.inference_timeout_ms,
                old(rc).datagen.inference_timeout_ms,
            ),
            shard_games: given(cli.shard_games, old(rc).datagen.shard_games),
            ..old(rc).datagen
        }),
{
    if let Some(v) = cli.workers {
        rc.datagen.num_workers = v;
    }
    if let Some(v) = cli.games_per_worker {
        rc.datagen.games_per_worker = v;
    }
    if let Some(v) = cli.n_simulations {
        rc.mcts.n_simulations = v;
    }
    if let Some(v) = cli.eval_batch_size {
        rc.datagen.eval_batch_size = v;
    }
    if let Some(v) = cli.inference_timeout_ms {
        rc.datagen.inference_timeout_ms = v;
    }
    if let Some(v) = cli.total_samples {
        rc.total_samples = v;
    }
    if let Some(v) = cli.shard_games {
        rc.datagen.shard_games = v;
    }
    if let Some(v) = &cli.device {
        rc.device = v.clone();
    }
}

/// When a run stops early, on a clock in milliseconds.
#[derive(Debug, Clone, Copy, PartialEq, Eq, Structural)]
pub struct StopConditions {
    pub deadline: Option<u64>,
    pub max_games: Option<i64>,
}

impl StopConditions {
    /// The conditions given on the command line, counted from `now`. A number of games too large to
    /// count stands for the largest that can be.
    pub fn from_cli(duration_secs: Option<u64>, max_games: Option<u64>, now: u64) -> (r:
        StopConditions)
        requires
            duration_secs matches Some(s) ==> now + s * 1000 <= u64::MAX,
        ensures
            r.deadline == match duration_secs {
                Some(s) => Some((now + s * 1000) as u64),
                None => None::<u64>,
            },
            match max_games {
                None => r.max_games is None,
                Some(g) => r.max_games matches Some(m) && m == if g <= i64::MAX {
                    g as int
                } else {
                    i64::MAX as int
                },
            },
    {
        let deadline = match duration_secs {
            Some(s) => Some(now + s * 1000),
            None => None,
        };
        let max_games = match max_games {
            Some(g) => Some(
                if g <= 0x7fff_ffff_ffff_ffff {
                    g as i64
                } else {
                    i64::MAX
                },
            ),
            None => None,
        };
        StopConditions { deadline, max_games }
    }

    pub fn should_stop(&self, now: u64, games: i64) -> (r: bool)
        ensures
            r == ((self.deadline matches Some(d) && now >= d) || (self.max_games matches Some(m)
                && games >= m)),
    {
        if let Some(deadline) = self.deadline {
            if now >= deadline {
                return true;
            }
        }
        if let Some(max) = self.max_games {
            if games >= max {
                return true;
            }
        }
        false
    }
}

} // verus!
