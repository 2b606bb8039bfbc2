//! The configuration of a run, with the values that stand in for what a configuration leaves out.

use vstd::prelude::*;
use crate::single::Single;

verus! {

/// A whole configuration.
#[derive(Debug)]
pub struct Config {
    pub env: EnvCfg,
    pub train: TrainCfg,
    pub gradient: GradientCfg,
    pub optimizer: OptCfg,
    pub evaluation: EvalCfg,
    pub model: ModelCfg,
}

/// The tasks that the skill is for, and the file that it starts from.
#[derive(Debug)]
pub struct EnvCfg {
    pub name: String,
    pub skill_init: String,
    pub max_turns: u32,
}

/// How much of the training split is used, and how often.
#[derive(Debug)]
pub struct TrainCfg {
    pub train_size: usize,
    pub batch_size: usize,
    pub accumulation: usize,
    pub num_epochs: u32,
}

/// How many trajectories are reflected on at a time, and how many are compared between epochs.
#[derive(Debug)]
pub struct GradientCfg {
    pub minibatch_size: usize,
    pub merge_batch_size: usize,
}

/// How many edits a step takes, and what is remembered between steps.
#[derive(Debug)]
pub struct OptCfg {
    pub learning_rate: u32,
    pub lr_schedule: String,
    pub use_rejected_buffer: bool,
    pub use_slow_update: bool,
    pub use_meta_skill: bool,
    pub full_rewrite_every: u32,
}

/// The splits that a skill is measured on.
#[derive(Debug)]
pub struct EvalCfg {
    pub sel_split: String,
    pub test_split: String,
    pub workers: usize,
}

/// How the models are asked.
#[derive(Debug)]
pub struct ModelCfg {
    pub reasoning_effort: String,
    pub temperature_target: Single,
    pub temperature_optimizer: Single,
}

/// The number of turns, where none is given.
pub fn one() -> (n: u32)
    ensures
        n == 1,
{
    1
}

/// The number of batches that make a step, where none is given.
pub fn one_usize() -> (n: usize)
    ensures
        n == 1,
{
    1
}

/// The schedule of the edit budget, where none is given.
pub fn default_schedule() -> (s: String)
    ensures
        s@ == "cosine"@,
{
    "cosine".to_owned()
}

/// A switch that is not given is on.
pub fn default_true() -> (b: bool)
    ensures
        b,
{
    true
}

/// The split that candidates are validated on, where none is given.
pub fn default_sel() -> (s: String)
    ensures
        s@ == "valid_seen"@,
{
    "valid_seen".to_owned()
}

/// The split that the result is tested on, where none is given.
pub fn default_test() -> (s: String)
    ensures
        s@ == "valid_unseen"@,
{
    "valid_unseen".to_owned()
}

/// The number of requests at a time, where none is given.
pub fn default_workers() -> (n: usize)
    ensures
        n == 16,
{
    16
}

/// The reasoning effort of the optimizer, where none is given.
pub fn default_effort() -> (s: String)
    ensures
        s@ == "medium"@,
{
    "medium".to_owned()
}

/// The temperature of the optimizer, where none is given: 0.7.
pub fn default_temp_opt() -> (t: Single)
    ensures
        t == (Single { bits: 0x3f33_3333 }),
{
    Single { bits: 0x3f33_3333 }
}

} // verus!
