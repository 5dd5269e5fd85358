//! The life of the persisted table: where a query takes its table from, and
//! the cycle that refreshes the table on a fixed period.
//!
//! The work itself (reading directories, reading and writing the file,
//! waiting for the timer) is done by the caller. What is decided here is the
//! order of that work.

use vstd::prelude::*;

verus! {

/// The name of the file that holds the persisted table.
pub const INDEX_FILE_NAME: &'static str = "new_index.json";

/// The hours between two refreshes.
pub const REFRESH_INTERVAL_HOURS: u64 = 1;

/// Where a query takes its table from.
#[derive(Clone, Copy, Debug, PartialEq, Eq, Structural)]
pub enum IndexSource {
    /// The persisted table is loaded.
    Load,
    /// The tree is walked, and the table that comes of it is persisted
    /// before the query is answered.
    BuildAndSave,
}

/// A query loads the persisted table where there is one, and builds and
/// persists a table where there is none.
pub fn index_source(persisted: bool) -> (source: IndexSource)
    ensures
        source == if persisted {
            IndexSource::Load
        } else {
            IndexSource::BuildAndSave
        },
{
    if persisted {
        IndexSource::Load
    } else {
        IndexSource::BuildAndSave
    }
}

/// The seconds in `hours` hours.
pub open spec fn seconds_in(hours: int) -> int {
    hours * 3600
}

/// The refresh period in seconds, for a period given in hours. There is
/// none for zero hours, nor for a period that does not fit the seconds'
/// type.
pub fn refresh_period_secs(hours: u64) -> (period: Option<u64>)
    ensures
        period == if 0 < hours && seconds_in(hours as int) <= u64::MAX {
            Some(seconds_in(hours as int) as u64)
        } else {
            None
        },
{
    if hours == 0 {
        None
    } else {
        hours.checked_mul(3600)
    }
}

/// A step of the refresh cycle.
#[derive(Clone, Copy, Debug, PartialEq, Eq, Structural)]
pub enum Step {
    /// Waiting for the timer's next tick.
    AwaitTick,
    /// Walking the tree and building the table.
    Walk,
    /// Persisting the table that was built.
    Save,
}

/// How a step ended.
#[derive(Clone, Copy, Debug, PartialEq, Eq, Structural)]
pub enum Outcome {
    /// The step did its work.
    Done,
    /// The step failed.
    Failed,
}

/// The step that follows `step` once it has ended with `outcome`: after a
/// tick the walk, after the walk the save, after the save the next tick.
/// After a failure the cycle is over, and the next tick is awaited.
pub open spec fn successor(step: Step, outcome: Outcome) -> Step {
    match (step, outcome) {
        (Step::AwaitTick, Outcome::Done) => Step::Walk,
        (Step::Walk, Outcome::Done) => Step::Save,
        (Step::Save, Outcome::Done) => Step::AwaitTick,
        (_, Outcome::Failed) => Step::AwaitTick,
    }
}

/// The step that follows `step` once it has ended with `outcome`.
pub fn next_step(step: Step, outcome: Outcome) -> (next: Step)
    ensures
        next == successor(step, outcome),
{
    match outcome {
        Outcome::Failed => Step::AwaitTick,
        Outcome::Done => match step {
            Step::AwaitTick => Step::Walk,
            Step::Walk => Step::Save,
            Step::Save => Step::AwaitTick,
        },
    }
}

/// A failure ends the cycle without a retry: what follows is the wait for
/// the next tick, whichever step failed.
pub proof fn lemma_failure_awaits_next_tick(step: Step)
    ensures
        successor(step, Outcome::Failed) == Step::AwaitTick,
{
}

/// A table is persisted only when the walk before it has done its work.
pub proof fn lemma_save_follows_walk(step: Step, outcome: Outcome)
    requires
        successor(step, outcome) == Step::Save,
    ensures
        step == Step::Walk,
        outcome == Outcome::Done,
{
}

/// The cycle never ends: whatever the outcomes, the wait for a tick comes
/// again within three steps.
pub proof fn lemma_tick_is_awaited_again(step: Step, first: Outcome, second: Outcome, third: Outcome)
    ensures
        ({
            let one = successor(step, first);
            let two = successor(one, second);
            let three = successor(two, third);
            one == Step::AwaitTick || two == Step::AwaitTick || three == Step::AwaitTick
        }),
{
}

} // verus!
