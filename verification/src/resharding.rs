use vstd::prelude::*;
use crate::types::{PeerId, ShardId};

verus! {

/// Pause before the first retry, in milliseconds; the pause before the
/// n-th retry is n times as long.
pub const RETRY_DELAY_MILLIS: u64 = 1000;

/// A resharding is driven at most so many times.
pub const MAX_RETRY_COUNT: usize = 3;

/// Key by which a collection spreads its points over custom shards.
#[derive(Clone, Debug, PartialEq, Eq, Hash)]
pub enum ShardKey {
    Keyword(String),
    Number(u64),
}

/// A shard key as a plain value.
pub enum ShardKeyView {
    Keyword(Seq<char>),
    Number(u64),
}

impl View for ShardKey {
    type V = ShardKeyView;

    open spec fn view(&self) -> ShardKeyView {
        match self {
            ShardKey::Keyword(word) => ShardKeyView::Keyword(word@),
            ShardKey::Number(n) => ShardKeyView::Number(*n),
        }
    }
}

/// The key inside, as a plain value.
pub open spec fn key_view(key: Option<ShardKey>) -> Option<ShardKeyView> {
    match key {
        Some(k) => Some(k@),
        None => None,
    }
}

fn same_key(a: &Option<ShardKey>, b: &Option<ShardKey>) -> (r: bool)
    ensures
        r == (key_view(*a) == key_view(*b)),
{
    match (a, b) {
        (None, None) => true,
        (Some(ShardKey::Keyword(x)), Some(ShardKey::Keyword(y))) => *x == *y,
        (Some(ShardKey::Number(x)), Some(ShardKey::Number(y))) => *x == *y,
        _ => false,
    }
}

fn copy_key(key: &Option<ShardKey>) -> (r: Option<ShardKey>)
    ensures
        key_view(r) == key_view(*key),
{
    match key {
        None => None,
        Some(ShardKey::Keyword(word)) => Some(ShardKey::Keyword(word.clone())),
        Some(ShardKey::Number(n)) => Some(ShardKey::Number(*n)),
    }
}

/// How far a resharding has come.
#[derive(Clone, Copy, Debug, PartialEq, Eq, Structural, PartialOrd, Ord)]
pub enum ReshardStage {
    /// Both rings are in use; the new shard is filled with the points that
    /// hash to it.
    MigratingPoints,
    /// Reads go by the new ring; writes still go to both placements.
    ReadHashRingCommitted,
    /// Writes go by the new ring too; the old placement is pruned.
    WriteHashRingCommitted,
}

impl Default for ReshardStage {
    fn default() -> (r: Self)
        ensures
            r == ReshardStage::MigratingPoints,
    {
        ReshardStage::MigratingPoints
    }
}

impl ReshardStage {
    pub open spec fn spec_next(self) -> Option<ReshardStage> {
        match self {
            ReshardStage::MigratingPoints => Some(ReshardStage::ReadHashRingCommitted),
            ReshardStage::ReadHashRingCommitted => Some(ReshardStage::WriteHashRingCommitted),
            ReshardStage::WriteHashRingCommitted => None,
        }
    }

    /// The stage that follows, `None` after the last.
    pub fn next(self) -> (r: Option<ReshardStage>)
        ensures
            r == self.spec_next(),
    {
        match self {
            ReshardStage::MigratingPoints => Some(ReshardStage::ReadHashRingCommitted),
            ReshardStage::ReadHashRingCommitted => Some(ReshardStage::WriteHashRingCommitted),
            ReshardStage::WriteHashRingCommitted => None,
        }
    }
}

/// Names one resharding: the peer and the shard that is added, and the
/// shard key it belongs to.
#[derive(Clone, Debug, PartialEq, Eq, Hash)]
pub struct ReshardKey {
    pub peer_id: PeerId,
    pub shard_id: ShardId,
    pub shard_key: Option<ShardKey>,
}

/// A resharding under way.
#[derive(Clone, Debug, PartialEq, Eq)]
pub struct ReshardState {
    pub peer_id: PeerId,
    pub shard_id: ShardId,
    pub shard_key: Option<ShardKey>,
    pub stage: ReshardStage,
}

impl ReshardState {
    /// A resharding at its first stage.
    pub fn new(peer_id: PeerId, shard_id: ShardId, shard_key: Option<ShardKey>) -> (r: Self)
        ensures
            r.peer_id == peer_id,
            r.shard_id == shard_id,
            r.shard_key == shard_key,
            r.stage == ReshardStage::MigratingPoints,
    {
        ReshardState { peer_id, shard_id, shard_key, stage: ReshardStage::MigratingPoints }
    }

    pub open spec fn spec_matches(&self, key: &ReshardKey) -> bool {
        &&& self.peer_id == key.peer_id
        &&& self.shard_id == key.shard_id
        &&& key_view(self.shard_key) == key_view(key.shard_key)
    }

    /// True when the key names this resharding.
    pub fn matches(&self, key: &ReshardKey) -> (r: bool)
        ensures
            r == self.spec_matches(key),
    {
        self.peer_id == key.peer_id && self.shard_id == key.shard_id && same_key(
            &self.shard_key,
            &key.shard_key,
        )
    }

    /// The key that names this resharding.
    pub fn key(&self) -> (r: ReshardKey)
        ensures
            r.peer_id == self.peer_id,
            r.shard_id == self.shard_id,
            key_view(r.shard_key) == key_view(self.shard_key),
            self.spec_matches(&r),
    {
        ReshardKey {
            peer_id: self.peer_id,
            shard_id: self.shard_id,
            shard_key: copy_key(&self.shard_key),
        }
    }
}

/// How one run of the driver ended.
#[derive(Clone, Copy, Debug, PartialEq, Eq, Structural)]
pub enum DriveOutcome {
    /// The driver came to its end; `false` says that the task is not to be
    /// finished.
    Done(bool),
    /// The driver failed.
    Failed,
    /// The task was cancelled while the driver ran.
    Cancelled,
}

/// What the task does next.
#[derive(Clone, Copy, Debug, PartialEq, Eq, Structural)]
pub enum TaskStep {
    /// Wait so long, then run the driver for the `attempt`-th time, counted
    /// from zero.
    Drive { attempt: usize, delay_millis: u64 },
    /// Stop. Run the finishing callback or the error callback if marked,
    /// and report `result`.
    Stop { on_finish: bool, on_error: bool, result: bool },
}

/// The pause before an attempt: none before the first, then one delay more
/// each time.
pub open spec fn retry_delay(attempt: usize) -> int {
    RETRY_DELAY_MILLIS * attempt
}

/// The step after the `attempt`-th run of the driver. Success finishes the
/// task. A driver that asks not to finish, or a cancellation, ends it with
/// no callback. A failure is tried again after a pause that grows with
/// each attempt, until the attempts are used up: then the error callback
/// runs.
pub open spec fn spec_next_step(attempt: usize, outcome: DriveOutcome) -> TaskStep {
    match outcome {
        DriveOutcome::Done(true) => TaskStep::Stop { on_finish: true, on_error: false, result: true },
        DriveOutcome::Done(false) => TaskStep::Stop {
            on_finish: false,
            on_error: false,
            result: false,
        },
        DriveOutcome::Cancelled => TaskStep::Stop {
            on_finish: false,
            on_error: false,
            result: false,
        },
        DriveOutcome::Failed => if attempt + 1 < MAX_RETRY_COUNT {
            TaskStep::Drive {
                attempt: (attempt + 1) as usize,
                delay_millis: retry_delay((attempt + 1) as usize) as u64,
            }
        } else {
            TaskStep::Stop { on_finish: false, on_error: true, result: false }
        },
    }
}

/// The first step of a task: run the driver at once.
pub fn first_step() -> (r: TaskStep)
    ensures
        r == (TaskStep::Drive { attempt: 0, delay_millis: 0 }),
{
    TaskStep::Drive { attempt: 0, delay_millis: 0 }
}

/// The step after the `attempt`-th run of the driver.
pub fn next_step(attempt: usize, outcome: DriveOutcome) -> (r: TaskStep)
    requires
        attempt < MAX_RETRY_COUNT,
    ensures
        r == spec_next_step(attempt, outcome),
{
    match outcome {
        DriveOutcome::Done(true) => TaskStep::Stop { on_finish: true, on_error: false, result: true },
        DriveOutcome::Done(false) => TaskStep::Stop {
            on_finish: false,
            on_error: false,
            result: false,
        },
        DriveOutcome::Cancelled => TaskStep::Stop {
            on_finish: false,
            on_error: false,
            result: false,
        },
        DriveOutcome::Failed => {
            if attempt + 1 < MAX_RETRY_COUNT {
                TaskStep::Drive {
                    attempt: attempt + 1,
                    delay_millis: RETRY_DELAY_MILLIS * ((attempt + 1) as u64),
                }
            } else {
                TaskStep::Stop { on_finish: false, on_error: true, result: false }
            }
        },
    }
}

/// What a whole task came to.
#[derive(Debug, PartialEq, Eq)]
pub struct TaskReport {
    /// The pauses before the runs of the driver, in milliseconds.
    pub delays: Vec<u64>,
    /// How often the finishing callback ran.
    pub finished: usize,
    /// How often the error callback ran.
    pub failed: usize,
    /// What the task reports.
    pub result: bool,
}

/// The pauses of a task that runs the driver `runs` times.
pub open spec fn delays_of(runs: nat) -> Seq<u64> {
    Seq::new(runs, |k: int| (RETRY_DELAY_MILLIS * k) as u64)
}

/// Plays a task through, the runs of the driver ending as `outcomes` say.
/// The task stops when the driver succeeds, asks to stop or is cancelled,
/// when the attempts are used up, or when the outcomes are.
pub fn run_task(outcomes: &Vec<DriveOutcome>) -> (r: TaskReport)
    ensures
        r.delays@.len() <= MAX_RETRY_COUNT,
        r.delays@.len() <= outcomes@.len(),
        r.delays@ == delays_of(r.delays@.len()),
        forall|k: int| 0 <= k < r.delays@.len() - 1 ==> outcomes@[k] == DriveOutcome::Failed,
        r.delays@.len() < outcomes@.len() && r.delays@.len() < MAX_RETRY_COUNT
            ==> r.delays@.len() > 0 && outcomes@[r.delays@.len() - 1] != DriveOutcome::Failed,
        r.finished == if r.delays@.len() > 0 && outcomes@[r.delays@.len() - 1]
            == DriveOutcome::Done(true) {
            1usize
        } else {
            0usize
        },
        r.failed == if r.delays@.len() == MAX_RETRY_COUNT && outcomes@[r.delays@.len() - 1]
            == DriveOutcome::Failed {
            1usize
        } else {
            0usize
        },
        r.result == (r.finished == 1),
{
    let mut delays: Vec<u64> = Vec::new();
    let mut step: TaskStep = first_step();
    let mut report: Option<(bool, bool, bool)> = None;
    while report.is_none() && delays.len() < outcomes.len()
        invariant
            delays@.len() <= MAX_RETRY_COUNT,
            delays@.len() <= outcomes@.len(),
            delays@ == delays_of(delays@.len()),
            forall|k: int| 0 <= k < delays@.len() - 1 ==> outcomes@[k] == DriveOutcome::Failed,
            report is None ==> (step matches TaskStep::Drive { attempt, delay_millis } && attempt
                == delays@.len() && attempt < MAX_RETRY_COUNT && delay_millis == retry_delay(
                attempt,
            ) && (attempt > 0 ==> outcomes@[attempt - 1] == DriveOutcome::Failed)),
            report matches Some(flags) ==> delays@.len() > 0 && step == spec_next_step(
                (delays@.len() - 1) as usize,
                outcomes@[delays@.len() - 1],
            ) && (step matches TaskStep::Stop { on_finish, on_error, result } && flags == (
                on_finish,
                on_error,
                result,
            )),
        decreases outcomes.len() - delays.len() + if report is None { 1int } else { 0int },
    {
        match step {
            TaskStep::Drive { attempt, delay_millis } => {
                delays.push(delay_millis);
                proof {
                    assert(delays@ =~= delays_of(delays@.len()));
                }
                step = next_step(attempt, outcomes[attempt]);
                match step {
                    TaskStep::Stop { on_finish, on_error, result } => {
                        report = Some((on_finish, on_error, result));
                    },
                    TaskStep::Drive { .. } => {},
                }
            },
            TaskStep::Stop { .. } => {},
        }
    }
    match report {
        Some((on_finish, on_error, result)) => TaskReport {
            delays,
            finished: if on_finish {
                1
            } else {
                0
            },
            failed: if on_error {
                1
            } else {
                0
            },
            result,
        },
        None => TaskReport { delays, finished: 0, failed: 0, result: false },
    }
}

} // verus!
