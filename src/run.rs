use vstd::prelude::*;
use crate::queue::{Operation, WorkItem};

verus! {

/// Why a run stops before any transfer.
#[derive(PartialEq, Eq, Structural, Clone, Copy, Debug)]
pub enum RunError {
    /// The configured process is neither `copy` nor `move`.
    UnknownProcess,
    /// The source root has no entries.
    NothingToProcess,
}

/// The strategy named by the configuration's `process` field.
pub fn parse_process(process: &String) -> (r: Result<Operation, RunError>)
    ensures
        process@ == "copy"@ ==> r == Ok::<Operation, RunError>(Operation::Copy),
        process@ == "move"@ ==> r == Ok::<Operation, RunError>(Operation::Move),
        process@ != "copy"@ && process@ != "move"@ ==> r == Err::<Operation, RunError>(
            RunError::UnknownProcess,
        ),
{
    proof {
        reveal_strlit("copy");
        reveal_strlit("move");
        assert("copy"@[0] != "move"@[0]);
    }
    let copy = "copy".to_owned();
    let mv = "move".to_owned();
    if *process == copy {
        Ok(Operation::Copy)
    } else if *process == mv {
        Ok(Operation::Move)
    } else {
        Err(RunError::UnknownProcess)
    }
}

/// A run needs at least one entry under the source root.
pub fn check_root(root_files_count: u64) -> (r: Result<(), RunError>)
    ensures
        r == if root_files_count == 0 {
            Err::<(), RunError>(RunError::NothingToProcess)
        } else {
            Ok::<(), RunError>(())
        },
{
    if root_files_count == 0 {
        Err(RunError::NothingToProcess)
    } else {
        Ok(())
    }
}

impl Operation {
    /// Whether the strategy writes the destination file; `Move` is reported
    /// and leaves both trees as they are.
    pub fn performs_copy(&self) -> (r: bool)
        ensures
            r == (*self == Operation::Copy),
    {
        match self {
            Operation::Copy => true,
            Operation::Move => false,
        }
    }
}

/// The transfer of the file at `relative` with strategy `operation`.
pub fn work_item(relative: Vec<String>, operation: Operation) -> (r: WorkItem)
    requires
        relative@.len() > 0,
    ensures
        r.wf(),
        r.relative@ == relative@,
        r.operation == operation,
{
    WorkItem { relative, operation }
}

/// What a worker does after one attempt to take work from the queue.
#[derive(Debug)]
pub enum WorkerStep {
    /// Execute this transfer, then try again.
    Run(WorkItem),
    /// The queue was empty and the producer is done: terminate.
    Stop,
    /// The queue was empty and more work may arrive: sleep, then try again.
    Wait,
}

/// Decides a worker's next step from what it took and the producer's flag.
pub fn worker_step(taken: Option<WorkItem>, producer_done: bool) -> (r: WorkerStep)
    ensures
        taken is Some ==> (r is Run && r->Run_0 == taken->Some_0),
        taken is None && producer_done ==> r is Stop,
        taken is None && !producer_done ==> r is Wait,
{
    match taken {
        Some(item) => WorkerStep::Run(item),
        None => if producer_done {
            WorkerStep::Stop
        } else {
            WorkerStep::Wait
        },
    }
}

/// Completion in hundredths of a percent, rounded down and clamped to 100%.
pub open spec fn progress_spec(done: int, total: int) -> int {
    if total <= 0 {
        0
    } else if done * 10000 / total > 10000 {
        10000
    } else {
        done * 10000 / total
    }
}

/// The coarse completion of a run: `done` of `total` top-level units, in
/// hundredths of a percent.
pub fn progress_hundredths(done: u64, total: u64) -> (r: u64)
    ensures
        r as int == progress_spec(done as int, total as int),
        r <= 10000,
{
    if total == 0 {
        return 0;
    }
    let scaled: u128 = (done as u128) * 10000;
    let p: u128 = scaled / (total as u128);
    if p > 10000 {
        10000
    } else {
        p as u64
    }
}

} // verus!
