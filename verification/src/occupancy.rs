//! Counting the agents attached to an occupable workplace.

use vstd::prelude::*;

verus! {

/// Which occupable an agent is assigned to and which it is working at right
/// now (the two differ while the agent fetches from a resource).
#[derive(Clone, Copy, PartialEq, Eq, Structural, Debug)]
pub struct WorkerAssignment {
    pub current_occupable: u64,
    pub current_work: u64,
}

/// Whether an assignment ties the agent to the occupable, by work or by
/// assignment.
pub open spec fn is_crewing(w: WorkerAssignment, occupable: u64) -> bool {
    w.current_work == occupable || w.current_occupable == occupable
}

/// How many assignments tie an agent to the occupable.
pub open spec fn workers_count(ws: Seq<WorkerAssignment>, occupable: u64) -> int
    decreases ws.len(),
{
    if ws.len() == 0 {
        0
    } else {
        workers_count(ws.drop_last(), occupable) + if is_crewing(ws.last(), occupable) {
            1int
        } else {
            0int
        }
    }
}

/// How many assignments name the occupable as the agent's own.
pub open spec fn occupiers_count(ws: Seq<WorkerAssignment>, occupable: u64) -> int
    decreases ws.len(),
{
    if ws.len() == 0 {
        0
    } else {
        occupiers_count(ws.drop_last(), occupable) + if ws.last().current_occupable == occupable {
            1int
        } else {
            0int
        }
    }
}

/// Counts the agents working at or assigned to the occupable.
pub fn count_workers(workers: &Vec<WorkerAssignment>, occupable: u64) -> (r: u64)
    ensures
        r == workers_count(workers@, occupable),
{
    let mut count: u64 = 0;
    let n = workers.len();
    for i in 0..n
        invariant
            n == workers@.len(),
            count <= i,
            count == workers_count(workers@.take(i as int), occupable),
    {
        proof {
            assert(workers@.take(i as int + 1).drop_last() =~= workers@.take(i as int));
            assert(workers@.take(i as int + 1).last() == workers@[i as int]);
        }
        let w = workers[i];
        if w.current_work == occupable {
            count = count + 1;
        } else if w.current_occupable == occupable {
            count = count + 1;
        }
    }
    proof {
        assert(workers@.take(n as int) =~= workers@);
    }
    count
}

/// Counts the agents assigned to the occupable as their own.
pub fn count_occupiers(workers: &Vec<WorkerAssignment>, occupable: u64) -> (r: u64)
    ensures
        r == occupiers_count(workers@, occupable),
{
    let mut count: u64 = 0;
    let n = workers.len();
    for i in 0..n
        invariant
            n == workers@.len(),
            count <= i,
            count == occupiers_count(workers@.take(i as int), occupable),
    {
        proof {
            assert(workers@.take(i as int + 1).drop_last() =~= workers@.take(i as int));
            assert(workers@.take(i as int + 1).last() == workers@[i as int]);
        }
        let w = workers[i];
        if w.current_occupable == occupable {
            count = count + 1;
        }
    }
    proof {
        assert(workers@.take(n as int) =~= workers@);
    }
    count
}

} // verus!
