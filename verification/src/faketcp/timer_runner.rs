//! The queue of a timer thread: which job is next, and whether its time has
//! come. The jobs themselves, and the thread, belong to the caller.
//!
//! Times are nanoseconds on a clock that never runs backwards.

use crate::transport::udp::NANOS_PER_SEC;
use vstd::prelude::*;

verus! {

/// The name of a scheduled job: the time it was scheduled for, and a serial
/// number that tells apart jobs of the same time.
#[derive(PartialEq, Eq, PartialOrd, Ord, Clone, Copy, Debug, Structural)]
pub struct TimerJobId(pub u64, pub i64);

/// Whether `a` comes before `b` in the queue: by time, then by serial number.
pub open spec fn comes_before(a: TimerJobId, b: TimerJobId) -> bool {
    a.0 < b.0 || (a.0 == b.0 && a.1 < b.1)
}

/// Whether `jobs` is in the order of the queue, no job twice.
pub open spec fn in_order(jobs: Seq<TimerJobId>) -> bool {
    forall|i: int, j: int| 0 <= i < j < jobs.len() ==> comes_before(jobs[i], jobs[j])
}

/// The scheduled jobs, the next one first.
pub struct JobQueue {
    jobs: Vec<TimerJobId>,
}

impl View for JobQueue {
    type V = Seq<TimerJobId>;

    closed spec fn view(&self) -> Seq<TimerJobId> {
        self.jobs@
    }
}

/// Longest time that the timer thread waits before it looks at its queue
/// again, in nanoseconds.
pub const MAX_WAIT_TIME: u64 = NANOS_PER_SEC;

/// By how long `now` is past the time of the first job in the queue: zero
/// while that time has not passed, nothing for an empty queue.
pub fn get_first_job_delay(q: &JobQueue, now: u64) -> (delay: Option<u64>)
    ensures
        delay == first_job_delay(q@, now),
{
    if q.jobs.len() == 0 {
        None
    } else {
        let first = q.jobs[0];
        if now > first.0 {
            Some(now - first.0)
        } else {
            Some(0)
        }
    }
}

/// What `get_first_job_delay` gives for a queue of these jobs.
pub open spec fn first_job_delay(jobs: Seq<TimerJobId>, now: u64) -> Option<u64> {
    if jobs.len() == 0 {
        None
    } else if now > jobs[0].0 {
        Some((now - jobs[0].0) as u64)
    } else {
        Some(0u64)
    }
}

/// What the timer thread does next.
#[derive(Clone, Copy, Debug, PartialEq, Eq, Structural)]
pub enum TimerStep {
    /// The runner was told to stop: the thread ends.
    Stop,
    /// The job left the queue: the thread runs it.
    Run(TimerJobId),
    /// The thread waits this long, or until a job is scheduled.
    Wait(u64),
}

/// What the timer thread shares with those who schedule jobs.
pub struct TimerRunnerState {
    jobs: JobQueue,
    keep_running: bool,
}

impl TimerRunnerState {
    /// The jobs in the queue, the next one first.
    pub closed spec fn jobs(&self) -> Seq<TimerJobId> {
        self.jobs@
    }

    /// Whether the thread is to go on.
    pub closed spec fn keep_running(&self) -> bool {
        self.keep_running
    }

    /// Whether the queue is in order.
    pub open spec fn wf(&self) -> bool {
        in_order(self.jobs())
    }

    /// A running state with an empty queue.
    pub fn new() -> (state: TimerRunnerState)
        ensures
            state.wf(),
            state.jobs() == Seq::<TimerJobId>::empty(),
            state.keep_running(),
    {
        TimerRunnerState { jobs: JobQueue { jobs: Vec::new() }, keep_running: true }
    }

    /// The queue.
    pub fn queue(&self) -> (q: &JobQueue)
        ensures
            q@ == self.jobs(),
    {
        &self.jobs
    }

    /// Tells the thread to end at its next turn.
    pub fn stop(&mut self)
        ensures
            final(self).jobs() == old(self).jobs(),
            !final(self).keep_running(),
    {
        self.keep_running = false;
    }

    /// Whether the job `a` comes before the job `b` in the queue.
    fn before(a: &TimerJobId, b: &TimerJobId) -> (r: bool)
        ensures
            r == comes_before(*a, *b),
    {
        a.0 < b.0 || (a.0 == b.0 && a.1 < b.1)
    }

    /// Puts a job in its place in the queue, where it is not there already.
    pub fn insert(&mut self, job_id: TimerJobId)
        requires
            old(self).wf(),
        ensures
            final(self).wf(),
            final(self).keep_running() == old(self).keep_running(),
            final(self).jobs() == with_job(old(self).jobs(), job_id),
    {
        let ghost before = self.jobs();
        let mut at: usize = self.jobs.jobs.len();
        while at > 0 && !Self::before(&self.jobs.jobs[at - 1], &job_id)
            invariant
                self.jobs() == before,
                before == old(self).jobs(),
                self.keep_running() == old(self).keep_running(),
                in_order(before),
                at <= before.len(),
                forall|k: int| at <= k < before.len() ==> comes_before(job_id, before[k]),
            decreases at,
        {
            if self.jobs.jobs[at - 1].0 == job_id.0 && self.jobs.jobs[at - 1].1 == job_id.1 {
                proof {
                    lemma_with_job(before, job_id, at as int - 1);
                }
                return ;
            }
            at = at - 1;
        }
        self.jobs.jobs.insert(at, job_id);
        proof {
            lemma_with_job(before, job_id, at as int);
        }
    }

    /// Takes a job out of the queue, and says whether it was there.
    pub fn remove(&mut self, job_id: &TimerJobId) -> (found: bool)
        requires
            old(self).wf(),
        ensures
            final(self).wf(),
            final(self).keep_running() == old(self).keep_running(),
            found == old(self).jobs().contains(*job_id),
            final(self).jobs() == without(old(self).jobs(), *job_id),
    {
        let ghost before = self.jobs();
        let mut at: usize = 0;
        while at < self.jobs.jobs.len()
            invariant
                self.jobs() == before,
                before == old(self).jobs(),
                self.keep_running() == old(self).keep_running(),
                in_order(before),
                at <= before.len(),
                forall|k: int| 0 <= k < at ==> before[k] != *job_id,
            decreases before.len() - at,
        {
            if self.jobs.jobs[at].0 == job_id.0 && self.jobs.jobs[at].1 == job_id.1 {
                self.jobs.jobs.remove(at);
                proof {
                    assert(before[at as int] == *job_id);
                    lemma_without(before, *job_id, at as int);
                }
                return true;
            }
            at = at + 1;
        }
        proof {
            lemma_without_absent(before, *job_id);
        }
        false
    }

    /// One turn of the timer thread's loop at `now`: the first job leaves the
    /// queue to be run if `get_first_job_delay` is zero for it; else the
    /// thread waits for as long as `get_first_job_delay` says, or for
    /// `MAX_WAIT_TIME` if the queue is empty.
    pub fn run_thread_loop(&mut self, now: u64) -> (step: TimerStep)
        requires
            old(self).wf(),
        ensures
            final(self).wf(),
            final(self).keep_running() == old(self).keep_running(),
            step == if !old(self).keep_running() {
                TimerStep::Stop
            } else {
                match first_job_delay(old(self).jobs(), now) {
                    None => TimerStep::Wait(MAX_WAIT_TIME),
                    Some(delay) => if delay == 0 {
                        TimerStep::Run(old(self).jobs()[0])
                    } else {
                        TimerStep::Wait(delay)
                    },
                }
            },
            final(self).jobs() == if step is Run {
                old(self).jobs().skip(1)
            } else {
                old(self).jobs()
            },
    {
        if !self.keep_running {
            return TimerStep::Stop;
        }
        match get_first_job_delay(&self.jobs, now) {
            None => TimerStep::Wait(MAX_WAIT_TIME),
            Some(delay) => {
                if delay == 0 {
                    let job = self.jobs.jobs.remove(0);
                    assert(self.jobs() =~= old(self).jobs().skip(1));
                    TimerStep::Run(job)
                } else {
                    TimerStep::Wait(delay)
                }
            },
        }
    }
}


/// The jobs of `jobs` that are not `id`.
pub open spec fn without(jobs: Seq<TimerJobId>, id: TimerJobId) -> Seq<TimerJobId> {
    jobs.filter(|job: TimerJobId| job != id)
}

/// `jobs` with `id` put in its place, where it was not there already.
pub open spec fn with_job(jobs: Seq<TimerJobId>, id: TimerJobId) -> Seq<TimerJobId>
    decreases jobs.len(),
{
    if jobs.len() == 0 {
        seq![id]
    } else if jobs.last() == id {
        jobs
    } else if comes_before(jobs.last(), id) {
        jobs.push(id)
    } else {
        with_job(jobs.drop_last(), id).push(jobs.last())
    }
}

/// The timer runner: hands out the names of jobs and keeps their queue.
pub struct TimerRunner {
    next_job_id: i64,
    state: TimerRunnerState,
}

impl TimerRunner {
    /// The serial number of the next job.
    pub closed spec fn next_job_id(&self) -> i64 {
        self.next_job_id
    }

    /// What the runner shares with its thread.
    pub closed spec fn state(&self) -> TimerRunnerState {
        self.state
    }

    /// A runner without jobs, whose serial numbers start at zero.
    pub fn new() -> (runner: TimerRunner)
        ensures
            runner.state().wf(),
            runner.state().jobs() == Seq::<TimerJobId>::empty(),
            runner.state().keep_running(),
            runner.next_job_id() == 0,
    {
        TimerRunner { next_job_id: 0, state: TimerRunnerState::new() }
    }

    /// Schedules a job for the time `delay` after `now`, and gives its name.
    pub fn schedule(&mut self, now: u64, delay: u64) -> (job_id: TimerJobId)
        requires
            old(self).state().wf(),
            now + delay <= u64::MAX,
        ensures
            final(self).state().wf(),
            final(self).state().keep_running() == old(self).state().keep_running(),
            job_id == TimerJobId((now + delay) as u64, old(self).next_job_id()),
            final(self).next_job_id() == if old(self).next_job_id() == i64::MAX {
                i64::MIN
            } else {
                (old(self).next_job_id() + 1) as i64
            },
            final(self).state().jobs() == with_job(old(self).state().jobs(), job_id),
    {
        let job_id = TimerJobId(now + delay, self.next_job_id);
        self.next_job_id = if self.next_job_id == i64::MAX {
            i64::MIN
        } else {
            self.next_job_id + 1
        };
        self.state.insert(job_id);
        job_id
    }

    /// Takes the job out of the queue, and says whether it was still there.
    pub fn cancel(&mut self, job_id: &TimerJobId) -> (found: bool)
        requires
            old(self).state().wf(),
        ensures
            final(self).state().wf(),
            final(self).state().keep_running() == old(self).state().keep_running(),
            final(self).next_job_id() == old(self).next_job_id(),
            found == old(self).state().jobs().contains(*job_id),
            final(self).state().jobs() == without(old(self).state().jobs(), *job_id),
    {
        self.state.remove(job_id)
    }

    /// One turn of the timer thread's loop at `now`.
    pub fn run_thread_loop(&mut self, now: u64) -> (step: TimerStep)
        requires
            old(self).state().wf(),
        ensures
            final(self).state().wf(),
            final(self).next_job_id() == old(self).next_job_id(),
            final(self).state().keep_running() == old(self).state().keep_running(),
            step == if !old(self).state().keep_running() {
                TimerStep::Stop
            } else {
                match first_job_delay(old(self).state().jobs(), now) {
                    None => TimerStep::Wait(MAX_WAIT_TIME),
                    Some(delay) => if delay == 0 {
                        TimerStep::Run(old(self).state().jobs()[0])
                    } else {
                        TimerStep::Wait(delay)
                    },
                }
            },
            final(self).state().jobs() == if step is Run {
                old(self).state().jobs().skip(1)
            } else {
                old(self).state().jobs()
            },
    {
        self.state.run_thread_loop(now)
    }

    /// Tells the thread to end at its next turn.
    pub fn stop(&mut self)
        ensures
            final(self).state().jobs() == old(self).state().jobs(),
            final(self).next_job_id() == old(self).next_job_id(),
            !final(self).state().keep_running(),
    {
        self.state.stop();
    }
}

/// Putting a job in its place: either it was there, at `at`, or it goes in
/// at `at`, behind all that come before it and before all that come after.
proof fn lemma_with_job(jobs: Seq<TimerJobId>, id: TimerJobId, at: int)
    requires
        in_order(jobs),
        0 <= at <= jobs.len(),
        forall|k: int| at < k < jobs.len() ==> comes_before(id, jobs[k]),
        at < jobs.len() ==> jobs[at] == id || comes_before(id, jobs[at]),
        at > 0 ==> jobs[at - 1] == id || comes_before(jobs[at - 1], id),
        at > 0 && jobs[at - 1] == id ==> at == jobs.len() || comes_before(id, jobs[at]),
    ensures
        with_job(jobs, id) == if at < jobs.len() && jobs[at] == id {
            jobs
        } else if at > 0 && jobs[at - 1] == id {
            jobs
        } else {
            jobs.insert(at, id)
        },
        in_order(with_job(jobs, id)),
    decreases jobs.len(),
{
    if jobs.len() == 0 {
        assert(jobs.insert(0, id) =~= seq![id]);
    } else if jobs.last() == id {
        if at < jobs.len() - 1 {
            assert(comes_before(id, jobs[jobs.len() - 1]));
        }
    } else if comes_before(jobs.last(), id) {
        assert(at == jobs.len()) by {
            if at < jobs.len() {
                assert(jobs[at] == id || comes_before(id, jobs[at]));
                if at < jobs.len() - 1 {
                    assert(comes_before(id, jobs[jobs.len() - 1]));
                }
            }
        }
        assert(jobs.insert(at, id) =~= jobs.push(id));
        let out = jobs.push(id);
        assert forall|i: int, j: int| 0 <= i < j < out.len() implies comes_before(
            out[i],
            out[j],
        ) by {
            if j == jobs.len() {
                if i < jobs.len() - 1 {
                    assert(comes_before(jobs[i], jobs[jobs.len() - 1]));
                }
            } else {
                assert(out[i] == jobs[i] && out[j] == jobs[j]);
            }
        }
    } else {
        let front = jobs.drop_last();
        assert(at < jobs.len()) by {
            if at == jobs.len() {
                assert(jobs[at - 1] == id || comes_before(jobs[at - 1], id));
            }
        }
        lemma_with_job(front, id, at);
        if at < front.len() && front[at] == id {
            assert(front.push(jobs.last()) =~= jobs);
        } else if at > 0 && front[at - 1] == id {
            assert(front.push(jobs.last()) =~= jobs);
        } else {
            assert(front.insert(at, id).push(jobs.last()) =~= jobs.insert(at, id));
            let out = jobs.insert(at, id);
            assert forall|i: int, j: int| 0 <= i < j < out.len() implies comes_before(
                out[i],
                out[j],
            ) by {
                if j == out.len() - 1 && i < out.len() - 1 {
                    if i == at {
                    } else if i < at {
                        assert(out[i] == jobs[i]);
                    } else {
                        assert(out[i] == jobs[i - 1]);
                    }
                } else {
                    assert(out[i] == front.insert(at, id)[i]);
                    assert(out[j] == front.insert(at, id)[j]);
                }
            }
        }
    }
}

/// Taking out the job that stands at `at` takes out that job and no other.
proof fn lemma_without(jobs: Seq<TimerJobId>, id: TimerJobId, at: int)
    requires
        in_order(jobs),
        0 <= at < jobs.len(),
        jobs[at] == id,
    ensures
        without(jobs, id) == jobs.remove(at),
        in_order(jobs.remove(at)),
        jobs.contains(id),
    decreases jobs.len(),
{
    reveal(Seq::filter);
    let front = jobs.drop_last();
    if at == jobs.len() - 1 {
        assert forall|k: int| 0 <= k < front.len() implies front[k] != id by {
            assert(comes_before(jobs[k], jobs[at]));
        }
        lemma_without_absent(front, id);
        assert(jobs.remove(at) =~= front);
    } else {
        lemma_without(front, id, at);
        assert(comes_before(jobs[at], jobs.last()));
        assert(front.remove(at).push(jobs.last()) =~= jobs.remove(at));
    }
    let out = jobs.remove(at);
    assert forall|i: int, j: int| 0 <= i < j < out.len() implies comes_before(out[i], out[j]) by {
        let a = if i < at { i } else { i + 1 };
        let b = if j < at { j } else { j + 1 };
        assert(out[i] == jobs[a] && out[j] == jobs[b]);
    }
}

/// Taking out a job that is not in the queue takes out nothing.
proof fn lemma_without_absent(jobs: Seq<TimerJobId>, id: TimerJobId)
    requires
        forall|k: int| 0 <= k < jobs.len() ==> jobs[k] != id,
    ensures
        without(jobs, id) == jobs,
        !jobs.contains(id),
    decreases jobs.len(),
{
    reveal(Seq::filter);
    if jobs.len() > 0 {
        lemma_without_absent(jobs.drop_last(), id);
        assert(jobs.drop_last().push(jobs.last()) =~= jobs);
    }
}

} // verus!
