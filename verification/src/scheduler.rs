use vstd::prelude::*;
use std::collections::VecDeque;
use crate::thread::{Thread, ThreadId, ThreadState, empty_context, FIRST_THREAD_ID};

verus! {

/// Round-robin scheduler state: the running thread and the queue of ready ones.
pub struct Scheduler {
    /// Currently running thread.
    pub current: Thread,
    /// Ready queue.
    pub ready: VecDeque<Thread>,
}

/// The scheduler as a running thread and a sequence of ready threads.
pub struct SchedulerView {
    pub current: Thread,
    pub ready: Seq<Thread>,
}

impl View for Scheduler {
    type V = SchedulerView;

    open spec fn view(&self) -> SchedulerView {
        SchedulerView { current: self.current, ready: self.ready@ }
    }
}

/// The scheduler after a switch: the first ready thread runs, and the thread that ran
/// goes to the back of the queue; with no thread ready nothing changes.
pub open spec fn switched(s: SchedulerView) -> SchedulerView {
    if s.ready.len() == 0 {
        s
    } else {
        SchedulerView {
            current: s.ready[0].with_state(ThreadState::Running),
            ready: s.ready.drop_first().push(s.current.with_state(ThreadState::Ready)),
        }
    }
}

/// The scheduler after the running thread exits: it is marked dead, and where a thread
/// is ready the first one runs in its place.
pub open spec fn exited(s: SchedulerView) -> SchedulerView {
    if s.ready.len() == 0 {
        SchedulerView { current: s.current.with_state(ThreadState::Dead), ready: s.ready }
    } else {
        SchedulerView { current: s.ready[0].with_state(ThreadState::Running), ready: s.ready.drop_first() }
    }
}

/// The scheduler with thread `t` queued behind the ready ones.
pub open spec fn spawned(s: SchedulerView, t: Thread) -> SchedulerView {
    SchedulerView { current: s.current, ready: s.ready.push(t) }
}

/// The order in which threads get to run: the running one, then the queue.
pub open spec fn run_order(s: SchedulerView) -> Seq<ThreadId> {
    seq![s.current.id] + s.ready.map_values(|t: Thread| t.id)
}

/// The running thread is marked running and every queued one ready.
pub open spec fn states_consistent(s: SchedulerView) -> bool {
    &&& s.current.state == ThreadState::Running
    &&& forall|i: int| 0 <= i < s.ready.len() ==> (#[trigger] s.ready[i]).state == ThreadState::Ready
}

/// The scheduler after `k` switches in a row.
pub open spec fn switched_times(s: SchedulerView, k: nat) -> SchedulerView
    decreases k,
{
    if k == 0 {
        s
    } else {
        switched(switched_times(s, (k - 1) as nat))
    }
}

/// A scheduler with the boot thread "idle" running and nothing queued.
pub fn init() -> (s: Scheduler)
    ensures
        s.current.id == ThreadId(0),
        s.current.name@ == "idle"@,
        s.current.state == ThreadState::Running,
        s.current.context == empty_context(),
        s.current.stack is None,
        s@.ready == Seq::<Thread>::empty(),
        ids_fresh_below(s@, FIRST_THREAD_ID),
{
    let bootstrap = Thread::bootstrap("idle");
    Scheduler { current: bootstrap, ready: VecDeque::new() }
}

/// Queues a new thread behind the ready ones.
pub fn spawn(sched: &mut Scheduler, thread: Thread)
    ensures
        final(sched)@ == spawned(old(sched)@, thread),
        ids_fresh_below(old(sched)@, thread.id.0) && thread.id.0 < u64::MAX ==> ids_fresh_below(
            final(sched)@,
            (thread.id.0 + 1) as u64,
        ),
{
    let ghost t = thread;
    sched.ready.push_back(thread);
    proof {
        if ids_fresh_below(old(sched)@, t.id.0) && t.id.0 < u64::MAX {
            lemma_op_keeps_ids(old(sched)@, t.id.0, SchedOp::Spawn(t));
        }
    }
}

impl Scheduler {
    /// Switches to the first ready thread, putting the running one at the back of the
    /// queue; returns whether there was a thread to switch to.
    pub fn switch_next(&mut self) -> (switched_to_next: bool)
        ensures
            switched_to_next == (old(self)@.ready.len() > 0),
            final(self)@ == switched(old(self)@),
    {
        if self.ready.len() == 0 {
            return false;
        }
        let mut next = match self.ready.pop_front() {
            Some(t) => t,
            None => {
                return false;
            },
        };
        next.state = ThreadState::Running;
        self.current.state = ThreadState::Ready;
        std::mem::swap(&mut self.current, &mut next);
        self.ready.push_back(next);
        proof {
            assert(self@.ready =~= switched(old(self)@).ready);
        }
        true
    }

    /// Marks the running thread dead and, where a thread is ready, makes the first one
    /// run and hands back the dead thread.
    pub fn exit_current(&mut self) -> (dead: Option<Thread>)
        ensures
            final(self)@ == exited(old(self)@),
            old(self)@.ready.len() == 0 ==> {
                &&& dead is None
                &&& final(self)@.current == old(self)@.current.with_state(ThreadState::Dead)
                &&& final(self)@.ready == old(self)@.ready
            },
            old(self)@.ready.len() > 0 ==> {
                &&& dead == Some(old(self)@.current.with_state(ThreadState::Dead))
                &&& final(self)@.current == old(self)@.ready[0].with_state(ThreadState::Running)
                &&& final(self)@.ready == old(self)@.ready.drop_first()
            },
    {
        self.current.state = ThreadState::Dead;
        match self.ready.pop_front() {
            Some(mut next) => {
                next.state = ThreadState::Running;
                std::mem::swap(&mut self.current, &mut next);
                proof {
                    assert(self@.ready =~= old(self)@.ready.drop_first());
                }
                Some(next)
            },
            None => None,
        }
    }
}

/// Threads run in turn: after `k` switches (at most one round) the order of the threads
/// has been rotated by `k`, so the `k`-th thread of the original order is the one
/// running, and after a full round the original order is back.
pub proof fn lemma_round_robin(s: SchedulerView, k: nat)
    requires
        k <= s.ready.len() + 1,
    ensures
        run_order(switched_times(s, k)) == run_order(s).skip(k as int) + run_order(s).take(k as int),
        k <= s.ready.len() ==> switched_times(s, k).current.id == run_order(s)[k as int],
        run_order(switched_times(s, s.ready.len() + 1)) == run_order(s),
{
    let o = run_order(s);
    lemma_rotation(s, k);
    lemma_rotation(s, s.ready.len() + 1);
    assert(o.skip(o.len() as int) + o.take(o.len() as int) =~= o);
    if k <= s.ready.len() {
        assert(run_order(switched_times(s, k))[0] == o[k as int]);
    }
}

proof fn lemma_rotation(s: SchedulerView, k: nat)
    requires
        k <= s.ready.len() + 1,
    ensures
        run_order(switched_times(s, k)) == run_order(s).skip(k as int) + run_order(s).take(k as int),
        switched_times(s, k).ready.len() == s.ready.len(),
    decreases k,
{
    let o = run_order(s);
    if k > 0 {
        lemma_rotation(s, (k - 1) as nat);
        let p = switched_times(s, (k - 1) as nat);
        let q = switched(p);
        if p.ready.len() > 0 {
            assert(run_order(q) =~= run_order(p).drop_first().push(run_order(p)[0]));
            assert(run_order(q) =~= o.skip(k as int) + o.take(k as int));
        } else {
            assert(o.skip(k as int) + o.take(k as int) =~= o);
            assert(o.skip(k as int - 1) + o.take(k as int - 1) =~= o);
        }
    } else {
        assert(o.skip(0) + o.take(0) =~= o);
    }
}

/// A switch keeps the running thread marked running and the queued ones ready, and so
/// does queueing a thread that is ready.
pub proof fn lemma_states_consistent_kept(s: SchedulerView, t: Thread)
    requires
        states_consistent(s),
    ensures
        states_consistent(switched(s)),
        t.state == ThreadState::Ready ==> states_consistent(SchedulerView { current: s.current, ready: s.ready.push(t) }),
{
    let q = switched(s);
    if s.ready.len() > 0 {
        assert forall|i: int| 0 <= i < q.ready.len() implies (#[trigger] q.ready[i]).state == ThreadState::Ready by {
            if i < q.ready.len() - 1 {
                assert(q.ready[i] == s.ready[i + 1]);
            }
        }
    }
    if t.state == ThreadState::Ready {
        let r = s.ready.push(t);
        assert forall|i: int| 0 <= i < r.len() implies (#[trigger] r[i]).state == ThreadState::Ready by {
            if i < s.ready.len() {
                assert(r[i] == s.ready[i]);
            }
        }
    }
}

// ---------------------------------------------------------------------------
// Thread identities across runs of the scheduler
// ---------------------------------------------------------------------------

/// Every thread in the scheduler has an id of its own, and every id is below `bound`,
/// the next value of the id counter.
pub open spec fn ids_fresh_below(s: SchedulerView, bound: u64) -> bool {
    let o = run_order(s);
    &&& forall|a: int, b: int| 0 <= a < b < o.len() ==> o[a] != o[b]
    &&& forall|a: int| 0 <= a < o.len() ==> (#[trigger] o[a]).0 < bound
}

/// The thread with id `i` is neither queued nor running: if it is the current thread,
/// it is dead.
pub open spec fn gone(s: SchedulerView, i: ThreadId) -> bool {
    &&& forall|a: int| 0 <= a < s.ready.len() ==> (#[trigger] s.ready[a]).id != i
    &&& s.current.id == i ==> s.current.state == ThreadState::Dead
}

/// An operation on the scheduler, as the kernel performs them.
pub enum SchedOp {
    Spawn(Thread),
    Switch,
    Exit,
}

pub open spec fn apply_op(s: SchedulerView, op: SchedOp) -> SchedulerView {
    match op {
        SchedOp::Spawn(t) => spawned(s, t),
        SchedOp::Switch => switched(s),
        SchedOp::Exit => exited(s),
    }
}

/// The id counter after an operation: a spawn takes one id.
pub open spec fn counter_after_op(counter: u64, op: SchedOp) -> u64 {
    match op {
        SchedOp::Spawn(_) => (counter + 1) as u64,
        _ => counter,
    }
}

/// The scheduler after the operations `ops`, in order.
pub open spec fn run_ops(s: SchedulerView, ops: Seq<SchedOp>) -> SchedulerView
    decreases ops.len(),
{
    if ops.len() == 0 {
        s
    } else {
        run_ops(apply_op(s, ops[0]), ops.drop_first())
    }
}

/// The id counter after the operations `ops`.
pub open spec fn run_counter(counter: u64, ops: Seq<SchedOp>) -> u64
    decreases ops.len(),
{
    if ops.len() == 0 {
        counter
    } else {
        run_counter(counter_after_op(counter, ops[0]), ops.drop_first())
    }
}

/// The operations are ones the kernel performs: each spawned thread carries the next id
/// of the counter (which does not wrap round), and only a running thread switches away.
pub open spec fn kernel_run(s: SchedulerView, counter: u64, ops: Seq<SchedOp>) -> bool
    decreases ops.len(),
{
    if ops.len() == 0 {
        true
    } else {
        &&& match ops[0] {
            SchedOp::Spawn(t) => t.id.0 == counter && counter < u64::MAX,
            SchedOp::Switch => s.current.state == ThreadState::Running,
            SchedOp::Exit => true,
        }
        &&& kernel_run(apply_op(s, ops[0]), counter_after_op(counter, ops[0]), ops.drop_first())
    }
}

proof fn lemma_run_order_switched(s: SchedulerView)
    ensures
        s.ready.len() > 0 ==> run_order(switched(s)) =~= run_order(s).drop_first().push(run_order(s)[0]),
        s.ready.len() == 0 ==> switched(s) == s,
{
}

proof fn lemma_run_order_exited(s: SchedulerView)
    ensures
        s.ready.len() > 0 ==> run_order(exited(s)) =~= run_order(s).drop_first(),
        s.ready.len() == 0 ==> run_order(exited(s)) =~= run_order(s),
{
}

proof fn lemma_op_keeps_ids(s: SchedulerView, counter: u64, op: SchedOp)
    requires
        ids_fresh_below(s, counter),
        op matches SchedOp::Spawn(t) ==> t.id.0 == counter && counter < u64::MAX,
    ensures
        ids_fresh_below(apply_op(s, op), counter_after_op(counter, op)),
{
    let o = run_order(s);
    let q = apply_op(s, op);
    let p = run_order(q);
    match op {
        SchedOp::Spawn(t) => {
            assert(p =~= o.push(t.id));
        },
        SchedOp::Switch => {
            lemma_run_order_switched(s);
            if s.ready.len() > 0 {
                assert forall|a: int, b: int| 0 <= a < b < p.len() implies p[a] != p[b] by {
                    if b < p.len() - 1 {
                        assert(p[a] == o[a + 1] && p[b] == o[b + 1]);
                    } else {
                        assert(p[a] == o[a + 1] && p[b] == o[0]);
                    }
                }
                assert forall|a: int| 0 <= a < p.len() implies (#[trigger] p[a]).0 < counter by {
                    if a < p.len() - 1 {
                        assert(p[a] == o[a + 1]);
                    } else {
                        assert(p[a] == o[0]);
                    }
                }
            }
        },
        SchedOp::Exit => {
            lemma_run_order_exited(s);
            if s.ready.len() > 0 {
                assert forall|a: int, b: int| 0 <= a < b < p.len() implies p[a] != p[b] by {
                    assert(p[a] == o[a + 1] && p[b] == o[b + 1]);
                }
                assert forall|a: int| 0 <= a < p.len() implies (#[trigger] p[a]).0 < counter by {
                    assert(p[a] == o[a + 1]);
                }
            }
        },
    }
}

/// Thread ids stay unique: starting from a scheduler whose threads have distinct ids
/// below the id counter, the operations the kernel performs keep every thread's id its
/// own and below the counter.
pub proof fn lemma_ids_stay_unique(s: SchedulerView, counter: u64, ops: Seq<SchedOp>)
    requires
        ids_fresh_below(s, counter),
        kernel_run(s, counter, ops),
    ensures
        ids_fresh_below(run_ops(s, ops), run_counter(counter, ops)),
    decreases ops.len(),
{
    if ops.len() > 0 {
        lemma_op_keeps_ids(s, counter, ops[0]);
        lemma_ids_stay_unique(apply_op(s, ops[0]), counter_after_op(counter, ops[0]), ops.drop_first());
    }
}

proof fn lemma_op_keeps_gone(s: SchedulerView, counter: u64, op: SchedOp, i: ThreadId)
    requires
        gone(s, i),
        i.0 < counter,
        op matches SchedOp::Spawn(t) ==> t.id.0 == counter && counter < u64::MAX,
        op is Switch ==> s.current.state == ThreadState::Running,
    ensures
        gone(apply_op(s, op), i),
        i.0 < counter_after_op(counter, op),
{
    let q = apply_op(s, op);
    match op {
        SchedOp::Spawn(t) => {
            assert forall|a: int| 0 <= a < q.ready.len() implies (#[trigger] q.ready[a]).id != i by {
                if a < s.ready.len() {
                    assert(q.ready[a] == s.ready[a]);
                }
            }
        },
        SchedOp::Switch => {
            if s.ready.len() > 0 {
                assert(s.ready[0].id != i);
                assert forall|a: int| 0 <= a < q.ready.len() implies (#[trigger] q.ready[a]).id != i by {
                    if a < q.ready.len() - 1 {
                        assert(q.ready[a] == s.ready[a + 1]);
                    }
                }
            }
        },
        SchedOp::Exit => {
            if s.ready.len() > 0 {
                assert(s.ready[0].id != i);
                assert forall|a: int| 0 <= a < q.ready.len() implies (#[trigger] q.ready[a]).id != i by {
                    assert(q.ready[a] == s.ready[a + 1]);
                }
            }
        },
    }
}

proof fn lemma_gone_stays(s: SchedulerView, counter: u64, ops: Seq<SchedOp>, i: ThreadId)
    requires
        gone(s, i),
        i.0 < counter,
        kernel_run(s, counter, ops),
    ensures
        gone(run_ops(s, ops), i),
    decreases ops.len(),
{
    if ops.len() > 0 {
        lemma_op_keeps_gone(s, counter, ops[0], i);
        lemma_gone_stays(apply_op(s, ops[0]), counter_after_op(counter, ops[0]), ops.drop_first(), i);
    }
}

/// A thread that exits never runs again: after the running thread exits, whatever
/// operations the kernel performs next, that thread is never queued and, where it is
/// still the current thread (no other was ready), it stays dead.
pub proof fn lemma_exited_thread_never_returns(s: SchedulerView, counter: u64, ops: Seq<SchedOp>)
    requires
        ids_fresh_below(s, counter),
        kernel_run(exited(s), counter, ops),
    ensures
        gone(run_ops(exited(s), ops), s.current.id),
{
    let i = s.current.id;
    let o = run_order(s);
    let q = exited(s);
    assert(o[0] == i);
    if s.ready.len() > 0 {
        assert forall|a: int| 0 <= a < q.ready.len() implies (#[trigger] q.ready[a]).id != i by {
            assert(q.ready[a] == s.ready[a + 1]);
            assert(o[a + 2] == s.ready[a + 1].id);
        }
        assert(o[1] == s.ready[0].id);
    }
    lemma_gone_stays(q, counter, ops, i);
}

} // verus!
