use vstd::prelude::*;

verus! {

/// Unique thread identifier.
#[derive(Debug, Clone, Copy, PartialEq, Eq, Structural)]
pub struct ThreadId(pub u64);

/// The identifier counter after one identifier has been taken: one more, wrapping round
/// at the top.
pub open spec fn next_counter(c: u64) -> u64 {
    if c == u64::MAX {
        0
    } else {
        (c + 1) as u64
    }
}

/// The counter after `k` identifiers have been taken from `start`.
pub open spec fn counter_after(start: u64, k: nat) -> u64
    decreases k,
{
    if k == 0 {
        start
    } else {
        next_counter(counter_after(start, (k - 1) as nat))
    }
}

proof fn lemma_counter_after(start: u64, k: nat)
    ensures
        counter_after(start, k) == (start + k) % 0x1_0000_0000_0000_0000,
    decreases k,
{
    if k > 0 {
        lemma_counter_after(start, (k - 1) as nat);
        let a = start + k - 1;
        let c = counter_after(start, (k - 1) as nat);
        assert(next_counter(c) == (a + 1) % 0x1_0000_0000_0000_0000) by (nonlinear_arith)
            requires
                c == a % 0x1_0000_0000_0000_0000,
                a >= 0,
                next_counter(c) == if c == 0xFFFF_FFFF_FFFF_FFFF { 0 } else { c + 1 },
        {
        }
    }
}

/// Identifiers taken one after another from one counter are all distinct, as long as
/// fewer than 2^64 of them are taken.
pub proof fn lemma_ids_distinct(start: u64, i: nat, j: nat)
    requires
        i < j < 0x1_0000_0000_0000_0000,
    ensures
        counter_after(start, i) != counter_after(start, j),
{
    lemma_counter_after(start, i);
    lemma_counter_after(start, j);
    assert((start + i) % 0x1_0000_0000_0000_0000 != (start + j) % 0x1_0000_0000_0000_0000) by (nonlinear_arith)
        requires
            i < j < 0x1_0000_0000_0000_0000,
            start >= 0,
    {
    }
}

/// The first value of the identifier counter: id 0 belongs to the boot thread.
pub const FIRST_THREAD_ID: u64 = 1;

/// Identifiers count up from the first: the `k`-th one taken from a counter that starts
/// at `FIRST_THREAD_ID` is `k`, so none is 0, the boot thread's id.
pub proof fn lemma_kth_id(k: nat)
    requires
        1 <= k < u64::MAX,
    ensures
        counter_after(FIRST_THREAD_ID, (k - 1) as nat) == k,
{
    lemma_counter_after(FIRST_THREAD_ID, (k - 1) as nat);
    assert((FIRST_THREAD_ID + (k - 1)) % 0x1_0000_0000_0000_0000 == k) by (nonlinear_arith)
        requires
            1 <= k < 0xFFFF_FFFF_FFFF_FFFF,
            FIRST_THREAD_ID == 1,
    {
    }
}

impl ThreadId {
    /// Takes the next identifier from the counter `next`, which then moves on by one
    /// (wrapping round at the top).
    pub fn new(next: &mut u64) -> (id: ThreadId)
        ensures
            id == ThreadId(*old(next)),
            *final(next) == next_counter(*old(next)),
    {
        let id = ThreadId(*next);
        *next = next.wrapping_add(1);
        id
    }
}

/// Saved CPU context for context switching: the callee-saved registers, the flags and
/// the instruction pointer to resume at.
#[derive(Debug, Clone, Copy, PartialEq, Eq, Structural)]
pub struct Context {
    pub rsp: u64,
    pub rbp: u64,
    pub rbx: u64,
    pub r12: u64,
    pub r13: u64,
    pub r14: u64,
    pub r15: u64,
    pub rflags: u64,
    pub rip: u64,
}

/// Flags register with the interrupt flag (IF) set.
pub const RFLAGS_IF: u64 = 0x200;

/// All registers zero, interrupts enabled.
pub open spec fn empty_context() -> Context {
    Context { rsp: 0, rbp: 0, rbx: 0, r12: 0, r13: 0, r14: 0, r15: 0, rflags: RFLAGS_IF, rip: 0 }
}

impl Context {
    /// A context with all registers zero and interrupts enabled.
    pub fn empty() -> (c: Context)
        ensures
            c == empty_context(),
    {
        Context { rsp: 0, rbp: 0, rbx: 0, r12: 0, r13: 0, r14: 0, r15: 0, rflags: RFLAGS_IF, rip: 0 }
    }
}

#[derive(Debug, Clone, Copy, PartialEq, Eq, Structural)]
pub enum ThreadState {
    Ready,
    Running,
    Dead,
}

/// Kernel stack size per thread (16 KiB).
pub const STACK_SIZE: usize = 4096 * 4;

pub struct Thread {
    pub id: ThreadId,
    pub name: &'static str,
    pub state: ThreadState,
    pub context: Context,
    /// Heap-allocated kernel stack, dropped with the thread; the boot thread has none.
    pub stack: Option<Box<[u8]>>,
}

/// The stack pointer a new thread starts with: the highest 16-byte aligned address
/// at most 8 below the top of its stack.
pub open spec fn initial_rsp(stack_top: int) -> int {
    ((stack_top - 8) / 16) * 16
}

impl Thread {
    /// The thread `t` with its state set to `s`.
    pub open spec fn with_state(self, s: ThreadState) -> Thread {
        Thread { state: s, ..self }
    }

    /// A new thread, ready to run, on the stack `stack` that lies at address
    /// `stack_base`. When first switched to it resumes at `trampoline`, with the address
    /// `entry` of its entry function in r15, where the trampoline picks it up.
    pub fn new(
        id: ThreadId,
        name: &'static str,
        stack: Box<[u8]>,
        stack_base: u64,
        trampoline: u64,
        entry: u64,
    ) -> (t: Thread)
        requires
            stack@.len() == STACK_SIZE,
            stack_base + STACK_SIZE <= u64::MAX,
        ensures
            t.id == id,
            t.name == name,
            t.state == ThreadState::Ready,
            t.stack == Some(stack),
            t.context == (Context {
                rsp: initial_rsp(stack_base + STACK_SIZE) as u64,
                rip: trampoline,
                r15: entry,
                ..empty_context()
            }),
            stack_base <= t.context.rsp <= stack_base + STACK_SIZE - 8,
            t.context.rsp % 16 == 0,
    {
        let stack_top = stack_base + STACK_SIZE as u64;
        let mut ctx = Context::empty();
        let below = stack_top - 8;
        ctx.rsp = below & !0xFu64;
        proof {
            assert(below & !0xFu64 == (below / 16) * 16) by (bit_vector);
        }
        ctx.rip = trampoline;
        ctx.r15 = entry;
        Thread { id, name, state: ThreadState::Ready, context: ctx, stack: Some(stack) }
    }

    /// The thread standing for the code that runs at boot: id 0, running, on the boot
    /// stack; its context is filled in at the first switch away from it.
    pub fn bootstrap(name: &'static str) -> (t: Thread)
        ensures
            t.id == ThreadId(0),
            t.name == name,
            t.state == ThreadState::Running,
            t.context == empty_context(),
            t.stack is None,
    {
        Thread { id: ThreadId(0), name, state: ThreadState::Running, context: Context::empty(), stack: None }
    }
}

} // verus!
