use lukes_os::thread::{Context, Thread, ThreadId, ThreadState, FIRST_THREAD_ID, STACK_SIZE};

#[test]
fn ids_count_up_from_the_counter() {
    let mut next = 1u64;
    assert_eq!(ThreadId::new(&mut next), ThreadId(1));
    assert_eq!(ThreadId::new(&mut next), ThreadId(2));
    assert_eq!(next, 3);
    let mut last = u64::MAX;
    assert_eq!(ThreadId::new(&mut last), ThreadId(u64::MAX));
    assert_eq!(last, 0);
}

#[test]
fn empty_context_has_interrupts_enabled() {
    let c = Context::empty();
    assert_eq!(c.rflags, 0x200);
    assert_eq!((c.rsp, c.rbp, c.rbx, c.r12, c.r13, c.r14, c.r15, c.rip), (0, 0, 0, 0, 0, 0, 0, 0));
}

#[test]
fn new_thread_starts_at_the_trampoline_on_an_aligned_stack() {
    let stack = vec![0u8; STACK_SIZE].into_boxed_slice();
    let t = Thread::new(ThreadId(7), "t", stack, 0x1000, 0xAAAA, 0xBBBB);
    assert_eq!(t.id, ThreadId(7));
    assert_eq!(t.name, "t");
    assert_eq!(t.state, ThreadState::Ready);
    // top = 0x1000 + 0x4000 = 0x5000; (0x5000 - 8) & !0xF = 0x4FF0
    assert_eq!(t.context.rsp, 0x4FF0);
    assert_eq!(t.context.rip, 0xAAAA);
    assert_eq!(t.context.r15, 0xBBBB);
    assert_eq!(t.context.rflags, 0x200);
    assert_eq!(t.stack.as_ref().map(|s| s.len()), Some(STACK_SIZE));

    let odd = Thread::new(ThreadId(8), "u", vec![0u8; STACK_SIZE].into_boxed_slice(), 0x1003, 0, 0);
    // top = 0x5003; 0x5003 - 8 = 0x4FFB; aligned down: 0x4FF0
    assert_eq!(odd.context.rsp, 0x4FF0);
}

#[test]
fn bootstrap_thread_runs_on_the_boot_stack() {
    let t = Thread::bootstrap("idle");
    assert_eq!(t.id, ThreadId(0));
    assert_eq!(t.state, ThreadState::Running);
    assert_eq!(t.context, Context::empty());
    assert!(t.stack.is_none());
}

#[test]
fn kth_id_from_the_first_counter_is_k() {
    let mut next = FIRST_THREAD_ID;
    for k in 1..=5u64 {
        assert_eq!(ThreadId::new(&mut next), ThreadId(k));
    }
}
