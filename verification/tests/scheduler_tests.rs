use lukes_os::scheduler::{init, spawn, Scheduler};
use lukes_os::thread::{Context, Thread, ThreadId, ThreadState, FIRST_THREAD_ID, STACK_SIZE};

fn thread(id: u64) -> Thread {
    let stack = vec![0u8; STACK_SIZE].into_boxed_slice();
    Thread::new(ThreadId(id), "worker", stack, 0x10_0000 * id, 0x4000, 0x5000 + id)
}

fn order(s: &Scheduler) -> Vec<u64> {
    let mut v = vec![s.current.id.0];
    v.extend(s.ready.iter().map(|t| t.id.0));
    v
}

#[test]
fn init_runs_the_idle_thread() {
    let s = init();
    assert_eq!(s.current.id, ThreadId(0));
    assert_eq!(s.current.name, "idle");
    assert_eq!(s.current.state, ThreadState::Running);
    assert_eq!(s.current.context, Context::empty());
    assert!(s.current.stack.is_none());
    assert!(s.ready.is_empty());
}

#[test]
fn spawn_queues_at_the_back() {
    let mut s = init();
    spawn(&mut s, thread(1));
    spawn(&mut s, thread(2));
    assert_eq!(order(&s), vec![0, 1, 2]);
    assert_eq!(s.current.state, ThreadState::Running);
}

#[test]
fn switch_with_nothing_ready_keeps_running() {
    let mut s = init();
    assert!(!s.switch_next());
    assert_eq!(order(&s), vec![0]);
    assert_eq!(s.current.state, ThreadState::Running);
}

#[test]
fn switches_go_round_robin() {
    let mut s = init();
    spawn(&mut s, thread(1));
    spawn(&mut s, thread(2));
    assert!(s.switch_next());
    assert_eq!(order(&s), vec![1, 2, 0]);
    assert_eq!(s.current.state, ThreadState::Running);
    assert!(s.ready.iter().all(|t| t.state == ThreadState::Ready));
    assert!(s.switch_next());
    assert_eq!(order(&s), vec![2, 0, 1]);
    assert!(s.switch_next());
    assert_eq!(order(&s), vec![0, 1, 2]);
}

#[test]
fn exit_hands_over_to_the_next_thread() {
    let mut s = init();
    spawn(&mut s, thread(1));
    spawn(&mut s, thread(2));
    let dead = s.exit_current().unwrap();
    assert_eq!(dead.id, ThreadId(0));
    assert_eq!(dead.state, ThreadState::Dead);
    assert_eq!(order(&s), vec![1, 2]);
    assert_eq!(s.current.state, ThreadState::Running);
}

#[test]
fn exit_with_nothing_ready_leaves_a_dead_current_thread() {
    let mut s = init();
    assert!(s.exit_current().is_none());
    assert_eq!(s.current.id, ThreadId(0));
    assert_eq!(s.current.state, ThreadState::Dead);
    assert!(s.ready.is_empty());
}

#[test]
fn ids_from_the_counter_stay_unique_and_exited_threads_stay_away() {
    let mut s = init();
    let mut counter = FIRST_THREAD_ID;
    for _ in 0..3 {
        let id = ThreadId::new(&mut counter);
        let stack = vec![0u8; STACK_SIZE].into_boxed_slice();
        spawn(&mut s, Thread::new(id, "w", stack, 0x10_0000, 0x4000, 0x5000));
    }
    assert_eq!(order(&s), vec![0, 1, 2, 3]);
    assert!(s.switch_next());
    let dead = s.exit_current().unwrap();
    assert_eq!(dead.id, ThreadId(1));
    let id = ThreadId::new(&mut counter);
    assert_eq!(id, ThreadId(4));
    spawn(&mut s, Thread::new(id, "w", vec![0u8; STACK_SIZE].into_boxed_slice(), 0x10_0000, 0x4000, 0x5000));
    for _ in 0..5 {
        assert!(s.switch_next());
        let o = order(&s);
        assert!(!o.contains(&1));
        let mut sorted = o.clone();
        sorted.sort();
        sorted.dedup();
        assert_eq!(sorted.len(), o.len());
    }
}
