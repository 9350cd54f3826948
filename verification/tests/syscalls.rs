use ksync::{sys_set_priority, sys_sleep, Park, ProcSyncState, TimeVal, DEADLOCK_RC};

fn process_with_threads(n: usize) -> ProcSyncState {
    let mut st = ProcSyncState::new();
    for expected in 0..n {
        let tid = st.register_thread();
        assert_eq!(tid, expected);
    }
    st
}

fn assert_conservation(st: &ProcSyncState) {
    let threads = st.thread_count;
    for r in 0..st.mutex_ledger.resource_count() {
        let mut held: usize = 0;
        for t in 0..threads {
            held += st.mutex_ledger.allocated_units(t, r);
        }
        assert_eq!(
            st.mutex_ledger.available_units(r) + held,
            st.mutex_ledger.total_units(r)
        );
    }
    for r in 0..st.sem_ledger.resource_count() {
        let mut held: usize = 0;
        for t in 0..threads {
            held += st.sem_ledger.allocated_units(t, r);
        }
        assert_eq!(
            st.sem_ledger.available_units(r) + held,
            st.sem_ledger.total_units(r)
        );
    }
}

#[test]
fn create_returns_sequential_slot_ids() {
    let mut st = process_with_threads(1);
    assert_eq!(st.sys_mutex_create(true), 0);
    assert_eq!(st.sys_mutex_create(false), 1);
    assert_eq!(st.sys_mutex_create(true), 2);
    // each table numbers its own slots
    assert_eq!(st.sys_semaphore_create(3), 0);
    assert_eq!(st.sys_semaphore_create(0), 1);
    assert_eq!(st.sys_condvar_create(), 0);
    assert_eq!(st.sys_condvar_create(), 1);
}

#[test]
fn enable_deadlock_detect_validates_its_flag() {
    let mut st = process_with_threads(1);
    assert_eq!(st.sys_enable_deadlock_detect(0), 0);
    assert!(!st.deadlock_detect);
    assert_eq!(st.sys_enable_deadlock_detect(1), 0);
    assert!(st.deadlock_detect);
    assert_eq!(st.sys_enable_deadlock_detect(2), -1);
    assert!(st.deadlock_detect);
    assert_eq!(st.sys_enable_deadlock_detect(0), 0);
    assert!(!st.deadlock_detect);
}

#[test]
fn blocking_mutex_hands_over_in_fifo_order() {
    let mut st = process_with_threads(4);
    let m = st.sys_mutex_create(true) as usize;

    let e0 = st.sys_mutex_lock(0, m);
    assert_eq!(e0.status, 0);
    assert_eq!(e0.park, Park::Run);

    for tid in 1..4 {
        let e = st.sys_mutex_lock(tid, m);
        assert_eq!(e.status, 0);
        assert_eq!(e.park, Park::Block);
    }
    assert_conservation(&st);

    let e = st.sys_mutex_unlock(0, m);
    assert_eq!(e.wake, Some(1));
    let e = st.sys_mutex_unlock(1, m);
    assert_eq!(e.wake, Some(2));
    let e = st.sys_mutex_unlock(2, m);
    assert_eq!(e.wake, Some(3));
    let e = st.sys_mutex_unlock(3, m);
    assert_eq!(e.wake, None);
    assert_eq!(st.mutex_ledger.available_units(m), 1);
    assert_conservation(&st);
}

#[test]
fn spin_mutex_yields_until_free() {
    let mut st = process_with_threads(2);
    let m = st.sys_mutex_create(false) as usize;

    let e = st.sys_mutex_lock(0, m);
    assert_eq!(e.park, Park::Run);
    let e = st.sys_mutex_lock(1, m);
    assert_eq!(e.status, 0);
    assert_eq!(e.park, Park::Yield);
    assert_eq!(st.mutex_ledger.needed_units(1, m), 0);

    let e = st.sys_mutex_unlock(0, m);
    assert_eq!(e.wake, None);
    let e = st.sys_mutex_lock(1, m);
    assert_eq!(e.park, Park::Run);
    assert_eq!(st.mutex_ledger.allocated_units(1, m), 1);
}

#[test]
fn lock_then_unlock_end_to_end() {
    // create a blocking mutex (id 0); detection off; A locks it (returns 0);
    // B calls lock (blocks); A unlocks (returns 0); B then holds the mutex
    let mut st = process_with_threads(2);
    let a = 0;
    let b = 1;
    let m = st.sys_mutex_create(true);
    assert_eq!(m, 0);
    let m = m as usize;

    let e = st.sys_mutex_lock(a, m);
    assert_eq!(e.status, 0);
    assert_eq!(e.park, Park::Run);

    let e = st.sys_mutex_lock(b, m);
    assert_eq!(e.status, 0);
    assert_eq!(e.park, Park::Block);

    let e = st.sys_mutex_unlock(a, m);
    assert_eq!(e.status, 0);
    assert_eq!(e.wake, Some(b));
    assert_eq!(st.mutex_ledger.allocated_units(b, m), 1);
    assert_eq!(st.mutex_ledger.allocated_units(a, m), 0);
    assert_conservation(&st);
}

#[test]
fn detector_rejects_cross_lock_cycle() {
    // enable detection; create two mutexes; A locks 0; B locks 1;
    // A attempts lock(1) -> blocks normally; B attempts lock(0) -> cycle,
    // rejected with the deadlock status, need rolled back, B runnable
    let mut st = process_with_threads(2);
    let a = 0;
    let b = 1;
    assert_eq!(st.sys_enable_deadlock_detect(1), 0);
    let m0 = st.sys_mutex_create(true) as usize;
    let m1 = st.sys_mutex_create(true) as usize;
    assert_eq!((m0, m1), (0, 1));

    assert_eq!(st.sys_mutex_lock(a, m0).park, Park::Run);
    assert_eq!(st.sys_mutex_lock(b, m1).park, Park::Run);

    let e = st.sys_mutex_lock(a, m1);
    assert_eq!(e.status, 0);
    assert_eq!(e.park, Park::Block);

    let e = st.sys_mutex_lock(b, m0);
    assert_eq!(e.status, DEADLOCK_RC);
    assert_eq!(e.status, -0xDEAD);
    assert_eq!(e.park, Park::Run);
    assert_eq!(st.mutex_ledger.needed_units(b, m0), 0);
    assert_conservation(&st);
}

#[test]
fn detection_permits_safe_locks() {
    let mut st = process_with_threads(2);
    st.sys_enable_deadlock_detect(1);
    let m = st.sys_mutex_create(true) as usize;
    let e = st.sys_mutex_lock(0, m);
    assert_eq!(e.status, 0);
    assert_eq!(e.park, Park::Run);
}

#[test]
fn semaphore_down_blocks_at_zero_instead_of_erroring() {
    // detection disabled: down on an empty semaphore queues the caller
    let mut st = process_with_threads(2);
    let s = st.sys_semaphore_create(1) as usize;

    let e = st.sys_semaphore_down(0, s);
    assert_eq!(e.status, 0);
    assert_eq!(e.park, Park::Run);
    assert_eq!(st.sem_ledger.available_units(s), 0);

    let e = st.sys_semaphore_down(1, s);
    assert_eq!(e.status, 0);
    assert_eq!(e.park, Park::Block);
    assert_eq!(st.sem_ledger.available_units(s), 0);
    assert_conservation(&st);
}

#[test]
fn semaphore_up_wakes_earliest_waiter_with_the_unit() {
    let mut st = process_with_threads(3);
    let s = st.sys_semaphore_create(1) as usize;

    assert_eq!(st.sys_semaphore_down(0, s).park, Park::Run);
    assert_eq!(st.sys_semaphore_down(1, s).park, Park::Block);
    assert_eq!(st.sys_semaphore_down(2, s).park, Park::Block);

    let e = st.sys_semaphore_up(0, s);
    assert_eq!(e.status, 0);
    assert_eq!(e.wake, Some(1));
    assert_eq!(st.sem_ledger.allocated_units(1, s), 1);

    let e = st.sys_semaphore_up(1, s);
    assert_eq!(e.wake, Some(2));
    let e = st.sys_semaphore_up(2, s);
    assert_eq!(e.wake, None);
    assert_eq!(st.sem_ledger.available_units(s), 1);
    assert_conservation(&st);
}

#[test]
fn semaphore_as_signal_grows_the_total() {
    // a raise by a thread that holds no unit mints a new unit
    let mut st = process_with_threads(2);
    let s = st.sys_semaphore_create(0) as usize;
    assert_eq!(st.sem_ledger.total_units(s), 0);

    let e = st.sys_semaphore_down(0, s);
    assert_eq!(e.park, Park::Block);

    let e = st.sys_semaphore_up(1, s);
    assert_eq!(e.wake, Some(0));
    assert_eq!(st.sem_ledger.total_units(s), 1);
    assert_eq!(st.sem_ledger.allocated_units(0, s), 1);
    assert_conservation(&st);
}

#[test]
fn condvar_signal_wakes_at_most_one_waiter() {
    let mut st = process_with_threads(3);
    let m = st.sys_mutex_create(true) as usize;
    let cv = st.sys_condvar_create() as usize;

    // signaling with no waiters is a no-op returning 0
    let e = st.sys_condvar_signal(cv);
    assert_eq!(e.status, 0);
    assert_eq!(e.wake, None);

    // two waiters queue up (each takes the mutex, then waits, releasing it)
    assert_eq!(st.sys_mutex_lock(0, m).park, Park::Run);
    let e = st.sys_condvar_wait(0, cv, m);
    assert_eq!(e.status, 0);
    assert_eq!(e.park, Park::Block);
    assert_eq!(e.wake, None);

    assert_eq!(st.sys_mutex_lock(1, m).park, Park::Run);
    let e = st.sys_condvar_wait(1, cv, m);
    assert_eq!(e.park, Park::Block);

    // each signal wakes exactly one thread, in FIFO order
    let e = st.sys_condvar_signal(cv);
    assert_eq!(e.wake, Some(0));
    let e = st.sys_condvar_signal(cv);
    assert_eq!(e.wake, Some(1));
    let e = st.sys_condvar_signal(cv);
    assert_eq!(e.wake, None);
}

#[test]
fn condvar_wait_releases_the_mutex_to_its_queue() {
    let mut st = process_with_threads(2);
    let m = st.sys_mutex_create(true) as usize;
    let cv = st.sys_condvar_create() as usize;

    assert_eq!(st.sys_mutex_lock(0, m).park, Park::Run);
    assert_eq!(st.sys_mutex_lock(1, m).park, Park::Block);

    // thread 0 waits: the mutex passes to the queued thread 1
    let e = st.sys_condvar_wait(0, cv, m);
    assert_eq!(e.park, Park::Block);
    assert_eq!(e.wake, Some(1));
    assert_eq!(st.mutex_ledger.allocated_units(1, m), 1);

    // thread 1 signals and releases; thread 0 re-acquires with a lock call
    assert_eq!(st.sys_condvar_signal(cv).wake, Some(0));
    assert_eq!(st.sys_mutex_unlock(1, m).wake, None);
    let e = st.sys_mutex_lock(0, m);
    assert_eq!(e.park, Park::Run);
    assert_eq!(st.mutex_ledger.allocated_units(0, m), 1);
    assert_conservation(&st);
}

#[test]
fn sleep_deadline_is_now_plus_duration() {
    let e = sys_sleep(100, 5000);
    assert_eq!(e.status, 0);
    assert_eq!(e.wake, None);
    assert_eq!(e.park, Park::BlockUntil(5100));
}

#[test]
fn set_priority_rejects_values_up_to_two() {
    assert_eq!(sys_set_priority(-5), -1);
    assert_eq!(sys_set_priority(0), -1);
    assert_eq!(sys_set_priority(2), -1);
    assert_eq!(sys_set_priority(3), 3);
    assert_eq!(sys_set_priority(100), 100);
}

#[test]
fn time_val_splits_microseconds() {
    let tv = TimeVal::from_micros(2_500_000);
    assert_eq!(tv.sec, 2);
    assert_eq!(tv.usec, 500_000);
    let tv = TimeVal::from_micros(999_999);
    assert_eq!(tv.sec, 0);
    assert_eq!(tv.usec, 999_999);
}

#[test]
fn register_thread_extends_both_ledgers() {
    let mut st = ProcSyncState::new();
    let m = st.sys_mutex_create(true) as usize;
    let s = st.sys_semaphore_create(2) as usize;
    let t0 = st.register_thread();
    let t1 = st.register_thread();
    assert_eq!((t0, t1), (0, 1));
    assert_eq!(st.thread_count, 2);
    assert_eq!(st.mutex_ledger.thread_count(), 2);
    assert_eq!(st.sem_ledger.thread_count(), 2);
    assert_eq!(st.mutex_ledger.allocated_units(1, m), 0);
    assert_eq!(st.sem_ledger.needed_units(1, s), 0);
    assert_conservation(&st);
}
