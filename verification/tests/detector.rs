use ksync::detect::is_safe;
use ksync::Ledger;

fn ledger(
    available: Vec<usize>,
    total: Vec<usize>,
    allocated: Vec<Vec<usize>>,
    need: Vec<Vec<usize>>,
) -> Ledger {
    Ledger { available, allocated, need, total }
}

#[test]
fn empty_ledger_is_safe() {
    let l = ledger(vec![], vec![], vec![], vec![]);
    assert!(is_safe(&l));
}

#[test]
fn no_requests_is_safe() {
    // two threads, two mutexes, nothing held or needed
    let l = ledger(
        vec![1, 1],
        vec![1, 1],
        vec![vec![0, 0], vec![0, 0]],
        vec![vec![0, 0], vec![0, 0]],
    );
    assert!(is_safe(&l));
}

#[test]
fn cyclic_wait_is_unsafe() {
    // thread A holds mutex 0 and needs mutex 1;
    // thread B holds mutex 1 and needs mutex 0 -> cycle, unsafe
    let l = ledger(
        vec![0, 0],
        vec![1, 1],
        vec![vec![1, 0], vec![0, 1]],
        vec![vec![0, 1], vec![1, 0]],
    );
    assert!(!is_safe(&l));
}

#[test]
fn acyclic_wait_is_safe() {
    // same as the cycle, but B needs mutex 2, which is free:
    // B can finish, release mutex 1, and then A can finish
    let l = ledger(
        vec![0, 0, 1],
        vec![1, 1, 1],
        vec![vec![1, 0, 0], vec![0, 1, 0]],
        vec![vec![0, 1, 0], vec![0, 0, 1]],
    );
    assert!(is_safe(&l));
}

#[test]
fn multi_unit_semaphore_chain_is_safe() {
    // one semaphore of three units, two out, one available;
    // both holders want one more unit: they can finish one after the other
    let l = ledger(
        vec![1],
        vec![3],
        vec![vec![1], vec![1]],
        vec![vec![1], vec![1]],
    );
    assert!(is_safe(&l));
}

#[test]
fn multi_unit_semaphore_starvation_is_unsafe() {
    // one semaphore of two units, both out; each holder wants one more unit
    // and none is available: nobody can ever finish
    let l = ledger(
        vec![0],
        vec![2],
        vec![vec![1], vec![1]],
        vec![vec![1], vec![1]],
    );
    assert!(!is_safe(&l));
}

#[test]
fn uninvolved_thread_does_not_block_safety() {
    // a third thread that holds and needs nothing never blocks the verdict
    let l = ledger(
        vec![0, 0],
        vec![1, 1],
        vec![vec![1, 0], vec![0, 1], vec![0, 0]],
        vec![vec![0, 1], vec![1, 0], vec![0, 0]],
    );
    assert!(!is_safe(&l));
    let l2 = ledger(
        vec![1, 1],
        vec![1, 1],
        vec![vec![0, 0], vec![0, 0], vec![0, 0]],
        vec![vec![1, 0], vec![0, 1], vec![0, 0]],
    );
    assert!(is_safe(&l2));
}
