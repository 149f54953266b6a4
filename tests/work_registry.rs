use bosminer::work::{Assignment, HwSolution, Job, Midstate};
use bosminer::work_registry::WorkRegistry;
use bosminer::pump::resolve_solution;

fn job(origin: u64, time: u32) -> Job {
    Job { origin, version: 0x2000_0000, time, bits: 0x1d00_ffff }
}

fn work(origin: u64, time: u32, midstates: usize) -> Assignment {
    let one = Midstate { version: 0, state: [0u8; 32] };
    Assignment::new(job(origin, time), vec![one; midstates], time)
}

#[test]
fn store_returns_cyclic_ids() {
    let mut r = WorkRegistry::new(3);
    assert_eq!(r.id_limit(), 3);
    let ids: Vec<usize> = (0..7).map(|t| r.store_work(work(1, t, 1))).collect();
    assert_eq!(ids, vec![0, 1, 2, 0, 1, 2, 0]);
}

#[test]
fn resolve_returns_latest_after_wrap() {
    let mut r = WorkRegistry::new(4);
    for t in 0..10u32 {
        r.store_work(work(1, t, 1));
    }
    // stores 0..9 into slots t % 4: slot 0 <- 8, slot 1 <- 9, slot 2 <- 6, slot 3 <- 7
    assert_eq!(r.resolve(0).unwrap().time, 8);
    assert_eq!(r.resolve(1).unwrap().time, 9);
    assert_eq!(r.resolve(2).unwrap().time, 6);
    assert_eq!(r.resolve(3).unwrap().time, 7);
}

#[test]
fn resolve_unknown_or_unused_id_is_none() {
    let mut r = WorkRegistry::new(4);
    assert!(r.resolve(0).is_none());
    r.store_work(work(1, 5, 1));
    assert!(r.resolve(0).is_some());
    assert!(r.resolve(1).is_none());
    assert!(r.resolve(4).is_none());
    assert!(r.resolve(usize::MAX).is_none());
}

#[test]
fn single_slot_registry_overwrites() {
    let mut r = WorkRegistry::new(1);
    assert_eq!(r.store_work(work(1, 1, 1)), 0);
    assert_eq!(r.store_work(work(2, 2, 1)), 0);
    assert_eq!(r.resolve(0).unwrap().job.origin, 2);
}

#[test]
fn duplicate_keeps_contents() {
    let a = work(7, 42, 3);
    let b = a.duplicate();
    assert_eq!(b.job, a.job);
    assert_eq!(b.midstates, a.midstates);
    assert_eq!(b.time, 42);
}

#[test]
fn resolve_solution_recovers_job() {
    let mut r = WorkRegistry::new(8);
    let mut a = work(9, 77, 2);
    a.midstates[1].version = 0x2000_2000;
    let id = r.store_work(a);
    let s = resolve_solution(&r, HwSolution { work_id: id, nonce: 0x83ea0372, midstate_idx: 1 }).unwrap();
    assert_eq!(s.origin(), 9);
    assert_eq!(s.nonce, 0x83ea0372);
    assert_eq!(s.midstate.version, 0x2000_2000);
    assert_eq!(s.midstate_idx, 1);
    assert_eq!(s.time, 77);
}

#[test]
fn resolve_solution_drops_stale_and_bad_index() {
    let mut r = WorkRegistry::new(2);
    let id = r.store_work(work(1, 1, 1));
    assert!(resolve_solution(&r, HwSolution { work_id: id, nonce: 1, midstate_idx: 1 }).is_none());
    assert!(resolve_solution(&r, HwSolution { work_id: 1, nonce: 1, midstate_idx: 0 }).is_none());
    assert!(resolve_solution(&r, HwSolution { work_id: 5, nonce: 1, midstate_idx: 0 }).is_none());
    // the slot is overwritten by later work: the solution now resolves to the new job
    r.store_work(work(2, 2, 1));
    r.store_work(work(3, 3, 1));
    let s = resolve_solution(&r, HwSolution { work_id: id, nonce: 1, midstate_idx: 0 }).unwrap();
    assert_eq!(s.origin(), 3);
}
