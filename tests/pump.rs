use bosminer::client::{Descriptor, Group, Handle, Protocol};
use bosminer::pump::{resolve_solution, Sender, SenderAction, SenderEvent, SenderPhase};
use bosminer::work::{Assignment, HwSolution, Job, Midstate};

/// A chain of `chip_count` chips whose input queues hold `fill` assignments
/// before any of them is worked on; each later assignment yields one
/// solution per chip.
struct HwModel {
    chip_count: usize,
    fill: usize,
    sent: usize,
    pending: Vec<HwSolution>,
}

impl HwModel {
    fn send_work(&mut self, work_id: usize) {
        self.sent += 1;
        if self.sent > self.fill {
            for chip in 0..self.chip_count {
                self.pending.push(HwSolution { work_id, nonce: 0x83ea0372 ^ chip as u32, midstate_idx: 0 });
            }
        }
    }

    fn recv_solution(&mut self) -> Option<HwSolution> {
        if self.pending.is_empty() { None } else { Some(self.pending.remove(0)) }
    }
}

fn test_work(origin: u64) -> Assignment {
    let time = 0xffff_ffff;
    let job = Job { origin, version: 0, time, bits: 0xffff_ffff };
    Assignment::new(job, vec![Midstate { version: 0, state: [0u8; 32] }], time)
}

/// Drives the sender through one assignment; returns the work ID it used.
fn push_one(sender: &mut Sender, hw: &mut HwModel, work: Assignment) -> usize {
    assert_eq!(sender.on_event(SenderEvent::Room), SenderAction::ReceiveWork);
    let id = match sender.on_event(SenderEvent::Work(work)) {
        SenderAction::SendWork(id) => id,
        other => panic!("unexpected action {:?}", other),
    };
    hw.send_work(id);
    assert_eq!(sender.on_event(SenderEvent::Sent), SenderAction::WaitForRoom);
    id
}

fn drain(sender: &Sender, hw: &mut HwModel, group: &Group, sinks: &mut Vec<usize>) -> usize {
    let mut received = 0;
    while let Some(hw_solution) = hw.recv_solution() {
        if let Some(solution) = resolve_solution(sender.registry(), hw_solution) {
            let index = group.route_solution(&solution).expect("solution of an unknown client");
            sinks[index] += 1;
            received += 1;
        }
    }
    received
}

#[test]
fn test_work_generation() {
    let chip_count = 63;
    let mut hw = HwModel { chip_count, fill: 3, sent: 0, pending: Vec::new() };
    let mut sender = Sender::new(32);
    assert_eq!(sender.first_action(), SenderAction::WaitForRoom);
    let mut group = Group::new(1);
    let descriptor = Descriptor {
        protocol: Protocol::StratumV2,
        url: "stratum2+tcp://localhost:3336".to_string(),
        user: "test".to_string(),
        enable: true,
    };
    group.add_client(Handle::new(descriptor, 7)).unwrap();
    let mut sinks = vec![0usize; 1];

    for _ in 0..3 {
        push_one(&mut sender, &mut hw, test_work(7));
    }
    assert_eq!(drain(&sender, &mut hw, &group, &mut sinks), 0);

    let more_work_count = 2usize;
    for _ in 0..more_work_count {
        push_one(&mut sender, &mut hw, test_work(7));
    }
    assert_eq!(drain(&sender, &mut hw, &group, &mut sinks), more_work_count * chip_count);
    assert_eq!(drain(&sender, &mut hw, &group, &mut sinks), 0);
    assert_eq!(sinks, vec![more_work_count * chip_count]);
}

#[test]
fn sender_sends_only_after_room() {
    let mut sender = Sender::new(4);
    // work before room ends the loop instead of being sent
    assert_eq!(sender.on_event(SenderEvent::Work(test_work(1))), SenderAction::Terminate);
    assert_eq!(sender.phase(), SenderPhase::Finished);
    assert_eq!(sender.on_event(SenderEvent::Room), SenderAction::Terminate);
    assert!(sender.registry().resolve(0).is_none());
}

#[test]
fn sender_one_send_per_room() {
    let mut sender = Sender::new(4);
    assert_eq!(sender.on_event(SenderEvent::Room), SenderAction::ReceiveWork);
    assert_eq!(sender.on_event(SenderEvent::Work(test_work(1))), SenderAction::SendWork(0));
    assert_eq!(sender.phase(), SenderPhase::Sending);
    assert_eq!(sender.on_event(SenderEvent::Work(test_work(1))), SenderAction::Terminate);
}

#[test]
fn sender_failure_terminates() {
    let mut sender = Sender::new(2);
    assert_eq!(sender.on_event(SenderEvent::Room), SenderAction::ReceiveWork);
    assert_eq!(sender.on_event(SenderEvent::Failed), SenderAction::Terminate);
    assert_eq!(sender.phase(), SenderPhase::Finished);
}

#[test]
fn sender_work_ids_wrap() {
    let mut hw = HwModel { chip_count: 0, fill: 0, sent: 0, pending: Vec::new() };
    let mut sender = Sender::new(2);
    let ids: Vec<usize> = (0..5).map(|_| push_one(&mut sender, &mut hw, test_work(1))).collect();
    assert_eq!(ids, vec![0, 1, 0, 1, 0]);
}

#[test]
fn solutions_routed_to_their_clients() {
    let mut hw = HwModel { chip_count: 2, fill: 0, sent: 0, pending: Vec::new() };
    let mut sender = Sender::new(8);
    let mut group = Group::new(1);
    for id in [1u64, 2] {
        let d = Descriptor { protocol: Protocol::StratumV2, url: String::new(), user: String::new(), enable: true };
        group.add_client(Handle::new(d, id)).unwrap();
    }
    let mut sinks = vec![0usize; 2];
    push_one(&mut sender, &mut hw, test_work(2));
    push_one(&mut sender, &mut hw, test_work(2));
    push_one(&mut sender, &mut hw, test_work(1));
    assert_eq!(drain(&sender, &mut hw, &group, &mut sinks), 6);
    assert_eq!(sinks, vec![2, 4]);
}
