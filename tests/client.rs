use bosminer::client::{Descriptor, EngineGenerator, Group, Handle, Protocol, Status};
use bosminer::error::Client;
use bosminer::work::{Job, Midstate, Solution};

fn descriptor(enable: bool) -> Descriptor {
    Descriptor {
        protocol: Protocol::StratumV2,
        url: "stratum2+tcp://pool.example.com:3336".to_string(),
        user: "worker".to_string(),
        enable,
    }
}

fn solution_from(origin: u64) -> Solution {
    Solution {
        job: Job { origin, version: 0, time: 0, bits: 0 },
        nonce: 0x09f86be1,
        midstate: Midstate { version: 0, state: [0u8; 32] },
        midstate_idx: 0,
        time: 0,
    }
}

#[test]
fn new_handle_is_disabled_and_stopped() {
    let h = Handle::new(descriptor(true), 1);
    assert!(!h.is_enabled());
    assert_eq!(h.status(), Status::Stopped);
    assert!(!h.is_running());
    assert_eq!(h.node(), 1);
    assert!(h.descriptor().enable);
}

#[test]
fn enable_twice_starts_once() {
    let mut h = Handle::new(descriptor(false), 1);
    assert_eq!(h.try_enable(), Ok(()));
    assert_eq!(h.status(), Status::Starting);
    assert_eq!(h.try_enable(), Err(()));
    assert_eq!(h.status(), Status::Starting);
    assert!(h.is_enabled());
}

#[test]
fn disable_twice_stops_once() {
    let mut h = Handle::new(descriptor(false), 1);
    assert_eq!(h.try_disable(), Err(()));
    assert_eq!(h.status(), Status::Stopped);
    h.try_enable().unwrap();
    h.node_started();
    assert!(h.is_running());
    assert_eq!(h.try_disable(), Ok(()));
    assert_eq!(h.status(), Status::Stopping);
    assert_eq!(h.try_disable(), Err(()));
    h.node_stopped();
    assert_eq!(h.status(), Status::Stopped);
}

#[test]
fn enable_while_stopping_does_not_start() {
    let mut h = Handle::new(descriptor(false), 1);
    h.try_enable().unwrap();
    h.node_started();
    h.try_disable().unwrap();
    assert_eq!(h.try_enable(), Ok(()));
    assert_eq!(h.status(), Status::Stopping);
    assert!(!h.is_running());
}

#[test]
fn replace_engine_generator_returns_previous() {
    let mut h = Handle::new(descriptor(false), 1);
    assert_eq!(h.replace_engine_generator(EngineGenerator { midstate_count: 4 }), None);
    assert_eq!(
        h.replace_engine_generator(EngineGenerator { midstate_count: 1 }),
        Some(EngineGenerator { midstate_count: 4 })
    );
}

#[test]
fn handles_equal_by_node_identity() {
    let a = Handle::new(descriptor(false), 5);
    let b = Handle::new(descriptor(true), 5);
    let c = Handle::new(descriptor(false), 6);
    assert!(a == b);
    assert!(a != c);
}

#[test]
fn matching_solution_by_origin() {
    let h = Handle::new(descriptor(false), 5);
    assert!(h.matching_solution(&solution_from(5)));
    assert!(!h.matching_solution(&solution_from(6)));
}

#[test]
fn group_add_enables_per_descriptor() {
    let mut g = Group::new(4);
    assert!(g.is_empty());
    assert_eq!(g.add_client(Handle::new(descriptor(true), 1)), Ok(1));
    assert_eq!(g.add_client(Handle::new(descriptor(false), 2)), Ok(2));
    assert_eq!(g.count(), 2);
    assert_eq!(g.get_clients(), vec![1, 2]);
    let first = g.client_at(0).unwrap();
    assert!(first.is_enabled());
    assert_eq!(first.status(), Status::Starting);
    let second = g.client_at(1).unwrap();
    assert!(!second.is_enabled());
    assert_eq!(second.status(), Status::Stopped);
    assert!(g.client_at(2).is_none());
}

#[test]
fn group_add_sets_engine_generator() {
    let mut g = Group::new(4);
    g.add_client(Handle::new(descriptor(false), 1)).unwrap();
    assert_eq!(g.add_client(Handle::new(descriptor(false), 1)), Err(Client::Duplicate));
    // the group installed a generator of its own midstate count
    let mut removed = g.remove_client_at(0).unwrap();
    assert_eq!(
        removed.replace_engine_generator(EngineGenerator { midstate_count: 1 }),
        Some(EngineGenerator { midstate_count: 4 })
    );
}

#[test]
fn engine_generator_builds_engines() {
    let job = Job { origin: 3, version: 0x2000_0000, time: 1, bits: 2 };
    let mut e = EngineGenerator { midstate_count: 2 }.generate(job).unwrap();
    assert_eq!(e.next_versions(), Some(vec![0x2000_0000, 0x2000_2000]));
    assert!(EngineGenerator { midstate_count: 0 }.generate(job).is_none());
}

#[test]
fn group_remove_disables() {
    let mut g = Group::new(1);
    g.add_client(Handle::new(descriptor(true), 1)).unwrap();
    g.add_client(Handle::new(descriptor(true), 2)).unwrap();
    assert!(matches!(g.remove_client_at(2), Err(Client::Missing)));
    let h = g.remove_client_at(0).unwrap();
    assert_eq!(h.node(), 1);
    assert!(!h.is_enabled());
    assert_eq!(h.status(), Status::Stopping);
    assert_eq!(g.get_clients(), vec![2]);
}

#[test]
fn group_move_client() {
    let mut g = Group::new(1);
    for id in 0..5u64 {
        g.add_client(Handle::new(descriptor(false), id)).unwrap();
    }
    assert_eq!(g.move_client_to(4, 1), Ok(4));
    assert_eq!(g.get_clients(), vec![0, 4, 1, 2, 3]);
    assert_eq!(g.move_client_to(0, 3), Ok(0));
    assert_eq!(g.get_clients(), vec![4, 1, 2, 0, 3]);
    assert_eq!(g.move_client_to(2, 2), Ok(2));
    assert_eq!(g.get_clients(), vec![4, 1, 2, 0, 3]);
    assert_eq!(g.move_client_to(5, 0), Err(Client::Missing));
    assert_eq!(g.move_client_to(0, 5), Err(Client::Missing));
    assert_eq!(g.get_clients(), vec![4, 1, 2, 0, 3]);
}

#[test]
fn group_routes_each_solution_to_one_client() {
    let mut g = Group::new(1);
    for id in [10u64, 20, 30] {
        g.add_client(Handle::new(descriptor(true), id)).unwrap();
    }
    assert_eq!(g.route_solution(&solution_from(20)), Some(1));
    assert_eq!(g.route_solution(&solution_from(30)), Some(2));
    assert_eq!(g.route_solution(&solution_from(40)), None);
    assert_eq!(g.position(10), Some(0));
    let s = solution_from(20);
    let matching = (0..g.count()).filter(|&i| g.client_at(i).unwrap().matching_solution(&s)).count();
    assert_eq!(matching, 1);
}

#[test]
fn shutdown_stops_regardless_of_enabled() {
    let mut h = Handle::new(descriptor(false), 1);
    h.try_enable().unwrap();
    h.node_started();
    h.shutdown();
    assert_eq!(h.status(), Status::Stopping);
    assert!(h.is_enabled());
    let mut idle = Handle::new(descriptor(false), 2);
    idle.shutdown();
    assert_eq!(idle.status(), Status::Stopped);
}
