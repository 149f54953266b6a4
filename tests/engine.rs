use bosminer::engine::{VersionRolling, ROLLED_VALUES, VERSION_MASK};
use bosminer::work::Job;

fn job(version: u32) -> Job {
    Job { origin: 1, version, time: 0x5d00_0000, bits: 0x1d00_ffff }
}

#[test]
fn versions_roll_general_purpose_bits() {
    let mut e = VersionRolling::new(job(0x2000_0000), 4);
    assert_eq!(e.next_versions(), Some(vec![0x2000_0000, 0x2000_2000, 0x2000_4000, 0x2000_6000]));
    assert_eq!(e.next_versions(), Some(vec![0x2000_8000, 0x2000_a000, 0x2000_c000, 0x2000_e000]));
}

#[test]
fn versions_keep_bits_outside_mask() {
    let mut e = VersionRolling::new(job(0xffff_ffff), 1);
    let v = e.next_versions().unwrap();
    assert_eq!(v, vec![!VERSION_MASK]);
}

#[test]
fn engine_exhausts_rolling_space() {
    let mut e = VersionRolling::new(job(0x2000_0000), ROLLED_VALUES / 2);
    assert!(!e.is_exhausted());
    let first = e.next_versions().unwrap();
    assert_eq!(first.len(), (ROLLED_VALUES / 2) as usize);
    let second = e.next_versions().unwrap();
    assert_eq!(*second.last().unwrap(), 0x3fff_e000);
    assert!(e.is_exhausted());
    assert_eq!(e.next_versions(), None);
}
