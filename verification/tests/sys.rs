//! Ids, timestamps and liveness.

use ambidiff_core::review::valid_id;
use ambidiff_core::sys::{
    generate_comment_id, now_rfc3339, probe_target, process_liveness, seconds_of, unix_seconds,
    Liveness, Probe,
};
use ambidiff_core::util::fnv1a64;

/// The first free id of a process, counting up.
fn next_id(existing: &[&str]) -> String {
    let mut count: u64 = 0;
    loop {
        if let Some(id) = generate_comment_id(existing, 1_700_000_000_000_000_000, 4242, count) {
            return id;
        }
        count += 1;
    }
}

#[test]
fn ids_have_expected_shape_and_avoid_collisions() {
    let a = next_id(&[]);
    assert!(a.starts_with("c-") && a.len() == 10, "{a}");
    let b = next_id(&[&a]);
    assert_ne!(a, b);
}

#[test]
fn pid_zero_is_indeterminate() {
    assert_eq!(process_liveness(0, Probe::Delivered), Liveness::Indeterminate);
    assert_eq!(probe_target(0), None);
}

#[test]
fn pid_beyond_i32_max_is_indeterminate() {
    assert_eq!(
        process_liveness(u32::MAX, Probe::Delivered),
        Liveness::Indeterminate
    );
    assert_eq!(probe_target(u32::MAX), None);
}

#[test]
fn now_is_rfc3339_shaped() {
    let now = now_rfc3339();
    assert_eq!(now.len(), 20);
    assert!(now.ends_with('Z'));
    assert_eq!(&now[4..5], "-");
    assert_eq!(&now[10..11], "T");
}

#[test]
fn only_a_missing_process_is_dead() {
    assert_eq!(process_liveness(77, Probe::Delivered), Liveness::Alive);
    assert_eq!(process_liveness(77, Probe::NotPermitted), Liveness::Alive);
    assert_eq!(process_liveness(77, Probe::NoSuchProcess), Liveness::Dead);
    assert_eq!(process_liveness(77, Probe::Other), Liveness::Indeterminate);
    assert_eq!(probe_target(77), Some(77));
}

#[test]
fn clock_distances_are_clamped() {
    assert_eq!(seconds_of(Ok(5)), 5);
    assert_eq!(seconds_of(Err(5)), -5);
    assert_eq!(seconds_of(Ok(u64::MAX)), i64::MAX);
    assert_eq!(seconds_of(Err(u64::MAX)), -i64::MAX);
    assert!(unix_seconds() > 1_600_000_000);
}

#[test]
fn comment_ids_hash_their_seed() {
    let id = generate_comment_id(&[], 1, 2, 3).expect("free");
    assert_eq!(
        id,
        format!("c-{:08x}", fnv1a64("1:2:3".as_bytes()) & 0xffff_ffff)
    );
    assert!(valid_id(&id));
    assert_eq!(generate_comment_id(&[&id], 1, 2, 3), None);
}
