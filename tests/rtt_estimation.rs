use zelda::rtt::{fold_sample, Alpha, RttTimers};
use zelda::connection::Connection;

#[test]
fn first_sample_sets_estimate() {
    let a = Alpha { num: 1, den: 8 };
    assert_eq!(fold_sample(None, 1234, a), Some(1234));
}

#[test]
fn later_samples_are_weighted() {
    let a = Alpha { num: 1, den: 8 };
    // 800 * 7/8 + 1600 * 1/8 = 900
    assert_eq!(fold_sample(Some(800), 1600, a), Some(900));
}

#[test]
fn weighted_recursion_closed_form() {
    let a = Alpha { num: 1, den: 2 };
    let mut est = None;
    for s in [100u64, 200, 300, 500] {
        est = fold_sample(est, s, a);
    }
    // 100 -> 150 -> 225 -> 362 (rounded down)
    assert_eq!(est, Some(362));
}

#[test]
fn alpha_one_tracks_last_sample() {
    let a = Alpha { num: 1, den: 1 };
    assert_eq!(fold_sample(Some(10), 70, a), Some(70));
}

#[test]
fn large_values_do_not_overflow() {
    let a = Alpha { num: 3, den: 4 };
    assert_eq!(fold_sample(Some(u64::MAX), u64::MAX, a), Some(u64::MAX));
}

#[test]
fn sample_returns_elapsed_once() {
    let mut t = RttTimers::new(4);
    t.register(7, 1_000);
    assert_eq!(t.sample(7, 1_250), Some(250));
    assert_eq!(t.sample(7, 1_300), None);
    assert_eq!(t.len(), 0);
}

#[test]
fn unknown_ack_is_ignored() {
    let mut t = RttTimers::new(4);
    t.register(1, 10);
    assert_eq!(t.sample(9, 20), None);
    assert_eq!(t.sequences(), vec![1]);
}

#[test]
fn clock_behind_entry_gives_zero() {
    let mut t = RttTimers::new(2);
    t.register(3, 500);
    assert_eq!(t.sample(3, 400), Some(0));
}

#[test]
fn capacity_evicts_oldest() {
    let mut t = RttTimers::new(3);
    t.register(1, 10);
    t.register(2, 20);
    t.register(3, 30);
    assert_eq!(t.sequences(), vec![1, 2, 3]);
    t.register(4, 40);
    assert_eq!(t.len(), 3);
    assert_eq!(t.capacity(), 3);
    assert_eq!(t.sequences(), vec![2, 3, 4]);
    assert_eq!(t.sample(1, 50), None);
    assert_eq!(t.sample(2, 50), Some(30));
}

#[test]
fn reregistering_moves_entry_last() {
    let mut t = RttTimers::new(3);
    t.register(1, 10);
    t.register(2, 20);
    t.register(1, 30);
    assert_eq!(t.sequences(), vec![2, 1]);
    assert_eq!(t.sample(1, 35), Some(5));
}

#[test]
fn zero_capacity_keeps_nothing() {
    let mut t = RttTimers::new(0);
    t.register(1, 10);
    assert_eq!(t.len(), 0);
}

#[test]
fn connection_folds_matching_ack() {
    let a = Alpha { num: 1, den: 2 };
    let mut c = Connection::new(0, 8, b"key".to_vec());
    let (s1, ack1) = c.on_send(100);
    assert_eq!((s1, ack1), (1, 0));
    let (s2, _) = c.on_send(200);
    assert_eq!(s2, 2);
    c.on_envelope(40, 1, 300, a);
    assert_eq!(c.rtt, Some(200));
    assert_eq!(c.rtt_seq_remote, 40);
    assert_eq!(c.last_interaction, 300);
    c.on_envelope(41, 2, 500, a);
    assert_eq!(c.rtt, Some(250));
    c.on_envelope(42, 2, 600, a);
    assert_eq!(c.rtt, Some(250));
    assert_eq!(c.rtt_seq_remote, 42);
}

#[test]
fn local_sequence_wraps() {
    let mut c = Connection::new(0, 2, b"key".to_vec());
    c.rtt_seq_local = u16::MAX;
    let (s, _) = c.on_send(1);
    assert_eq!(s, 0);
}

#[test]
fn expiry_threshold_is_inclusive() {
    let c = Connection::new(1_000, 4, b"key".to_vec());
    assert!(!c.is_expired(2_999, 2_000));
    assert!(c.is_expired(3_000, 2_000));
    assert!(!c.is_expired(500, 2_000));
}
