use vectra_engine::history::HistoryManager;

#[test]
fn history_initial_state() {
    let h = HistoryManager::new(String::from("s0"));
    assert!(!h.can_undo());
    assert!(!h.can_redo());
    assert!(h.get_memory_usage() > 0);
}

#[test]
fn history_undo_redo_round_trip() {
    let mut h = HistoryManager::new(String::from("hello"));
    h.push_state(String::from("state2"));
    assert!(h.can_undo());
    assert_eq!(h.undo(), Some(String::from("hello")));
    assert!(h.can_redo());
    assert_eq!(h.redo(), Some(String::from("state2")));
    assert!(!h.can_redo());
}

#[test]
fn history_undo_past_bottom_is_noop() {
    let mut h = HistoryManager::new(String::from("only"));
    assert_eq!(h.undo(), None);
    assert_eq!(h.redo(), None);
}

#[test]
fn history_round_trip_empty_payload() {
    let mut h = HistoryManager::new(String::new());
    h.push_state(String::from("next"));
    assert_eq!(h.undo(), Some(String::new()));
}

#[test]
fn history_round_trip_large_payload() {
    // Over 1 MB, compressible but not trivial.
    let mut big = String::new();
    for i in 0..60_000u64 {
        big.push_str(&format!("{{\"node\":{},\"x\":{}}},", i, i * 7 % 991));
    }
    assert!(big.len() > 1_000_000);
    let mut h = HistoryManager::new(String::from("init"));
    h.push_state(big.clone());
    assert_eq!(h.undo(), Some(String::from("init")));
    assert_eq!(h.redo(), Some(big));
}

#[test]
fn history_compression_shrinks_redundant_payloads() {
    // A store holding a repetitive 1 MB snapshot must keep far fewer bytes;
    // this fails if compression handed the text through unchanged.
    let big = "abcdefgh".repeat(130_000);
    let h = HistoryManager::new(big.clone());
    assert!(big.len() > 1_000_000);
    assert!(h.get_memory_usage() < big.len() / 2);
}

#[test]
fn history_branch_truncation() {
    let mut h = HistoryManager::new(String::from("s0"));
    h.push_state(String::from("s1"));
    h.push_state(String::from("s2"));
    h.push_state(String::from("s3"));
    assert_eq!(h.undo(), Some(String::from("s2")));
    assert_eq!(h.undo(), Some(String::from("s1")));
    assert!(h.can_redo());
    h.push_state(String::from("s4"));
    // The branch holding s2 and s3 is gone for good.
    assert!(!h.can_redo());
    assert_eq!(h.redo(), None);
    assert_eq!(h.undo(), Some(String::from("s1")));
    assert_eq!(h.redo(), Some(String::from("s4")));
}

#[test]
fn history_capacity_evicts_oldest() {
    let mut h = HistoryManager::new(String::from("state0"));
    for i in 1..=51u32 {
        h.push_state(format!("state{}", i));
    }
    // Capacity is 50: state0 and state1 were evicted, the cursor kept its
    // relative position at the top.
    assert!(!h.can_redo());
    for i in (2..=50u32).rev() {
        assert_eq!(h.undo(), Some(format!("state{}", i)));
    }
    assert!(!h.can_undo());
    assert_eq!(h.undo(), None);
}

#[test]
fn history_memory_usage_grows_with_entries() {
    let mut h = HistoryManager::new(String::from("a"));
    let before = h.get_memory_usage();
    h.push_state("payload that is long enough to take some space".repeat(10));
    assert!(h.get_memory_usage() > before);
}
