use chain_track::chain_data::{ChainData, SlotData, SlotUpdate};
use chain_track::status::{CommitmentStatus, UpdateError};

fn sd(slot: u64, parent: Option<u64>, status: CommitmentStatus) -> SlotData {
    SlotData { slot, parent, children: vec![], status, chain: 0 }
}

fn children_of(t: &ChainData, slot: u64) -> Vec<u64> {
    t.get(slot).expect("record should exist").children.clone()
}

#[test]
fn scenario_a_linear_chain_then_finalize() {
    let mut t = ChainData::new();
    t.update_slot(sd(1, None, CommitmentStatus::Finalized));
    assert_eq!(t.newest_finalized_slot, 1);
    assert_eq!(t.newest_processed_slot, 1);
    assert_eq!(t.best_chain_slot, 0);

    t.update_slot(sd(2, Some(1), CommitmentStatus::Processed));
    assert_eq!(t.best_chain_slot, 2);
    assert_eq!(children_of(&t, 1), vec![2]);

    t.update_slot(sd(3, Some(2), CommitmentStatus::Confirmed));
    assert_eq!(t.newest_finalized_slot, 1);
    assert_eq!(t.best_chain_slot, 3);
    assert_eq!(children_of(&t, 1), vec![2]);
    assert_eq!(children_of(&t, 2), vec![3]);
    assert_eq!(t.get(2).unwrap().status, CommitmentStatus::Processed);

    t.update_slot(sd(2, Some(1), CommitmentStatus::Finalized));
    assert_eq!(t.newest_finalized_slot, 2);
    assert!(t.get(1).is_none(), "slot 1 should be pruned");
    assert!(t.get(2).is_some());
    assert!(t.get(3).is_some());
}

#[test]
fn scenario_b_out_of_order_child_before_parent() {
    let mut t = ChainData::new();
    t.update_slot(sd(5, Some(4), CommitmentStatus::Confirmed));
    assert_eq!(t.best_chain_slot, 5);
    assert_eq!(t.get(5).unwrap().parent, Some(4));
    assert!(t.get(4).is_none(), "slot 4 is not known yet");

    t.update_slot(sd(4, Some(3), CommitmentStatus::Processed));
    assert!(t.get(4).is_some());
    assert_eq!(children_of(&t, 4), vec![5], "relink links 5 under 4");
}

#[test]
fn scenario_c_duplicate_update_is_idempotent() {
    let mut once = ChainData::new();
    once.update_slot(sd(10, Some(9), CommitmentStatus::Confirmed));

    let mut twice = ChainData::new();
    twice.update_slot(sd(10, Some(9), CommitmentStatus::Confirmed));
    twice.update_slot(sd(10, Some(9), CommitmentStatus::Confirmed));

    assert_eq!(once, twice);
}

#[test]
fn status_joins_to_maximum_in_any_order() {
    let mut t = ChainData::new();
    t.update_slot(sd(7, None, CommitmentStatus::Confirmed));
    t.update_slot(sd(7, None, CommitmentStatus::Processed));
    assert_eq!(t.get(7).unwrap().status, CommitmentStatus::Confirmed);
    t.update_slot(sd(7, None, CommitmentStatus::Finalized));
    t.update_slot(sd(7, None, CommitmentStatus::Confirmed));
    assert_eq!(t.get(7).unwrap().status, CommitmentStatus::Finalized);
}

#[test]
fn parent_is_permanent_once_resolved() {
    let mut t = ChainData::new();
    t.update_slot(sd(20, None, CommitmentStatus::Processed));
    assert_eq!(t.get(20).unwrap().parent, None);
    t.update_slot(sd(20, Some(19), CommitmentStatus::Processed));
    assert_eq!(t.get(20).unwrap().parent, Some(19));
    t.update_slot(sd(20, Some(18), CommitmentStatus::Processed));
    assert_eq!(t.get(20).unwrap().parent, Some(19), "a different parent report is ignored");
}

#[test]
fn pruning_keeps_only_slots_at_or_above_floor() {
    let mut t = ChainData::new();
    for s in 1..=6u64 {
        t.update_slot(sd(s, if s > 1 { Some(s - 1) } else { None }, CommitmentStatus::Processed));
    }
    t.update_slot(sd(4, Some(3), CommitmentStatus::Finalized));
    assert_eq!(t.newest_finalized_slot, 4);
    for s in 1..4u64 {
        assert!(t.get(s).is_none(), "slot {s} should be pruned");
    }
    for s in 4..=6u64 {
        assert!(t.get(s).is_some(), "slot {s} should survive");
    }
}

#[test]
fn counters_never_decrease() {
    let mut t = ChainData::new();
    let updates = [
        (9u64, Some(8u64), CommitmentStatus::Confirmed),
        (3, Some(2), CommitmentStatus::Processed),
        (12, None, CommitmentStatus::Finalized),
        (5, Some(4), CommitmentStatus::Processed),
    ];
    let mut np = 0u64;
    let mut nf = 0u64;
    let mut bc = 0u64;
    for (slot, parent, status) in updates {
        t.update_slot(sd(slot, parent, status));
        assert!(t.newest_processed_slot >= np);
        assert!(t.newest_finalized_slot >= nf);
        assert!(t.best_chain_slot >= bc);
        np = t.newest_processed_slot;
        nf = t.newest_finalized_slot;
        bc = t.best_chain_slot;
    }
    assert_eq!(np, 12);
    assert_eq!(nf, 12);
    assert_eq!(bc, 9);
}

#[test]
fn straggler_below_floor_is_kept_until_next_finalization() {
    let mut t = ChainData::new();
    t.update_slot(sd(10, None, CommitmentStatus::Finalized));
    t.update_slot(sd(5, None, CommitmentStatus::Processed));
    assert!(t.get(5).is_some(), "a straggler below the floor is accepted");
    assert_eq!(t.newest_finalized_slot, 10);
    t.update_slot(sd(11, Some(10), CommitmentStatus::Finalized));
    assert!(t.get(5).is_none(), "the next finalization sweeps it away");
}

#[test]
fn fork_fragments_all_get_the_best_tip_tag() {
    let mut t = ChainData::new();
    t.update_slot(sd(1, None, CommitmentStatus::Processed));
    t.update_slot(sd(2, Some(1), CommitmentStatus::Processed));
    // a competing fork claims the same parent
    t.update_slot(sd(3, Some(1), CommitmentStatus::Processed));
    assert_eq!(t.best_chain_slot, 3);
    assert_eq!(children_of(&t, 1), vec![2, 3]);
    // every record, fork members included, carries the current tip
    for s in 1..=3u64 {
        assert_eq!(t.get(s).unwrap().chain, 3);
    }
}

#[test]
fn apply_rejects_unknown_status_and_leaves_state_unchanged() {
    let mut t = ChainData::new();
    t.update_slot(sd(1, None, CommitmentStatus::Processed));
    let mut untouched = ChainData::new();
    untouched.update_slot(sd(1, None, CommitmentStatus::Processed));

    let r = t.apply(&SlotUpdate { slot: 2, parent: Some(1), status: 7 });
    assert_eq!(r, Err(UpdateError::InvalidStatus));
    assert_eq!(t, untouched);

    let r = t.apply(&SlotUpdate { slot: 2, parent: Some(1), status: -1 });
    assert_eq!(r, Err(UpdateError::InvalidStatus));
    assert_eq!(t, untouched);
}

#[test]
fn apply_accepts_known_status_codes() {
    let mut t = ChainData::new();
    assert_eq!(t.apply(&SlotUpdate { slot: 1, parent: None, status: 0 }), Ok(()));
    assert_eq!(t.get(1).unwrap().status, CommitmentStatus::Processed);
    assert_eq!(t.apply(&SlotUpdate { slot: 1, parent: None, status: 1 }), Ok(()));
    assert_eq!(t.get(1).unwrap().status, CommitmentStatus::Confirmed);
    assert_eq!(t.apply(&SlotUpdate { slot: 1, parent: None, status: 2 }), Ok(()));
    assert_eq!(t.get(1).unwrap().status, CommitmentStatus::Finalized);
    assert_eq!(t.newest_finalized_slot, 1);
}

#[test]
fn empty_tracker_and_default() {
    let t = ChainData::new();
    assert_eq!(t.newest_finalized_slot, 0);
    assert_eq!(t.newest_processed_slot, 0);
    assert_eq!(t.best_chain_slot, 0);
    assert!(t.slots.is_empty());
    assert!(t.get(0).is_none());
    assert_eq!(t, ChainData::default());
}

#[test]
fn largest_slot_id_is_handled() {
    let mut t = ChainData::new();
    t.update_slot(sd(u64::MAX, Some(u64::MAX - 1), CommitmentStatus::Confirmed));
    assert_eq!(t.newest_processed_slot, u64::MAX);
    assert_eq!(t.best_chain_slot, u64::MAX);
    assert_eq!(t.get(u64::MAX).unwrap().parent, Some(u64::MAX - 1));
}

#[test]
fn slot_zero_with_parent_does_not_advance_best_chain() {
    let mut t = ChainData::new();
    t.update_slot(sd(0, None, CommitmentStatus::Processed));
    assert_eq!(t.newest_processed_slot, 0);
    assert_eq!(t.best_chain_slot, 0);
    assert!(t.get(0).is_some());
}
