use chain_track::chain_data::{SlotData, SlotUpdate};
use chain_track::status::CommitmentStatus::{Confirmed, Finalized, Processed};
use chain_track::status::{CommitmentStatus, UpdateError};

#[test]
fn from_code_decodes_the_three_known_levels() {
    assert_eq!(CommitmentStatus::from_code(0), Ok(CommitmentStatus::Processed));
    assert_eq!(CommitmentStatus::from_code(1), Ok(CommitmentStatus::Confirmed));
    assert_eq!(CommitmentStatus::from_code(2), Ok(CommitmentStatus::Finalized));
    assert_eq!(CommitmentStatus::from_code(3), Err(UpdateError::InvalidStatus));
    assert_eq!(CommitmentStatus::from_code(-1), Err(UpdateError::InvalidStatus));
    assert_eq!(CommitmentStatus::from_code(i32::MAX), Err(UpdateError::InvalidStatus));
}

#[test]
fn join_is_the_maximum_under_the_commitment_order() {
    assert_eq!(Processed.join(Confirmed), Confirmed);
    assert_eq!(Confirmed.join(Processed), Confirmed);
    assert_eq!(Finalized.join(Processed), Finalized);
    assert_eq!(Processed.join(Finalized), Finalized);
    assert_eq!(Confirmed.join(Confirmed), Confirmed);
    assert_eq!(Finalized.join(Confirmed), Finalized);
    assert_eq!(Processed.join(Processed), Processed);
}

#[test]
fn from_update_carries_the_notification_over() {
    let u = SlotUpdate { slot: 42, parent: Some(41), status: 1 };
    let d = SlotData::from_update(&u).unwrap();
    assert_eq!(d.slot, 42);
    assert_eq!(d.parent, Some(41));
    assert_eq!(d.status, CommitmentStatus::Confirmed);
    assert!(d.children.is_empty());
    assert_eq!(d.chain, 0);
}

#[test]
fn from_update_rejects_an_unknown_status_code() {
    let u = SlotUpdate { slot: 42, parent: None, status: 9 };
    assert_eq!(SlotData::from_update(&u), Err(UpdateError::InvalidStatus));
}

#[test]
fn add_child_deduplicates_and_keeps_ascending_order() {
    let mut d = SlotData {
        slot: 1,
        parent: None,
        children: vec![],
        status: CommitmentStatus::Processed,
        chain: 0,
    };
    d.add_child(30);
    d.add_child(10);
    d.add_child(20);
    d.add_child(10);
    d.add_child(30);
    assert_eq!(d.children, vec![10, 20, 30]);
    assert_eq!(d.slot, 1);
    assert_eq!(d.status, CommitmentStatus::Processed);
}
