//! Mathematical model of the chain tracker.
//!
//! The tracker's observable state is a map from slot id to a record
//! (parent link, set of linked children, commitment status, chain tag)
//! together with three high-water counters. `apply_model` is the exact
//! effect of feeding one slot notification to the tracker: it raises
//! the counters, merges the notification into the record map, relinks
//! parent/child adjacency when new topology arrived, and prunes records
//! older than the newest finalized slot.

use vstd::prelude::*;

use crate::status::CommitmentStatus;

verus! {

/// Abstract view of one slot record.
#[verifier::ext_equal]
pub ghost struct RecModel {
    pub parent: Option<u64>,
    pub children: Set<u64>,
    pub status: CommitmentStatus,
    pub chain: u64,
}

/// Abstract view of the whole tracker.
#[verifier::ext_equal]
pub ghost struct TrackerModel {
    pub slots: Map<u64, RecModel>,
    pub newest_finalized_slot: u64,
    pub newest_processed_slot: u64,
    pub best_chain_slot: u64,
}

/// Abstract view of one slot notification with a decoded status.
#[verifier::ext_equal]
pub ghost struct UpdateModel {
    pub slot: u64,
    pub parent: Option<u64>,
    pub status: CommitmentStatus,
}

/// The tracker's state at startup: no records, all counters zero.
pub open spec fn initial_model() -> TrackerModel {
    TrackerModel {
        slots: Map::empty(),
        newest_finalized_slot: 0,
        newest_processed_slot: 0,
        best_chain_slot: 0,
    }
}

/// First-seen-wins choice of a parent link: once a parent is known it
/// is permanent, so a stored `Some` is never replaced.
pub open spec fn parent_or(stored: Option<u64>, incoming: Option<u64>) -> Option<u64> {
    if stored.is_some() {
        stored
    } else {
        incoming
    }
}

/// Does this update advance the newest finalized slot?
pub open spec fn finalized_advances(t: TrackerModel, u: UpdateModel) -> bool {
    u.status == CommitmentStatus::Finalized && u.slot > t.newest_finalized_slot
}

/// Does this update advance the best chain tip? Only a slot whose
/// parent was known at arrival can become the best tip.
pub open spec fn chain_advances(t: TrackerModel, u: UpdateModel) -> bool {
    u.parent.is_some() && u.slot > t.best_chain_slot
}

/// Did this update resolve a parent link that was unknown before it
/// arrived (either the record did not exist yet, or it existed with no
/// parent)? Such an update carries new topology and triggers a relink.
pub open spec fn parent_newly_resolved(m: Map<u64, RecModel>, u: UpdateModel) -> bool {
    u.parent.is_some() && (!m.contains_key(u.slot) || m[u.slot].parent.is_none())
}

/// Merge one notification into the record map: a fresh record is
/// inserted as given (empty children, default chain tag); an existing
/// record keeps its first-seen parent and joins the statuses.
pub open spec fn merged_slots(m: Map<u64, RecModel>, u: UpdateModel) -> Map<u64, RecModel> {
    if m.contains_key(u.slot) {
        let r = m[u.slot];
        m.insert(
            u.slot,
            RecModel {
                parent: parent_or(r.parent, u.parent),
                children: r.children,
                status: r.status.spec_join(u.status),
                chain: r.chain,
            },
        )
    } else {
        m.insert(
            u.slot,
            RecModel { parent: u.parent, children: Set::empty(), status: u.status, chain: 0 },
        )
    }
}

/// The children a relink pass links under slot `p`: every present
/// record whose resolved parent is `p`.
pub open spec fn linked_children(m: Map<u64, RecModel>, p: u64) -> Set<u64> {
    Set::new(|c: u64| m.contains_key(c) && m[c].parent == Some(p))
}

/// Effect of a relink pass seeded at `tip`: every record is tagged
/// with the current best tip (fork fragments included), and every
/// record is registered in its parent's children set whenever that
/// parent record is present. Children accumulate: a link, once made,
/// is never removed here.
pub open spec fn relinked_slots(m: Map<u64, RecModel>, tip: u64) -> Map<u64, RecModel> {
    Map::new(
        |s: u64| m.contains_key(s),
        |s: u64| RecModel {
            parent: m[s].parent,
            children: m[s].children.union(linked_children(m, s)),
            status: m[s].status,
            chain: tip,
        },
    )
}

/// Effect of pruning: only records at or above the newest finalized
/// slot survive.
pub open spec fn pruned_slots(m: Map<u64, RecModel>, nf: u64) -> Map<u64, RecModel> {
    Map::new(|s: u64| m.contains_key(s) && s >= nf, |s: u64| m[s])
}

/// The exact effect of applying one slot notification.
pub open spec fn apply_model(t: TrackerModel, u: UpdateModel) -> TrackerModel {
    let np = if u.slot > t.newest_processed_slot {
        u.slot
    } else {
        t.newest_processed_slot
    };
    let fin_adv = finalized_advances(t, u);
    let nf = if fin_adv {
        u.slot
    } else {
        t.newest_finalized_slot
    };
    let chain_adv = chain_advances(t, u);
    let bc = if chain_adv {
        u.slot
    } else {
        t.best_chain_slot
    };
    let resolved = parent_newly_resolved(t.slots, u);
    let m1 = merged_slots(t.slots, u);
    let m2 = if chain_adv || resolved {
        relinked_slots(m1, bc)
    } else {
        m1
    };
    let m3 = if fin_adv {
        pruned_slots(m2, nf)
    } else {
        m2
    };
    TrackerModel {
        slots: m3,
        newest_finalized_slot: nf,
        newest_processed_slot: np,
        best_chain_slot: bc,
    }
}

/// Applying a whole sequence of notifications, first element first.
pub open spec fn apply_seq_model(t: TrackerModel, us: Seq<UpdateModel>) -> TrackerModel
    decreases us.len(),
{
    if us.len() == 0 {
        t
    } else {
        apply_seq_model(apply_model(t, us[0]), us.drop_first())
    }
}

} // verus!
