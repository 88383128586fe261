//! Properties of the tracker, stated over the model and proved for
//! every sequence of applied notifications: statuses only join upward,
//! a resolved parent is permanent, surviving records respect the
//! finality floor, the high-water counters never decrease, and
//! applying the same notification twice changes nothing the second
//! time.

use vstd::prelude::*;

use crate::model::{
    apply_model, apply_seq_model, chain_advances, finalized_advances, merged_slots,
    parent_newly_resolved, parent_or, TrackerModel, UpdateModel,
};
use crate::status::CommitmentStatus;

verus! {

/// The status a slot starts from: its stored status when a record
/// exists, and the bottom of the commitment order otherwise.
pub open spec fn initial_status(t: TrackerModel, s: u64) -> CommitmentStatus {
    if t.slots.contains_key(s) {
        t.slots[s].status
    } else {
        CommitmentStatus::Processed
    }
}

/// The join of `acc` with every status that `us` applies to slot `s`,
/// in order. Since the join is the maximum under the commitment
/// order, this is the maximum of `acc` and all applied statuses.
pub open spec fn join_from(acc: CommitmentStatus, us: Seq<UpdateModel>, s: u64) -> CommitmentStatus
    decreases us.len(),
{
    if us.len() == 0 {
        acc
    } else {
        join_from(
            if us[0].slot == s {
                acc.spec_join(us[0].status)
            } else {
                acc
            },
            us.drop_first(),
            s,
        )
    }
}

/// Slot `s` is never pruned away while `us` runs: whenever its record
/// exists before a step, it still exists after it. (A finalization can
/// prune a record; a later update may then recreate the slot from
/// scratch, and such a recreated record owes nothing to its past.)
pub open spec fn retained(t: TrackerModel, us: Seq<UpdateModel>, s: u64) -> bool
    decreases us.len(),
{
    us.len() == 0 || {
        let t1 = apply_model(t, us[0]);
        (t.slots.contains_key(s) ==> t1.slots.contains_key(s)) && retained(t1, us.drop_first(), s)
    }
}

/// Every surviving record sits at or above the finality floor.
pub open spec fn pruned_ok(t: TrackerModel) -> bool {
    forall|s: u64| t.slots.contains_key(s) ==> s >= t.newest_finalized_slot
}

/// No notification in `us` names a slot below the finality floor in
/// force when it arrives. (The tracker accepts such stragglers, but
/// they park a record below the floor until the next finalization.)
pub open spec fn updates_current(t: TrackerModel, us: Seq<UpdateModel>) -> bool
    decreases us.len(),
{
    us.len() == 0 || (us[0].slot >= t.newest_finalized_slot && updates_current(
        apply_model(t, us[0]),
        us.drop_first(),
    ))
}

/// One step only ever adds the update's own slot to the record map,
/// and that slot is always present afterwards.
pub proof fn lemma_apply_domain(t: TrackerModel, u: UpdateModel, s: u64)
    ensures
        apply_model(t, u).slots.contains_key(s) ==> t.slots.contains_key(s) || s == u.slot,
        apply_model(t, u).slots.contains_key(u.slot),
{
    let m1 = merged_slots(t.slots, u);
    assert(m1.contains_key(u.slot));
}

/// How one step changes a surviving record's status: the update's own
/// slot joins the incoming status, every other slot keeps its status.
pub proof fn lemma_status_step(t: TrackerModel, u: UpdateModel, s: u64)
    requires
        apply_model(t, u).slots.contains_key(s),
    ensures
        s == u.slot ==> apply_model(t, u).slots[s].status == initial_status(t, s).spec_join(
            u.status,
        ),
        s != u.slot ==> t.slots.contains_key(s) && apply_model(t, u).slots[s].status
            == t.slots[s].status,
{
    lemma_apply_domain(t, u, s);
    let m1 = merged_slots(t.slots, u);
}

/// How one step changes a surviving record's parent: the update's own
/// slot keeps a first-seen parent, every other slot keeps its parent.
pub proof fn lemma_parent_step(t: TrackerModel, u: UpdateModel, s: u64)
    requires
        apply_model(t, u).slots.contains_key(s),
    ensures
        s == u.slot && t.slots.contains_key(s) ==> apply_model(t, u).slots[s].parent == parent_or(
            t.slots[s].parent,
            u.parent,
        ),
        s == u.slot && !t.slots.contains_key(s) ==> apply_model(t, u).slots[s].parent == u.parent,
        s != u.slot ==> t.slots.contains_key(s) && apply_model(t, u).slots[s].parent
            == t.slots[s].parent,
{
    lemma_apply_domain(t, u, s);
    let m1 = merged_slots(t.slots, u);
}

/// Monotonic status: as long as a slot's record is never pruned, its
/// final status is the join — the maximum under the commitment order —
/// of its starting status and every status applied to it, whatever
/// the order of the notifications.
pub proof fn lemma_monotonic_status(t: TrackerModel, us: Seq<UpdateModel>, s: u64)
    requires
        retained(t, us, s),
    ensures
        apply_seq_model(t, us).slots.contains_key(s) ==> apply_seq_model(t, us).slots[s].status
            == join_from(initial_status(t, s), us, s),
    decreases us.len(),
{
    if us.len() > 0 {
        let u = us[0];
        let t1 = apply_model(t, u);
        let acc1 = if u.slot == s {
            initial_status(t, s).spec_join(u.status)
        } else {
            initial_status(t, s)
        };
        if t1.slots.contains_key(s) {
            lemma_status_step(t, u, s);
            assert(initial_status(t1, s) == acc1);
        } else {
            lemma_apply_domain(t, u, s);
            assert(s != u.slot);
            assert(!t.slots.contains_key(s));
            assert(initial_status(t1, s) == acc1);
        }
        lemma_monotonic_status(t1, us.drop_first(), s);
    }
}

/// Permanent parent: once a slot's parent is resolved to `x`, no
/// later notification moves it away from `x` for as long as the
/// record survives.
pub proof fn lemma_permanent_parent(t: TrackerModel, us: Seq<UpdateModel>, s: u64, x: u64)
    requires
        t.slots.contains_key(s),
        t.slots[s].parent == Some(x),
        retained(t, us, s),
    ensures
        apply_seq_model(t, us).slots.contains_key(s),
        apply_seq_model(t, us).slots[s].parent == Some(x),
    decreases us.len(),
{
    if us.len() > 0 {
        let u = us[0];
        let t1 = apply_model(t, u);
        assert(t1.slots.contains_key(s));
        lemma_parent_step(t, u, s);
        assert(t1.slots[s].parent == Some(x));
        lemma_permanent_parent(t1, us.drop_first(), s, x);
    }
}

/// One step keeps every surviving record at or above the finality
/// floor, provided the update itself is not a straggler below it.
pub proof fn lemma_pruning_step(t: TrackerModel, u: UpdateModel)
    requires
        pruned_ok(t),
        u.slot >= t.newest_finalized_slot,
    ensures
        pruned_ok(apply_model(t, u)),
{
    let t1 = apply_model(t, u);
    assert forall|s: u64| t1.slots.contains_key(s) implies s >= t1.newest_finalized_slot by {
        lemma_apply_domain(t, u, s);
        if finalized_advances(t, u) {
        } else {
            assert(t1.newest_finalized_slot == t.newest_finalized_slot);
        }
    }
}

/// Pruning correctness: after any run of notifications none of which
/// dips below the finality floor in force at its arrival, every
/// surviving record's id is at or above the newest finalized slot.
pub proof fn lemma_pruning_correct(t: TrackerModel, us: Seq<UpdateModel>)
    requires
        pruned_ok(t),
        updates_current(t, us),
    ensures
        pruned_ok(apply_seq_model(t, us)),
    decreases us.len(),
{
    if us.len() > 0 {
        lemma_pruning_step(t, us[0]);
        lemma_pruning_correct(apply_model(t, us[0]), us.drop_first());
    }
}

/// Monotonic counters: none of the three high-water counters ever
/// decreases across any sequence of applied notifications.
pub proof fn lemma_monotonic_counters(t: TrackerModel, us: Seq<UpdateModel>)
    ensures
        apply_seq_model(t, us).newest_processed_slot >= t.newest_processed_slot,
        apply_seq_model(t, us).newest_finalized_slot >= t.newest_finalized_slot,
        apply_seq_model(t, us).best_chain_slot >= t.best_chain_slot,
    decreases us.len(),
{
    if us.len() > 0 {
        lemma_monotonic_counters(apply_model(t, us[0]), us.drop_first());
    }
}

/// Children accumulate: whatever is linked in a record's children
/// set stays linked for as long as the record survives; a relink can
/// only add links, never remove them.
pub proof fn lemma_children_accumulate(t: TrackerModel, u: UpdateModel, s: u64)
    requires
        t.slots.contains_key(s),
        apply_model(t, u).slots.contains_key(s),
    ensures
        t.slots[s].children.subset_of(apply_model(t, u).slots[s].children),
{
    let m1 = merged_slots(t.slots, u);
    assert(m1[s].children == t.slots[s].children);
}

/// Idempotence: applying the identical notification twice in a row
/// yields the same tracker state as applying it once.
pub proof fn lemma_apply_idempotent(t: TrackerModel, u: UpdateModel)
    ensures
        apply_model(apply_model(t, u), u) == apply_model(t, u),
{
    let t1 = apply_model(t, u);
    assert(!finalized_advances(t1, u));
    assert(!chain_advances(t1, u));
    lemma_apply_domain(t, u, u.slot);
    let m1 = merged_slots(t.slots, u);
    let r1 = t1.slots[u.slot];
    assert(r1.parent == m1[u.slot].parent);
    assert(r1.status == m1[u.slot].status);
    assert(u.parent.is_some() ==> r1.parent.is_some());
    assert(!parent_newly_resolved(t1.slots, u));
    assert(r1.status.rank() >= u.status.rank());
    assert(r1.status.spec_join(u.status) == r1.status);
    assert(parent_or(r1.parent, u.parent) == r1.parent);
    let m1b = merged_slots(t1.slots, u);
    assert(m1b =~= t1.slots.insert(u.slot, r1));
    assert(m1b =~= t1.slots);
    assert(apply_model(t1, u) =~~= t1);
}

} // verus!
