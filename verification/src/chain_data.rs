//! The chain tracker: slot records, the merge rule for incoming
//! notifications, the relink pass that refreshes parent/child
//! adjacency and fork tags, and the finality-driven prune.

use vstd::prelude::*;

use crate::model::{
    apply_model, chain_advances, finalized_advances, initial_model, linked_children, merged_slots,
    parent_newly_resolved, parent_or, pruned_slots, relinked_slots, RecModel, TrackerModel,
    UpdateModel,
};
use crate::status::{CommitmentStatus, UpdateError};

verus! {

/// A raw slot notification as the feed delivers it: the slot id, an
/// optional parent id, and the still-undecoded status code.
#[derive(Clone, Copy, Debug, PartialEq, Eq, Structural)]
pub struct SlotUpdate {
    pub slot: u64,
    pub parent: Option<u64>,
    pub status: i32,
}

/// Everything the tracker knows about one slot. `children` holds the
/// ids linked under this slot by relink passes, kept deduplicated and
/// in ascending order; `chain` records the best-chain tip under which
/// this record was last relinked.
#[derive(Clone, Debug, PartialEq, Eq)]
pub struct SlotData {
    pub slot: u64,
    pub parent: Option<u64>,
    pub children: Vec<u64>,
    pub status: CommitmentStatus,
    pub chain: u64,
}

impl SlotData {
    /// The children list as a set.
    pub open spec fn children_set(self) -> Set<u64> {
        Set::new(|c: u64| self.children@.contains(c))
    }

    /// Abstract view of this record.
    pub open spec fn model(self) -> RecModel {
        RecModel {
            parent: self.parent,
            children: self.children_set(),
            status: self.status,
            chain: self.chain,
        }
    }

    /// The notification this record carries, as the model sees it.
    pub open spec fn as_update(self) -> UpdateModel {
        UpdateModel { slot: self.slot, parent: self.parent, status: self.status }
    }

    /// The children list is strictly ascending, hence deduplicated.
    pub open spec fn children_sorted(self) -> bool {
        forall|i: int, j: int|
            0 <= i < j < self.children@.len() ==> self.children@[i] < self.children@[j]
    }

    /// Build a record from a raw notification. Fails with
    /// `InvalidStatus` exactly when the status code decodes to no
    /// known commitment status; the record otherwise carries the
    /// notification as given, with no children and a default chain tag.
    pub fn from_update(u: &SlotUpdate) -> (r: Result<SlotData, UpdateError>)
        ensures
            match r {
                Ok(d) => {
                    &&& CommitmentStatus::spec_of_code(u.status) == Some(d.status)
                    &&& d.slot == u.slot
                    &&& d.parent == u.parent
                    &&& d.children@ =~= Seq::<u64>::empty()
                    &&& d.chain == 0
                    &&& d.children_sorted()
                },
                Err(e) => {
                    &&& e == UpdateError::InvalidStatus
                    &&& CommitmentStatus::spec_of_code(u.status) is None
                },
            },
    {
        let status = CommitmentStatus::from_code(u.status)?;
        Ok(SlotData { slot: u.slot, parent: u.parent, children: Vec::new(), status, chain: 0 })
    }

    /// Register a child id, keeping the list deduplicated and sorted.
    /// Every other field is left alone.
    pub fn add_child(&mut self, child: u64)
        requires
            old(self).children_sorted(),
        ensures
            final(self).children_sorted(),
            final(self).children_set() == old(self).children_set().insert(child),
            final(self).slot == old(self).slot,
            final(self).parent == old(self).parent,
            final(self).status == old(self).status,
            final(self).chain == old(self).chain,
    {
        let mut i: usize = 0;
        while i < self.children.len() && self.children[i] < child
            invariant
                i <= self.children.len(),
                forall|j: int| 0 <= j < i ==> self.children@[j] < child,
                *self == *old(self),
            decreases self.children.len() - i,
        {
            i += 1;
        }
        if i < self.children.len() && self.children[i] == child {
            proof {
                assert(old(self).children@[i as int] == child);
                assert(old(self).children_set().contains(child));
                assert(final(self).children_set() =~= old(self).children_set().insert(child));
            }
            return;
        }
        self.children.insert(i, child);
        proof {
            let pre = old(self).children@;
            let post = self.children@;
            assert(post == pre.insert(i as int, child));
            assert forall|c: u64| post.contains(c) implies pre.contains(c) || c == child by {
                let j = choose|j: int| 0 <= j < post.len() && post[j] == c;
                if j < i {
                    assert(pre[j] == c);
                } else if j > i {
                    assert(pre[j - 1] == c);
                }
            }
            assert forall|c: u64| pre.contains(c) implies post.contains(c) by {
                let j = choose|j: int| 0 <= j < pre.len() && pre[j] == c;
                if j < i {
                    assert(post[j] == c);
                } else {
                    assert(post[j + 1] == c);
                }
            }
            assert(post[i as int] == child);
            assert(final(self).children_set() =~= old(self).children_set().insert(child));
        }
    }
}

/// Is a sequence of records strictly ascending by slot id?
pub open spec fn recs_sorted(s: Seq<SlotData>) -> bool {
    forall|i: int, j: int| 0 <= i < j < s.len() ==> s[i].slot < s[j].slot
}

/// Does some record in the sequence carry this slot id?
pub open spec fn recs_has(s: Seq<SlotData>, id: u64) -> bool {
    exists|i: int| 0 <= i < s.len() && s[i].slot == id
}

/// Index of the record carrying this slot id (unique when sorted).
pub open spec fn recs_index_of(s: Seq<SlotData>, id: u64) -> int {
    choose|i: int| 0 <= i < s.len() && s[i].slot == id
}

/// The record sequence as a map from slot id to record view.
pub open spec fn recs_model(s: Seq<SlotData>) -> Map<u64, RecModel> {
    Map::new(|id: u64| recs_has(s, id), |id: u64| s[recs_index_of(s, id)].model())
}

/// In a sorted sequence, slot ids are unique.
pub proof fn lemma_recs_unique(s: Seq<SlotData>, i: int, j: int)
    requires
        recs_sorted(s),
        0 <= i < s.len(),
        0 <= j < s.len(),
        s[i].slot == s[j].slot,
    ensures
        i == j,
{
    if i < j {
        assert(s[i].slot < s[j].slot);
    }
    if j < i {
        assert(s[j].slot < s[i].slot);
    }
}

/// Each position of a sorted record sequence is faithfully reflected
/// in the map view.
pub proof fn lemma_recs_model_at(s: Seq<SlotData>, i: int)
    requires
        recs_sorted(s),
        0 <= i < s.len(),
    ensures
        recs_has(s, s[i].slot),
        recs_index_of(s, s[i].slot) == i,
        recs_model(s).contains_key(s[i].slot),
        recs_model(s)[s[i].slot] == s[i].model(),
{
    assert(recs_has(s, s[i].slot));
    let j = recs_index_of(s, s[i].slot);
    lemma_recs_unique(s, i, j);
}

/// Tracks slots and forks: the record store plus the three high-water
/// counters. Only slots at or above `newest_finalized_slot` survive a
/// prune; records are kept in ascending slot order.
#[derive(Debug, PartialEq, Eq)]
pub struct ChainData {
    pub slots: Vec<SlotData>,
    pub newest_finalized_slot: u64,
    pub newest_processed_slot: u64,
    pub best_chain_slot: u64,
}

impl ChainData {
    /// Records are strictly ascending by slot id (so ids are unique)
    /// and every children list is strictly ascending as well.
    pub open spec fn wf(self) -> bool {
        &&& recs_sorted(self.slots@)
        &&& forall|i: int| 0 <= i < self.slots@.len() ==> self.slots@[i].children_sorted()
    }

    /// Is a record for this slot id present?
    pub open spec fn has_slot(self, id: u64) -> bool {
        recs_has(self.slots@, id)
    }

    /// The record stored for this slot id.
    pub open spec fn spec_record(self, id: u64) -> SlotData {
        self.slots@[recs_index_of(self.slots@, id)]
    }

    /// The record store as a map from slot id to record view.
    pub open spec fn slots_model(self) -> Map<u64, RecModel> {
        recs_model(self.slots@)
    }

    /// Abstract view of the whole tracker.
    pub open spec fn model(self) -> TrackerModel {
        TrackerModel {
            slots: self.slots_model(),
            newest_finalized_slot: self.newest_finalized_slot,
            newest_processed_slot: self.newest_processed_slot,
            best_chain_slot: self.best_chain_slot,
        }
    }

    /// A fresh tracker: no records, all counters zero.
    pub fn new() -> (r: ChainData)
        ensures
            r.wf(),
            r.model() == initial_model(),
    {
        let r = ChainData {
            slots: Vec::new(),
            newest_finalized_slot: 0,
            newest_processed_slot: 0,
            best_chain_slot: 0,
        };
        proof {
            assert(r.slots_model() =~= Map::<u64, RecModel>::empty());
            assert(r.model() =~~= initial_model());
        }
        r
    }

    /// Find where a slot id lives in the sorted record store: the
    /// returned index is the first position not below `id`, and the
    /// flag says whether the record at that position carries `id`.
    fn locate(&self, id: u64) -> (r: (usize, bool))
        requires
            recs_sorted(self.slots@),
        ensures
            r.0 <= self.slots@.len(),
            forall|j: int| 0 <= j < r.0 ==> self.slots@[j].slot < id,
            r.1 ==> r.0 < self.slots@.len() && self.slots@[r.0 as int].slot == id,
            !r.1 ==> forall|j: int| r.0 <= j < self.slots@.len() ==> self.slots@[j].slot > id,
            r.1 == self.has_slot(id),
    {
        let mut i: usize = 0;
        while i < self.slots.len() && self.slots[i].slot < id
            invariant
                i <= self.slots@.len(),
                recs_sorted(self.slots@),
                forall|j: int| 0 <= j < i ==> self.slots@[j].slot < id,
            decreases self.slots@.len() - i,
        {
            i += 1;
        }
        let found = i < self.slots.len() && self.slots[i].slot == id;
        proof {
            if found {
                assert(recs_has(self.slots@, id));
            } else {
                if i < self.slots@.len() {
                    assert(self.slots@[i as int].slot > id);
                }
                assert forall|j: int| i <= j < self.slots@.len() implies self.slots@[j].slot
                    > id by {
                    assert(self.slots@[i as int].slot > id);
                    if j > i {
                        assert(self.slots@[i as int].slot < self.slots@[j].slot);
                    }
                }
                if recs_has(self.slots@, id) {
                    let k = recs_index_of(self.slots@, id);
                    assert(self.slots@[k].slot == id);
                }
            }
        }
        (i, found)
    }

    /// Read access for a renderer: the record for `id`, if one is
    /// retained.
    pub fn get(&self, id: u64) -> (r: Option<&SlotData>)
        requires
            recs_sorted(self.slots@),
        ensures
            match r {
                Some(d) => self.has_slot(id) && *d == self.spec_record(id) && d.slot == id,
                None => !self.has_slot(id),
            },
    {
        let (i, found) = self.locate(id);
        if found {
            proof {
                lemma_recs_model_at(self.slots@, i as int);
            }
            Some(&self.slots[i])
        } else {
            None
        }
    }
}

impl Default for ChainData {
    /// Same as [`ChainData::new`].
    fn default() -> (r: ChainData)
        ensures
            r.wf(),
            r.model() == initial_model(),
    {
        ChainData::new()
    }
}

/// Replacing the record at `pos` by one with the same slot id shows
/// up in the map view as an insert over the old key.
pub proof fn lemma_recs_model_update(pre: Seq<SlotData>, post: Seq<SlotData>, pos: int, rec: SlotData)
    requires
        recs_sorted(pre),
        0 <= pos < pre.len(),
        rec.slot == pre[pos].slot,
        post == pre.update(pos, rec),
    ensures
        recs_sorted(post),
        recs_model(post) == recs_model(pre).insert(rec.slot, rec.model()),
{
    assert(forall|i: int| 0 <= i < post.len() ==> #[trigger] post[i].slot == pre[i].slot);
    assert(recs_sorted(post));
    let m1 = recs_model(post);
    let m2 = recs_model(pre).insert(rec.slot, rec.model());
    assert forall|id: u64| recs_has(post, id) implies recs_has(pre, id) by {
        let i = choose|i: int| 0 <= i < post.len() && post[i].slot == id;
        assert(pre[i].slot == id);
    }
    assert forall|id: u64| recs_has(pre, id) implies recs_has(post, id) by {
        let i = choose|i: int| 0 <= i < pre.len() && pre[i].slot == id;
        assert(post[i].slot == id);
    }
    assert(recs_has(pre, rec.slot)) by {
        assert(pre[pos].slot == rec.slot);
    }
    assert forall|id: u64| m1.contains_key(id) implies m1[id] == m2[id] by {
        let i = recs_index_of(post, id);
        assert(0 <= i < post.len() && post[i].slot == id);
        lemma_recs_model_at(post, i);
        if id == rec.slot {
            lemma_recs_unique(post, i, pos);
            assert(m1[id] == rec.model());
        } else {
            assert(i != pos);
            assert(post[i] == pre[i]);
            lemma_recs_model_at(pre, i);
            assert(m2[id] == recs_model(pre)[id]);
        }
    }
    assert(m1 =~= m2);
}

/// Inserting a record with a fresh slot id at its sorted position
/// shows up in the map view as an insert of a new key.
pub proof fn lemma_recs_model_insert(pre: Seq<SlotData>, post: Seq<SlotData>, pos: int, rec: SlotData)
    requires
        recs_sorted(pre),
        0 <= pos <= pre.len(),
        forall|j: int| 0 <= j < pos ==> pre[j].slot < rec.slot,
        forall|j: int| pos <= j < pre.len() ==> pre[j].slot > rec.slot,
        post == pre.insert(pos, rec),
    ensures
        recs_sorted(post),
        recs_model(post) == recs_model(pre).insert(rec.slot, rec.model()),
{
    assert(post.len() == pre.len() + 1);
    assert(forall|j: int| 0 <= j < pos ==> #[trigger] post[j].slot == pre[j].slot);
    assert(post[pos].slot == rec.slot);
    assert(forall|j: int| pos < j < post.len() ==> #[trigger] post[j].slot == pre[j - 1].slot);
    assert forall|i: int, j: int| 0 <= i < j < post.len() implies post[i].slot < post[j].slot by {
        if i < pos && j == pos {
        } else if i < pos && j > pos {
            if i < j - 1 {
                assert(pre[i].slot < pre[j - 1].slot);
            }
        } else if i == pos && j > pos {
        } else if i > pos && j > pos {
            assert(pre[i - 1].slot < pre[j - 1].slot);
        }
    }
    let m1 = recs_model(post);
    let m2 = recs_model(pre).insert(rec.slot, rec.model());
    assert forall|id: u64| recs_has(post, id) implies recs_has(pre, id) || id == rec.slot by {
        let i = choose|i: int| 0 <= i < post.len() && post[i].slot == id;
        if i < pos {
            assert(pre[i].slot == id);
        } else if i > pos {
            assert(pre[i - 1].slot == id);
        }
    }
    assert forall|id: u64| recs_has(pre, id) implies recs_has(post, id) by {
        let i = choose|i: int| 0 <= i < pre.len() && pre[i].slot == id;
        if i < pos {
            assert(post[i].slot == id);
        } else {
            assert(post[i + 1].slot == id);
        }
    }
    assert(recs_has(post, rec.slot)) by {
        assert(post[pos].slot == rec.slot);
    }
    assert forall|id: u64| m1.contains_key(id) implies m1[id] == m2[id] by {
        let i = recs_index_of(post, id);
        assert(0 <= i < post.len() && post[i].slot == id);
        lemma_recs_model_at(post, i);
        if id == rec.slot {
            lemma_recs_unique(post, i, pos);
            assert(m1[id] == rec.model());
        } else {
            assert(i != pos);
            if i < pos {
                assert(post[i] == pre[i]);
                lemma_recs_model_at(pre, i);
            } else {
                assert(post[i] == pre[i - 1]);
                lemma_recs_model_at(pre, i - 1);
            }
            assert(m2[id] == recs_model(pre)[id]);
        }
    }
    assert(m1 =~= m2);
}

/// The children that the first `n` records of `s0` contribute under
/// parent `p`: every such record whose resolved parent is `p`.
pub open spec fn prefix_children(s0: Seq<SlotData>, p: u64, n: int) -> Set<u64> {
    Set::new(|c: u64| exists|k: int| 0 <= k < n && s0[k].slot == c && s0[k].parent == Some(p))
}

/// Extending the prefix by one record adds exactly that record's id
/// when its parent is `p`, and nothing otherwise.
pub proof fn lemma_prefix_step(s0: Seq<SlotData>, p: u64, i: int)
    requires
        0 <= i < s0.len(),
    ensures
        s0[i].parent == Some(p) ==> prefix_children(s0, p, i + 1) == prefix_children(
            s0,
            p,
            i,
        ).insert(s0[i].slot),
        s0[i].parent != Some(p) ==> prefix_children(s0, p, i + 1) == prefix_children(s0, p, i),
{
    assert forall|c: u64|
        prefix_children(s0, p, i + 1).contains(c) implies prefix_children(s0, p, i).contains(c) || (
    s0[i].parent == Some(p) && c == s0[i].slot) by {
        let k = choose|k: int| 0 <= k < i + 1 && s0[k].slot == c && s0[k].parent == Some(p);
        if k < i {
            assert(prefix_children(s0, p, i).contains(c));
        }
    }
    if s0[i].parent == Some(p) {
        assert(prefix_children(s0, p, i + 1).contains(s0[i].slot));
        assert(prefix_children(s0, p, i + 1) =~= prefix_children(s0, p, i).insert(s0[i].slot));
    } else {
        assert(prefix_children(s0, p, i + 1) =~= prefix_children(s0, p, i));
    }
}

/// Over the whole sequence, the contributed children are exactly the
/// linked children of `p` in the map view.
pub proof fn lemma_prefix_full(s0: Seq<SlotData>, p: u64)
    requires
        recs_sorted(s0),
    ensures
        prefix_children(s0, p, s0.len() as int) == linked_children(recs_model(s0), p),
{
    let m0 = recs_model(s0);
    assert forall|c: u64|
        prefix_children(s0, p, s0.len() as int).contains(c) implies linked_children(
        m0,
        p,
    ).contains(c) by {
        let k = choose|k: int|
            0 <= k < s0.len() && s0[k].slot == c && s0[k].parent == Some(p);
        lemma_recs_model_at(s0, k);
        assert(m0[c] == s0[k].model());
    }
    assert forall|c: u64|
        linked_children(m0, p).contains(c) implies prefix_children(
        s0,
        p,
        s0.len() as int,
    ).contains(c) by {
        assert(recs_has(s0, c));
        let k = recs_index_of(s0, c);
        assert(0 <= k < s0.len() && s0[k].slot == c);
        lemma_recs_model_at(s0, k);
        assert(s0[k].parent == Some(p));
    }
    assert(prefix_children(s0, p, s0.len() as int) =~= linked_children(m0, p));
}


impl ChainData {
    /// The relink pass, seeded at the current best tip: tag every
    /// record with `tip` and register every record whose resolved
    /// parent is retained into that parent's children set. A walk
    /// down the parent links from the tip, followed by walks from
    /// every slot the first walk missed, touches every retained
    /// record; one sweep in ascending slot order touches the same
    /// records and leaves the same state, so that is what runs here.
    /// Fork fragments are tagged with the same tip as the main chain:
    /// the tag means "best tip at the last relink that touched this
    /// record", not a per-fork identity.
    fn relink(&mut self, tip: u64)
        requires
            old(self).wf(),
        ensures
            final(self).wf(),
            final(self).slots_model() == relinked_slots(old(self).slots_model(), tip),
            final(self).newest_finalized_slot == old(self).newest_finalized_slot,
            final(self).newest_processed_slot == old(self).newest_processed_slot,
            final(self).best_chain_slot == old(self).best_chain_slot,
    {
        let ghost s0 = self.slots@;
        let n = self.slots.len();
        proof {
            assert forall|k: int| 0 <= k < n implies #[trigger] s0[k].children_set() == s0[k].children_set().union(prefix_children(s0, s0[k].slot, 0)) by {
                assert(s0[k].children_set() =~= s0[k].children_set().union(
                    prefix_children(s0, s0[k].slot, 0),
                ));
            }
        }
        let mut i: usize = 0;
        while i < n
            invariant
                n == self.slots@.len(),
                s0.len() == n,
                i <= n,
                self.wf(),
                self.newest_finalized_slot == old(self).newest_finalized_slot,
                self.newest_processed_slot == old(self).newest_processed_slot,
                self.best_chain_slot == old(self).best_chain_slot,
                s0 == old(self).slots@,
                forall|k: int| 0 <= k < n ==> #[trigger] self.slots@[k].slot == s0[k].slot,
                forall|k: int| 0 <= k < n ==> #[trigger] self.slots@[k].parent == s0[k].parent,
                forall|k: int| 0 <= k < n ==> #[trigger] self.slots@[k].status == s0[k].status,
                forall|k: int|
                    0 <= k < n ==> #[trigger] self.slots@[k].chain == (if k < i {
                        tip
                    } else {
                        s0[k].chain
                    }),
                forall|k: int|
                    0 <= k < n ==> #[trigger] self.slots@[k].children_set() == s0[k].children_set().union(prefix_children(s0, s0[k].slot, i as int)),
            decreases n - i,
        {
            let ghost s_a = self.slots@;
            let mut rec = self.slots.remove(i);
            rec.chain = tip;
            let child_id = rec.slot;
            let maybe_parent = rec.parent;
            let ghost grec = rec;
            self.slots.insert(i, rec);
            proof {
                assert(self.slots@ =~= s_a.update(i as int, grec));
                assert(grec.children_set() == s_a[i as int].children_set());
            }
            let ghost s_b = self.slots@;
            if let Some(p) = maybe_parent {
                let (j, found) = self.locate(p);
                if found {
                    let mut prec = self.slots.remove(j);
                    prec.add_child(child_id);
                    let ghost gprec = prec;
                    self.slots.insert(j, prec);
                    proof {
                        assert(self.slots@ =~= s_b.update(j as int, gprec));
                        assert(gprec.children_set() == s_b[j as int].children_set().insert(
                            child_id,
                        ));
                    }
                }
            }
            i += 1;
            proof {
                let ii = i - 1;
                assert(s0[ii].slot == child_id);
                assert(s0[ii].parent == maybe_parent);
                assert forall|k: int|
                    0 <= k < n implies #[trigger] self.slots@[k].children_set() == s0[k].children_set().union(prefix_children(s0, s0[k].slot, i as int)) by {
                    lemma_prefix_step(s0, s0[k].slot, ii);
                    if maybe_parent == Some(s0[k].slot) && recs_has(s_b, s0[k].slot) {
                        let j = recs_index_of(s_b, s0[k].slot);
                        lemma_recs_unique(s_b, j, k);
                        assert(self.slots@[k].children_set() == s_b[k].children_set().insert(
                            child_id,
                        ));
                        assert(s_b[k].children_set() == s0[k].children_set().union(
                            prefix_children(s0, s0[k].slot, ii),
                        ));
                        assert(self.slots@[k].children_set() =~= s0[k].children_set().union(
                            prefix_children(s0, s0[k].slot, i as int),
                        ));
                    } else {
                        assert(self.slots@[k].children_set() == s_b[k].children_set());
                        if s0[ii].parent == Some(s0[k].slot) {
                            assert(!recs_has(s_b, s0[k].slot));
                            assert(s_b[k].slot == s0[k].slot);
                            assert(recs_has(s_b, s0[k].slot));
                        }
                        assert(prefix_children(s0, s0[k].slot, i as int) == prefix_children(
                            s0,
                            s0[k].slot,
                            ii,
                        ));
                    }
                }
            }
        }
        proof {
            let sf = self.slots@;
            let m0 = recs_model(s0);
            let m1 = recs_model(sf);
            let m2 = relinked_slots(m0, tip);
            assert forall|id: u64| recs_has(sf, id) implies recs_has(s0, id) by {
                let k = choose|k: int| 0 <= k < sf.len() && sf[k].slot == id;
                assert(s0[k].slot == id);
            }
            assert forall|id: u64| recs_has(s0, id) implies recs_has(sf, id) by {
                let k = choose|k: int| 0 <= k < s0.len() && s0[k].slot == id;
                assert(sf[k].slot == id);
            }
            assert forall|id: u64| m1.contains_key(id) implies m1[id] == m2[id] by {
                let k = recs_index_of(sf, id);
                assert(0 <= k < sf.len() && sf[k].slot == id);
                lemma_recs_model_at(sf, k);
                assert(s0[k].slot == id);
                lemma_recs_model_at(s0, k);
                lemma_prefix_full(s0, id);
                assert(m0[id].children == s0[k].children_set());
                assert(sf[k].children_set() == s0[k].children_set().union(
                    prefix_children(s0, id, n as int),
                ));
                assert(m1[id] == sf[k].model());
            }
            assert(m1 =~= m2);
        }
    }

    /// Drop every record whose slot id lies below the newest finalized
    /// slot. This is the tracker's only deletion path.
    fn prune(&mut self)
        requires
            old(self).wf(),
        ensures
            final(self).wf(),
            final(self).slots_model() == pruned_slots(
                old(self).slots_model(),
                old(self).newest_finalized_slot,
            ),
            final(self).newest_finalized_slot == old(self).newest_finalized_slot,
            final(self).newest_processed_slot == old(self).newest_processed_slot,
            final(self).best_chain_slot == old(self).best_chain_slot,
    {
        let nf = self.newest_finalized_slot;
        let ghost s0 = self.slots@;
        proof {
            assert(self.slots@ =~= s0.subrange(s0.len() - self.slots@.len(), s0.len() as int));
        }
        while self.slots.len() > 0 && self.slots[0].slot < nf
            invariant
                self.wf(),
                nf == self.newest_finalized_slot,
                self.newest_finalized_slot == old(self).newest_finalized_slot,
                self.newest_processed_slot == old(self).newest_processed_slot,
                self.best_chain_slot == old(self).best_chain_slot,
                s0 == old(self).slots@,
                self.slots@.len() <= s0.len(),
                self.slots@ == s0.subrange(s0.len() - self.slots@.len(), s0.len() as int),
                forall|j: int|
                    0 <= j < s0.len() - self.slots@.len() ==> #[trigger] s0[j].slot < nf,
            decreases self.slots@.len(),
        {
            let ghost s_a = self.slots@;
            self.slots.remove(0);
            proof {
                let k = s0.len() - s_a.len();
                assert(s_a[0] == s0[k]);
                assert(self.slots@ =~= s0.subrange(s0.len() - self.slots@.len(), s0.len() as int));
            }
        }
        proof {
            let sf = self.slots@;
            let k = s0.len() - sf.len();
            assert forall|j: int| k <= j < s0.len() implies #[trigger] s0[j].slot >= nf by {
                assert(s0[j] == sf[j - k]);
                assert(sf[0].slot >= nf);
                if j > k {
                    assert(sf[0].slot < sf[j - k].slot);
                }
            }
            let m0 = recs_model(s0);
            let m1 = recs_model(sf);
            let m2 = pruned_slots(m0, nf);
            assert forall|id: u64| recs_has(sf, id) implies recs_has(s0, id) && id >= nf by {
                let j = choose|j: int| 0 <= j < sf.len() && sf[j].slot == id;
                assert(s0[j + k].slot == id);
                assert(s0[j + k].slot >= nf);
            }
            assert forall|id: u64| recs_has(s0, id) && id >= nf implies recs_has(sf, id) by {
                let j = choose|j: int| 0 <= j < s0.len() && s0[j].slot == id;
                assert(j >= k);
                assert(sf[j - k].slot == id);
            }
            assert forall|id: u64| m1.contains_key(id) implies m1[id] == m2[id] by {
                let j = recs_index_of(sf, id);
                assert(0 <= j < sf.len() && sf[j].slot == id);
                lemma_recs_model_at(sf, j);
                assert(s0[j + k] == sf[j]);
                lemma_recs_model_at(s0, j + k);
            }
            assert(m1 =~= m2);
        }
    }
}


impl ChainData {
    /// Apply one slot notification, already decoded into a record
    /// shape: raise the high-water counters, merge the notification
    /// into the record store (first-seen parent wins, status joins
    /// upward), relink when the best tip advanced or a parent link
    /// was newly resolved, and prune when finality advanced. The
    /// final state is exactly `apply_model` of the previous state.
    /// Only the notification's slot, parent and status are read.
    pub fn update_slot(&mut self, new_slot: SlotData)
        requires
            old(self).wf(),
        ensures
            final(self).wf(),
            final(self).model() == apply_model(old(self).model(), new_slot.as_update()),
    {
        let ghost t0 = old(self).model();
        let ghost u = new_slot.as_update();
        let slot = new_slot.slot;
        let parent = new_slot.parent;
        let status = new_slot.status;

        let new_processed_head = slot > self.newest_processed_slot;
        if new_processed_head {
            self.newest_processed_slot = slot;
        }

        let new_finalized_head = slot > self.newest_finalized_slot && status
            == CommitmentStatus::Finalized;
        if new_finalized_head {
            self.newest_finalized_slot = slot;
        }

        // The highest slot with a known parent is the best chain tip:
        // a slot may confirm before its parent is even known.
        let new_best_chain = parent.is_some() && slot > self.best_chain_slot;
        if new_best_chain {
            self.best_chain_slot = slot;
        }

        proof {
            assert(new_finalized_head == finalized_advances(t0, u));
            assert(new_best_chain == chain_advances(t0, u));
        }

        let ghost s_pre = self.slots@;
        let (pos, found) = self.locate(slot);
        let mut parent_update = false;
        if found {
            let mut rec = self.slots.remove(pos);
            parent_update = parent.is_some() && rec.parent.is_none();
            if rec.parent.is_none() {
                rec.parent = parent;
            }
            rec.status = rec.status.join(status);
            let ghost grec = rec;
            self.slots.insert(pos, rec);
            proof {
                assert(self.slots@ =~= s_pre.update(pos as int, grec));
                lemma_recs_model_at(s_pre, pos as int);
                lemma_recs_model_update(s_pre, self.slots@, pos as int, grec);
                let r0 = t0.slots[u.slot];
                assert(r0 == s_pre[pos as int].model());
                assert(grec.model() == RecModel {
                    parent: parent_or(r0.parent, u.parent),
                    children: r0.children,
                    status: r0.status.spec_join(u.status),
                    chain: r0.chain,
                });
                assert(recs_model(self.slots@) == merged_slots(t0.slots, u));
                assert(parent_update == parent_newly_resolved(t0.slots, u));
            }
        } else {
            let rec = SlotData { slot, parent, children: Vec::new(), status, chain: 0 };
            parent_update = parent.is_some();
            let ghost grec = rec;
            self.slots.insert(pos, rec);
            proof {
                assert(self.slots@ =~= s_pre.insert(pos as int, grec));
                lemma_recs_model_insert(s_pre, self.slots@, pos as int, grec);
                assert(!t0.slots.contains_key(u.slot));
                assert(grec.children_set() =~= Set::<u64>::empty());
                assert(grec.model() == RecModel {
                    parent: u.parent,
                    children: Set::<u64>::empty(),
                    status: u.status,
                    chain: 0,
                });
                assert(recs_model(self.slots@) == merged_slots(t0.slots, u));
                assert(parent_update == parent_newly_resolved(t0.slots, u));
            }
        }
        proof {
            assert(self.wf());
            assert(self.slots_model() == merged_slots(t0.slots, u));
        }

        if new_best_chain || parent_update {
            let tip = self.best_chain_slot;
            self.relink(tip);
        }

        if new_finalized_head {
            self.prune();
        }

        proof {
            assert(final(self).model() =~~= apply_model(t0, u));
        }
    }

    /// The tracker's sole mutation entry point for raw notifications:
    /// decode the status code and apply the update. A notification
    /// whose status code is unknown is rejected with `InvalidStatus`
    /// and leaves the tracker untouched; every other notification is
    /// fully applied.
    pub fn apply(&mut self, u: &SlotUpdate) -> (r: Result<(), UpdateError>)
        requires
            old(self).wf(),
        ensures
            final(self).wf(),
            match CommitmentStatus::spec_of_code(u.status) {
                Some(st) => r == Ok::<(), UpdateError>(()) && final(self).model() == apply_model(
                    old(self).model(),
                    UpdateModel { slot: u.slot, parent: u.parent, status: st },
                ),
                None => r == Err::<(), UpdateError>(UpdateError::InvalidStatus) && *final(self)
                    == *old(self),
            },
    {
        match SlotData::from_update(u) {
            Ok(rec) => {
                let ghost um = rec.as_update();
                self.update_slot(rec);
                proof {
                    assert(um == UpdateModel {
                        slot: u.slot,
                        parent: u.parent,
                        status: CommitmentStatus::spec_of_code(u.status)->Some_0,
                    });
                }
                Ok(())
            },
            Err(e) => Err(e),
        }
    }
}

} // verus!
