//! The session on one device.
//!
//! A [`Context`] owns the active label of its device. Partitions reach the
//! label through it: one at a time, or as a whole table that is merged in
//! one step. Nothing here touches the device.

use vstd::prelude::*;
use crate::error::Error;
use crate::label::{
    blank_slots, in_window, overlaps, snapshot_arena, snapshot_handles, used_entries, DiskLabel,
    LabelFormat, LabelView,
};
use crate::merge::{is_lowest_free, views};
use crate::merge_lemmas::{
    lemma_merge_keeps_invariant, lemma_outside_request_is_refused,
    lemma_overlapping_request_is_refused, lemma_single_named_entry_is_commit,
    lemma_single_unnamed_entry_is_commit,
};
use crate::partition::{Arena, ArenaView, Partition, PartitionData};
use crate::table::{entries_of, stale_at, Table};

verus! {

/// What committing the partition to slot `partno` of the label gives: the
/// new label, or the reason why nothing is committed.
pub open spec fn set_outcome(label: LabelView, a: ArenaView, partno: usize, p: Partition) -> Result<
    LabelView,
    Error,
> {
    match a.lookup(p) {
        None => Err(Error::NotFound),
        Some(d) => label.commit_outcome(partno, d),
    }
}

/// What applying the handles `s` to the label gives: the merged label, or
/// the reason why nothing is merged.
pub open spec fn apply_outcome(label: LabelView, a: ArenaView, s: Seq<Partition>) -> Result<
    LabelView,
    Error,
> {
    if exists|i: int| stale_at(a, s, i) {
        Err(Error::NotFound)
    } else {
        label.merge_outcome(entries_of(a, s))
    }
}

/// Applying a table with an entry outside the usable window is refused
/// with `OutOfRange`: nothing of the table reaches the label.
pub proof fn lemma_apply_refuses_outside(label: LabelView, a: ArenaView, s: Seq<Partition>, i: int)
    requires
        forall|k: int| !stale_at(a, s, k),
        0 <= i < s.len(),
        !in_window(label.geometry, a.data(s[i])),
    ensures
        apply_outcome(label, a, s) == Err::<LabelView, Error>(Error::OutOfRange),
{
    lemma_outside_request_is_refused(label, entries_of(a, s), i);
}

/// Applying a table in which two entries share a sector is refused.
pub proof fn lemma_apply_refuses_overlap(
    label: LabelView,
    a: ArenaView,
    s: Seq<Partition>,
    i: int,
    j: int,
)
    requires
        0 <= i < s.len(),
        0 <= j < s.len(),
        i != j,
        overlaps(a.data(s[i]), a.data(s[j])),
    ensures
        apply_outcome(label, a, s) is Err,
{
    lemma_overlapping_request_is_refused(label, entries_of(a, s), i, j);
}

/// Applying a table that holds one partition, which names a slot, gives
/// what committing that partition to the slot gives.
pub proof fn lemma_apply_of_one_is_set(label: LabelView, a: ArenaView, p: Partition, partno: usize)
    requires
        label.wf(),
        a.is_live(p),
        a.data(p).partno == Some(partno),
    ensures
        apply_outcome(label, a, seq![p]) == set_outcome(label, a, partno, p),
{
    let s = seq![p];
    assert(entries_of(a, s) =~= seq![a.data(p)]);
    assert forall|i: int| !stale_at(a, s, i) by {}
    lemma_single_named_entry_is_commit(label, a.data(p), partno);
}

/// Applying a table that holds one partition, which names no slot, gives
/// what committing that partition to the lowest empty slot gives.
pub proof fn lemma_apply_of_one_unnamed_is_set(
    label: LabelView,
    a: ArenaView,
    p: Partition,
    free: usize,
)
    requires
        label.wf(),
        a.is_live(p),
        a.data(p).partno is None,
        is_lowest_free(label.slots, free as int),
    ensures
        apply_outcome(label, a, seq![p]) == set_outcome(label, a, free, p),
{
    let s = seq![p];
    assert(entries_of(a, s) =~= seq![a.data(p)]);
    assert forall|i: int| !stale_at(a, s, i) by {}
    lemma_single_unnamed_entry_is_commit(label, a.data(p), free as int);
}

/// A table that is applied leaves a label that keeps its invariant: every
/// entry inside the usable window of the same device, no two entries
/// sharing a sector.
pub proof fn lemma_applied_label_keeps_invariant(label: LabelView, a: ArenaView, s: Seq<Partition>)
    requires
        label.wf(),
        apply_outcome(label, a, s) is Ok,
    ensures
        apply_outcome(label, a, s)->Ok_0.wf(),
        apply_outcome(label, a, s)->Ok_0.geometry == label.geometry,
        apply_outcome(label, a, s)->Ok_0.format == label.format,
{
    lemma_merge_keeps_invariant(label, entries_of(a, s));
}

/// The session on one device: its active label.
pub struct Context {
    label: DiskLabel,
}

impl View for Context {
    type V = LabelView;

    closed spec fn view(&self) -> LabelView {
        self.label@
    }
}

impl Context {
    /// The context's invariant: its label's.
    pub open spec fn wf(&self) -> bool {
        self@.wf()
    }

    /// A context whose active label is `label`.
    pub fn new(label: DiskLabel) -> (context: Context)
        requires
            label.wf(),
        ensures
            context.wf(),
            context@ == label@,
    {
        Context { label }
    }

    /// Replaces the active label with a new, empty one of the given format
    /// on the same device. What the previous label held is gone from memory.
    pub fn create_disklabel(&mut self, format: LabelFormat)
        ensures
            final(self).wf(),
            final(self)@ == (LabelView {
                format,
                geometry: old(self)@.geometry,
                slots: blank_slots(format.slot_count()),
            }),
    {
        let geometry = self.label.geometry();
        self.label = DiskLabel::create(format, geometry);
    }

    /// The active label.
    pub fn get_label(&self) -> (label: &DiskLabel)
        ensures
            label@ == self@,
    {
        &self.label
    }

    /// The first sector a partition may use.
    pub fn first_lba(&self) -> (lba: u64)
        ensures
            lba == self@.geometry.first_usable_lba,
    {
        self.label.geometry().first_usable_lba
    }

    /// The last sector a partition may use.
    pub fn last_lba(&self) -> (lba: u64)
        ensures
            lba == self@.geometry.last_usable_lba,
    {
        self.label.geometry().last_usable_lba
    }

    /// Commits the partition to slot `partno` of the active label, in place
    /// of what the slot held. The label stores a copy of the fields.
    ///
    /// Fails, changing nothing, with `NotFound` when the handle names no
    /// entry, and otherwise as `DiskLabel::commit_partition` does.
    pub fn set_partition(&mut self, arena: &Arena, partno: usize, pa: &Partition) -> (r: Result<
        (),
        Error,
    >)
        requires
            old(self).wf(),
        ensures
            final(self).wf(),
            match set_outcome(old(self)@, arena@, partno, *pa) {
                Ok(committed) => r == Ok::<(), Error>(()) && final(self)@ == committed,
                Err(e) => r == Err::<(), Error>(e) && final(self)@ == old(self)@,
            },
    {
        match pa.data(arena) {
            None => Err(Error::NotFound),
            Some(d) => self.label.commit_partition(partno, &d),
        }
    }

    /// Empties slot `partno` of the active label.
    ///
    /// Fails with `NotFound`, changing nothing, when the slot is empty or
    /// the label has no such slot.
    pub fn delete_partition(&mut self, partno: usize) -> (r: Result<(), Error>)
        requires
            old(self).wf(),
        ensures
            final(self).wf(),
            r == (if old(self)@.is_used(partno) {
                Ok::<(), Error>(())
            } else {
                Err::<(), Error>(Error::NotFound)
            }),
            r is Ok ==> final(self)@ == old(self)@.delete(partno),
            r is Err ==> final(self)@ == old(self)@,
    {
        self.label.delete_partition(partno)
    }

    /// Empties every slot of the active label. This never fails.
    pub fn delete_all_partitions(&mut self) -> (r: Result<(), Error>)
        requires
            old(self).wf(),
        ensures
            final(self).wf(),
            r == Ok::<(), Error>(()),
            final(self)@ == old(self)@.cleared(),
    {
        self.label.delete_all()
    }

    /// A table of what the active label holds, as `DiskLabel::partitions`
    /// gives it.
    pub fn get_partitions(&self, arena: &mut Arena) -> (t: Table)
        requires
            self.wf(),
            old(arena).wf(),
        ensures
            final(arena).wf(),
            t.wf(),
            t.owner_count() == 1,
            final(arena)@ == snapshot_arena(old(arena)@, used_entries(self@.slots)),
            t@ == snapshot_handles(old(arena)@.slots.len(), used_entries(self@.slots).len()),
    {
        self.label.partitions(arena)
    }

    /// Merges the table into the active label, all of it or nothing.
    ///
    /// The entries are taken in the order of the table, with the fields they
    /// have at the time of the call, and merged as `DiskLabel::merge` does.
    /// The table and its partitions are left as they are.
    ///
    /// Fails, changing nothing, with `NotFound` when a handle of the table
    /// names no entry, and otherwise as `DiskLabel::merge` does.
    pub fn apply_table(&mut self, arena: &Arena, table: &Table) -> (r: Result<(), Error>)
        requires
            old(self).wf(),
        ensures
            final(self).wf(),
            match apply_outcome(old(self)@, arena@, table@) {
                Ok(merged) => r == Ok::<(), Error>(()) && final(self)@ == merged,
                Err(e) => r == Err::<(), Error>(e) && final(self)@ == old(self)@,
            },
    {
        let n = table.nents();
        let mut parts: Vec<PartitionData> = Vec::new();
        let mut i: usize = 0;
        while i < n
            invariant
                i <= n,
                n == table@.len(),
                parts@.len() == i,
                self.wf(),
                self@ == old(self)@,
                forall|k: int| 0 <= k < i ==> !stale_at(arena@, table@, k),
                forall|k: int|
                    0 <= k < i ==> arena@.is_live(table@[k]) && (#[trigger] parts@[k])@
                        == arena@.data(table@[k]),
            decreases n - i,
        {
            match table.partition(i) {
                None => {},
                Some(p) => {
                    match p.data(arena) {
                        None => {
                            assert(stale_at(arena@, table@, i as int));
                            return Err(Error::NotFound);
                        },
                        Some(d) => {
                            parts.push(d);
                        },
                    }
                },
            }
            i = i + 1;
        }
        assert(views(parts@) =~= entries_of(arena@, table@));
        self.label.merge(&parts)
    }
}

} // verus!
