//! What a merge does to a label, stated slot by slot and entry by entry.

use vstd::prelude::*;
use crate::error::Error;
use crate::label::{in_window, overlaps, resolve, LabelFormat, LabelView};
use crate::merge::{
    beyond_at, is_lowest_free, lemma_place_explicit_sound, lemma_place_unassigned_sound,
    lowest_free, outside_at, overlap_at, place_explicit, place_unassigned, same_slot_at,
    unsized_at,
};
use crate::partition::PartitionView;

verus! {

/// Entry `i` of the request names slot `k`.
pub open spec fn names_slot(parts: Seq<PartitionView>, i: int, k: int) -> bool {
    0 <= i < parts.len() && parts[i].partno == Some(k as usize)
}

/// Slot `k` holds entry `i` of the request, as a label of the format stores it.
pub open spec fn holds_entry(
    format: LabelFormat,
    slots: Seq<Option<PartitionView>>,
    parts: Seq<PartitionView>,
    i: int,
    k: int,
) -> bool {
    &&& 0 <= i < parts.len()
    &&& 0 <= k < slots.len()
    &&& slots[k] == Some(resolve(format, parts[i], k))
}

/// Storing the entries that name a slot keeps the number of slots.
pub proof fn lemma_place_explicit_len(
    format: LabelFormat,
    slots: Seq<Option<PartitionView>>,
    parts: Seq<PartitionView>,
)
    ensures
        place_explicit(format, slots, parts).len() == slots.len(),
    decreases parts.len(),
{
    if parts.len() > 0 {
        lemma_place_explicit_len(format, slots, parts.drop_last());
    }
}

/// A slot that no entry of the request names is left as it was when the
/// named entries are stored.
pub proof fn lemma_explicit_untouched(
    format: LabelFormat,
    slots: Seq<Option<PartitionView>>,
    parts: Seq<PartitionView>,
    k: int,
)
    requires
        0 <= k < slots.len(),
        forall|i: int| !names_slot(parts, i, k),
    ensures
        place_explicit(format, slots, parts)[k] == slots[k],
    decreases parts.len(),
{
    if parts.len() > 0 {
        let rest = parts.drop_last();
        assert forall|i: int| !names_slot(rest, i, k) by {
            if names_slot(rest, i, k) {
                assert(names_slot(parts, i, k));
            }
        }
        lemma_explicit_untouched(format, slots, rest, k);
        lemma_place_explicit_len(format, slots, rest);
        assert(!names_slot(parts, parts.len() - 1, k));
    }
}

/// An entry that names a slot of the label is in that slot once the named
/// entries are stored, where no two entries name the same slot.
pub proof fn lemma_explicit_stored(
    format: LabelFormat,
    slots: Seq<Option<PartitionView>>,
    parts: Seq<PartitionView>,
    i: int,
    k: int,
)
    requires
        0 <= k < slots.len(),
        k <= usize::MAX,
        names_slot(parts, i, k),
        forall|a: int, b: int| !same_slot_at(parts, a, b),
    ensures
        place_explicit(format, slots, parts)[k] == Some(resolve(format, parts[i], k)),
    decreases parts.len(),
{
    let rest = parts.drop_last();
    let last = parts.len() - 1;
    lemma_place_explicit_len(format, slots, rest);
    if i < last {
        assert forall|a: int, b: int| !same_slot_at(rest, a, b) by {
            if same_slot_at(rest, a, b) {
                assert(same_slot_at(parts, a, b));
            }
        }
        assert(names_slot(rest, i, k));
        lemma_explicit_stored(format, slots, rest, i, k);
        assert(!same_slot_at(parts, i, last));
    }
}

/// What giving out the empty slots does: the number of slots stays, a used
/// slot keeps its entry, and every slot holds what it held or an entry of
/// the request that names no slot.
pub proof fn lemma_unassigned_slots(
    format: LabelFormat,
    slots: Seq<Option<PartitionView>>,
    parts: Seq<PartitionView>,
)
    ensures
        place_unassigned(format, slots, parts) matches Some(placed) ==> {
            &&& placed.len() == slots.len()
            &&& forall|k: int|
                0 <= k < slots.len() && slots[k] is Some ==> #[trigger] placed[k] == slots[k]
            &&& forall|k: int|
                0 <= k < slots.len() && #[trigger] placed[k] != slots[k] ==> exists|i: int|
                    parts[i].partno is None && #[trigger] holds_entry(format, placed, parts, i, k)
        },
    decreases parts.len(),
{
    if parts.len() > 0 {
        let rest = parts.drop_last();
        let last = parts.len() - 1;
        lemma_unassigned_slots(format, slots, rest);
        match place_unassigned(format, slots, rest) {
            None => {},
            Some(prev) => {
                if parts.last().partno is None && lowest_free(prev) is Some {
                    let free = lowest_free(prev)->0;
                    assert(is_lowest_free(prev, free));
                    let placed = prev.update(free, Some(resolve(format, parts.last(), free)));
                    assert forall|k: int|
                        0 <= k < slots.len() && #[trigger] placed[k] != slots[k] implies exists|
                        i: int,
                    |
                        parts[i].partno is None && #[trigger] holds_entry(
                            format,
                            placed,
                            parts,
                            i,
                            k,
                        ) by {
                        if k == free {
                            assert(holds_entry(format, placed, parts, last, k));
                        } else {
                            assert(prev[k] != slots[k]);
                            let i = choose|i: int|
                                rest[i].partno is None && #[trigger] holds_entry(
                                    format,
                                    prev,
                                    rest,
                                    i,
                                    k,
                                );
                            assert(holds_entry(format, placed, parts, i, k));
                        }
                    }
                } else if parts.last().partno is Some {
                    assert forall|k: int|
                        0 <= k < slots.len() && #[trigger] prev[k] != slots[k] implies exists|
                        i: int,
                    |
                        parts[i].partno is None && #[trigger] holds_entry(
                            format,
                            prev,
                            parts,
                            i,
                            k,
                        ) by {
                        let i = choose|i: int|
                            rest[i].partno is None && #[trigger] holds_entry(
                                format,
                                prev,
                                rest,
                                i,
                                k,
                            );
                        assert(holds_entry(format, prev, parts, i, k));
                    }
                }
            },
        }
    }
}

/// Every entry of the request that names no slot is, once the empty slots
/// are given out, in a slot that was empty before.
pub proof fn lemma_unassigned_stored(
    format: LabelFormat,
    slots: Seq<Option<PartitionView>>,
    parts: Seq<PartitionView>,
    i: int,
)
    requires
        0 <= i < parts.len(),
        parts[i].partno is None,
        place_unassigned(format, slots, parts) is Some,
    ensures
        exists|k: int|
            slots[k] is None && #[trigger] holds_entry(
                format,
                place_unassigned(format, slots, parts)->0,
                parts,
                i,
                k,
            ),
    decreases parts.len(),
{
    let rest = parts.drop_last();
    let last = parts.len() - 1;
    let prev = place_unassigned(format, slots, rest)->0;
    let placed = place_unassigned(format, slots, parts)->0;
    lemma_unassigned_slots(format, slots, rest);
    if i < last {
        lemma_unassigned_stored(format, slots, rest, i);
        let k = choose|k: int| slots[k] is None && #[trigger] holds_entry(format, prev, rest, i, k);
        if parts.last().partno is None {
            let free = lowest_free(prev)->0;
            assert(is_lowest_free(prev, free));
        }
        assert(holds_entry(format, placed, parts, i, k));
    } else {
        let free = lowest_free(prev)->0;
        assert(is_lowest_free(prev, free));
        assert(slots[free] is None) by {
            if slots[free] is Some {
                assert(prev[free] == slots[free]);
            }
        }
        assert(holds_entry(format, placed, parts, i, free));
    }
}

/// A merge that succeeds gives a label that keeps the invariant: every
/// entry inside the usable window, no two entries sharing a sector.
pub proof fn lemma_merge_keeps_invariant(label: LabelView, parts: Seq<PartitionView>)
    requires
        label.wf(),
        label.merge_outcome(parts) is Ok,
    ensures
        label.merge_outcome(parts)->Ok_0.wf(),
        label.merge_outcome(parts)->Ok_0.format == label.format,
        label.merge_outcome(parts)->Ok_0.geometry == label.geometry,
{
    let named = place_explicit(label.format, label.slots, parts);
    lemma_place_explicit_sound(label, label.slots, parts);
    lemma_place_unassigned_sound(label, named, parts);
    let merged = label.merge_outcome(parts)->Ok_0;
    assert forall|k: int| 0 <= k < merged.slots.len() implies (#[trigger] merged.slots[k] matches Some(
        e,
    ) ==> merged.entry_ok(k, e)) by {
        if merged.slots[k] is Some {
            assert(label.entry_ok(k, merged.slots[k]->0));
        }
    }
}

/// A merge that succeeds has stored every entry of the request: each is in
/// a slot of the merged label, and in the slot it names if it names one.
pub proof fn lemma_merge_stores_every_entry(label: LabelView, parts: Seq<PartitionView>, i: int)
    requires
        label.wf(),
        label.merge_outcome(parts) is Ok,
        0 <= i < parts.len(),
    ensures
        exists|k: int|
            #[trigger] holds_entry(
                label.format,
                label.merge_outcome(parts)->Ok_0.slots,
                parts,
                i,
                k,
            ) && (parts[i].partno is Some ==> parts[i].partno == Some(k as usize)),
{
    let format = label.format;
    let named = place_explicit(format, label.slots, parts);
    let merged = label.merge_outcome(parts)->Ok_0.slots;
    lemma_place_explicit_len(format, label.slots, parts);
    lemma_unassigned_slots(format, named, parts);
    match parts[i].partno {
        Some(n) => {
            assert(!beyond_at(parts, label.slots.len(), i));
            assert(names_slot(parts, i, n as int));
            lemma_explicit_stored(format, label.slots, parts, i, n as int);
            assert(merged[n as int] == named[n as int]);
            assert(holds_entry(format, merged, parts, i, n as int));
        },
        None => {
            lemma_unassigned_stored(format, named, parts, i);
        },
    }
}

/// A merge that succeeds leaves alone what the request does not reach: an
/// entry of the label whose slot no entry of the request names is still
/// there.
pub proof fn lemma_merge_keeps_other_entries(label: LabelView, parts: Seq<PartitionView>, k: int)
    requires
        label.wf(),
        label.merge_outcome(parts) is Ok,
        0 <= k < label.slots.len(),
        label.slots[k] is Some,
        forall|i: int| !names_slot(parts, i, k),
    ensures
        label.merge_outcome(parts)->Ok_0.slots[k] == label.slots[k],
{
    let format = label.format;
    let named = place_explicit(format, label.slots, parts);
    lemma_place_explicit_len(format, label.slots, parts);
    lemma_explicit_untouched(format, label.slots, parts, k);
    lemma_unassigned_slots(format, named, parts);
    let merged = label.merge_outcome(parts)->Ok_0.slots;
    assert(merged[k] == named[k]);
}

/// A merge that succeeds puts nothing into the label but the request: every
/// slot holds what it held before or an entry of the request.
pub proof fn lemma_merge_adds_only_the_request(
    label: LabelView,
    parts: Seq<PartitionView>,
    k: int,
)
    requires
        label.wf(),
        label.merge_outcome(parts) is Ok,
        0 <= k < label.slots.len(),
    ensures
        label.merge_outcome(parts)->Ok_0.slots[k] == label.slots[k] || exists|i: int|
            #[trigger] holds_entry(
                label.format,
                label.merge_outcome(parts)->Ok_0.slots,
                parts,
                i,
                k,
            ),
{
    let format = label.format;
    let named = place_explicit(format, label.slots, parts);
    let merged = label.merge_outcome(parts)->Ok_0.slots;
    lemma_place_explicit_len(format, label.slots, parts);
    lemma_unassigned_slots(format, named, parts);
    if merged[k] != named[k] {
        let i = choose|i: int|
            parts[i].partno is None && #[trigger] holds_entry(format, merged, parts, i, k);
        assert(holds_entry(format, merged, parts, i, k));
    } else if exists|i: int| names_slot(parts, i, k) {
        let i = choose|i: int| names_slot(parts, i, k);
        lemma_explicit_stored(format, label.slots, parts, i, k);
        assert(holds_entry(format, merged, parts, i, k));
    } else {
        lemma_explicit_untouched(format, label.slots, parts, k);
    }
}

/// A request with an entry outside the usable window is refused with
/// `OutOfRange`, whatever else it holds.
pub proof fn lemma_outside_request_is_refused(
    label: LabelView,
    parts: Seq<PartitionView>,
    i: int,
)
    requires
        0 <= i < parts.len(),
        !in_window(label.geometry, parts[i]),
    ensures
        label.merge_outcome(parts) == Err::<LabelView, Error>(Error::OutOfRange),
{
    assert(outside_at(label.geometry, parts, i));
}

/// A request in which two entries share a sector is refused.
pub proof fn lemma_overlapping_request_is_refused(
    label: LabelView,
    parts: Seq<PartitionView>,
    i: int,
    j: int,
)
    requires
        0 <= i < parts.len(),
        0 <= j < parts.len(),
        i != j,
        overlaps(parts[i], parts[j]),
    ensures
        label.merge_outcome(parts) is Err,
{
    if i < j {
        assert(overlap_at(parts, i, j));
    } else {
        assert(overlap_at(parts, j, i));
    }
}

/// The entries come in the order of their starts.
pub open spec fn sorted_by_start(parts: Seq<PartitionView>) -> bool {
    forall|i: int, j: int| 0 <= i < j < parts.len() ==> parts[i].start <= parts[j].start
}

/// Entry `i` of the request shares a sector with the entry after it.
pub open spec fn neighbours_overlap_at(parts: Seq<PartitionView>, i: int) -> bool {
    0 <= i < parts.len() - 1 && overlaps(parts[i], parts[i + 1])
}

/// In a request that is sorted by start and has no entry without a size,
/// two entries share a sector exactly when two neighbours do: to look for
/// an overlap it is enough to sort and compare each entry with the next.
pub proof fn lemma_neighbours_decide_overlap(parts: Seq<PartitionView>)
    requires
        sorted_by_start(parts),
        forall|i: int| 0 <= i < parts.len() ==> parts[i].size > 0,
    ensures
        (exists|i: int, j: int| overlap_at(parts, i, j)) <==> (exists|i: int|
            neighbours_overlap_at(parts, i)),
{
    if exists|i: int| neighbours_overlap_at(parts, i) {
        let i = choose|i: int| neighbours_overlap_at(parts, i);
        assert(overlap_at(parts, i, i + 1));
    }
    if exists|i: int, j: int| overlap_at(parts, i, j) {
        let (i, j) = choose|i: int, j: int| overlap_at(parts, i, j);
        if !neighbours_overlap_at(parts, i) {
            assert(parts[i].start <= parts[i + 1].start);
            assert(parts[i + 1].start <= parts[j].start || i + 1 == j);
            assert(false);
        }
    }
}

/// Merging a request of one entry that names a slot is committing that
/// entry to the slot: the same label comes out, or the same refusal.
pub proof fn lemma_single_named_entry_is_commit(label: LabelView, d: PartitionView, partno: usize)
    requires
        label.wf(),
        d.partno == Some(partno),
    ensures
        label.merge_outcome(seq![d]) == label.commit_outcome(partno, d),
{
    let parts = seq![d];
    let format = label.format;
    assert(parts.drop_last() =~= Seq::<PartitionView>::empty());
    assert(parts.last() == d);
    assert(place_explicit(format, label.slots, parts.drop_last()) == label.slots);
    assert(place_unassigned(format, label.slots, parts.drop_last()) == Some(label.slots));
    if !in_window(label.geometry, d) {
        assert(outside_at(label.geometry, parts, 0));
    } else if d.size == 0 || !d.fits() {
        assert(unsized_at(parts, 0));
    } else if partno >= label.slots.len() {
        assert(beyond_at(parts, label.slots.len(), 0));
    } else {
        let named = place_explicit(format, label.slots, parts);
        assert(named == label.slots.update(partno as int, Some(resolve(format, d, partno as int))));
        assert(place_unassigned(format, named, parts.drop_last()) == Some(named));
        assert(place_unassigned(format, named, parts) == Some(named));
        let merged = label.with_slots(named);
        assert(merged == label.commit(partno, d));
        if exists|k: int| label.blocks(k, partno, d) {
            let k = choose|k: int| label.blocks(k, partno, d);
            assert(merged.clash(k, partno as int));
        } else {
            assert forall|a: int, b: int| !merged.clash(a, b) by {
                if merged.clash(a, b) {
                    if a == partno {
                        assert(label.blocks(b, partno, d));
                    } else if b == partno {
                        assert(label.blocks(a, partno, d));
                    } else {
                        assert(label.clash(a, b));
                    }
                }
            }
        }
    }
}

/// Merging a request of one entry that names no slot is committing that
/// entry to the lowest empty slot of the label.
pub proof fn lemma_single_unnamed_entry_is_commit(label: LabelView, d: PartitionView, free: int)
    requires
        label.wf(),
        d.partno is None,
        is_lowest_free(label.slots, free),
    ensures
        label.merge_outcome(seq![d]) == label.commit_outcome(free as usize, d),
{
    let parts = seq![d];
    let format = label.format;
    assert(parts.drop_last() =~= Seq::<PartitionView>::empty());
    assert(parts.last() == d);
    assert(place_explicit(format, label.slots, parts.drop_last()) == label.slots);
    assert(place_explicit(format, label.slots, parts) == label.slots);
    assert(place_unassigned(format, label.slots, parts.drop_last()) == Some(label.slots));
    if !in_window(label.geometry, d) {
        assert(outside_at(label.geometry, parts, 0));
    } else if d.size == 0 || !d.fits() {
        assert(unsized_at(parts, 0));
    } else {
        let chosen = lowest_free(label.slots)->0;
        assert(is_lowest_free(label.slots, chosen));
        assert(chosen == free) by {
            if chosen < free {
                assert(label.slots[chosen] is Some);
            } else if free < chosen {
                assert(label.slots[free] is Some);
            }
        }
        let partno = free as usize;
        let merged = label.with_slots(
            label.slots.update(free, Some(resolve(format, d, free))),
        );
        assert(merged == label.commit(partno, d));
        if exists|k: int| label.blocks(k, partno, d) {
            let k = choose|k: int| label.blocks(k, partno, d);
            assert(merged.clash(k, free));
        } else {
            assert forall|a: int, b: int| !merged.clash(a, b) by {
                if merged.clash(a, b) {
                    if a == free {
                        assert(label.blocks(b, partno, d));
                    } else if b == free {
                        assert(label.blocks(a, partno, d));
                    } else {
                        assert(label.clash(a, b));
                    }
                }
            }
        }
    }
}

} // verus!
