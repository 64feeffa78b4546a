//! Merging a whole request into a label in one step.
//!
//! A request is a sequence of entries. Those that name a partition number
//! replace what the label holds in that slot; the others take the lowest
//! slots that are still empty, in the order of the request. What the label
//! holds in other slots stays. Either every entry of the request is stored
//! or the label is left as it was.

use vstd::prelude::*;
use crate::error::Error;
use crate::label::{
    clash_in, fits_window, in_window, overlaps, resolve, shares_sector, slots_view, DiskLabel,
    Geometry, LabelFormat, LabelView,
};
use crate::partition::{PartitionData, PartitionView};

verus! {

/// The entries of a request as the contracts see them.
pub open spec fn views(parts: Seq<PartitionData>) -> Seq<PartitionView> {
    Seq::new(parts.len(), |i: int| parts[i]@)
}

/// Entry `i` of the request leaves the usable window.
pub open spec fn outside_at(g: Geometry, parts: Seq<PartitionView>, i: int) -> bool {
    0 <= i < parts.len() && !in_window(g, parts[i])
}

/// Entry `i` of the request has no size yet, or one that overflows.
pub open spec fn unsized_at(parts: Seq<PartitionView>, i: int) -> bool {
    0 <= i < parts.len() && (parts[i].size == 0 || !parts[i].fits())
}

/// Entries `i` and `j` of the request share a sector.
pub open spec fn overlap_at(parts: Seq<PartitionView>, i: int, j: int) -> bool {
    0 <= i < j < parts.len() && overlaps(parts[i], parts[j])
}

/// Entry `i` of the request names a partition number that a label with
/// `n` slots does not have.
pub open spec fn beyond_at(parts: Seq<PartitionView>, n: nat, i: int) -> bool {
    &&& 0 <= i < parts.len()
    &&& parts[i].partno matches Some(k)
    &&& k >= n
}

/// Entries `i` and `j` of the request name the same partition number.
pub open spec fn same_slot_at(parts: Seq<PartitionView>, i: int, j: int) -> bool {
    &&& 0 <= i < j < parts.len()
    &&& parts[i].partno is Some
    &&& parts[i].partno == parts[j].partno
}

/// The slots after every entry of the request that names a partition
/// number has been stored in its slot.
pub open spec fn place_explicit(
    format: LabelFormat,
    slots: Seq<Option<PartitionView>>,
    parts: Seq<PartitionView>,
) -> Seq<Option<PartitionView>>
    decreases parts.len(),
{
    if parts.len() == 0 {
        slots
    } else {
        let prev = place_explicit(format, slots, parts.drop_last());
        match parts.last().partno {
            Some(k) => if k < prev.len() {
                prev.update(k as int, Some(resolve(format, parts.last(), k as int)))
            } else {
                prev
            },
            None => prev,
        }
    }
}

/// Slot `k` is empty and every slot below it is used.
pub open spec fn is_lowest_free(slots: Seq<Option<PartitionView>>, k: int) -> bool {
    &&& 0 <= k < slots.len()
    &&& slots[k] is None
    &&& forall|j: int| 0 <= j < k ==> slots[j] is Some
}

/// The lowest empty slot, where there is one.
pub open spec fn lowest_free(slots: Seq<Option<PartitionView>>) -> Option<int> {
    if exists|k: int| is_lowest_free(slots, k) {
        Some(choose|k: int| is_lowest_free(slots, k))
    } else {
        None
    }
}

/// The slots after every entry of the request that names no partition
/// number has taken the lowest slot that was empty at its turn, or `None`
/// when the slots ran out.
pub open spec fn place_unassigned(
    format: LabelFormat,
    slots: Seq<Option<PartitionView>>,
    parts: Seq<PartitionView>,
) -> Option<Seq<Option<PartitionView>>>
    decreases parts.len(),
{
    if parts.len() == 0 {
        Some(slots)
    } else {
        match place_unassigned(format, slots, parts.drop_last()) {
            None => None,
            Some(prev) => if parts.last().partno is Some {
                Some(prev)
            } else {
                match lowest_free(prev) {
                    Some(k) => Some(prev.update(k, Some(resolve(format, parts.last(), k)))),
                    None => None,
                }
            },
        }
    }
}

impl LabelView {
    /// Why the request cannot be taken as it stands, whatever the label
    /// holds, if it cannot.
    pub open spec fn request_error(self, parts: Seq<PartitionView>) -> Option<Error> {
        if exists|i: int| outside_at(self.geometry, parts, i) {
            Some(Error::OutOfRange)
        } else if exists|i: int| unsized_at(parts, i) {
            Some(Error::InvalidArgument)
        } else if exists|i: int, j: int| overlap_at(parts, i, j) {
            Some(Error::OverlapError)
        } else if parts.len() > self.slots.len() {
            Some(Error::TooManyPartitions)
        } else if exists|i: int| beyond_at(parts, self.slots.len(), i) {
            Some(self.format.no_slot_error())
        } else if exists|i: int, j: int| same_slot_at(parts, i, j) {
            Some(Error::InvalidArgument)
        } else {
            None
        }
    }

    /// The label with these slots in place of its own.
    pub open spec fn with_slots(self, slots: Seq<Option<PartitionView>>) -> LabelView {
        LabelView { slots, ..self }
    }

    /// What merging the request into the label gives: the merged label, or
    /// the reason why nothing is merged.
    pub open spec fn merge_outcome(self, parts: Seq<PartitionView>) -> Result<LabelView, Error> {
        match self.request_error(parts) {
            Some(e) => Err(e),
            None => match place_unassigned(
                self.format,
                place_explicit(self.format, self.slots, parts),
                parts,
            ) {
                None => Err(Error::TooManyPartitions),
                Some(merged) => if exists|a: int, b: int| self.with_slots(merged).clash(a, b) {
                    Err(Error::OverlapError)
                } else {
                    Ok(self.with_slots(merged))
                },
            },
        }
    }
}

/// The first entry of the request that leaves the usable window.
fn find_outside(g: &Geometry, parts: &Vec<PartitionData>) -> (found: bool)
    ensures
        found == exists|i: int| outside_at(*g, views(parts@), i),
{
    let n = parts.len();
    let mut i: usize = 0;
    while i < n
        invariant
            i <= n,
            n == parts@.len(),
            forall|k: int| 0 <= k < i ==> !outside_at(*g, views(parts@), k),
        decreases n - i,
    {
        if !fits_window(g, &parts[i]) {
            assert(outside_at(*g, views(parts@), i as int));
            return true;
        }
        i = i + 1;
    }
    false
}

/// Whether some entry of the request has no usable size.
fn find_unsized(parts: &Vec<PartitionData>) -> (found: bool)
    ensures
        found == exists|i: int| unsized_at(views(parts@), i),
{
    let n = parts.len();
    let mut i: usize = 0;
    while i < n
        invariant
            i <= n,
            n == parts@.len(),
            forall|k: int| 0 <= k < i ==> !unsized_at(views(parts@), k),
        decreases n - i,
    {
        if parts[i].size == 0 || parts[i].size > u64::MAX - parts[i].start {
            assert(unsized_at(views(parts@), i as int));
            return true;
        }
        i = i + 1;
    }
    false
}

/// Whether two entries of the request share a sector.
fn find_overlap(parts: &Vec<PartitionData>) -> (found: bool)
    ensures
        found == exists|i: int, j: int| overlap_at(views(parts@), i, j),
{
    let n = parts.len();
    let mut j: usize = 0;
    while j < n
        invariant
            j <= n,
            n == parts@.len(),
            forall|a: int, b: int| 0 <= b < j ==> !overlap_at(views(parts@), a, b),
        decreases n - j,
    {
        let mut i: usize = 0;
        while i < j
            invariant
                i <= j < n,
                n == parts@.len(),
                forall|a: int| 0 <= a < i ==> !overlap_at(views(parts@), a, j as int),
            decreases j - i,
        {
            if shares_sector(&parts[i], &parts[j]) {
                assert(overlap_at(views(parts@), i as int, j as int));
                return true;
            }
            i = i + 1;
        }
        j = j + 1;
    }
    false
}

/// Whether some entry of the request names a partition number past `slots`.
fn find_beyond(parts: &Vec<PartitionData>, slots: usize) -> (found: bool)
    ensures
        found == exists|i: int| beyond_at(views(parts@), slots as nat, i),
{
    let n = parts.len();
    let mut i: usize = 0;
    while i < n
        invariant
            i <= n,
            n == parts@.len(),
            forall|k: int| 0 <= k < i ==> !beyond_at(views(parts@), slots as nat, k),
        decreases n - i,
    {
        match parts[i].partno {
            Some(k) => {
                if k >= slots {
                    assert(beyond_at(views(parts@), slots as nat, i as int));
                    return true;
                }
            },
            None => {},
        }
        i = i + 1;
    }
    false
}

/// Whether two entries of the request name the same partition number.
fn find_same_slot(parts: &Vec<PartitionData>) -> (found: bool)
    ensures
        found == exists|i: int, j: int| same_slot_at(views(parts@), i, j),
{
    let n = parts.len();
    let mut j: usize = 0;
    while j < n
        invariant
            j <= n,
            n == parts@.len(),
            forall|a: int, b: int| 0 <= b < j ==> !same_slot_at(views(parts@), a, b),
        decreases n - j,
    {
        match parts[j].partno {
            None => {},
            Some(kj) => {
                let mut i: usize = 0;
                while i < j
                    invariant
                        i <= j < n,
                        n == parts@.len(),
                        parts@[j as int].partno == Some(kj),
                        forall|a: int| 0 <= a < i ==> !same_slot_at(views(parts@), a, j as int),
                    decreases j - i,
                {
                    match parts[i].partno {
                        Some(ki) => {
                            if ki == kj {
                                assert(same_slot_at(views(parts@), i as int, j as int));
                                return true;
                            }
                        },
                        None => {},
                    }
                    i = i + 1;
                }
            },
        }
        j = j + 1;
    }
    false
}

/// The lowest empty slot.
fn first_free(slots: &Vec<Option<PartitionData>>) -> (free: Option<usize>)
    ensures
        match free {
            Some(k) => lowest_free(slots_view(slots@)) == Some(k as int),
            None => lowest_free(slots_view(slots@)) is None,
        },
{
    let n = slots.len();
    let mut i: usize = 0;
    while i < n
        invariant
            i <= n,
            n == slots@.len(),
            forall|j: int| 0 <= j < i ==> slots_view(slots@)[j] is Some,
        decreases n - i,
    {
        if slots[i].is_none() {
            proof {
                let v = slots_view(slots@);
                assert(is_lowest_free(v, i as int));
                let c = choose|k: int| is_lowest_free(v, k);
                assert(c == i) by {
                    if c < i {
                        assert(v[c] is Some);
                    } else if i < c {
                        assert(v[i as int] is Some);
                    }
                }
            }
            return Some(i);
        }
        i = i + 1;
    }
    proof {
        let v = slots_view(slots@);
        assert forall|k: int| !is_lowest_free(v, k) by {
            if is_lowest_free(v, k) {
                assert(v[k] is Some);
            }
        }
    }
    None
}

/// Whether two used slots share a sector.
fn find_clash(slots: &Vec<Option<PartitionData>>) -> (found: bool)
    ensures
        found == exists|a: int, b: int| clash_in(slots_view(slots@), a, b),
{
    let n = slots.len();
    let mut b: usize = 0;
    while b < n
        invariant
            b <= n,
            n == slots@.len(),
            forall|x: int, y: int| 0 <= x < y < b ==> !clash_in(slots_view(slots@), x, y),
        decreases n - b,
    {
        match &slots[b] {
            None => {},
            Some(eb) => {
                assert(slots_view(slots@)[b as int] == Some(eb@));
                let mut a: usize = 0;
                while a < b
                    invariant
                        a <= b < n,
                        n == slots@.len(),
                        slots_view(slots@)[b as int] == Some(eb@),
                        forall|x: int| 0 <= x < a ==> !clash_in(slots_view(slots@), x, b as int),
                    decreases b - a,
                {
                    match &slots[a] {
                        None => {},
                        Some(ea) => {
                            assert(slots_view(slots@)[a as int] == Some(ea@));
                            if shares_sector(ea, eb) {
                                assert(clash_in(slots_view(slots@), a as int, b as int));
                                return true;
                            }
                        },
                    }
                    a = a + 1;
                }
            },
        }
        b = b + 1;
    }
    proof {
        let v = slots_view(slots@);
        assert forall|x: int, y: int| !clash_in(v, x, y) by {
            if clash_in(v, x, y) {
                if x < y {
                    assert(!clash_in(v, x, y));
                } else {
                    assert(clash_in(v, y, x));
                    assert(!clash_in(v, y, x));
                }
            }
        }
    }
    false
}

/// Stores every entry that names a partition number in its slot.
fn store_explicit(
    format: LabelFormat,
    slots: &mut Vec<Option<PartitionData>>,
    parts: &Vec<PartitionData>,
)
    ensures
        slots_view(final(slots)@) == place_explicit(
            format,
            slots_view(old(slots)@),
            views(parts@),
        ),
{
    let n = parts.len();
    let mut i: usize = 0;
    while i < n
        invariant
            i <= n,
            n == parts@.len(),
            slots_view(slots@) == place_explicit(
                format,
                slots_view(old(slots)@),
                views(parts@).take(i as int),
            ),
        decreases n - i,
    {
        proof {
            let next = views(parts@).take(i + 1);
            assert(next.drop_last() =~= views(parts@).take(i as int));
            assert(next.last() == parts@[i as int]@);
        }
        let ghost before = slots_view(slots@);
        match parts[i].partno {
            Some(k) => {
                if k < slots.len() {
                    let e = format.stored(&parts[i], k);
                    slots[k] = Some(e);
                    assert(slots_view(slots@) =~= before.update(
                        k as int,
                        Some(resolve(format, parts@[i as int]@, k as int)),
                    ));
                }
            },
            None => {},
        }
        i = i + 1;
    }
    assert(views(parts@).take(n as int) =~= views(parts@));
}

/// Gives every entry that names no partition number the lowest slot that
/// is empty at its turn. Returns whether every such entry found one.
fn store_unassigned(
    format: LabelFormat,
    slots: &mut Vec<Option<PartitionData>>,
    parts: &Vec<PartitionData>,
) -> (done: bool)
    ensures
        match place_unassigned(format, slots_view(old(slots)@), views(parts@)) {
            Some(placed) => done && slots_view(final(slots)@) == placed,
            None => !done,
        },
{
    let n = parts.len();
    let mut i: usize = 0;
    while i < n
        invariant
            i <= n,
            n == parts@.len(),
            place_unassigned(format, slots_view(old(slots)@), views(parts@).take(i as int))
                == Some(slots_view(slots@)),
        decreases n - i,
    {
        proof {
            let next = views(parts@).take(i + 1);
            assert(next.drop_last() =~= views(parts@).take(i as int));
            assert(next.last() == parts@[i as int]@);
        }
        let ghost before = slots_view(slots@);
        if parts[i].partno.is_none() {
            match first_free(slots) {
                Some(k) => {
                    let e = format.stored(&parts[i], k);
                    slots[k] = Some(e);
                    assert(slots_view(slots@) =~= before.update(
                        k as int,
                        Some(resolve(format, parts@[i as int]@, k as int)),
                    ));
                },
                None => {
                    proof {
                        lemma_unassigned_stays_failed(
                            format,
                            slots_view(old(slots)@),
                            views(parts@),
                            i + 1,
                        );
                    }
                    return false;
                },
            }
        }
        i = i + 1;
    }
    assert(views(parts@).take(n as int) =~= views(parts@));
    true
}

/// Once the slots have run out for a prefix of the request, they have run
/// out for the whole of it.
proof fn lemma_unassigned_stays_failed(
    format: LabelFormat,
    slots: Seq<Option<PartitionView>>,
    parts: Seq<PartitionView>,
    n: int,
)
    requires
        0 <= n <= parts.len(),
        place_unassigned(format, slots, parts.take(n)) is None,
    ensures
        place_unassigned(format, slots, parts) is None,
    decreases parts.len() - n,
{
    if n < parts.len() {
        let next = parts.take(n + 1);
        assert(next.drop_last() =~= parts.take(n));
        lemma_unassigned_stays_failed(format, slots, parts, n + 1);
    } else {
        assert(parts.take(n) =~= parts);
    }
}

/// Storing the entries that name a partition number keeps the number of
/// slots, and keeps every slot's entry sound when the request is.
pub proof fn lemma_place_explicit_sound(
    label: LabelView,
    slots: Seq<Option<PartitionView>>,
    parts: Seq<PartitionView>,
)
    requires
        slots.len() == label.slots.len(),
        forall|k: int|
            0 <= k < slots.len() ==> (#[trigger] slots[k] matches Some(e) ==> label.entry_ok(k, e)),
        forall|i: int| !outside_at(label.geometry, parts, i),
        forall|i: int| !unsized_at(parts, i),
    ensures
        place_explicit(label.format, slots, parts).len() == slots.len(),
        forall|k: int|
            0 <= k < slots.len() ==> (#[trigger] place_explicit(
                label.format,
                slots,
                parts,
            )[k] matches Some(e) ==> label.entry_ok(k, e)),
    decreases parts.len(),
{
    if parts.len() > 0 {
        let rest = parts.drop_last();
        assert forall|i: int| !outside_at(label.geometry, rest, i) by {
            if outside_at(label.geometry, rest, i) {
                assert(outside_at(label.geometry, parts, i));
            }
        }
        assert forall|i: int| !unsized_at(rest, i) by {
            if unsized_at(rest, i) {
                assert(unsized_at(parts, i));
            }
        }
        lemma_place_explicit_sound(label, slots, rest);
        let last = parts.len() - 1;
        assert(!outside_at(label.geometry, parts, last));
        assert(!unsized_at(parts, last));
    }
}

/// Giving out the empty slots keeps the number of slots, and keeps every
/// slot's entry sound when the request is.
pub proof fn lemma_place_unassigned_sound(
    label: LabelView,
    slots: Seq<Option<PartitionView>>,
    parts: Seq<PartitionView>,
)
    requires
        slots.len() == label.slots.len(),
        forall|k: int|
            0 <= k < slots.len() ==> (#[trigger] slots[k] matches Some(e) ==> label.entry_ok(k, e)),
        forall|i: int| !outside_at(label.geometry, parts, i),
        forall|i: int| !unsized_at(parts, i),
    ensures
        place_unassigned(label.format, slots, parts) matches Some(placed) ==> {
            &&& placed.len() == slots.len()
            &&& forall|k: int|
                0 <= k < slots.len() ==> (#[trigger] placed[k] matches Some(e) ==> label.entry_ok(
                    k,
                    e,
                ))
        },
    decreases parts.len(),
{
    if parts.len() > 0 {
        let rest = parts.drop_last();
        assert forall|i: int| !outside_at(label.geometry, rest, i) by {
            if outside_at(label.geometry, rest, i) {
                assert(outside_at(label.geometry, parts, i));
            }
        }
        assert forall|i: int| !unsized_at(rest, i) by {
            if unsized_at(rest, i) {
                assert(unsized_at(parts, i));
            }
        }
        lemma_place_unassigned_sound(label, slots, rest);
        let last = parts.len() - 1;
        assert(!outside_at(label.geometry, parts, last));
        assert(!unsized_at(parts, last));
        match place_unassigned(label.format, slots, rest) {
            Some(prev) => {
                if parts.last().partno is None {
                    if lowest_free(prev) is Some {
                        let k = lowest_free(prev)->0;
                        assert(is_lowest_free(prev, k));
                    }
                }
            },
            None => {},
        }
    }
}

impl DiskLabel {
    /// Merges the request into the label, all of it or nothing.
    ///
    /// An entry that names a partition number replaces what that slot
    /// holds. An entry that names none takes the lowest slot that is empty
    /// once the named ones are stored. Slots that the request does not
    /// reach keep their entries.
    ///
    /// The request is refused, and the label left as it was,
    /// - with `OutOfRange` when an entry leaves the usable window;
    /// - else with `InvalidArgument` when an entry's size is zero or overflows;
    /// - else with `OverlapError` when two entries share a sector;
    /// - else with `TooManyPartitions` when it has more entries than the
    ///   label has slots;
    /// - else, when an entry names a slot the label does not have, with
    ///   `TooManyPartitions` on GPT and `NotSupported` on MBR;
    /// - else with `InvalidArgument` when two entries name the same slot;
    /// - else with `TooManyPartitions` when the empty slots run out;
    /// - else with `OverlapError` when an entry shares a sector with an
    ///   entry that the label keeps.
    pub fn merge(&mut self, parts: &Vec<PartitionData>) -> (r: Result<(), Error>)
        requires
            old(self).wf(),
        ensures
            final(self).wf(),
            match old(self)@.merge_outcome(views(parts@)) {
                Ok(merged) => r == Ok::<(), Error>(()) && final(self)@ == merged,
                Err(e) => r == Err::<(), Error>(e) && final(self)@ == old(self)@,
            },
    {
        let geometry = self.geometry();
        let format = self.format();
        if find_outside(&geometry, parts) {
            return Err(Error::OutOfRange);
        }
        if find_unsized(parts) {
            return Err(Error::InvalidArgument);
        }
        if find_overlap(parts) {
            return Err(Error::OverlapError);
        }
        let n_slots = self.max_partitions();
        if parts.len() > n_slots {
            return Err(Error::TooManyPartitions);
        }
        if find_beyond(parts, n_slots) {
            return Err(format.no_slot());
        }
        if find_same_slot(parts) {
            return Err(Error::InvalidArgument);
        }
        assert(self@.request_error(views(parts@)) is None);
        let mut scratch = self.slot_copies();
        store_explicit(format, &mut scratch, parts);
        proof {
            lemma_place_explicit_sound(self@, self@.slots, views(parts@));
        }
        let ghost named = slots_view(scratch@);
        if !store_unassigned(format, &mut scratch, parts) {
            return Err(Error::TooManyPartitions);
        }
        proof {
            lemma_place_unassigned_sound(self@, named, views(parts@));
        }
        let ghost merged = self@.with_slots(slots_view(scratch@));
        if find_clash(&scratch) {
            proof {
                let (a, b) = choose|a: int, b: int| clash_in(merged.slots, a, b);
                assert(merged.clash(a, b));
            }
            return Err(Error::OverlapError);
        }
        assert forall|a: int, b: int| !merged.clash(a, b) by {
            assert(!clash_in(merged.slots, a, b));
        }
        self.install(scratch);
        Ok(())
    }
}

} // verus!
