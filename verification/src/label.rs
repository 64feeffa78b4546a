//! The partition table of one device, held in memory.
//!
//! A [`DiskLabel`] has a format, the geometry of its device and one slot per
//! partition number. Whatever it holds lies inside the usable window of the
//! device and shares no sector with another entry. The label keeps its own
//! copy of every entry: a change to the partition an entry was taken from
//! does not reach the label until that partition is committed again.

use vstd::prelude::*;
use crate::error::Error;
use crate::partition::{Arena, ArenaView, Partition, PartitionData, PartitionView, SlotView};
use crate::table::Table;

verus! {

/// The number of slots of a GPT label.
pub const GPT_MAX_PARTITIONS: usize = 128;

/// The number of slots of an MBR label: its primary partitions. Logical
/// partitions inside an extended one are not part of this label.
pub const DOS_MAX_PARTITIONS: usize = 4;

/// The formats a label can have.
#[derive(Clone, Copy, Debug, PartialEq, Eq, Structural)]
pub enum LabelFormat {
    /// GUID partition table.
    Gpt,
    /// Master boot record.
    Dos,
}

/// What a label needs to know of its device, in sectors.
#[derive(Clone, Copy, Debug, PartialEq, Eq, Structural)]
pub struct Geometry {
    /// The first sector a partition may use.
    pub first_usable_lba: u64,
    /// The last sector a partition may use.
    pub last_usable_lba: u64,
    /// Bytes per sector.
    pub sector_size: u64,
    /// The alignment unit that partition boundaries are rounded to by convention.
    pub grain: u64,
}

impl LabelFormat {
    /// The number of slots a label of this format has.
    pub open spec fn slot_count(self) -> nat {
        match self {
            LabelFormat::Gpt => GPT_MAX_PARTITIONS as nat,
            LabelFormat::Dos => DOS_MAX_PARTITIONS as nat,
        }
    }

    /// The format's name as a sequence of characters.
    pub open spec fn name_chars(self) -> Seq<char> {
        match self {
            LabelFormat::Gpt => "gpt"@,
            LabelFormat::Dos => "dos"@,
        }
    }

    /// The type an entry gets in a label of this format when it names none.
    pub open spec fn default_type_chars(self) -> Seq<char> {
        match self {
            LabelFormat::Gpt => "0FC63DAF-8483-4772-8E79-3D69D8477DE4"@,
            LabelFormat::Dos => "83"@,
        }
    }

    /// Why a label of this format refuses a partition number it has no slot
    /// for. GPT has a fixed number of slots and is full beyond them. On MBR
    /// a number past the primary partitions asks for a logical partition,
    /// which this label does not have.
    pub open spec fn no_slot_error(self) -> Error {
        match self {
            LabelFormat::Gpt => Error::TooManyPartitions,
            LabelFormat::Dos => Error::NotSupported,
        }
    }

    /// The format of the given name.
    ///
    /// Fails with `NotSupported` when the name is that of no format known here.
    pub fn from_name(name: &str) -> (r: Result<LabelFormat, Error>)
        ensures
            r == (if name@ == LabelFormat::Gpt.name_chars() {
                Ok::<LabelFormat, Error>(LabelFormat::Gpt)
            } else if name@ == LabelFormat::Dos.name_chars() {
                Ok::<LabelFormat, Error>(LabelFormat::Dos)
            } else {
                Err::<LabelFormat, Error>(Error::NotSupported)
            }),
    {
        let wanted = name.to_owned();
        if wanted == LabelFormat::Gpt.name() {
            Ok(LabelFormat::Gpt)
        } else if wanted == LabelFormat::Dos.name() {
            Ok(LabelFormat::Dos)
        } else {
            Err(Error::NotSupported)
        }
    }

    /// Why a label of this format refuses a partition number it has no slot for.
    pub fn no_slot(self) -> (e: Error)
        ensures
            e == self.no_slot_error(),
    {
        match self {
            LabelFormat::Gpt => Error::TooManyPartitions,
            LabelFormat::Dos => Error::NotSupported,
        }
    }

    /// The number of slots a label of this format has.
    pub fn max_partitions(self) -> (n: usize)
        ensures
            n == self.slot_count(),
    {
        match self {
            LabelFormat::Gpt => GPT_MAX_PARTITIONS,
            LabelFormat::Dos => DOS_MAX_PARTITIONS,
        }
    }

    /// The format's name.
    pub fn name(self) -> (s: String)
        ensures
            s@ == self.name_chars(),
    {
        match self {
            LabelFormat::Gpt => "gpt".to_owned(),
            LabelFormat::Dos => "dos".to_owned(),
        }
    }

    /// The entry as a label of this format stores it in slot `partno`.
    pub fn stored(self, d: &PartitionData, partno: usize) -> (e: PartitionData)
        ensures
            e@ == resolve(self, d@, partno as int),
    {
        let type_id = if d.type_id.as_str().is_empty() {
            self.default_type()
        } else {
            d.type_id.clone()
        };
        PartitionData {
            start: d.start,
            size: d.size,
            partno: Some(partno),
            type_id,
            name: d.name.clone(),
            flags: d.flags,
        }
    }

    /// The type an entry gets in a label of this format when it names none:
    /// a Linux filesystem.
    pub fn default_type(self) -> (s: String)
        ensures
            s@ == self.default_type_chars(),
    {
        match self {
            LabelFormat::Gpt => "0FC63DAF-8483-4772-8E79-3D69D8477DE4".to_owned(),
            LabelFormat::Dos => "83".to_owned(),
        }
    }
}

/// Both ends of the entry lie inside the usable window.
pub open spec fn in_window(g: Geometry, d: PartitionView) -> bool {
    g.first_usable_lba <= d.start && d.start + d.size - 1 <= g.last_usable_lba
}

/// The two entries share a sector.
pub open spec fn overlaps(a: PartitionView, b: PartitionView) -> bool {
    &&& a.size > 0
    &&& b.size > 0
    &&& a.start < b.start + b.size
    &&& b.start < a.start + a.size
}

/// The entry as a label of the given format stores it in slot `k`: with its
/// partition number, and with the format's default type where it names none.
pub open spec fn resolve(format: LabelFormat, d: PartitionView, k: int) -> PartitionView {
    PartitionView {
        partno: Some(k as usize),
        type_id: if d.type_id.len() == 0 {
            format.default_type_chars()
        } else {
            d.type_id
        },
        ..d
    }
}

/// A stored slot as the contracts see it.
pub open spec fn slot_view(s: Option<PartitionData>) -> Option<PartitionView> {
    match s {
        Some(d) => Some(d@),
        None => None,
    }
}

/// Stored slots as the contracts see them.
pub open spec fn slots_view(v: Seq<Option<PartitionData>>) -> Seq<Option<PartitionView>> {
    Seq::new(v.len(), |i: int| slot_view(v[i]))
}

/// The entries of the used slots, in the order of their partition numbers.
pub open spec fn used_entries(slots: Seq<Option<PartitionView>>) -> Seq<PartitionView>
    decreases slots.len(),
{
    if slots.len() == 0 {
        Seq::empty()
    } else {
        match slots.last() {
            Some(e) => used_entries(slots.drop_last()).push(e),
            None => used_entries(slots.drop_last()),
        }
    }
}

/// The arena after a new entry with one reference was added for each of
/// `entries`, in their order.
pub open spec fn snapshot_arena(a: ArenaView, entries: Seq<PartitionView>) -> ArenaView {
    ArenaView {
        slots: a.slots + Seq::new(
            entries.len(),
            |i: int| SlotView { data: entries[i], refs: 1 },
        ),
    }
}

/// The handles of `n` entries that were added to an arena one after the
/// other, the first of them in slot `first`.
pub open spec fn snapshot_handles(first: nat, n: nat) -> Seq<Partition> {
    Seq::new(n, |i: int| Partition { id: (first + i) as usize })
}

/// Slots of which none is used.
pub open spec fn blank_slots(n: nat) -> Seq<Option<PartitionView>> {
    Seq::new(n, |i: int| None::<PartitionView>)
}

/// Slots `a` and `b` are distinct, used, and share a sector.
pub open spec fn clash_in(slots: Seq<Option<PartitionView>>, a: int, b: int) -> bool {
    &&& 0 <= a < slots.len()
    &&& 0 <= b < slots.len()
    &&& a != b
    &&& slots[a] matches Some(x)
    &&& slots[b] matches Some(y)
    &&& overlaps(x, y)
}

/// A label as the contracts see it.
pub struct LabelView {
    pub format: LabelFormat,
    pub geometry: Geometry,
    /// The entry of each partition number, where there is one.
    pub slots: Seq<Option<PartitionView>>,
}

impl LabelView {
    /// What holds of an entry stored in slot `k`.
    pub open spec fn entry_ok(self, k: int, e: PartitionView) -> bool {
        &&& e.size > 0
        &&& e.fits()
        &&& in_window(self.geometry, e)
        &&& e.partno == Some(k as usize)
    }

    /// Slots `a` and `b` are distinct, used, and share a sector.
    pub open spec fn clash(self, a: int, b: int) -> bool {
        clash_in(self.slots, a, b)
    }

    /// The label's invariant: one slot per partition number of the format,
    /// every entry of positive size inside the usable window, and no two
    /// entries sharing a sector.
    pub open spec fn wf(self) -> bool {
        &&& self.slots.len() == self.format.slot_count()
        &&& forall|k: int|
            0 <= k < self.slots.len() ==> (#[trigger] self.slots[k] matches Some(e)
                ==> self.entry_ok(k, e))
        &&& forall|a: int, b: int| !#[trigger] self.clash(a, b)
    }

    /// Slot `k` is used, is not slot `partno`, and shares a sector with `d`.
    pub open spec fn blocks(self, k: int, partno: usize, d: PartitionView) -> bool {
        &&& 0 <= k < self.slots.len()
        &&& k != partno
        &&& self.slots[k] matches Some(e)
        &&& overlaps(e, d)
    }

    /// Why the entry `d` cannot be committed to slot `partno`, if it cannot.
    pub open spec fn commit_error(self, partno: usize, d: PartitionView) -> Option<Error> {
        if !in_window(self.geometry, d) {
            Some(Error::OutOfRange)
        } else if d.size == 0 || !d.fits() {
            Some(Error::InvalidArgument)
        } else if partno >= self.slots.len() {
            Some(self.format.no_slot_error())
        } else if exists|k: int| self.blocks(k, partno, d) {
            Some(Error::OverlapError)
        } else {
            None
        }
    }

    /// The label with the entry `d` stored in slot `partno`.
    pub open spec fn commit(self, partno: usize, d: PartitionView) -> LabelView {
        LabelView {
            slots: self.slots.update(partno as int, Some(resolve(self.format, d, partno as int))),
            ..self
        }
    }

    /// What committing the entry `d` to slot `partno` gives: the new label,
    /// or the reason why nothing is committed.
    pub open spec fn commit_outcome(self, partno: usize, d: PartitionView) -> Result<
        LabelView,
        Error,
    > {
        match self.commit_error(partno, d) {
            Some(e) => Err(e),
            None => Ok(self.commit(partno, d)),
        }
    }

    /// Slot `partno` is used.
    pub open spec fn is_used(self, partno: usize) -> bool {
        partno < self.slots.len() && self.slots[partno as int] is Some
    }

    /// The label with slot `partno` emptied.
    pub open spec fn delete(self, partno: usize) -> LabelView {
        LabelView { slots: self.slots.update(partno as int, None), ..self }
    }

    /// The label with every slot emptied.
    pub open spec fn cleared(self) -> LabelView {
        LabelView { slots: blank_slots(self.slots.len()), ..self }
    }
}

/// Every entry of a label has a positive size and lies inside the usable
/// window of the device.
pub proof fn lemma_entries_lie_in_window(label: LabelView, k: int)
    requires
        label.wf(),
        0 <= k < label.slots.len(),
        label.slots[k] is Some,
    ensures
        label.slots[k]->0.size > 0,
        label.geometry.first_usable_lba <= label.slots[k]->0.start,
        label.slots[k]->0.start + label.slots[k]->0.size - 1 <= label.geometry.last_usable_lba,
        label.slots[k]->0.partno == Some(k as usize),
{
}

/// No two entries of a label share a sector.
pub proof fn lemma_entries_are_disjoint(label: LabelView, a: int, b: int)
    requires
        label.wf(),
        0 <= a < label.slots.len(),
        0 <= b < label.slots.len(),
        a != b,
        label.slots[a] is Some,
        label.slots[b] is Some,
    ensures
        !overlaps(label.slots[a]->0, label.slots[b]->0),
{
    assert(!label.clash(a, b));
}

/// An entry that leaves the usable window is refused with `OutOfRange`,
/// whatever else holds of it.
pub proof fn lemma_commit_refuses_outside(label: LabelView, partno: usize, d: PartitionView)
    requires
        !in_window(label.geometry, d),
    ensures
        label.commit_outcome(partno, d) == Err::<LabelView, Error>(Error::OutOfRange),
{
}

/// A commit that succeeds gives a label that keeps the invariant, with the
/// entry in its slot and every other slot as it was.
pub proof fn lemma_commit_keeps_invariant(label: LabelView, partno: usize, d: PartitionView)
    requires
        label.wf(),
        label.commit_outcome(partno, d) is Ok,
    ensures
        label.commit(partno, d).wf(),
        label.commit(partno, d).slots[partno as int] == Some(
            resolve(label.format, d, partno as int),
        ),
        forall|k: int|
            0 <= k < label.slots.len() && k != partno ==> #[trigger] label.commit(
                partno,
                d,
            ).slots[k] == label.slots[k],
{
    let after = label.commit(partno, d);
    assert forall|a: int, b: int| !#[trigger] after.clash(a, b) by {
        if after.clash(a, b) {
            if a == partno {
                assert(label.blocks(b, partno, d));
            } else if b == partno {
                assert(label.blocks(a, partno, d));
            } else {
                assert(label.clash(a, b));
            }
        }
    }
}

/// Emptying a slot keeps the label's invariant.
pub proof fn lemma_delete_keeps_invariant(label: LabelView, partno: usize)
    requires
        label.wf(),
        label.is_used(partno),
    ensures
        label.delete(partno).wf(),
{
    let after = label.delete(partno);
    assert forall|a: int, b: int| !#[trigger] after.clash(a, b) by {
        if after.clash(a, b) {
            assert(label.clash(a, b));
        }
    }
}

/// The in-memory partition table of one device.
pub struct DiskLabel {
    format: LabelFormat,
    geometry: Geometry,
    slots: Vec<Option<PartitionData>>,
}

impl View for DiskLabel {
    type V = LabelView;

    closed spec fn view(&self) -> LabelView {
        LabelView {
            format: self.format,
            geometry: self.geometry,
            slots: slots_view(self.slots@),
        }
    }
}

/// Whether both ends of the entry lie inside the usable window.
pub fn fits_window(g: &Geometry, d: &PartitionData) -> (inside: bool)
    ensures
        inside == in_window(*g, d@),
{
    if d.start < g.first_usable_lba {
        false
    } else if d.size == 0 {
        d.start == 0 || d.start - 1 <= g.last_usable_lba
    } else {
        d.start <= g.last_usable_lba && d.size - 1 <= g.last_usable_lba - d.start
    }
}

/// Whether the two entries share a sector.
pub fn shares_sector(a: &PartitionData, b: &PartitionData) -> (shared: bool)
    ensures
        shared == overlaps(a@, b@),
{
    if a.size == 0 || b.size == 0 {
        false
    } else if a.start >= b.start {
        a.start - b.start < b.size
    } else {
        b.start - a.start < a.size
    }
}

impl DiskLabel {
    /// The label's invariant, which every operation keeps.
    pub open spec fn wf(&self) -> bool {
        self@.wf()
    }

    /// A new label of the given format without partitions.
    pub fn create(format: LabelFormat, geometry: Geometry) -> (label: DiskLabel)
        ensures
            label.wf(),
            label@.format == format,
            label@.geometry == geometry,
            label@.slots == blank_slots(format.slot_count()),
    {
        let n = format.max_partitions();
        let mut slots: Vec<Option<PartitionData>> = Vec::new();
        let mut i: usize = 0;
        while i < n
            invariant
                i <= n,
                slots@.len() == i,
                forall|j: int| 0 <= j < i ==> slots@[j] is None,
            decreases n - i,
        {
            slots.push(None);
            i = i + 1;
        }
        let label = DiskLabel { format, geometry, slots };
        assert(label@.slots =~= blank_slots(format.slot_count()));
        label
    }

    /// The label's format.
    pub fn format(&self) -> (f: LabelFormat)
        ensures
            f == self@.format,
    {
        self.format
    }

    /// The name of the label's format.
    pub fn name(&self) -> (s: String)
        ensures
            s@ == self@.format.name_chars(),
    {
        self.format.name()
    }

    /// The geometry of the label's device.
    pub fn geometry(&self) -> (g: Geometry)
        ensures
            g == self@.geometry,
    {
        self.geometry
    }

    /// The number of slots.
    pub fn max_partitions(&self) -> (n: usize)
        requires
            self.wf(),
        ensures
            n == self@.slots.len(),
            n == self@.format.slot_count(),
    {
        self.slots.len()
    }

    /// A copy of the entry in slot `partno`, or `None` when the slot is empty
    /// or the label has no such slot.
    pub fn partition(&self, partno: usize) -> (e: Option<PartitionData>)
        ensures
            e is Some == self@.is_used(partno),
            e matches Some(d) ==> Some(d@) == self@.slots[partno as int],
    {
        if partno >= self.slots.len() {
            return None;
        }
        match &self.slots[partno] {
            Some(d) => Some(d.duplicate()),
            None => None,
        }
    }

    /// The number of used slots.
    pub fn nparts(&self) -> (n: usize)
        ensures
            n == used_entries(self@.slots).len(),
    {
        let len = self.slots.len();
        let mut n: usize = 0;
        let mut i: usize = 0;
        while i < len
            invariant
                i <= len,
                len == self.slots@.len(),
                n <= i,
                n == used_entries(self@.slots.take(i as int)).len(),
            decreases len - i,
        {
            proof {
                let next = self@.slots.take(i + 1);
                assert(next.drop_last() =~= self@.slots.take(i as int));
                assert(next.last() == self@.slots[i as int]);
            }
            if self.slots[i].is_some() {
                n = n + 1;
            }
            i = i + 1;
        }
        assert(self@.slots.take(len as int) =~= self@.slots);
        n
    }

    /// A table of what the label holds: one new partition for each used
    /// slot, in the order of the partition numbers, with the slot's fields.
    /// The table holds the only reference to each of them. Later changes to
    /// these partitions do not reach the label.
    pub fn partitions(&self, arena: &mut Arena) -> (t: Table)
        requires
            self.wf(),
            old(arena).wf(),
        ensures
            final(arena).wf(),
            t.wf(),
            t.owner_count() == 1,
            final(arena)@ == snapshot_arena(old(arena)@, used_entries(self@.slots)),
            t@ == snapshot_handles(old(arena)@.slots.len(), used_entries(self@.slots).len()),
    {
        let mut t = Table::new();
        let len = self.slots.len();
        let ghost first = old(arena)@.slots.len();
        let mut i: usize = 0;
        while i < len
            invariant
                i <= len,
                len == self.slots@.len(),
                self.wf(),
                arena.wf(),
                t.wf(),
                t.owner_count() == 1,
                first == old(arena)@.slots.len(),
                arena@ == snapshot_arena(old(arena)@, used_entries(self@.slots.take(i as int))),
                t@ == snapshot_handles(first, used_entries(self@.slots.take(i as int)).len()),
            decreases len - i,
        {
            proof {
                let next = self@.slots.take(i + 1);
                assert(next.drop_last() =~= self@.slots.take(i as int));
                assert(next.last() == self@.slots[i as int]);
            }
            match &self.slots[i] {
                None => {},
                Some(d) => {
                    let ghost before = arena@;
                    let ghost held = t@;
                    let ghost taken = used_entries(self@.slots.take(i as int));
                    assert(self@.entry_ok(i as int, d@));
                    match Partition::from_data(arena, d.duplicate()) {
                        // Every entry of a label ends on a sector number.
                        Err(_) => {},
                        Ok(p) => {
                            assert(!held.contains(p)) by {
                                assert forall|k: int| 0 <= k < held.len() implies held[k]
                                    != p by {}
                            }
                            let _ = t.add_partition(arena, &p);
                            let _ = p.unref_partition(arena);
                            assert(arena@.slots =~= before.allocate_with(d@).slots);
                            assert(arena@.slots =~= snapshot_arena(
                                old(arena)@,
                                taken.push(d@),
                            ).slots);
                            assert(t@ =~= snapshot_handles(first, taken.len() + 1));
                        },
                    }
                },
            }
            i = i + 1;
        }
        assert(self@.slots.take(len as int) =~= self@.slots);
        t
    }

    /// A copy of every slot, in the order of the partition numbers.
    pub fn slot_copies(&self) -> (copies: Vec<Option<PartitionData>>)
        ensures
            slots_view(copies@) == self@.slots,
    {
        let len = self.slots.len();
        let mut copies: Vec<Option<PartitionData>> = Vec::new();
        let mut i: usize = 0;
        while i < len
            invariant
                i <= len,
                len == self.slots@.len(),
                copies@.len() == i,
                forall|k: int| 0 <= k < i ==> slot_view(copies@[k]) == slot_view(self.slots@[k]),
            decreases len - i,
        {
            let copy = match &self.slots[i] {
                Some(d) => Some(d.duplicate()),
                None => None,
            };
            copies.push(copy);
            i = i + 1;
        }
        assert(slots_view(copies@) =~= self@.slots);
        copies
    }

    /// Replaces every slot at once.
    pub(crate) fn install(&mut self, slots: Vec<Option<PartitionData>>)
        requires
            (LabelView { slots: slots_view(slots@), ..old(self)@ }).wf(),
        ensures
            final(self)@ == (LabelView { slots: slots_view(slots@), ..old(self)@ }),
    {
        self.slots = slots;
    }

    /// Whether some used slot other than `partno` shares a sector with `d`.
    fn find_blocking(&self, partno: usize, d: &PartitionData) -> (blocked: bool)
        ensures
            blocked == exists|k: int| self@.blocks(k, partno, d@),
    {
        let len = self.slots.len();
        let mut i: usize = 0;
        while i < len
            invariant
                i <= len,
                len == self.slots@.len(),
                forall|k: int| 0 <= k < i ==> !self@.blocks(k, partno, d@),
            decreases len - i,
        {
            if i != partno {
                match &self.slots[i] {
                    Some(e) => {
                        assert(self@.slots[i as int] == Some(e@));
                        if shares_sector(e, d) {
                            assert(self@.blocks(i as int, partno, d@));
                            return true;
                        }
                    },
                    None => {},
                }
            }
            i = i + 1;
        }
        false
    }

    /// Stores a copy of the entry in slot `partno`, in place of what the
    /// slot held. The partition number inside `d` plays no part. An entry
    /// that names no type gets the format's default type.
    ///
    /// Fails, changing nothing, with `OutOfRange` when the entry leaves the
    /// usable window; else with `InvalidArgument` when its size is zero or
    /// overflows; else, when the label has no slot `partno`, with
    /// `TooManyPartitions` on GPT and `NotSupported` on MBR; else with
    /// `OverlapError` when it shares a sector with the entry of another slot.
    pub fn commit_partition(&mut self, partno: usize, d: &PartitionData) -> (r: Result<(), Error>)
        requires
            old(self).wf(),
        ensures
            final(self).wf(),
            match old(self)@.commit_outcome(partno, d@) {
                Ok(committed) => r == Ok::<(), Error>(()) && final(self)@ == committed,
                Err(e) => r == Err::<(), Error>(e) && final(self)@ == old(self)@,
            },
    {
        if !fits_window(&self.geometry, d) {
            return Err(Error::OutOfRange);
        }
        if d.size == 0 || d.size > u64::MAX - d.start {
            return Err(Error::InvalidArgument);
        }
        if partno >= self.slots.len() {
            return Err(self.format.no_slot());
        }
        if self.find_blocking(partno, d) {
            return Err(Error::OverlapError);
        }
        let e = self.format.stored(d, partno);
        self.slots[partno] = Some(e);
        proof {
            assert(self@.slots =~= old(self)@.commit(partno, d@).slots);
            lemma_commit_keeps_invariant(old(self)@, partno, d@);
        }
        Ok(())
    }

    /// Empties slot `partno`.
    ///
    /// Fails with `NotFound`, changing nothing, when the slot is empty or
    /// the label has no such slot.
    pub fn delete_partition(&mut self, partno: usize) -> (r: Result<(), Error>)
        requires
            old(self).wf(),
        ensures
            final(self).wf(),
            r == (if old(self)@.is_used(partno) {
                Ok::<(), Error>(())
            } else {
                Err::<(), Error>(Error::NotFound)
            }),
            r is Ok ==> final(self)@ == old(self)@.delete(partno),
            r is Err ==> final(self)@ == old(self)@,
    {
        if partno >= self.slots.len() || self.slots[partno].is_none() {
            return Err(Error::NotFound);
        }
        self.slots[partno] = None;
        proof {
            assert(self@.slots =~= old(self)@.delete(partno).slots);
            lemma_delete_keeps_invariant(old(self)@, partno);
        }
        Ok(())
    }

    /// Empties every slot. This never fails.
    pub fn delete_all(&mut self) -> (r: Result<(), Error>)
        requires
            old(self).wf(),
        ensures
            final(self).wf(),
            r == Ok::<(), Error>(()),
            final(self)@ == old(self)@.cleared(),
    {
        let len = self.slots.len();
        let mut i: usize = 0;
        while i < len
            invariant
                i <= len,
                len == self.slots@.len(),
                self.format == old(self).format,
                self.geometry == old(self).geometry,
                forall|k: int| 0 <= k < i ==> self.slots@[k] is None,
            decreases len - i,
        {
            self.slots[i] = None;
            i = i + 1;
        }
        assert(self@.slots =~= old(self)@.cleared().slots);
        Ok(())
    }
}

} // verus!
