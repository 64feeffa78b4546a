//! Partition entries and the arena that owns them.
//!
//! A [`Partition`] is a handle. The entry it names lives in an [`Arena`]
//! together with its reference count, so that several tables can hold the
//! same entry and see each other's changes to it. An entry is released when
//! its count reaches zero; a released slot is never handed out again, so a
//! handle that outlives its entry names nothing rather than a stranger.

use vstd::prelude::*;
use crate::error::Error;

verus! {

/// The fields of one partition entry.
pub struct PartitionData {
    /// First sector.
    pub start: u64,
    /// Number of sectors; zero while the size is not decided yet.
    pub size: u64,
    /// Slot in the label, once one is chosen.
    pub partno: Option<usize>,
    /// Format-specific type: a GUID string on GPT, a byte code in hex on
    /// MBR. Empty while unset.
    pub type_id: String,
    /// Human-readable label. Empty when there is none.
    pub name: String,
    /// Format-specific attribute bits.
    pub flags: u64,
}

/// What a [`PartitionData`] holds, with the strings as sequences.
pub struct PartitionView {
    pub start: u64,
    pub size: u64,
    pub partno: Option<usize>,
    pub type_id: Seq<char>,
    pub name: Seq<char>,
    pub flags: u64,
}

impl View for PartitionData {
    type V = PartitionView;

    open spec fn view(&self) -> PartitionView {
        PartitionView {
            start: self.start,
            size: self.size,
            partno: self.partno,
            type_id: self.type_id@,
            name: self.name@,
            flags: self.flags,
        }
    }
}

impl PartitionView {
    /// The entry a fresh partition starts from: nothing assigned.
    pub open spec fn unset() -> PartitionView {
        PartitionView {
            start: 0,
            size: 0,
            partno: None,
            type_id: Seq::empty(),
            name: Seq::empty(),
            flags: 0,
        }
    }

    /// The sector after the last one, which has to be a sector number too.
    pub open spec fn fits(self) -> bool {
        self.start + self.size <= u64::MAX
    }
}

impl PartitionData {
    /// An entry with nothing assigned.
    pub fn unset() -> (d: PartitionData)
        ensures
            d@ == PartitionView::unset(),
    {
        PartitionData {
            start: 0,
            size: 0,
            partno: None,
            type_id: String::new(),
            name: String::new(),
            flags: 0,
        }
    }

    /// A copy with the same fields.
    pub fn duplicate(&self) -> (d: PartitionData)
        ensures
            d@ == self@,
    {
        PartitionData {
            start: self.start,
            size: self.size,
            partno: self.partno,
            type_id: self.type_id.clone(),
            name: self.name.clone(),
            flags: self.flags,
        }
    }
}

/// One arena slot: an entry and the number of references to it.
struct Slot {
    data: PartitionData,
    refs: u64,
}

/// One arena slot as the contracts see it. A slot with `refs == 0` has been
/// released and holds the unset entry.
pub struct SlotView {
    pub data: PartitionView,
    pub refs: u64,
}

/// The arena as the contracts see it: its slots in order of creation.
pub struct ArenaView {
    pub slots: Seq<SlotView>,
}

/// A handle on a partition entry: the index of its slot.
#[derive(Clone, Copy, Debug, PartialEq, Eq, Structural)]
pub struct Partition {
    pub id: usize,
}

impl ArenaView {
    /// Every entry's end fits in a sector number, and released slots are blank.
    pub open spec fn wf(self) -> bool {
        forall|i: int|
            0 <= i < self.slots.len() ==> {
                &&& (#[trigger] self.slots[i]).data.fits()
                &&& self.slots[i].refs == 0 ==> self.slots[i].data == PartitionView::unset()
            }
    }

    /// The handle names an entry that has not been released.
    pub open spec fn is_live(self, p: Partition) -> bool {
        p.id < self.slots.len() && self.slots[p.id as int].refs > 0
    }

    /// The number of references to the entry; zero for a handle that names none.
    pub open spec fn ref_count(self, p: Partition) -> nat {
        if p.id < self.slots.len() {
            self.slots[p.id as int].refs as nat
        } else {
            0
        }
    }

    /// The fields of a live entry.
    pub open spec fn data(self, p: Partition) -> PartitionView
        recommends
            self.is_live(p),
    {
        self.slots[p.id as int].data
    }

    /// The fields of the entry, or `None` for a handle that names none.
    pub open spec fn lookup(self, p: Partition) -> Option<PartitionView> {
        if self.is_live(p) {
            Some(self.data(p))
        } else {
            None
        }
    }

    /// The arena after a new entry with one reference was added.
    pub open spec fn allocate(self) -> ArenaView {
        ArenaView { slots: self.slots.push(SlotView { data: PartitionView::unset(), refs: 1 }) }
    }

    /// The arena after a new entry with the fields `d` and one reference
    /// was added.
    pub open spec fn allocate_with(self, d: PartitionView) -> ArenaView {
        ArenaView { slots: self.slots.push(SlotView { data: d, refs: 1 }) }
    }

    /// The arena with the fields of a live entry replaced.
    pub open spec fn store(self, p: Partition, d: PartitionView) -> ArenaView
        recommends
            self.is_live(p),
    {
        ArenaView {
            slots: self.slots.update(
                p.id as int,
                SlotView { data: d, refs: self.slots[p.id as int].refs },
            ),
        }
    }

    /// One more reference can be counted on the entry.
    pub open spec fn can_retain(self, p: Partition) -> bool {
        self.is_live(p) && self.ref_count(p) < u64::MAX
    }

    /// The arena after one more reference to a live entry was taken.
    pub open spec fn retain(self, p: Partition) -> ArenaView
        recommends
            self.can_retain(p),
    {
        ArenaView {
            slots: self.slots.update(
                p.id as int,
                SlotView {
                    data: self.slots[p.id as int].data,
                    refs: (self.slots[p.id as int].refs + 1) as u64,
                },
            ),
        }
    }

    /// The arena after one reference was given up. The last reference takes
    /// the entry with it. A handle that names no entry changes nothing.
    pub open spec fn release(self, p: Partition) -> ArenaView {
        if !self.is_live(p) {
            self
        } else if self.slots[p.id as int].refs == 1 {
            ArenaView {
                slots: self.slots.update(
                    p.id as int,
                    SlotView { data: PartitionView::unset(), refs: 0 },
                ),
            }
        } else {
            ArenaView {
                slots: self.slots.update(
                    p.id as int,
                    SlotView {
                        data: self.slots[p.id as int].data,
                        refs: (self.slots[p.id as int].refs - 1) as u64,
                    },
                ),
            }
        }
    }
}

/// Owns every partition entry and counts the references to each.
pub struct Arena {
    slots: Vec<Slot>,
}

impl View for Arena {
    type V = ArenaView;

    closed spec fn view(&self) -> ArenaView {
        ArenaView {
            slots: Seq::new(
                self.slots@.len(),
                |i: int| SlotView { data: self.slots@[i].data@, refs: self.slots@[i].refs },
            ),
        }
    }
}

impl Arena {
    /// The arena's invariant, which every operation keeps.
    pub open spec fn wf(&self) -> bool {
        self@.wf()
    }

    /// An arena without entries.
    pub fn new() -> (arena: Arena)
        ensures
            arena.wf(),
            arena@.slots == Seq::<SlotView>::empty(),
    {
        let arena = Arena { slots: Vec::new() };
        assert(arena@.slots =~= Seq::<SlotView>::empty());
        arena
    }

    /// The number of entries ever created in this arena.
    pub fn capacity_used(&self) -> (n: usize)
        ensures
            n == self@.slots.len(),
    {
        self.slots.len()
    }
}

impl Partition {
    /// Creates an entry with nothing assigned and one reference, which the
    /// caller holds. The entry is in no table.
    pub fn new(arena: &mut Arena) -> (p: Partition)
        requires
            old(arena).wf(),
        ensures
            final(arena).wf(),
            final(arena)@ == old(arena)@.allocate(),
            p.id == old(arena)@.slots.len(),
            final(arena)@.is_live(p),
            final(arena)@.ref_count(p) == 1,
            final(arena)@.data(p) == PartitionView::unset(),
    {
        let id = arena.slots.len();
        arena.slots.push(Slot { data: PartitionData::unset(), refs: 1 });
        assert(arena@.slots =~= old(arena)@.allocate().slots);
        Partition { id }
    }

    /// Creates an entry with the given fields and one reference, which the
    /// caller holds.
    ///
    /// Fails with `InvalidArgument`, creating nothing, when the size added
    /// to the start overflows.
    pub fn from_data(arena: &mut Arena, data: PartitionData) -> (r: Result<Partition, Error>)
        requires
            old(arena).wf(),
        ensures
            final(arena).wf(),
            r is Ok == data@.fits(),
            r is Err ==> r == Err::<Partition, Error>(Error::InvalidArgument) && final(arena)@
                == old(arena)@,
            r matches Ok(p) ==> p.id == old(arena)@.slots.len() && final(arena)@ == old(
                arena,
            )@.allocate_with(data@),
    {
        if data.size > u64::MAX - data.start {
            return Err(Error::InvalidArgument);
        }
        let id = arena.slots.len();
        let ghost d = data@;
        arena.slots.push(Slot { data, refs: 1 });
        assert(arena@.slots =~= old(arena)@.allocate_with(d).slots);
        Ok(Partition { id })
    }

    /// Whether the handle names an entry that has not been released.
    pub fn is_live(&self, arena: &Arena) -> (live: bool)
        ensures
            live == arena@.is_live(*self),
    {
        self.id < arena.slots.len() && arena.slots[self.id].refs > 0
    }

    /// The number of references to the entry; zero once it is released.
    pub fn ref_count(&self, arena: &Arena) -> (n: u64)
        ensures
            n == arena@.ref_count(*self),
    {
        if self.id < arena.slots.len() {
            arena.slots[self.id].refs
        } else {
            0
        }
    }

    /// Takes one more reference to the entry.
    ///
    /// Fails with `NotFound` when the handle names no entry and with
    /// `IOError` when the count cannot grow any further.
    pub fn ref_partition(&self, arena: &mut Arena) -> (r: Result<(), Error>)
        requires
            old(arena).wf(),
        ensures
            final(arena).wf(),
            !old(arena)@.is_live(*self) ==> r == Err::<(), Error>(Error::NotFound),
            old(arena)@.is_live(*self) && !old(arena)@.can_retain(*self) ==> r == Err::<(), Error>(
                Error::IOError,
            ),
            old(arena)@.can_retain(*self) ==> r == Ok::<(), Error>(()),
            r is Ok ==> final(arena)@ == old(arena)@.retain(*self),
            r is Err ==> final(arena)@ == old(arena)@,
    {
        if !self.is_live(arena) {
            return Err(Error::NotFound);
        }
        let refs = arena.slots[self.id].refs;
        if refs == u64::MAX {
            return Err(Error::IOError);
        }
        arena.slots[self.id].refs = refs + 1;
        assert(arena@.slots =~= old(arena)@.retain(*self).slots);
        Ok(())
    }

    /// Gives up one reference to the entry. The last reference releases the
    /// entry: its fields are dropped and the handle names nothing from then on.
    ///
    /// Fails with `NotFound` when the handle names no entry, so an entry is
    /// never released twice.
    pub fn unref_partition(&self, arena: &mut Arena) -> (r: Result<(), Error>)
        requires
            old(arena).wf(),
        ensures
            final(arena).wf(),
            r == (if old(arena)@.is_live(*self) {
                Ok::<(), Error>(())
            } else {
                Err::<(), Error>(Error::NotFound)
            }),
            final(arena)@ == old(arena)@.release(*self),
    {
        if !self.is_live(arena) {
            return Err(Error::NotFound);
        }
        let refs = arena.slots[self.id].refs;
        if refs == 1 {
            arena.slots[self.id].data = PartitionData::unset();
            arena.slots[self.id].refs = 0;
        } else {
            arena.slots[self.id].refs = refs - 1;
        }
        assert(arena@.slots =~= old(arena)@.release(*self).slots);
        Ok(())
    }

    /// Sets the first sector.
    ///
    /// Fails with `NotFound` when the handle names no entry and with
    /// `InvalidArgument` when the entry's size added to `lba` overflows.
    /// The label's geometry plays no part here.
    pub fn set_start(&self, arena: &mut Arena, lba: u64) -> (r: Result<(), Error>)
        requires
            old(arena).wf(),
        ensures
            final(arena).wf(),
            r == (if !old(arena)@.is_live(*self) {
                Err::<(), Error>(Error::NotFound)
            } else if lba + old(arena)@.data(*self).size > u64::MAX {
                Err::<(), Error>(Error::InvalidArgument)
            } else {
                Ok::<(), Error>(())
            }),
            r is Ok ==> final(arena)@ == old(arena)@.store(
                *self,
                PartitionView { start: lba, ..old(arena)@.data(*self) },
            ),
            r is Err ==> final(arena)@ == old(arena)@,
    {
        if !self.is_live(arena) {
            return Err(Error::NotFound);
        }
        if lba > u64::MAX - arena.slots[self.id].data.size {
            return Err(Error::InvalidArgument);
        }
        arena.slots[self.id].data.start = lba;
        assert(arena@.slots =~= old(arena)@.store(
            *self,
            PartitionView { start: lba, ..old(arena)@.data(*self) },
        ).slots);
        Ok(())
    }

    /// Sets the number of sectors. Zero leaves the size undecided.
    ///
    /// Fails with `NotFound` when the handle names no entry and with
    /// `InvalidArgument` when `sectors` added to the entry's start overflows.
    pub fn set_size(&self, arena: &mut Arena, sectors: u64) -> (r: Result<(), Error>)
        requires
            old(arena).wf(),
        ensures
            final(arena).wf(),
            r == (if !old(arena)@.is_live(*self) {
                Err::<(), Error>(Error::NotFound)
            } else if old(arena)@.data(*self).start + sectors > u64::MAX {
                Err::<(), Error>(Error::InvalidArgument)
            } else {
                Ok::<(), Error>(())
            }),
            r is Ok ==> final(arena)@ == old(arena)@.store(
                *self,
                PartitionView { size: sectors, ..old(arena)@.data(*self) },
            ),
            r is Err ==> final(arena)@ == old(arena)@,
    {
        if !self.is_live(arena) {
            return Err(Error::NotFound);
        }
        if sectors > u64::MAX - arena.slots[self.id].data.start {
            return Err(Error::InvalidArgument);
        }
        arena.slots[self.id].data.size = sectors;
        assert(arena@.slots =~= old(arena)@.store(
            *self,
            PartitionView { size: sectors, ..old(arena)@.data(*self) },
        ).slots);
        Ok(())
    }

    /// Chooses the slot the entry asks for in a label. Any number is
    /// accepted here; whether the label has such a slot is decided when the
    /// entry is committed.
    ///
    /// Fails with `NotFound` when the handle names no entry.
    pub fn set_partno(&self, arena: &mut Arena, partno: usize) -> (r: Result<(), Error>)
        requires
            old(arena).wf(),
        ensures
            final(arena).wf(),
            r == (if old(arena)@.is_live(*self) {
                Ok::<(), Error>(())
            } else {
                Err::<(), Error>(Error::NotFound)
            }),
            r is Ok ==> final(arena)@ == old(arena)@.store(
                *self,
                PartitionView { partno: Some(partno), ..old(arena)@.data(*self) },
            ),
            r is Err ==> final(arena)@ == old(arena)@,
    {
        if !self.is_live(arena) {
            return Err(Error::NotFound);
        }
        arena.slots[self.id].data.partno = Some(partno);
        assert(arena@.slots =~= old(arena)@.store(
            *self,
            PartitionView { partno: Some(partno), ..old(arena)@.data(*self) },
        ).slots);
        Ok(())
    }

    /// Sets the format-specific type. The empty string leaves the choice to
    /// the label.
    ///
    /// Fails with `NotFound` when the handle names no entry.
    pub fn set_type_id(&self, arena: &mut Arena, type_id: &str) -> (r: Result<(), Error>)
        requires
            old(arena).wf(),
        ensures
            final(arena).wf(),
            r == (if old(arena)@.is_live(*self) {
                Ok::<(), Error>(())
            } else {
                Err::<(), Error>(Error::NotFound)
            }),
            r is Ok ==> final(arena)@ == old(arena)@.store(
                *self,
                PartitionView { type_id: type_id@, ..old(arena)@.data(*self) },
            ),
            r is Err ==> final(arena)@ == old(arena)@,
    {
        if !self.is_live(arena) {
            return Err(Error::NotFound);
        }
        arena.slots[self.id].data.type_id = type_id.to_owned();
        assert(arena@.slots =~= old(arena)@.store(
            *self,
            PartitionView { type_id: type_id@, ..old(arena)@.data(*self) },
        ).slots);
        Ok(())
    }

    /// Sets the human-readable label. The empty string removes it.
    ///
    /// Fails with `NotFound` when the handle names no entry.
    pub fn set_name(&self, arena: &mut Arena, name: &str) -> (r: Result<(), Error>)
        requires
            old(arena).wf(),
        ensures
            final(arena).wf(),
            r == (if old(arena)@.is_live(*self) {
                Ok::<(), Error>(())
            } else {
                Err::<(), Error>(Error::NotFound)
            }),
            r is Ok ==> final(arena)@ == old(arena)@.store(
                *self,
                PartitionView { name: name@, ..old(arena)@.data(*self) },
            ),
            r is Err ==> final(arena)@ == old(arena)@,
    {
        if !self.is_live(arena) {
            return Err(Error::NotFound);
        }
        arena.slots[self.id].data.name = name.to_owned();
        assert(arena@.slots =~= old(arena)@.store(
            *self,
            PartitionView { name: name@, ..old(arena)@.data(*self) },
        ).slots);
        Ok(())
    }

    /// Sets the format-specific attribute bits.
    ///
    /// Fails with `NotFound` when the handle names no entry.
    pub fn set_flags(&self, arena: &mut Arena, flags: u64) -> (r: Result<(), Error>)
        requires
            old(arena).wf(),
        ensures
            final(arena).wf(),
            r == (if old(arena)@.is_live(*self) {
                Ok::<(), Error>(())
            } else {
                Err::<(), Error>(Error::NotFound)
            }),
            r is Ok ==> final(arena)@ == old(arena)@.store(
                *self,
                PartitionView { flags: flags, ..old(arena)@.data(*self) },
            ),
            r is Err ==> final(arena)@ == old(arena)@,
    {
        if !self.is_live(arena) {
            return Err(Error::NotFound);
        }
        arena.slots[self.id].data.flags = flags;
        assert(arena@.slots =~= old(arena)@.store(
            *self,
            PartitionView { flags: flags, ..old(arena)@.data(*self) },
        ).slots);
        Ok(())
    }

    /// A copy of the entry's fields, or `None` when the handle names no entry.
    pub fn data(&self, arena: &Arena) -> (d: Option<PartitionData>)
        ensures
            d is Some == arena@.is_live(*self),
            d matches Some(data) ==> data@ == arena@.data(*self),
    {
        if !self.is_live(arena) {
            return None;
        }
        Some(arena.slots[self.id].data.duplicate())
    }

    /// The first sector, or `None` when the handle names no entry.
    pub fn start(&self, arena: &Arena) -> (lba: Option<u64>)
        ensures
            lba == (if arena@.is_live(*self) {
                Some(arena@.data(*self).start)
            } else {
                None
            }),
    {
        if !self.is_live(arena) {
            return None;
        }
        Some(arena.slots[self.id].data.start)
    }

    /// The number of sectors, or `None` when the handle names no entry.
    pub fn size(&self, arena: &Arena) -> (sectors: Option<u64>)
        ensures
            sectors == (if arena@.is_live(*self) {
                Some(arena@.data(*self).size)
            } else {
                None
            }),
    {
        if !self.is_live(arena) {
            return None;
        }
        Some(arena.slots[self.id].data.size)
    }

    /// The slot the entry asks for, or `None` when it asks for none or the
    /// handle names no entry.
    pub fn partno(&self, arena: &Arena) -> (partno: Option<usize>)
        ensures
            partno == (if arena@.is_live(*self) {
                arena@.data(*self).partno
            } else {
                None
            }),
    {
        if !self.is_live(arena) {
            return None;
        }
        arena.slots[self.id].data.partno
    }
}

} // verus!
