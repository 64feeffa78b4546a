//! A detached collection of partitions.
//!
//! A [`Table`] keeps handles in the order in which they were added. It has no
//! tie to any label or device: it is a place to collect what a label should
//! hold before a context is asked to apply it. Each entry of a table counts as
//! one reference to its partition.

use vstd::prelude::*;
use crate::error::Error;
use crate::partition::{Arena, ArenaView, Partition, PartitionView};

verus! {

/// `i` is the first position of `p` in `s`.
pub open spec fn is_first_at(s: Seq<Partition>, p: Partition, i: int) -> bool {
    &&& 0 <= i < s.len()
    &&& s[i] == p
    &&& forall|j: int| 0 <= j < i ==> s[j] != p
}

/// The partition is live and asks for slot `partno`.
pub open spec fn asks_for(a: ArenaView, p: Partition, partno: usize) -> bool {
    a.is_live(p) && a.data(p).partno == Some(partno)
}

/// `i` is the first position in `s` of an entry that asks for slot `partno`.
pub open spec fn is_first_asking(a: ArenaView, s: Seq<Partition>, partno: usize, i: int) -> bool {
    &&& 0 <= i < s.len()
    &&& asks_for(a, s[i], partno)
    &&& forall|j: int| 0 <= j < i ==> !asks_for(a, s[j], partno)
}

/// Some entry starts after a later one. Handles that name no entry have no
/// start and are passed over.
pub open spec fn wrong_order(a: ArenaView, s: Seq<Partition>) -> bool {
    exists|i: int, j: int|
        0 <= i < j < s.len() && a.is_live(s[i]) && a.is_live(s[j]) && a.data(s[i]).start > a.data(
            s[j],
        ).start
}

/// The fields of the entries of `s`, meaningful where every handle is live.
pub open spec fn entries_of(a: ArenaView, s: Seq<Partition>) -> Seq<PartitionView> {
    Seq::new(s.len(), |i: int| a.data(s[i]))
}

/// Position `i` of `s` holds a handle that names no entry.
pub open spec fn stale_at(a: ArenaView, s: Seq<Partition>, i: int) -> bool {
    0 <= i < s.len() && !a.is_live(s[i])
}

/// The arena after one reference was given up for each handle of `s` in turn.
pub open spec fn release_all(a: ArenaView, s: Seq<Partition>) -> ArenaView
    decreases s.len(),
{
    if s.len() == 0 {
        a
    } else {
        release_all(a, s.drop_last()).release(s.last())
    }
}

/// An ordered collection of partition handles, none of them twice.
pub struct Table {
    entries: Vec<Partition>,
    owners: u64,
}

impl View for Table {
    type V = Seq<Partition>;

    closed spec fn view(&self) -> Seq<Partition> {
        self.entries@
    }
}

impl Table {
    /// The table's invariant: no handle occurs twice.
    pub open spec fn wf(&self) -> bool {
        self@.no_duplicates()
    }

    /// The number of owners that `ref_table` and `unref_table` count.
    pub closed spec fn owner_count(&self) -> nat {
        self.owners as nat
    }

    /// An empty table with one owner.
    pub fn new() -> (t: Table)
        ensures
            t.wf(),
            t@ == Seq::<Partition>::empty(),
            t.owner_count() == 1,
    {
        Table { entries: Vec::new(), owners: 1 }
    }

    /// Counts one more owner. The count stays where it is once it has
    /// reached the largest number it can hold.
    pub fn ref_table(&mut self)
        ensures
            final(self)@ == old(self)@,
            final(self).owner_count() == (if old(self).owner_count() < u64::MAX {
                old(self).owner_count() + 1
            } else {
                old(self).owner_count()
            }),
    {
        if self.owners < u64::MAX {
            self.owners = self.owners + 1;
        }
    }

    /// Counts one owner less. When the last owner leaves, the table gives
    /// up its entries as `reset_table` does.
    pub fn unref_table(&mut self, arena: &mut Arena)
        requires
            old(self).wf(),
            old(arena).wf(),
        ensures
            final(self).wf(),
            final(arena).wf(),
            final(self).owner_count() == (if old(self).owner_count() > 0 {
                old(self).owner_count() - 1
            } else {
                0
            }),
            old(self).owner_count() == 1 ==> final(self)@ == Seq::<Partition>::empty()
                && final(arena)@ == release_all(old(arena)@, old(self)@),
            old(self).owner_count() != 1 ==> final(self)@ == old(self)@ && final(arena)@ == old(
                arena,
            )@,
    {
        if self.owners == 1 {
            self.owners = 0;
            self.release_entries(arena);
        } else if self.owners > 1 {
            self.owners = self.owners - 1;
        }
    }

    /// Removes every entry and gives up the table's reference to each. The
    /// table stays usable. No label is touched. This never fails.
    pub fn reset_table(&mut self, arena: &mut Arena) -> (r: Result<(), Error>)
        requires
            old(self).wf(),
            old(arena).wf(),
        ensures
            final(self).wf(),
            final(arena).wf(),
            r == Ok::<(), Error>(()),
            final(self)@ == Seq::<Partition>::empty(),
            final(self).owner_count() == old(self).owner_count(),
            final(arena)@ == release_all(old(arena)@, old(self)@),
    {
        self.release_entries(arena);
        Ok(())
    }

    fn release_entries(&mut self, arena: &mut Arena)
        requires
            old(arena).wf(),
        ensures
            final(arena).wf(),
            final(self)@ == Seq::<Partition>::empty(),
            final(self).owners == old(self).owners,
            final(arena)@ == release_all(old(arena)@, old(self)@),
    {
        let n = self.entries.len();
        let mut i: usize = 0;
        while i < n
            invariant
                i <= n,
                n == self.entries@.len(),
                self.entries@ == old(self).entries@,
                self.owners == old(self).owners,
                arena.wf(),
                arena@ == release_all(old(arena)@, self.entries@.take(i as int)),
            decreases n - i,
        {
            let p = self.entries[i];
            let _ = p.unref_partition(arena);
            proof {
                let next = self.entries@.take(i + 1);
                assert(next.drop_last() =~= self.entries@.take(i as int));
                assert(next.last() == p);
            }
            i = i + 1;
        }
        assert(self.entries@.take(n as int) =~= self.entries@);
        self.entries.clear();
    }

    /// Appends the partition and takes a reference to it.
    ///
    /// Any live partition is accepted, whatever its fields hold. A partition
    /// that the table already holds stays where it is, held once. Fails with
    /// `NotFound` when the handle names no entry, and with `IOError` when
    /// the reference cannot be counted.
    pub fn add_partition(&mut self, arena: &mut Arena, pa: &Partition) -> (r: Result<(), Error>)
        requires
            old(self).wf(),
            old(arena).wf(),
        ensures
            final(self).wf(),
            final(arena).wf(),
            final(self).owner_count() == old(self).owner_count(),
            r == (if !old(arena)@.is_live(*pa) {
                Err::<(), Error>(Error::NotFound)
            } else if old(self)@.contains(*pa) {
                Ok::<(), Error>(())
            } else if !old(arena)@.can_retain(*pa) {
                Err::<(), Error>(Error::IOError)
            } else {
                Ok::<(), Error>(())
            }),
            r is Ok && !old(self)@.contains(*pa) ==> final(self)@ == old(self)@.push(*pa)
                && final(arena)@ == old(arena)@.retain(*pa),
            r is Err || old(self)@.contains(*pa) ==> final(self)@ == old(self)@ && final(arena)@
                == old(arena)@,
    {
        if !pa.is_live(arena) {
            return Err(Error::NotFound);
        }
        if self.find(pa).is_some() {
            return Ok(());
        }
        match pa.ref_partition(arena) {
            Err(_) => Err(Error::IOError),
            Ok(()) => {
                self.entries.push(*pa);
                Ok(())
            },
        }
    }

    /// The position of the partition in the table.
    fn find(&self, pa: &Partition) -> (at: Option<usize>)
        ensures
            at is Some == self@.contains(*pa),
            at matches Some(i) ==> is_first_at(self@, *pa, i as int),
    {
        let n = self.entries.len();
        let mut i: usize = 0;
        while i < n
            invariant
                i <= n,
                n == self.entries@.len(),
                forall|j: int| 0 <= j < i ==> self.entries@[j] != *pa,
            decreases n - i,
        {
            if self.entries[i] == *pa {
                return Some(i);
            }
            i = i + 1;
        }
        None
    }

    /// The number of entries.
    pub fn nents(&self) -> (n: usize)
        ensures
            n == self@.len(),
    {
        self.entries.len()
    }

    /// The `n`-th entry in the order of insertion, or `None` past the end.
    pub fn partition(&self, n: usize) -> (p: Option<Partition>)
        ensures
            p == (if n < self@.len() {
                Some(self@[n as int])
            } else {
                None
            }),
    {
        if n < self.entries.len() {
            Some(self.entries[n])
        } else {
            None
        }
    }

    /// The first entry that asks for slot `partno`, or `None` when no entry
    /// does. Several entries may ask for the same slot.
    pub fn partition_by_partno(&self, arena: &Arena, partno: usize) -> (p: Option<Partition>)
        ensures
            match p {
                Some(found) => exists|i: int|
                    is_first_asking(arena@, self@, partno, i) && self@[i] == found,
                None => forall|i: int| 0 <= i < self@.len() ==> !asks_for(arena@, self@[i], partno),
            },
    {
        let n = self.entries.len();
        let mut i: usize = 0;
        while i < n
            invariant
                i <= n,
                n == self.entries@.len(),
                forall|j: int| 0 <= j < i ==> !asks_for(arena@, self.entries@[j], partno),
            decreases n - i,
        {
            let candidate = self.entries[i];
            match candidate.partno(arena) {
                Some(k) => {
                    if k == partno {
                        assert(is_first_asking(arena@, self@, partno, i as int));
                        return Some(candidate);
                    }
                },
                None => {},
            }
            i = i + 1;
        }
        None
    }

    /// Whether the table has no entries.
    pub fn is_empty(&self) -> (empty: bool)
        ensures
            empty == (self@.len() == 0),
    {
        self.entries.len() == 0
    }

    /// Removes the partition from the table and gives up the table's
    /// reference to it.
    ///
    /// Fails with `NotFound`, changing nothing, when the table does not hold
    /// the partition.
    pub fn remove_partition(&mut self, arena: &mut Arena, pa: &Partition) -> (r: Result<
        (),
        Error,
    >)
        requires
            old(self).wf(),
            old(arena).wf(),
        ensures
            final(self).wf(),
            final(arena).wf(),
            final(self).owner_count() == old(self).owner_count(),
            r == (if old(self)@.contains(*pa) {
                Ok::<(), Error>(())
            } else {
                Err::<(), Error>(Error::NotFound)
            }),
            r is Ok ==> final(arena)@ == old(arena)@.release(*pa) && exists|i: int|
                is_first_at(old(self)@, *pa, i) && final(self)@ == old(self)@.remove(i),
            r is Err ==> final(self)@ == old(self)@ && final(arena)@ == old(arena)@,
            !final(self)@.contains(*pa),
    {
        match self.find(pa) {
            None => Err(Error::NotFound),
            Some(i) => {
                self.entries.remove(i);
                let _ = pa.unref_partition(arena);
                proof {
                    let before = old(self)@;
                    let after = before.remove(i as int);
                    assert forall|a: int, b: int|
                        0 <= a < after.len() && 0 <= b < after.len() && a != b implies after[a]
                        != after[b] by {
                        let a0 = if a < i { a } else { a + 1 };
                        let b0 = if b < i { b } else { b + 1 };
                        assert(after[a] == before[a0] && after[b] == before[b0]);
                    }
                    assert forall|a: int| 0 <= a < after.len() implies after[a] != *pa by {
                        let a0 = if a < i { a } else { a + 1 };
                        assert(after[a] == before[a0]);
                    }
                }
                Ok(())
            },
        }
    }

    /// Whether some entry starts after a later one, reading the table in
    /// the order of insertion.
    pub fn is_wrong_order(&self, arena: &Arena) -> (wrong: bool)
        ensures
            wrong == wrong_order(arena@, self@),
    {
        let n = self.entries.len();
        let mut highest: Option<u64> = None;
        let ghost mut at: int = 0;
        let mut i: usize = 0;
        while i < n
            invariant
                i <= n,
                n == self.entries@.len(),
                !wrong_order(arena@, self.entries@.take(i as int)),
                highest is None ==> forall|j: int|
                    0 <= j < i ==> !arena@.is_live(self.entries@[j]),
                highest matches Some(h) ==> {
                    &&& 0 <= at < i
                    &&& arena@.is_live(self.entries@[at])
                    &&& arena@.data(self.entries@[at]).start == h
                    &&& forall|j: int|
                        0 <= j < i && arena@.is_live(self.entries@[j]) ==> arena@.data(
                            self.entries@[j],
                        ).start <= h
                },
            decreases n - i,
        {
            match self.entries[i].start(arena) {
                None => {},
                Some(lba) => {
                    match highest {
                        Some(h) => {
                            if lba < h {
                                assert(0 <= at < i < self.entries@.len());
                                return true;
                            }
                            highest = Some(lba);
                        },
                        None => {
                            highest = Some(lba);
                        },
                    }
                    proof {
                        at = i as int;
                    }
                },
            }
            proof {
                let longer = self.entries@.take(i + 1);
                let shorter = self.entries@.take(i as int);
                if wrong_order(arena@, longer) {
                    let (a, b) = choose|a: int, b: int|
                        0 <= a < b < longer.len() && arena@.is_live(longer[a]) && arena@.is_live(
                            longer[b],
                        ) && arena@.data(longer[a]).start > arena@.data(longer[b]).start;
                    if b < i {
                        assert(shorter[a] == longer[a] && shorter[b] == longer[b]);
                        assert(wrong_order(arena@, shorter));
                    }
                    assert(false);
                }
            }
            i = i + 1;
        }
        assert(self.entries@.take(n as int) =~= self.entries@);
        false
    }

    /// The entries in the order of insertion, as they are at the time of the
    /// call. Later changes to the table do not reach the returned handles.
    pub fn iter(&self) -> (all: Vec<Partition>)
        ensures
            all@ == self@,
    {
        let n = self.entries.len();
        let mut all: Vec<Partition> = Vec::new();
        let mut i: usize = 0;
        while i < n
            invariant
                i <= n,
                n == self.entries@.len(),
                all@ == self.entries@.take(i as int),
            decreases n - i,
        {
            all.push(self.entries[i]);
            assert(self.entries@.take(i + 1) =~= self.entries@.take(i as int).push(
                self.entries@[i as int],
            ));
            i = i + 1;
        }
        assert(self.entries@.take(n as int) =~= self.entries@);
        all
    }
}

impl Default for Table {
    /// An empty table with one owner.
    fn default() -> (t: Table)
        ensures
            t.wf(),
            t@ == Seq::<Partition>::empty(),
            t.owner_count() == 1,
    {
        Table::new()
    }
}

} // verus!
