//! Reference counts across several tables.
//!
//! Each table that holds a partition owns one reference to it, and so does
//! each caller that created it or asked for one. Where the counts add up,
//! a partition lives exactly as long as someone holds it, and it is
//! released once, by whoever gives up the last reference.

use vstd::prelude::*;
use crate::partition::{ArenaView, Partition};
use crate::table::{is_first_at, release_all};

verus! {

/// The number of tables among `tables` that hold `p`.
pub open spec fn holders(tables: Seq<Seq<Partition>>, p: Partition) -> nat
    decreases tables.len(),
{
    if tables.len() == 0 {
        0
    } else {
        holders(tables.drop_last(), p) + if tables.last().contains(p) {
            1nat
        } else {
            0nat
        }
    }
}

/// The counts add up: every partition has one reference for each table that
/// holds it and `outside(p)` more, which callers hold.
pub open spec fn accounted(
    a: ArenaView,
    tables: Seq<Seq<Partition>>,
    outside: spec_fn(Partition) -> nat,
) -> bool {
    forall|p: Partition| a.ref_count(p) == #[trigger] holders(tables, p) + outside(p)
}

/// The references that callers hold, with one more on `p`.
pub open spec fn one_more(outside: spec_fn(Partition) -> nat, p: Partition) -> spec_fn(
    Partition,
) -> nat {
    |q: Partition|
        if q == p {
            outside(q) + 1
        } else {
            outside(q)
        }
}

/// The references that callers hold, with one less on `p`.
pub open spec fn one_less(outside: spec_fn(Partition) -> nat, p: Partition) -> spec_fn(
    Partition,
) -> nat {
    |q: Partition|
        if q == p {
            (outside(q) - 1) as nat
        } else {
            outside(q)
        }
}

/// Replacing one table changes the number of holders of a partition by
/// what that table held and what it holds now.
pub proof fn lemma_holders_update(
    tables: Seq<Seq<Partition>>,
    i: int,
    t: Seq<Partition>,
    p: Partition,
)
    requires
        0 <= i < tables.len(),
    ensures
        holders(tables.update(i, t), p) + (if tables[i].contains(p) {
            1nat
        } else {
            0nat
        }) == holders(tables, p) + (if t.contains(p) {
            1nat
        } else {
            0nat
        }),
    decreases tables.len(),
{
    let changed = tables.update(i, t);
    if i == tables.len() - 1 {
        assert(changed.drop_last() =~= tables.drop_last());
    } else {
        assert(changed.drop_last() =~= tables.drop_last().update(i, t));
        lemma_holders_update(tables.drop_last(), i, t, p);
    }
}

/// Two different tables that hold the same partition make two holders.
pub proof fn lemma_two_holders(tables: Seq<Seq<Partition>>, i: int, j: int, p: Partition)
    requires
        0 <= i < j < tables.len(),
        tables[i].contains(p),
        tables[j].contains(p),
    ensures
        holders(tables, p) >= 2,
    decreases tables.len(),
{
    if j == tables.len() - 1 {
        lemma_one_holder(tables.drop_last(), i, p);
    } else {
        lemma_two_holders(tables.drop_last(), i, j, p);
    }
}

/// A table that holds the partition makes one holder.
pub proof fn lemma_one_holder(tables: Seq<Seq<Partition>>, i: int, p: Partition)
    requires
        0 <= i < tables.len(),
        tables[i].contains(p),
    ensures
        holders(tables, p) >= 1,
    decreases tables.len(),
{
    if i < tables.len() - 1 {
        lemma_one_holder(tables.drop_last(), i, p);
    }
}

/// Where the counts add up, a partition is live exactly while a table or a
/// caller holds it.
pub proof fn lemma_live_while_held(
    a: ArenaView,
    tables: Seq<Seq<Partition>>,
    outside: spec_fn(Partition) -> nat,
    p: Partition,
)
    requires
        accounted(a, tables, outside),
    ensures
        a.is_live(p) <==> holders(tables, p) + outside(p) > 0,
{
}

/// Removing a partition from one table while another table still holds it
/// does not release it: it stays live, with the fields it had.
pub proof fn lemma_shared_partition_survives_removal(
    a: ArenaView,
    tables: Seq<Seq<Partition>>,
    outside: spec_fn(Partition) -> nat,
    i: int,
    j: int,
    p: Partition,
)
    requires
        accounted(a, tables, outside),
        0 <= i < tables.len(),
        0 <= j < tables.len(),
        i != j,
        tables[i].contains(p),
        tables[j].contains(p),
    ensures
        a.release(p).is_live(p),
        a.release(p).data(p) == a.data(p),
        a.release(p).ref_count(p) == a.ref_count(p) - 1,
{
    if i < j {
        lemma_two_holders(tables, i, j, p);
    } else {
        lemma_two_holders(tables, j, i, p);
    }
}

/// Removing a partition from the only table that holds it, when no caller
/// holds it either, releases it. From then on giving up a reference to it
/// changes nothing: it is not released a second time.
pub proof fn lemma_last_holder_releases(
    a: ArenaView,
    tables: Seq<Seq<Partition>>,
    outside: spec_fn(Partition) -> nat,
    i: int,
    p: Partition,
)
    requires
        accounted(a, tables, outside),
        0 <= i < tables.len(),
        tables[i].contains(p),
        holders(tables, p) == 1,
        outside(p) == 0,
    ensures
        a.is_live(p),
        !a.release(p).is_live(p),
        a.release(p).ref_count(p) == 0,
        a.release(p).release(p) == a.release(p),
{
}

/// Giving up a reference to one partition leaves every other partition as
/// it was.
pub proof fn lemma_release_is_local(a: ArenaView, p: Partition, q: Partition)
    requires
        p != q,
    ensures
        a.release(p).ref_count(q) == a.ref_count(q),
        a.release(p).is_live(q) == a.is_live(q),
        a.release(p).is_live(q) ==> a.release(p).data(q) == a.data(q),
{
}

/// Removing a partition from a table, and giving up that table's
/// reference, keeps the counts adding up.
pub proof fn lemma_removal_keeps_accounts(
    a: ArenaView,
    tables: Seq<Seq<Partition>>,
    outside: spec_fn(Partition) -> nat,
    i: int,
    p: Partition,
    at: int,
)
    requires
        accounted(a, tables, outside),
        0 <= i < tables.len(),
        tables[i].no_duplicates(),
        is_first_at(tables[i], p, at),
    ensures
        accounted(a.release(p), tables.update(i, tables[i].remove(at)), outside),
{
    let before = tables[i];
    let after = before.remove(at);
    let changed = tables.update(i, after);
    assert(before.contains(p));
    assert(!after.contains(p)) by {
        if after.contains(p) {
            let k = choose|k: int| 0 <= k < after.len() && after[k] == p;
            let k0 = if k < at { k } else { k + 1 };
            assert(before[k0] == p);
        }
    }
    assert forall|q: Partition|
        a.release(p).ref_count(q) == #[trigger] holders(changed, q) + outside(q) by {
        lemma_holders_update(tables, i, after, q);
        assert(a.ref_count(q) == holders(tables, q) + outside(q));
        if q == p {
            lemma_one_holder(tables, i, p);
        } else {
            if after.contains(q) {
                let k = choose|k: int| 0 <= k < after.len() && after[k] == q;
                let k0 = if k < at { k } else { k + 1 };
                assert(before[k0] == q);
            }
            if before.contains(q) {
                let k = choose|k: int| 0 <= k < before.len() && before[k] == q;
                let k1 = if k < at { k } else { k - 1 };
                assert(after[k1] == q);
            }
            assert(after.contains(q) == before.contains(q));
        }
    }
}

/// Adding a partition to a table that does not hold it, and taking a
/// reference for the table, keeps the counts adding up.
pub proof fn lemma_addition_keeps_accounts(
    a: ArenaView,
    tables: Seq<Seq<Partition>>,
    outside: spec_fn(Partition) -> nat,
    i: int,
    p: Partition,
)
    requires
        accounted(a, tables, outside),
        0 <= i < tables.len(),
        a.can_retain(p),
        !tables[i].contains(p),
    ensures
        accounted(a.retain(p), tables.update(i, tables[i].push(p)), outside),
{
    let before = tables[i];
    let after = before.push(p);
    let changed = tables.update(i, after);
    assert(after[before.len() as int] == p);
    assert forall|q: Partition|
        a.retain(p).ref_count(q) == #[trigger] holders(changed, q) + outside(q) by {
        lemma_holders_update(tables, i, after, q);
        assert(a.ref_count(q) == holders(tables, q) + outside(q));
        if q != p {
            if after.contains(q) {
                let k = choose|k: int| 0 <= k < after.len() && after[k] == q;
                assert(before[k] == q);
            }
            if before.contains(q) {
                let k = choose|k: int| 0 <= k < before.len() && before[k] == q;
                assert(after[k] == q);
            }
            assert(after.contains(q) == before.contains(q));
        }
    }
}

/// A caller that takes a reference keeps the counts adding up.
pub proof fn lemma_ref_keeps_accounts(
    a: ArenaView,
    tables: Seq<Seq<Partition>>,
    outside: spec_fn(Partition) -> nat,
    p: Partition,
)
    requires
        accounted(a, tables, outside),
        a.can_retain(p),
    ensures
        accounted(a.retain(p), tables, one_more(outside, p)),
{
    assert forall|q: Partition|
        a.retain(p).ref_count(q) == #[trigger] holders(tables, q) + one_more(outside, p)(q) by {
        assert(a.ref_count(q) == holders(tables, q) + outside(q));
    }
}

/// A caller that gives up a reference it holds keeps the counts adding up.
pub proof fn lemma_unref_keeps_accounts(
    a: ArenaView,
    tables: Seq<Seq<Partition>>,
    outside: spec_fn(Partition) -> nat,
    p: Partition,
)
    requires
        accounted(a, tables, outside),
        outside(p) > 0,
    ensures
        accounted(a.release(p), tables, one_less(outside, p)),
{
    assert forall|q: Partition|
        a.release(p).ref_count(q) == #[trigger] holders(tables, q) + one_less(outside, p)(q) by {
        assert(a.ref_count(q) == holders(tables, q) + outside(q));
    }
}

/// A new partition, whose one reference its creator holds, keeps the
/// counts adding up.
pub proof fn lemma_new_keeps_accounts(
    a: ArenaView,
    tables: Seq<Seq<Partition>>,
    outside: spec_fn(Partition) -> nat,
)
    requires
        accounted(a, tables, outside),
        a.slots.len() <= usize::MAX,
    ensures
        accounted(
            a.allocate(),
            tables,
            one_more(outside, Partition { id: a.slots.len() as usize }),
        ),
{
    let p = Partition { id: a.slots.len() as usize };
    assert forall|q: Partition|
        a.allocate().ref_count(q) == #[trigger] holders(tables, q) + one_more(outside, p)(q) by {
        assert(a.ref_count(q) == holders(tables, q) + outside(q));
    }
}

/// Emptying a table, and giving up its reference to each entry, keeps the
/// counts adding up.
pub proof fn lemma_reset_keeps_accounts(
    a: ArenaView,
    tables: Seq<Seq<Partition>>,
    outside: spec_fn(Partition) -> nat,
    i: int,
)
    requires
        accounted(a, tables, outside),
        0 <= i < tables.len(),
        tables[i].no_duplicates(),
    ensures
        accounted(release_all(a, tables[i]), tables.update(i, Seq::<Partition>::empty()), outside),
{
    lemma_partial_reset_keeps_accounts(a, tables, outside, i, tables[i].len() as int);
    assert(tables[i].take(tables[i].len() as int) =~= tables[i]);
    assert(tables[i].skip(tables[i].len() as int) =~= Seq::<Partition>::empty());
}

/// Giving up the references to the first `n` entries of a table, and
/// keeping the others in it, keeps the counts adding up.
proof fn lemma_partial_reset_keeps_accounts(
    a: ArenaView,
    tables: Seq<Seq<Partition>>,
    outside: spec_fn(Partition) -> nat,
    i: int,
    n: int,
)
    requires
        accounted(a, tables, outside),
        0 <= i < tables.len(),
        tables[i].no_duplicates(),
        0 <= n <= tables[i].len(),
    ensures
        accounted(release_all(a, tables[i].take(n)), tables.update(i, tables[i].skip(n)), outside),
    decreases n,
{
    let t = tables[i];
    if n == 0 {
        assert(t.take(0) =~= Seq::<Partition>::empty());
        assert(t.skip(0) =~= t);
        assert(tables.update(i, t) =~= tables);
    } else {
        lemma_partial_reset_keeps_accounts(a, tables, outside, i, n - 1);
        let done = release_all(a, t.take(n - 1));
        let held = tables.update(i, t.skip(n - 1));
        let rest = t.skip(n - 1);
        let p = t[n - 1];
        assert(rest[0] == p);
        assert(rest.no_duplicates());
        assert(is_first_at(rest, p, 0));
        lemma_removal_keeps_accounts(done, held, outside, i, p, 0);
        assert(rest.remove(0) =~= t.skip(n));
        assert(held.update(i, t.skip(n)) =~= tables.update(i, t.skip(n)));
        assert(t.take(n).drop_last() =~= t.take(n - 1));
        assert(t.take(n).last() == p);
    }
}

/// Emptying a table that is empty already changes nothing.
pub proof fn lemma_reset_of_empty_is_noop(a: ArenaView)
    ensures
        release_all(a, Seq::<Partition>::empty()) == a,
{
}

} // verus!
