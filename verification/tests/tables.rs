use libfdisk::partition::{Arena, Partition};
use libfdisk::table::Table;
use libfdisk::Error;

fn partition_at(arena: &mut Arena, start: u64, size: u64) -> Partition {
    let p = Partition::new(arena);
    p.set_start(arena, start).unwrap();
    p.set_size(arena, size).unwrap();
    p
}

#[test]
fn new_table_is_empty() {
    let table = Table::new();
    assert!(table.is_empty());
    assert_eq!(0, table.nents());
    assert_eq!(None, table.partition(0));
    assert!(table.iter().is_empty());
}

#[test]
fn default_table_is_empty() {
    let table = Table::default();
    assert!(table.is_empty());
    assert_eq!(0, table.nents());
}

#[test]
fn add_appends_and_takes_a_reference() {
    let mut arena = Arena::new();
    let mut table = Table::new();
    let a = partition_at(&mut arena, 50, 10);
    let b = partition_at(&mut arena, 34, 10);
    assert_eq!(Ok(()), table.add_partition(&mut arena, &a));
    assert_eq!(Ok(()), table.add_partition(&mut arena, &b));
    assert_eq!(2, table.nents());
    assert!(!table.is_empty());
    assert_eq!(Some(a), table.partition(0));
    assert_eq!(Some(b), table.partition(1));
    assert_eq!(None, table.partition(2));
    assert_eq!(2, a.ref_count(&arena));
    assert_eq!(2, b.ref_count(&arena));
    assert_eq!(vec![a, b], table.iter());
}

#[test]
fn table_accepts_any_partition_whatever_it_holds() {
    let mut arena = Arena::new();
    let mut table = Table::new();
    let unset = Partition::new(&mut arena);
    let huge = partition_at(&mut arena, 1 << 62, 1 << 62);
    let same_place = partition_at(&mut arena, 1 << 62, 1 << 62);
    assert_eq!(Ok(()), table.add_partition(&mut arena, &unset));
    assert_eq!(Ok(()), table.add_partition(&mut arena, &huge));
    assert_eq!(Ok(()), table.add_partition(&mut arena, &same_place));
    assert_eq!(3, table.nents());
}

#[test]
fn table_holds_a_partition_once() {
    let mut arena = Arena::new();
    let mut table = Table::new();
    let a = partition_at(&mut arena, 34, 10);
    assert_eq!(Ok(()), table.add_partition(&mut arena, &a));
    assert_eq!(Ok(()), table.add_partition(&mut arena, &a));
    assert_eq!(1, table.nents());
    assert_eq!(2, a.ref_count(&arena));
}

#[test]
fn add_of_a_released_partition_is_not_found() {
    let mut arena = Arena::new();
    let mut table = Table::new();
    let a = Partition::new(&mut arena);
    a.unref_partition(&mut arena).unwrap();
    assert_eq!(Err(Error::NotFound), table.add_partition(&mut arena, &a));
    assert!(table.is_empty());
}

#[test]
fn remove_gives_up_the_reference() {
    let mut arena = Arena::new();
    let mut table = Table::new();
    let a = partition_at(&mut arena, 34, 10);
    let b = partition_at(&mut arena, 44, 10);
    let c = partition_at(&mut arena, 54, 10);
    table.add_partition(&mut arena, &a).unwrap();
    table.add_partition(&mut arena, &b).unwrap();
    table.add_partition(&mut arena, &c).unwrap();
    assert_eq!(Ok(()), table.remove_partition(&mut arena, &b));
    assert_eq!(vec![a, c], table.iter());
    assert_eq!(1, b.ref_count(&arena));
    assert_eq!(2, a.ref_count(&arena));
    assert_eq!(2, c.ref_count(&arena));
}

#[test]
fn remove_of_an_absent_partition_is_not_found() {
    let mut arena = Arena::new();
    let mut table = Table::new();
    let a = partition_at(&mut arena, 34, 10);
    let b = partition_at(&mut arena, 44, 10);
    table.add_partition(&mut arena, &a).unwrap();
    assert_eq!(Err(Error::NotFound), table.remove_partition(&mut arena, &b));
    assert_eq!(1, table.nents());
    assert_eq!(1, b.ref_count(&arena));
    assert_eq!(2, a.ref_count(&arena));
    table.remove_partition(&mut arena, &a).unwrap();
    assert_eq!(Err(Error::NotFound), table.remove_partition(&mut arena, &a));
}

#[test]
fn reset_empties_the_table_and_gives_up_every_reference() {
    let mut arena = Arena::new();
    let mut table = Table::new();
    let a = partition_at(&mut arena, 34, 10);
    let b = partition_at(&mut arena, 44, 10);
    table.add_partition(&mut arena, &a).unwrap();
    table.add_partition(&mut arena, &b).unwrap();
    b.unref_partition(&mut arena).unwrap();
    assert_eq!(Ok(()), table.reset_table(&mut arena));
    assert!(table.is_empty());
    assert_eq!(1, a.ref_count(&arena));
    assert!(a.is_live(&arena));
    assert!(!b.is_live(&arena));
    let c = partition_at(&mut arena, 54, 10);
    assert_eq!(Ok(()), table.add_partition(&mut arena, &c));
    assert_eq!(1, table.nents());
}

#[test]
fn reset_of_an_empty_table_changes_nothing() {
    let mut arena = Arena::new();
    let mut table = Table::new();
    let a = partition_at(&mut arena, 34, 10);
    assert_eq!(Ok(()), table.reset_table(&mut arena));
    assert!(table.is_empty());
    assert_eq!(Ok(()), table.reset_table(&mut arena));
    assert!(table.is_empty());
    assert_eq!(1, a.ref_count(&arena));
    assert_eq!(1, arena.capacity_used());
}

#[test]
fn partition_by_partno_finds_the_first_match() {
    let mut arena = Arena::new();
    let mut table = Table::new();
    let a = partition_at(&mut arena, 34, 10);
    let b = partition_at(&mut arena, 44, 10);
    let c = partition_at(&mut arena, 54, 10);
    a.set_partno(&mut arena, 1).unwrap();
    b.set_partno(&mut arena, 2).unwrap();
    c.set_partno(&mut arena, 2).unwrap();
    table.add_partition(&mut arena, &a).unwrap();
    table.add_partition(&mut arena, &b).unwrap();
    table.add_partition(&mut arena, &c).unwrap();
    assert_eq!(Some(a), table.partition_by_partno(&arena, 1));
    assert_eq!(Some(b), table.partition_by_partno(&arena, 2));
    assert_eq!(None, table.partition_by_partno(&arena, 0));
    table.remove_partition(&mut arena, &b).unwrap();
    assert_eq!(Some(c), table.partition_by_partno(&arena, 2));
}

#[test]
fn partition_without_partno_is_found_under_no_number() {
    let mut arena = Arena::new();
    let mut table = Table::new();
    let a = partition_at(&mut arena, 34, 10);
    table.add_partition(&mut arena, &a).unwrap();
    assert_eq!(None, table.partition_by_partno(&arena, 0));
}

#[test]
fn wrong_order_compares_starts_in_order_of_insertion() {
    let mut arena = Arena::new();
    let a = partition_at(&mut arena, 34, 10);
    let b = partition_at(&mut arena, 50, 10);
    let c = partition_at(&mut arena, 50, 5);

    let mut ascending = Table::new();
    assert!(!ascending.is_wrong_order(&arena));
    ascending.add_partition(&mut arena, &a).unwrap();
    assert!(!ascending.is_wrong_order(&arena));
    ascending.add_partition(&mut arena, &b).unwrap();
    ascending.add_partition(&mut arena, &c).unwrap();
    assert!(!ascending.is_wrong_order(&arena));

    let mut descending = Table::new();
    descending.add_partition(&mut arena, &b).unwrap();
    descending.add_partition(&mut arena, &a).unwrap();
    assert!(descending.is_wrong_order(&arena));
}

#[test]
fn wrong_order_follows_a_later_change_of_start() {
    let mut arena = Arena::new();
    let mut table = Table::new();
    let a = partition_at(&mut arena, 34, 10);
    let b = partition_at(&mut arena, 50, 10);
    table.add_partition(&mut arena, &a).unwrap();
    table.add_partition(&mut arena, &b).unwrap();
    assert!(!table.is_wrong_order(&arena));
    b.set_start(&mut arena, 10).unwrap();
    assert!(table.is_wrong_order(&arena));
}

#[test]
fn iteration_is_a_copy_taken_at_the_call() {
    let mut arena = Arena::new();
    let mut table = Table::new();
    let a = partition_at(&mut arena, 34, 10);
    let b = partition_at(&mut arena, 44, 10);
    table.add_partition(&mut arena, &a).unwrap();
    let seen = table.iter();
    table.add_partition(&mut arena, &b).unwrap();
    assert_eq!(vec![a], seen);
    assert_eq!(vec![a, b], table.iter());
    assert_eq!(vec![a, b], table.iter());
}

#[test]
fn partition_shared_by_two_tables_outlives_one_of_them() {
    let mut arena = Arena::new();
    let mut first = Table::new();
    let mut second = Table::new();
    let p = partition_at(&mut arena, 34, 10);
    first.add_partition(&mut arena, &p).unwrap();
    second.add_partition(&mut arena, &p).unwrap();
    p.unref_partition(&mut arena).unwrap();
    assert_eq!(2, p.ref_count(&arena));

    first.remove_partition(&mut arena, &p).unwrap();
    assert!(p.is_live(&arena));
    assert_eq!(1, p.ref_count(&arena));
    assert_eq!(Some(34), p.start(&arena));
    assert_eq!(Some(p), second.partition(0));

    second.remove_partition(&mut arena, &p).unwrap();
    assert!(!p.is_live(&arena));
    assert_eq!(0, p.ref_count(&arena));
    assert_eq!(Err(Error::NotFound), p.unref_partition(&mut arena));
    assert_eq!(Err(Error::NotFound), second.remove_partition(&mut arena, &p));
    assert_eq!(0, p.ref_count(&arena));
}

#[test]
fn change_through_the_handle_is_seen_through_every_table() {
    let mut arena = Arena::new();
    let mut first = Table::new();
    let mut second = Table::new();
    let p = partition_at(&mut arena, 34, 10);
    first.add_partition(&mut arena, &p).unwrap();
    second.add_partition(&mut arena, &p).unwrap();
    p.set_partno(&mut arena, 5).unwrap();
    assert_eq!(Some(p), first.partition_by_partno(&arena, 5));
    assert_eq!(Some(p), second.partition_by_partno(&arena, 5));
}

#[test]
fn table_with_a_released_entry_passes_it_over() {
    let mut arena = Arena::new();
    let mut table = Table::new();
    let a = partition_at(&mut arena, 50, 10);
    let b = partition_at(&mut arena, 60, 10);
    a.set_partno(&mut arena, 0).unwrap();
    table.add_partition(&mut arena, &a).unwrap();
    table.add_partition(&mut arena, &b).unwrap();
    a.unref_partition(&mut arena).unwrap();
    a.unref_partition(&mut arena).unwrap();
    assert!(!a.is_live(&arena));
    assert_eq!(2, table.nents());
    assert_eq!(None, table.partition_by_partno(&arena, 0));
    assert!(!table.is_wrong_order(&arena));
    assert_eq!(Ok(()), table.remove_partition(&mut arena, &a));
    assert_eq!(vec![b], table.iter());
}

#[test]
fn owners_of_a_table_are_counted() {
    let mut arena = Arena::new();
    let mut table = Table::new();
    let a = partition_at(&mut arena, 34, 10);
    table.add_partition(&mut arena, &a).unwrap();
    table.ref_table();
    table.unref_table(&mut arena);
    assert_eq!(1, table.nents());
    assert_eq!(2, a.ref_count(&arena));
    table.unref_table(&mut arena);
    assert!(table.is_empty());
    assert_eq!(1, a.ref_count(&arena));
    table.unref_table(&mut arena);
    assert!(table.is_empty());
    assert_eq!(1, a.ref_count(&arena));
}
