use libfdisk::partition::{Arena, Partition, PartitionData};
use libfdisk::Error;

#[test]
fn new_partition_is_unset_and_referenced_once() {
    let mut arena = Arena::new();
    let p = Partition::new(&mut arena);
    assert!(p.is_live(&arena));
    assert_eq!(1, p.ref_count(&arena));
    assert_eq!(Some(0), p.start(&arena));
    assert_eq!(Some(0), p.size(&arena));
    assert_eq!(None, p.partno(&arena));
    let d = p.data(&arena).unwrap();
    assert_eq!("", d.type_id);
    assert_eq!("", d.name);
    assert_eq!(0, d.flags);
    assert_eq!(1, arena.capacity_used());
}

#[test]
fn handles_are_numbered_in_order_of_creation() {
    let mut arena = Arena::new();
    let a = Partition::new(&mut arena);
    let b = Partition::new(&mut arena);
    assert_eq!(0, a.id);
    assert_eq!(1, b.id);
    assert_ne!(a, b);
}

#[test]
fn setters_store_their_values() {
    let mut arena = Arena::new();
    let p = Partition::new(&mut arena);
    assert_eq!(Ok(()), p.set_start(&mut arena, 2048));
    assert_eq!(Ok(()), p.set_size(&mut arena, 4096));
    assert_eq!(Ok(()), p.set_partno(&mut arena, 3));
    assert_eq!(Ok(()), p.set_type_id(&mut arena, "C12A7328-F81F-11D2-BA4B-00A0C93EC93B"));
    assert_eq!(Ok(()), p.set_name(&mut arena, "boot"));
    assert_eq!(Ok(()), p.set_flags(&mut arena, 0b101));
    let d = p.data(&arena).unwrap();
    assert_eq!(2048, d.start);
    assert_eq!(4096, d.size);
    assert_eq!(Some(3), d.partno);
    assert_eq!("C12A7328-F81F-11D2-BA4B-00A0C93EC93B", d.type_id);
    assert_eq!("boot", d.name);
    assert_eq!(0b101, d.flags);
    assert_eq!(Some(2048), p.start(&arena));
    assert_eq!(Some(4096), p.size(&arena));
    assert_eq!(Some(3), p.partno(&arena));
}

#[test]
fn a_setter_changes_one_partition_only() {
    let mut arena = Arena::new();
    let a = Partition::new(&mut arena);
    let b = Partition::new(&mut arena);
    a.set_start(&mut arena, 7).unwrap();
    assert_eq!(Some(7), a.start(&arena));
    assert_eq!(Some(0), b.start(&arena));
}

#[test]
fn size_that_overflows_the_start_is_invalid() {
    let mut arena = Arena::new();
    let p = Partition::new(&mut arena);
    p.set_start(&mut arena, u64::MAX - 5).unwrap();
    assert_eq!(Err(Error::InvalidArgument), p.set_size(&mut arena, 6));
    assert_eq!(Some(0), p.size(&arena));
    assert_eq!(Ok(()), p.set_size(&mut arena, 5));
    assert_eq!(Some(5), p.size(&arena));
}

#[test]
fn start_that_overflows_with_the_size_is_invalid() {
    let mut arena = Arena::new();
    let p = Partition::new(&mut arena);
    p.set_size(&mut arena, 10).unwrap();
    assert_eq!(Err(Error::InvalidArgument), p.set_start(&mut arena, u64::MAX - 9));
    assert_eq!(Some(0), p.start(&arena));
    assert_eq!(Ok(()), p.set_start(&mut arena, u64::MAX - 10));
}

#[test]
fn geometry_plays_no_part_when_fields_are_set() {
    let mut arena = Arena::new();
    let p = Partition::new(&mut arena);
    assert_eq!(Ok(()), p.set_start(&mut arena, 1 << 60));
    assert_eq!(Ok(()), p.set_size(&mut arena, 1 << 60));
    assert_eq!(Ok(()), p.set_partno(&mut arena, 100_000));
}

#[test]
fn references_are_counted() {
    let mut arena = Arena::new();
    let p = Partition::new(&mut arena);
    assert_eq!(Ok(()), p.ref_partition(&mut arena));
    assert_eq!(2, p.ref_count(&arena));
    assert_eq!(Ok(()), p.unref_partition(&mut arena));
    assert_eq!(1, p.ref_count(&arena));
    assert!(p.is_live(&arena));
}

#[test]
fn last_reference_releases_the_partition_once() {
    let mut arena = Arena::new();
    let p = Partition::new(&mut arena);
    p.set_start(&mut arena, 99).unwrap();
    assert_eq!(Ok(()), p.unref_partition(&mut arena));
    assert!(!p.is_live(&arena));
    assert_eq!(0, p.ref_count(&arena));
    assert_eq!(None, p.start(&arena));
    assert!(p.data(&arena).is_none());
    assert_eq!(Err(Error::NotFound), p.unref_partition(&mut arena));
    assert_eq!(Err(Error::NotFound), p.ref_partition(&mut arena));
    assert_eq!(0, p.ref_count(&arena));
}

#[test]
fn a_released_slot_is_not_handed_out_again() {
    let mut arena = Arena::new();
    let p = Partition::new(&mut arena);
    p.unref_partition(&mut arena).unwrap();
    let q = Partition::new(&mut arena);
    assert_ne!(p, q);
    assert!(!p.is_live(&arena));
    assert!(q.is_live(&arena));
}

#[test]
fn a_handle_that_names_nothing_is_not_found() {
    let mut arena = Arena::new();
    let stranger = Partition { id: 12 };
    assert!(!stranger.is_live(&arena));
    assert_eq!(0, stranger.ref_count(&arena));
    assert_eq!(Err(Error::NotFound), stranger.set_start(&mut arena, 1));
    assert_eq!(Err(Error::NotFound), stranger.set_size(&mut arena, 1));
    assert_eq!(Err(Error::NotFound), stranger.set_partno(&mut arena, 1));
    assert_eq!(Err(Error::NotFound), stranger.set_type_id(&mut arena, "83"));
    assert_eq!(Err(Error::NotFound), stranger.set_name(&mut arena, "x"));
    assert_eq!(Err(Error::NotFound), stranger.set_flags(&mut arena, 1));
    assert_eq!(None, stranger.start(&arena));
    assert_eq!(None, stranger.size(&arena));
    assert_eq!(None, stranger.partno(&arena));
    assert_eq!(0, arena.capacity_used());
}

#[test]
fn partition_from_fields() {
    let mut arena = Arena::new();
    let fields = PartitionData {
        start: 34,
        size: 10,
        partno: Some(2),
        type_id: String::from("83"),
        name: String::from("data"),
        flags: 1,
    };
    let copy = fields.duplicate();
    let p = Partition::from_data(&mut arena, fields).unwrap();
    assert_eq!(1, p.ref_count(&arena));
    let d = p.data(&arena).unwrap();
    assert_eq!((34, 10, Some(2), 1), (d.start, d.size, d.partno, d.flags));
    assert_eq!(copy.type_id, d.type_id);
    assert_eq!(copy.name, d.name);
}

#[test]
fn partition_from_fields_that_overflow_is_invalid() {
    let mut arena = Arena::new();
    let mut fields = PartitionData::unset();
    fields.start = u64::MAX;
    fields.size = 1;
    assert_eq!(Err(Error::InvalidArgument), Partition::from_data(&mut arena, fields));
    assert_eq!(0, arena.capacity_used());
}
