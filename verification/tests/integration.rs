use libfdisk::context::Context;
use libfdisk::label::{DiskLabel, Geometry, LabelFormat};
use libfdisk::partition::{Arena, Partition};
use libfdisk::Error;

const DEFAULT_TYPE: &str = "0FC63DAF-8483-4772-8E79-3D69D8477DE4";
const DEFAULT_GPT_LBA: u64 = 34;

/// A device of 65528 bytes in sectors of 512 bytes: a GPT label leaves
/// sectors 34 to 93 to partitions.
fn small_device() -> Geometry {
    Geometry { first_usable_lba: 34, last_usable_lba: 93, sector_size: 512, grain: 1 }
}

fn gpt_context() -> Context {
    let mut context = Context::new(DiskLabel::create(LabelFormat::Dos, small_device()));
    context.create_disklabel(LabelFormat::Gpt);
    context
}

#[test]
fn create_gpt_label() {
    let context = gpt_context();

    let label = context.get_label();
    assert_eq!("gpt", label.name());

    assert_eq!(LabelFormat::Gpt, label.format())
}

#[test]
fn create_a_single_partition() {
    let mut arena = Arena::new();
    let mut context = gpt_context();

    let partition = Partition::new(&mut arena);
    partition.set_start(&mut arena, context.first_lba()).unwrap();
    partition
        .set_size(&mut arena, context.last_lba() - context.first_lba() + 1)
        .unwrap();
    partition.set_partno(&mut arena, 0).unwrap();
    context.set_partition(&arena, 0, &partition).unwrap();

    assert_eq!(1, context.get_label().nparts());
    let first_part = context.get_label().partition(0).unwrap();

    assert_eq!(DEFAULT_GPT_LBA, first_part.start);
    assert_eq!(60, first_part.size);
    assert_eq!(DEFAULT_TYPE, first_part.type_id)
}

#[test]
fn delete_all_partitions() {
    let mut arena = Arena::new();
    let mut context = gpt_context();

    let partition = Partition::new(&mut arena);
    partition.set_start(&mut arena, context.first_lba()).unwrap();
    partition.set_size(&mut arena, 10).unwrap();
    partition.set_partno(&mut arena, 0).unwrap();
    context.set_partition(&arena, 0, &partition).unwrap();

    context.delete_all_partitions().unwrap();

    let table = context.get_partitions(&mut arena);
    assert!(table.is_empty());
    assert_eq!(0, context.get_label().nparts())
}

#[test]
fn delete_a_partition() {
    let mut arena = Arena::new();
    let mut context = gpt_context();

    let partition = Partition::new(&mut arena);
    partition.set_start(&mut arena, context.first_lba()).unwrap();
    partition.set_size(&mut arena, 10).unwrap();
    partition.set_partno(&mut arena, 0).unwrap();
    context.set_partition(&arena, 0, &partition).unwrap();

    context.delete_partition(0).unwrap();

    let table = context.get_partitions(&mut arena);
    assert!(table.is_empty());
    assert!(context.get_label().partition(0).is_none())
}

#[test]
fn cannot_set_size_bigger_then_lba() {
    let mut arena = Arena::new();
    let mut context = gpt_context();

    let partition = Partition::new(&mut arena);
    partition.set_start(&mut arena, context.first_lba()).unwrap();
    partition.set_size(&mut arena, 1000).unwrap();
    assert!(context.set_partition(&arena, 0, &partition).is_err());
    assert_eq!(Err(Error::OutOfRange), context.set_partition(&arena, 0, &partition));
    assert_eq!(0, context.get_label().nparts())
}

#[test]
fn use_table() {
    let mut arena = Arena::new();
    let mut context = gpt_context();

    let mut table = context.get_partitions(&mut arena);
    let mut partition = Partition::new(&mut arena);
    partition.set_start(&mut arena, context.first_lba()).unwrap();
    partition.set_size(&mut arena, 10).unwrap();
    partition.set_partno(&mut arena, 0).unwrap();
    table.add_partition(&mut arena, &mut partition).unwrap();

    assert_eq!(1, table.nents());

    context.apply_table(&arena, &table).unwrap();

    assert!(!context.get_partitions(&mut arena).is_empty());
    let stored = context.get_label().partition(0).unwrap();
    assert_eq!((34, 10), (stored.start, stored.size))
}
