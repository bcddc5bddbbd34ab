//! Partition allocator behaviour: cursor bumps, bounds, and the partition
//! map.

use mentat::db::{Partition, PartitionMap, DB};
use mentat::types::Schema;

#[test]
fn test_partition_limits_boundary6() {
    let mut part = Partition::new(100, 1000, 100, true);
    part.set_next_entid(100); // First entid that's allowed.
    part.set_next_entid(101); // Just after first.

    assert_eq!(101..111, part.allocate_entids(10));

    part.set_next_entid(1000); // Last entid that's allowed.
    part.set_next_entid(999); // Just before last.
}

#[test]
fn partition_getters_track_the_cursor() {
    let mut part = Partition::new(100, 1000, 100, false);
    assert_eq!(part.next_entid(), 100);
    assert!(!part.contains_entid(100));
    assert!(part.allows_entid(100));
    assert!(part.allows_entid(1000));
    assert!(!part.allows_entid(1001));
    assert!(!part.allows_entid(99));

    let range = part.allocate_entids(3);
    assert_eq!(range, 100..103);
    assert_eq!(part.next_entid(), 103);
    assert!(part.contains_entid(100));
    assert!(part.contains_entid(102));
    assert!(!part.contains_entid(103));
}

#[test]
fn successive_allocations_are_contiguous_and_disjoint() {
    let mut part = Partition::new(0, 1000000, 0, false);
    let first = part.allocate_entids(5);
    let second = part.allocate_entids(7);
    assert_eq!(first, 0..5);
    assert_eq!(second, 5..12);
    assert_eq!(first.end, second.start);
}

#[test]
fn partition_map_allocates_by_name() {
    let mut map = PartitionMap::new();
    map.insert(String::from("db.part/user"), Partition::new(0x10000, 0x1FFFF, 0x10000, false));
    map.insert(String::from("db.part/tx"), Partition::new(0x20000, 0x2FFFF, 0x20000, false));

    let name = String::from("db.part/user");
    let range = map.allocate_entids(&name, 4);
    assert_eq!(range, 0x10000..0x10004);
    assert_eq!(map.get(&name).unwrap().next_entid(), 0x10004);

    // The other partition is untouched.
    let tx = String::from("db.part/tx");
    assert_eq!(map.get(&tx).unwrap().next_entid(), 0x20000);
    assert!(map.get(&String::from("db.part/absent")).is_none());
}

#[test]
fn partition_map_set_next_entid_moves_the_cursor() {
    let mut map = PartitionMap::new();
    let name = String::from("user");
    map.insert(name.clone(), Partition::new(100, 1000, 150, true));
    map.set_next_entid(&name, 120);
    assert_eq!(map.get(&name).unwrap().next_entid(), 120);
}

#[test]
fn db_holds_partition_map_and_schema() {
    let mut map = PartitionMap::new();
    let name = String::from("user");
    map.insert(name.clone(), Partition::new(0, 10, 0, false));
    let db = DB::new(map, Schema::new());
    assert_eq!(db.partition_map.get(&name).unwrap().next_entid(), 0);
    assert!(db.schema.attribute_for_entid(1).is_none());
}
