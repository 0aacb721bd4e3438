use cosmwasm_std::testing::MockStorage;
use cosmwasm_std::Storage;
use snapshot_map::snapshot::SnapshotMap;
use snapshot_map::snapshot::SnapshotNamespaces;
use snapshot_map::SnapshotError;
use snapshot_map::Strategy;

fn never_map() -> SnapshotMap {
    SnapshotMap::new(SnapshotNamespaces::new(&b"never".to_vec()), Strategy::Never)
}

fn every_map() -> SnapshotMap {
    SnapshotMap::new(SnapshotNamespaces::new(&b"every".to_vec()), Strategy::EveryBlock)
}

fn select_map() -> SnapshotMap {
    SnapshotMap::new(SnapshotNamespaces::new(&b"select".to_vec()), Strategy::Selected)
}

#[test]
fn namespace_macro() {
    let names = SnapshotNamespaces::new(&b"demo".to_vec());
    assert_eq!(names.pk, b"demo");
    assert_eq!(names.checkpoints, b"demo__checkpoints");
    assert_eq!(names.changelog, b"demo__changelog");
}

// Fills a map with the following writes:
// 1: A = 5
// 2: B = 7
// 3: C = 1, A = 8
// 4: B = None, C = 13
// 5: A = None, D = 22
// Final values -> C = 13, D = 22
fn init_data(map: &SnapshotMap, storage: &mut MockStorage) {
    map.save(storage, &b"A".to_vec(), 5, 1).unwrap();
    map.save(storage, &b"B".to_vec(), 7, 2).unwrap();

    // also use update to set - to ensure this works
    map.save(storage, &b"C".to_vec(), 1, 3).unwrap();
    map.update(storage, &b"A".to_vec(), 3, |_| Ok(8)).unwrap();

    map.remove(storage, &b"B".to_vec(), 4).unwrap();
    map.save(storage, &b"C".to_vec(), 13, 4).unwrap();

    map.remove(storage, &b"A".to_vec(), 5).unwrap();
    map.update(storage, &b"D".to_vec(), 5, |_| Ok(22)).unwrap();
}

fn assert_final_values(map: &SnapshotMap, storage: &mut MockStorage) {
    assert_eq!(None, map.may_load(storage, &b"A".to_vec()).unwrap());
    assert_eq!(None, map.may_load(storage, &b"B".to_vec()).unwrap());
    assert_eq!(Some(13u64), map.may_load(storage, &b"C".to_vec()).unwrap());
    assert_eq!(Some(22u64), map.may_load(storage, &b"D".to_vec()).unwrap());
}

#[test]
fn never_works_like_normal_map() {
    let mut storage = MockStorage::new();
    init_data(&never_map(), &mut storage);
    assert_final_values(&never_map(), &mut storage);
}

#[test]
fn every_blocks_stores_present_and_past() {
    let mut storage = MockStorage::new();
    init_data(&never_map(), &mut storage);
    assert_final_values(&never_map(), &mut storage);
}

#[test]
fn historical_reads_under_every_block() {
    let map = every_map();
    let mut storage = MockStorage::new();
    init_data(&map, &mut storage);
    assert_final_values(&map, &mut storage);

    let a = b"A".to_vec();
    assert_eq!(Some(5u64), map.may_load_at_height(&storage, &a, 2).unwrap());
    assert_eq!(Some(8u64), map.may_load_at_height(&storage, &a, 4).unwrap());
    // the entry at the removal height reports the pre-image
    assert_eq!(Some(8u64), map.may_load_at_height(&storage, &a, 5).unwrap());
    assert_eq!(None, map.may_load(&storage, &a).unwrap());
}

#[test]
fn never_height_reads_match_current() {
    let map = never_map();
    let mut storage = MockStorage::new();
    init_data(&map, &mut storage);
    for key in [b"A".to_vec(), b"B".to_vec(), b"C".to_vec(), b"D".to_vec()] {
        let current = map.may_load(&storage, &key).unwrap();
        for h in 0u64..7 {
            assert_eq!(current, map.may_load_at_height(&storage, &key, h).unwrap());
        }
    }
}

#[test]
fn save_load_round_trip() {
    for map in [never_map(), every_map()] {
        let mut storage = MockStorage::new();
        let k = b"answer".to_vec();
        map.save(&mut storage, &k, 42, 7).unwrap();
        assert_eq!(42u64, map.load(&storage, &k).unwrap());
        map.remove(&mut storage, &k, 8).unwrap();
        assert_eq!(None, map.may_load(&storage, &k).unwrap());
    }
}

#[test]
fn update_equivalent_to_save_on_fresh_key() {
    let map = every_map();
    let k = b"fresh".to_vec();

    let mut via_update = MockStorage::new();
    map.update(&mut via_update, &k, 11, |_| Ok(99)).unwrap();

    let mut via_save = MockStorage::new();
    map.save(&mut via_save, &k, 99, 11).unwrap();

    for h in 0u64..14 {
        assert_eq!(
            map.may_load_at_height(&via_update, &k, h).unwrap(),
            map.may_load_at_height(&via_save, &k, h).unwrap()
        );
    }
    assert_eq!(
        map.may_load(&via_update, &k).unwrap(),
        map.may_load(&via_save, &k).unwrap()
    );
    assert_eq!(Some(99u64), map.may_load(&via_update, &k).unwrap());
}

#[test]
fn update_failure_leaves_store_untouched() {
    let map = every_map();
    let mut storage = MockStorage::new();
    let k = b"kept".to_vec();
    map.save(&mut storage, &k, 1, 1).unwrap();
    let r = map.update(&mut storage, &k, 2, |_| Err(SnapshotError::NotFound));
    assert_eq!(Err(SnapshotError::NotFound), r);
    assert_eq!(Some(1u64), map.may_load(&storage, &k).unwrap());
    // no changelog entry was written at height 2
    assert_eq!(Some(1u64), map.may_load_at_height(&storage, &k, 2).unwrap());
}

#[test]
fn update_sees_previous_value() {
    let map = every_map();
    let mut storage = MockStorage::new();
    let k = b"counter".to_vec();
    map.save(&mut storage, &k, 10, 1).unwrap();
    let got = map
        .update(&mut storage, &k, 2, |cur| Ok(cur.unwrap_or(0) + 5))
        .unwrap();
    assert_eq!(15u64, got);
    assert_eq!(15u64, map.load(&storage, &k).unwrap());
    assert_eq!(Some(10u64), map.may_load_at_height(&storage, &k, 2).unwrap());
}

#[test]
fn scan_partitions_by_recorded_heights() {
    let map = every_map();
    let mut storage = MockStorage::new();
    let k = b"series".to_vec();
    map.save(&mut storage, &k, 100, 10).unwrap();
    map.save(&mut storage, &k, 200, 20).unwrap();
    map.save(&mut storage, &k, 300, 30).unwrap();

    // before the first recorded change: absent
    assert_eq!(None, map.may_load_at_height(&storage, &k, 0).unwrap());
    assert_eq!(None, map.may_load_at_height(&storage, &k, 5).unwrap());
    // a query exactly at a recorded height reports the pre-image...
    assert_eq!(None, map.may_load_at_height(&storage, &k, 10).unwrap());
    // ...and one past it reports the value that write set
    assert_eq!(Some(100u64), map.may_load_at_height(&storage, &k, 11).unwrap());
    assert_eq!(Some(100u64), map.may_load_at_height(&storage, &k, 20).unwrap());
    assert_eq!(Some(200u64), map.may_load_at_height(&storage, &k, 21).unwrap());
    assert_eq!(Some(200u64), map.may_load_at_height(&storage, &k, 30).unwrap());
    // past the last recorded change: the current value
    assert_eq!(Some(300u64), map.may_load_at_height(&storage, &k, 31).unwrap());
    assert_eq!(Some(300u64), map.may_load_at_height(&storage, &k, 1000).unwrap());
}

#[test]
fn selected_strategy_fails_loudly() {
    let map = select_map();
    let mut storage = MockStorage::new();
    let k = b"nope".to_vec();
    assert_eq!(
        Err(SnapshotError::StrategyUnsupported),
        map.save(&mut storage, &k, 1, 1)
    );
    assert_eq!(
        Err(SnapshotError::StrategyUnsupported),
        map.remove(&mut storage, &k, 1)
    );
    assert_eq!(
        Err(SnapshotError::StrategyUnsupported),
        map.update(&mut storage, &k, 1, |_| Ok(1))
    );
    // nothing was written
    assert_eq!(None, map.may_load(&storage, &k).unwrap());
}

#[test]
fn load_of_absent_key_is_not_found() {
    let map = every_map();
    let storage = MockStorage::new();
    assert_eq!(
        Err(SnapshotError::NotFound),
        map.load(&storage, &b"missing".to_vec())
    );
    assert_eq!(None, map.may_load(&storage, &b"missing".to_vec()).unwrap());
}

#[test]
fn unreadable_stored_bytes_are_a_parse_error() {
    let map = every_map();
    let mut storage = MockStorage::new();
    let k = b"junk".to_vec();
    // plant bytes of the wrong shape directly under the primary key
    let raw = map.key(&k);
    storage.set(&raw, &[1, 2, 3]);
    assert_eq!(Err(SnapshotError::ParseError), map.may_load(&storage, &k));
    assert_eq!(Err(SnapshotError::ParseError), map.load(&storage, &k));
    // a checkpointing write must first read the old value, so it fails too
    assert_eq!(
        Err(SnapshotError::ParseError),
        map.save(&mut storage, &k, 5, 1)
    );
}

#[test]
fn primary_key_layout_is_length_framed() {
    let map = every_map();
    // two-byte big-endian length of "every", the name, then the raw key
    assert_eq!(
        vec![0u8, 5, b'e', b'v', b'e', b'r', b'y', b'A'],
        map.key(&b"A".to_vec())
    );
    assert_eq!(vec![0u8, 5, b'e', b'v', b'e', b'r', b'y'], map.prefix());
}

#[test]
fn namespace_isolation() {
    let one = SnapshotMap::new(SnapshotNamespaces::new(&b"one".to_vec()), Strategy::EveryBlock);
    let two = SnapshotMap::new(SnapshotNamespaces::new(&b"two".to_vec()), Strategy::EveryBlock);
    let mut storage = MockStorage::new();
    let k = b"shared".to_vec();

    one.save(&mut storage, &k, 1, 1).unwrap();
    assert_eq!(None, two.may_load(&storage, &k).unwrap());
    assert_eq!(None, two.may_load_at_height(&storage, &k, 5).unwrap());

    two.save(&mut storage, &k, 2, 2).unwrap();
    assert_eq!(Some(1u64), one.may_load(&storage, &k).unwrap());
    assert_eq!(Some(2u64), two.may_load(&storage, &k).unwrap());

    one.remove(&mut storage, &k, 3).unwrap();
    assert_eq!(None, one.may_load(&storage, &k).unwrap());
    assert_eq!(Some(2u64), two.may_load(&storage, &k).unwrap());
    // each map still sees only its own history
    assert_eq!(Some(1u64), one.may_load_at_height(&storage, &k, 3).unwrap());
    assert_eq!(None, two.may_load_at_height(&storage, &k, 2).unwrap());
}
