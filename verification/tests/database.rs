use subdb::{Database, Error, Image, Insertion, KeyType, MetadataV1, Options, ReindexStage};

type Db = Database<[u8; 32]>;

fn database_with(options: Options, key_bytes: usize, index_bits: usize) -> Db {
    options.open(Image::empty(MetadataV1 { key_bytes, index_bits })).unwrap()
}

fn database() -> Db {
    database_with(Options::new(), 4, 8)
}

/// A key with a given first and a given last byte.
fn key(a: u8, b: u8) -> [u8; 32] {
    let mut key = [0u8; 32];
    key[0] = a;
    key[31] = b;
    key
}

fn done(r: Insertion<[u8; 32]>) -> (u64, [u8; 32], Option<(usize, usize)>) {
    match r {
        Insertion::Done { refs, hash, grow } => (refs, hash, grow),
        Insertion::Full { .. } => panic!("the index is full"),
    }
}

#[test]
fn data_go_under_their_hash() {
    let mut db = database();
    let (refs, hash, grow) = done(db.insert(b"abc", None));
    assert_eq!((refs, grow), (1, None));
    assert_eq!(hash[..8], [0xbd, 0xdd, 0x81, 0x3c, 0x63, 0x42, 0x39, 0x72]);
    assert_eq!(hash[24..], [0x72, 0x62, 0xc8, 0xc0, 0x68, 0xd5, 0x23, 0x19]);
    assert_eq!(db.get(&hash), Some(b"abc".to_vec()));
    assert_eq!(hash, <[u8; 32] as KeyType>::from_data(b"abc"));
}

#[test]
fn empty_data_can_be_stored() {
    let mut db = database();
    let (_, hash, _) = done(db.insert(b"", None));
    assert_eq!(hash[..4], [0x0e, 0x57, 0x51, 0xc0]);
    assert_eq!(db.get(&hash), Some(Vec::new()));
    assert_eq!(db.get_ref_count(&hash), 1);
}

#[test]
fn insertion_reads_back() {
    let mut db = database();
    let k = key(1, 2);
    assert_eq!(db.get(&k), None);
    assert_eq!(db.get_ref(&k), None);
    assert!(!db.contains_key(&k));
    assert_eq!(db.get_ref_count(&k), 0);
    assert_eq!(done(db.insert(b"hello", Some(k))), (1, k, None));
    assert_eq!(db.get(&k), Some(b"hello".to_vec()));
    assert_eq!(db.get_ref(&k), Some(&b"hello"[..]));
    assert!(db.contains_key(&k));
    assert_eq!(db.get_ref_count(&k), 1);
}

#[test]
fn a_known_key_keeps_its_data() {
    let mut db = database();
    let k = key(1, 2);
    done(db.insert(b"first", Some(k)));
    assert_eq!(done(db.insert(b"second", Some(k))), (2, k, None));
    assert_eq!(db.get(&k), Some(b"first".to_vec()));
}

#[test]
fn insertions_are_counted() {
    let mut db = database();
    let k = key(9, 9);
    for n in 1..=5 {
        assert_eq!(done(db.insert(b"x", Some(k))).0, n);
    }
    for n in (0..5).rev() {
        assert!(db.contains_key(&k));
        assert_eq!(db.remove(&k), Ok(n));
        assert_eq!(db.get_ref_count(&k), n);
    }
    assert!(!db.contains_key(&k));
    assert_eq!(db.remove(&k), Err(()));
}

#[test]
fn references_are_counted() {
    let mut db = database();
    let (k, other) = (key(9, 9), key(9, 8));
    assert_eq!(db.remove(&k), Err(()));
    done(db.insert(b"x", Some(k)));
    done(db.insert(b"o", Some(other)));
    assert_eq!(db.reindex(4, 9, None), Ok(()));
    done(db.insert(b"y", Some(k)));
    assert_eq!(db.remove(&other), Ok(0));
    assert_eq!(db.read(&k), Some(b"x".to_vec()));
    assert_eq!(db.remove(&other), Err(()));
    done(db.insert(b"z", Some(k)));
    assert_eq!(db.remove(&k), Ok(2));
    assert_eq!(db.get(&k), Some(b"x".to_vec()));
    assert_eq!(db.get_ref_count(&k), 2);
}

#[test]
fn removal_undoes_insertion() {
    let mut db = database();
    let (a, b) = (key(1, 1), key(2, 2));
    done(db.insert(b"a", Some(a)));
    done(db.insert(b"b", Some(b)));
    assert_eq!(db.remove(&b), Ok(0));
    assert_eq!(db.get(&a), Some(b"a".to_vec()));
    assert_eq!(db.get(&b), None);
    done(db.insert(b"c", Some(b)));
    assert_eq!(db.get(&b), Some(b"c".to_vec()));
}

#[test]
fn keys_that_start_alike_are_told_apart() {
    let mut db = database();
    let keys: Vec<[u8; 32]> = (0..20).map(|n| key(7, n)).collect();
    for (n, k) in keys.iter().enumerate() {
        done(db.insert(&[n as u8], Some(*k)));
    }
    for (n, k) in keys.iter().enumerate() {
        assert_eq!(db.get(k), Some(vec![n as u8]));
    }
    assert!(!db.contains_key(&key(7, 20)));
    assert_eq!(db.remove(&keys[3]), Ok(0));
    for (n, k) in keys.iter().enumerate() {
        assert_eq!(db.contains_key(k), n != 3);
    }
}

#[test]
fn a_full_index_changes_nothing() {
    let mut db = database_with(Options::new(), 4, 1);
    done(db.insert(b"a", Some(key(1, 0))));
    done(db.insert(b"b", Some(key(200, 0))));
    match db.insert(b"c", Some(key(100, 0))) {
        Insertion::Full { hash, key_bytes, index_bits } => {
            assert_eq!(hash, key(100, 0));
            assert_eq!((key_bytes, index_bits), (4, 2));
        }
        Insertion::Done { .. } => panic!("there is no room"),
    }
    assert!(!db.contains_key(&key(100, 0)));
    assert_eq!(done(db.insert(b"a", Some(key(1, 0)))).0, 2);
}

#[test]
fn insertion_after_growth() {
    let mut db = database_with(Options::new(), 4, 0);
    for n in 0..200u8 {
        let mut hash = Some(key(n, n));
        loop {
            match db.insert(&[n], hash) {
                Insertion::Done { refs, .. } => {
                    assert_eq!(refs, 1);
                    break;
                }
                Insertion::Full { hash: used, key_bytes, index_bits } => {
                    db.reindex(key_bytes, index_bits, None).unwrap();
                    hash = Some(used);
                }
            }
        }
    }
    for n in 0..200u8 {
        assert_eq!(db.get(&key(n, n)), Some(vec![n]));
    }
    assert_eq!(db.commit().metadata, MetadataV1 { key_bytes: 4, index_bits: 8 });
}

#[test]
fn a_distant_slot_asks_for_growth() {
    let mut options = Options::new();
    options.key_correction_trigger = 2;
    let mut db = database_with(options, 4, 8);
    assert_eq!(done(db.insert(b"a", Some(key(5, 0)))).2, None);
    assert_eq!(done(db.insert(b"b", Some(key(5, 1)))).2, None);
    assert_eq!(done(db.insert(b"c", Some(key(5, 2)))).2, Some((4, 9)));
    assert_eq!(done(db.insert(b"d", Some(key(9, 0)))).2, None);
}

#[test]
fn a_slot_that_is_passed_often_asks_for_growth() {
    let mut options = Options::new();
    options.skipped_count_trigger = 2;
    let mut db = database_with(options, 4, 8);
    assert_eq!(done(db.insert(b"a", Some(key(5, 0)))).2, None);
    assert_eq!(done(db.insert(b"b", Some(key(5, 1)))).2, None);
    assert_eq!(done(db.insert(b"c", Some(key(5, 2)))).2, None);
    assert_eq!(done(db.insert(b"d", Some(key(5, 3)))).2, Some((4, 9)));
    assert_eq!(done(db.insert(b"d", Some(key(5, 3)))).2, None);
}

#[test]
fn reindex_keeps_data() {
    let mut db = database();
    for n in 0..50u8 {
        done(db.insert(&[n], Some(key(n / 3, n))));
    }
    let plan = db.plan_reindex(2, 12).unwrap();
    assert_eq!(plan.metadata, MetadataV1 { key_bytes: 2, index_bits: 12 });
    assert_eq!(plan.index.len(), 50);
    assert_eq!(db.reindex(2, 12, None), Ok(()));
    for n in 0..50u8 {
        assert_eq!(db.get(&key(n / 3, n)), Some(vec![n]));
    }
    assert!(db.is_attached());
    assert_eq!(db.commit().metadata, MetadataV1 { key_bytes: 2, index_bits: 12 });
}

#[test]
fn an_index_can_keep_more_of_the_keys() {
    let mut db = database_with(Options::new(), 4, 24);
    done(db.insert(b"one", Some([7; 32])));
    done(db.insert(b"one", Some([7; 32])));
    let plan = db.plan_reindex(5, 24).unwrap();
    assert_eq!(plan.metadata, MetadataV1 { key_bytes: 5, index_bits: 24 });
    assert_eq!(plan.index[0].key, vec![7; 5]);
    assert_eq!(db.reindex(5, 24, None), Ok(()));
    assert_eq!(db.get(&[7; 32]), Some(b"one".to_vec()));
    assert_eq!(db.get_ref_count(&[7; 32]), 2);
    assert!(!db.contains_key(&[8; 32]));
    assert_eq!(db.commit().metadata, MetadataV1 { key_bytes: 5, index_bits: 24 });
}

#[test]
fn an_index_grows_past_what_it_keeps() {
    let mut db = database_with(Options::new(), 1, 8);
    for n in 0..40u8 {
        done(db.insert(&[n], Some([n; 32])));
    }
    for bits in [9, 17, 33, 63] {
        assert_eq!(db.reindex(1, bits, None), Ok(()));
        for n in 0..40u8 {
            assert!(db.contains_key(&[n; 32]));
        }
    }
}

#[test]
fn an_index_cannot_have_more_bits_than_there_are() {
    let mut db = database();
    done(db.insert(b"a", Some(key(1, 1))));
    assert_eq!(db.plan_reindex(4, 64).err(), Some(Error::UnsupportedSize));
    assert_eq!(db.reindex(4, 64, None), Err(Error::UnsupportedSize));
    assert!(db.contains_key(&key(1, 1)));
}

#[test]
fn a_full_index_grows_past_what_it_keeps() {
    let options = Options::new().key_bytes(1);
    let metadata = MetadataV1::from(&options);
    assert_eq!(metadata, MetadataV1 { key_bytes: 1, index_bits: 8 });
    let mut db: Db = options.open(Image::empty(metadata)).unwrap();
    for n in 0..=255u8 {
        done(db.insert(&[n], Some(key(n, 0))));
    }
    match db.insert(b"more", Some(key(0, 1))) {
        Insertion::Full { hash, key_bytes, index_bits } => {
            assert_eq!((key_bytes, index_bits), (1, 9));
            assert_eq!(db.reindex(key_bytes, index_bits, None), Ok(()));
            assert_eq!(done(db.insert(b"more", Some(hash))).0, 1);
        }
        Insertion::Done { .. } => panic!("there is no room"),
    }
    for n in 0..=255u8 {
        assert_eq!(db.get(&key(n, 0)), Some(vec![n]));
    }
    assert_eq!(db.get(&key(0, 1)), Some(b"more".to_vec()));
}

#[test]
fn enough_slots_suffice() {
    let mut db = database();
    for n in 0..150u8 {
        done(db.insert(&[n], Some(key(n / 50 * 100, n))));
    }
    for n in 0..120u8 {
        if n % 3 != 0 {
            assert_eq!(db.remove(&key(n / 50 * 100, n)), Ok(0));
        }
    }
    for (key_bytes, index_bits) in [(4, 8), (1, 8), (0, 9), (32, 9), (40, 20)] {
        assert_eq!(db.reindex(key_bytes, index_bits, None), Ok(()));
        for n in 0..150u8 {
            assert_eq!(db.contains_key(&key(n / 50 * 100, n)), n % 3 == 0 || n >= 120);
        }
    }
}

#[test]
fn insertions_commute() {
    let (x, y) = (key(1, 1), key(1, 2));
    let mut a = database_with(Options::new(), 4, 1);
    let mut b = database_with(Options::new(), 4, 8);
    for db in [&mut a, &mut b] {
        done(db.insert(b"y", Some(y)));
    }
    let (ax, ay) = (done(a.insert(b"x", Some(x))), done(a.insert(b"z", Some(y))));
    let (by, bx) = (done(b.insert(b"z", Some(y))), done(b.insert(b"x", Some(x))));
    assert_eq!((ax.0, ax.1), (bx.0, bx.1));
    assert_eq!((ay.0, ay.1), (by.0, by.1));
    for k in [x, y] {
        assert_eq!(a.get(&k), b.get(&k));
        assert_eq!(a.get_ref_count(&k), b.get_ref_count(&k));
    }
}

#[test]
fn records_come_in_slot_order() {
    let mut db = database();
    for n in [200u8, 3, 150, 3, 90] {
        done(db.insert(&[n], Some(key(n, n))));
    }
    let slots: Vec<u64> = db.commit().index.iter().map(|r| r.slot).collect();
    assert_eq!(slots, vec![3, 90, 150, 200]);
}

#[test]
fn an_index_cannot_become_too_small() {
    let mut db = database();
    for n in 0..3u8 {
        done(db.insert(&[n], Some(key(n, n))));
    }
    assert_eq!(db.plan_reindex(4, 1).err(), Some(Error::IndexFull));
    assert_eq!(db.reindex(4, 1, None), Err(Error::IndexFull));
    for n in 0..3u8 {
        assert!(db.contains_key(&key(n, n)));
    }
}

#[test]
fn a_rebuild_that_cannot_be_written_changes_nothing() {
    let mut db = database();
    done(db.insert(b"a", Some(key(1, 1))));
    let failure = Some((ReindexStage::CreateNew, Error::Io));
    assert_eq!(db.reindex(4, 9, failure), Err(Error::Io));
    assert!(db.is_attached());
    assert!(db.contains_key(&key(1, 1)));
    assert_eq!(db.commit().metadata.index_bits, 8);
}

#[test]
fn a_rebuild_that_fails_half_way_loses_the_index() {
    for stage in [
        ReindexStage::RemoveOld,
        ReindexStage::RenameNew,
        ReindexStage::WriteMetadata,
        ReindexStage::OpenNew,
    ] {
        let mut db = database();
        done(db.insert(b"a", Some(key(1, 1))));
        assert_eq!(db.reindex(4, 9, Some((stage, Error::Io))), Err(Error::Io));
        assert!(!db.is_attached());
        assert!(!db.contains_key(&key(1, 1)));
        assert_eq!(db.commit().metadata, MetadataV1 { key_bytes: 1, index_bits: 1 });
    }
}

#[test]
fn the_stages_of_a_rebuild() {
    let mut stages = Vec::new();
    let mut stage = Some(ReindexStage::CreateNew);
    while let Some(current) = stage {
        stages.push(current);
        stage = current.next();
    }
    assert_eq!(
        stages,
        vec![
            ReindexStage::CreateNew,
            ReindexStage::RemoveOld,
            ReindexStage::RenameNew,
            ReindexStage::WriteMetadata,
            ReindexStage::OpenNew,
        ]
    );
}

#[test]
fn commit_then_open() {
    let mut db = database();
    for n in 0..40u8 {
        done(db.insert(&vec![n; n as usize * 100], Some(key(n / 2, n))));
    }
    done(db.insert(b"", Some(key(3, 7))));
    for n in 0..40u8 {
        if n % 5 == 0 {
            assert_eq!(db.remove(&key(n / 2, n)), Ok(0));
        }
    }
    let image = db.commit();
    assert_eq!(image.metadata, MetadataV1 { key_bytes: 4, index_bits: 8 });
    let mut again: Db = Options::new().key_bytes(9).open(image).unwrap();
    for n in 0..40u8 {
        let want = if n % 5 == 0 { None } else { Some(vec![n; n as usize * 100]) };
        assert_eq!(again.get(&key(n / 2, n)), want);
    }
    assert_eq!(again.get_ref_count(&key(3, 7)), 2);
    assert_eq!(again.get_ref_count(&key(4, 8)), 1);
    done(again.insert(b"new", Some(key(0, 0))));
    assert_eq!(again.get(&key(0, 0)), Some(b"new".to_vec()));
}

/// An image of a database with two data.
fn image() -> Image {
    let mut db = database();
    done(db.insert(b"a", Some(key(1, 1))));
    done(db.insert(b"b", Some(key(1, 2))));
    db.commit()
}

fn error(image: Image) -> Option<Error> {
    Options::new().open::<[u8; 32]>(image).err()
}

#[test]
fn a_sound_image_is_opened() {
    assert_eq!(error(image()), None);
}

#[test]
fn a_slot_that_is_not_there_is_refused() {
    let mut bad = image();
    bad.index[0].slot = 256;
    assert_eq!(error(bad), Some(Error::Corrupt));
}

#[test]
fn a_slot_that_is_listed_twice_is_refused() {
    let mut bad = image();
    bad.index[1].slot = bad.index[0].slot;
    assert_eq!(error(bad), Some(Error::Corrupt));
}

#[test]
fn an_address_without_data_is_refused() {
    let mut bad = image();
    bad.index[0].address.entry = 5;
    assert_eq!(error(bad), Some(Error::Corrupt));
    let mut bad = image();
    bad.index[0].address.table = 5;
    assert_eq!(error(bad), Some(Error::Corrupt));
    let mut bad = image();
    bad.tables[0].items[0] = None;
    assert_eq!(error(bad), Some(Error::Corrupt));
}

#[test]
fn two_slots_for_one_key_are_refused() {
    let mut bad = image();
    bad.index[1].address = bad.index[0].address;
    assert_eq!(error(bad), Some(Error::Corrupt));
}

#[test]
fn an_entry_that_keeps_another_key_is_refused() {
    let mut bad = image();
    bad.index[0].key[0] = 2;
    assert_eq!(error(bad), Some(Error::Corrupt));
}

#[test]
fn a_key_of_another_size_is_refused() {
    let mut bad = image();
    if let Some(item) = &mut bad.tables[0].items[0] {
        item.key.pop();
    }
    assert_eq!(error(bad), Some(Error::Corrupt));
}

#[test]
fn a_table_that_holds_what_it_cannot_is_refused() {
    let mut bad = image();
    if let Some(item) = &mut bad.tables[0].items[0] {
        item.refs = 0;
    }
    assert_eq!(error(bad), Some(Error::Corrupt));
    let mut bad = image();
    if let Some(item) = &mut bad.tables[0].items[0] {
        item.data = vec![0; 33];
    }
    assert_eq!(error(bad), Some(Error::Corrupt));
    let mut bad = image();
    bad.tables[0].backed = 1;
    assert_eq!(error(bad), Some(Error::Corrupt));
    let mut bad = image();
    bad.tables[0].backed = 65537;
    assert_eq!(error(bad), Some(Error::Corrupt));
}

/// A key of one byte, which data get from their length.
#[derive(Debug, PartialEq)]
struct Short([u8; 1]);

impl KeyType for Short {
    fn size() -> usize {
        1
    }

    fn from_data(data: &[u8]) -> Self {
        Short([data.len() as u8])
    }

    fn as_bytes(&self) -> &[u8] {
        &self.0
    }
}

#[test]
fn other_keys_can_be_used() {
    let image = Image::empty(MetadataV1 { key_bytes: 4, index_bits: 3 });
    let mut db: Database<Short> = Options::new().open(image).unwrap();
    match db.insert(b"four", None) {
        Insertion::Done { refs, hash, .. } => assert_eq!((refs, hash), (1, Short([4]))),
        Insertion::Full { .. } => panic!("the index is full"),
    }
    assert_eq!(db.get(&Short([4])), Some(b"four".to_vec()));
    assert_eq!(db.get(&Short([5])), None);
}
