use subdb::{
    Database, Error, Image, Insertion, MetadataV1, Options, Owed, SafeDatabase, SafeInsertion,
};

type Db = SafeDatabase<[u8; 32]>;

fn database() -> Db {
    let image = Image::empty(MetadataV1 { key_bytes: 4, index_bits: 8 });
    SafeDatabase::new(Options::new().open(image).unwrap())
}

fn is_settled(r: SafeInsertion<[u8; 32]>, key: [u8; 32]) -> bool {
    match r {
        SafeInsertion::Settled { hash } => {
            assert_eq!(hash, key);
            true
        }
        SafeInsertion::Passed(Insertion::Done { hash, .. }) => {
            assert_eq!(hash, key);
            false
        }
        SafeInsertion::Passed(Insertion::Full { .. }) => panic!("the index is full"),
    }
}

#[test]
fn inserted_values_are_found() {
    let mut db = database();
    let key = subdb::hash_bytes(b"abc");
    assert!(!is_settled(db.insert(b"abc"), key));
    assert!(db.contains(&key));
    assert_eq!(db.get(&key), Some(b"abc".to_vec()));
    assert_eq!(db.read(&key), Some(b"abc".to_vec()));
    db.remove(&key);
    assert_eq!(db.read(&key), None);
    assert!(!db.contains(&key));
    assert_eq!(db.get(&key), None);
    assert_eq!(db.times_owed(&key), 0);
}

#[test]
fn insertions_can_be_owed() {
    let mut db = database();
    let key = subdb::hash_bytes(b"abc");
    db.remove(&key);
    assert_eq!(db.times_owed(&key), 1);
    assert!(is_settled(db.insert(b"abc"), key));
    assert!(!db.contains(&key));
    assert_eq!(db.times_owed(&key), 0);
    assert!(!is_settled(db.insert(b"abc"), key));
    assert!(db.contains(&key));
}

#[test]
fn insertions_can_be_owed_more_than_once() {
    let mut db = database();
    let (a, b) = ([1; 32], [2; 32]);
    for n in 1..=4 {
        db.remove(&a);
        assert_eq!(db.times_owed(&a), n);
    }
    db.remove(&b);
    assert!(!is_settled(db.emplace([3; 32], b"c"), [3; 32]));
    for n in (0..4).rev() {
        assert!(is_settled(db.emplace(a, b"a"), a));
        assert_eq!(db.times_owed(&a), n);
        assert!(!db.contains(&a));
    }
    assert_eq!(db.times_owed(&b), 1);
    assert!(!is_settled(db.emplace(a, b"a"), a));
    assert_eq!(db.get(&a), Some(b"a".to_vec()));
    assert_eq!(db.get_ref_count(&a), 1);
}

#[test]
fn order_does_not_matter() {
    let key = [8; 32];
    for bits in 0..64u32 {
        let mut db = database();
        let mut balance = 0i64;
        for i in 0..6 {
            if bits >> i & 1 == 1 {
                db.emplace(key, b"v");
                balance += 1;
            } else {
                db.remove(&key);
                balance -= 1;
            }
            assert_eq!(db.contains(&key), balance > 0);
            assert_eq!(db.get_ref_count(&key) as i64, balance.max(0));
            assert_eq!(db.times_owed(&key) as i64, (-balance).max(0));
        }
    }
}

#[test]
fn plain_keys_are_hashed() {
    let mut db = database();
    assert!(!db.plain_contains(b"abc"));
    assert!(!is_settled(db.plain_emplace(b"abc", b"value"), subdb::hash_bytes(b"abc")));
    assert!(db.plain_contains(b"abc"));
    assert_eq!(db.plain_get(b"abc"), Some(b"value".to_vec()));
    assert_eq!(db.plain_read(b"abc"), Some(b"value".to_vec()));
    assert_eq!(db.plain_read(b"abd"), None);
    let mut key = [0u8; 32];
    key[..8].copy_from_slice(&[0xbd, 0xdd, 0x81, 0x3c, 0x63, 0x42, 0x39, 0x72]);
    key[8..16].copy_from_slice(&[0x31, 0x71, 0xef, 0x3f, 0xee, 0x98, 0x57, 0x9b]);
    key[16..24].copy_from_slice(&[0x94, 0x96, 0x4e, 0x3b, 0xb1, 0xcb, 0x3e, 0x42]);
    key[24..].copy_from_slice(&[0x72, 0x62, 0xc8, 0xc0, 0x68, 0xd5, 0x23, 0x19]);
    assert_eq!(db.get(&key), Some(b"value".to_vec()));
    db.plain_remove(b"abc");
    assert_eq!(db.plain_get(b"abc"), None);
    db.plain_remove(b"abc");
    assert!(is_settled(db.plain_emplace(b"abc", b"value"), key));
    assert!(!db.plain_contains(b"abc"));
}

#[test]
fn plain_operations_are_tested_first() {
    let image = Image::empty(MetadataV1 { key_bytes: 4, index_bits: 8 });
    let database: Database<[u8; 32]> = Options::new().open(image).unwrap();
    let mut db = SafeDatabase::new(database);
    let key = subdb::hash_bytes(b"abc");
    assert!(db.try_plain_remove(b"abc"));
    assert_eq!(db.times_owed(&key), 1);
    assert!(is_settled(db.try_plain_emplace(b"abc", b"v").unwrap(), key));
    assert!(!is_settled(db.try_plain_emplace(b"abc", b"v").unwrap(), key));
    assert_eq!(db.plain_get(b"abc"), Some(b"v".to_vec()));
    let mut image = db.commit();
    if let Some(item) = &mut image.tables[0].items[0] {
        item.refs = u64::MAX;
    }
    let mut db: Db = SafeDatabase::new(Options::new().open(image).unwrap());
    assert!(db.try_plain_emplace(b"abc", b"v").is_none());
    assert_eq!(db.get_ref_count(&key), u64::MAX);
    assert!(db.try_plain_remove(b"abc"));
    assert_eq!(db.get_ref_count(&key), u64::MAX - 1);
    assert!(!is_settled(db.try_plain_emplace(b"abc", b"v").unwrap(), key));
}

#[test]
fn what_happens_in_between_does_not_matter() {
    let mut db = database();
    let (key, other) = ([5; 32], [6; 32]);
    db.remove(&key);
    db.emplace(other, b"o");
    db.emplace(key, b"k");
    assert_eq!(db.reindex(2, 9, None), Ok(()));
    assert_eq!(db.read(&key), None);
    db.emplace(key, b"k");
    db.remove(&other);
    db.remove(&other);
    db.emplace(key, b"k");
    assert_eq!(db.read(&key), Some(b"k".to_vec()));
    assert_eq!(db.reindex(4, 8, None), Ok(()));
    assert_eq!(db.get_ref_count(&key), 2);
    assert_eq!((db.times_owed(&key), db.times_owed(&other)), (0, 1));
    assert!(db.is_attached());
    assert_eq!(db.plan_reindex(4, 64).err(), Some(Error::UnsupportedSize));
}

#[test]
fn a_full_index_leaves_the_ledger_alone() {
    let image = Image::empty(MetadataV1 { key_bytes: 4, index_bits: 0 });
    let mut db: Db = SafeDatabase::new(Options::new().open(image).unwrap());
    assert!(!is_settled(db.emplace([1; 32], b"a"), [1; 32]));
    db.remove(&[2; 32]);
    match db.emplace([3; 32], b"c") {
        SafeInsertion::Passed(Insertion::Full { hash, key_bytes, index_bits }) => {
            assert_eq!((hash, key_bytes, index_bits), ([3; 32], 4, 1));
        }
        _ => panic!("there is no room"),
    }
    assert_eq!(db.times_owed(&[2; 32]), 1);
    db.reindex(4, 1, None).unwrap();
    assert!(!is_settled(db.emplace([3; 32], b"c"), [3; 32]));
    assert!(is_settled(db.emplace([2; 32], b"b"), [2; 32]));
}

#[test]
fn a_ledger_counts() {
    let mut owed = Owed::new();
    assert_eq!(owed.times(b"k"), 0);
    assert!(!owed.settle(b"k"));
    owed.record(b"k");
    owed.record(b"k");
    owed.record(b"other");
    assert_eq!(owed.times(b"k"), 2);
    assert!(owed.settle(b"k"));
    assert!(owed.settle(b"k"));
    assert!(!owed.settle(b"k"));
    assert_eq!(owed.times(b"other"), 1);
}
