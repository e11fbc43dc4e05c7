use subdb::{Database, DatumSize, Image, Insertion, MetadataV1, Options};

type Db = Database<[u8; 32]>;

fn database(options: Options) -> Db {
    options.open(Image::empty(MetadataV1 { key_bytes: 4, index_bits: 8 })).unwrap()
}

fn key(n: u8) -> [u8; 32] {
    [n; 32]
}

fn insert(db: &mut Db, n: u8, bytes: usize) {
    let r = db.insert(&vec![n; bytes], Some(key(n)));
    assert!(matches!(r, Insertion::Done { .. }));
}

#[test]
fn size_classes_double() {
    assert_eq!(DatumSize::nearest(0), DatumSize::Size(0));
    assert_eq!(DatumSize::nearest(32), DatumSize::Size(0));
    assert_eq!(DatumSize::nearest(33), DatumSize::Size(1));
    assert_eq!(DatumSize::nearest(64), DatumSize::Size(1));
    assert_eq!(DatumSize::nearest(65), DatumSize::Size(2));
    assert_eq!(DatumSize::nearest(32768), DatumSize::Size(10));
    assert_eq!(DatumSize::nearest(32769), DatumSize::Oversize);
    assert_eq!(DatumSize::Size(0).size(), 32);
    assert_eq!(DatumSize::Size(3).size(), 256);
    assert_eq!(DatumSize::Size(10).size(), 32768);
    assert_eq!(DatumSize::Oversize.size(), 0);
}

#[test]
fn info_of_sized_tables() {
    let mut db = database(Options::new());
    assert_eq!(db.bytes_mapped(), 0);
    insert(&mut db, 1, 10);
    insert(&mut db, 2, 100);
    insert(&mut db, 3, 20);
    assert_eq!(
        db.info(),
        vec![
            ((DatumSize::Size(0), 0), (2, 8, 32, 256)),
            ((DatumSize::Size(2), 1), (1, 8, 128, 1024)),
        ]
    );
    assert_eq!(db.bytes_mapped(), 1280);
    assert_eq!(db.remove(&key(3)), Ok(0));
    assert_eq!(db.info()[0], ((DatumSize::Size(0), 0), (1, 8, 32, 256)));
    insert(&mut db, 4, 0);
    assert_eq!(db.info()[0], ((DatumSize::Size(0), 0), (2, 8, 32, 256)));
}

#[test]
fn tables_extend() {
    let mut db = database(Options::new().min_items_backed(1));
    let mut backed = Vec::new();
    for n in 0..5 {
        insert(&mut db, n, 1);
        backed.push((db.info()[0].1).1);
    }
    assert_eq!(backed, vec![1, 2, 4, 4, 8]);
    insert(&mut db, 0, 1);
    assert_eq!((db.info()[0].1).0, 5);
}

#[test]
fn at_least_one_item_is_backed() {
    let mut db = database(Options::new().min_items_backed(0));
    insert(&mut db, 1, 1);
    assert_eq!((db.info()[0].1).1, 1);
}

#[test]
fn all_backed_never_extend() {
    let mut db = database(Options::new().all_items_backed());
    for n in 0..20 {
        insert(&mut db, n, 1);
        assert_eq!(db.info(), vec![((DatumSize::Size(0), 0), (n as usize + 1, 65536, 32, 2097152))]);
    }
    let mut db = database(Options::new().min_items_backed(100000));
    insert(&mut db, 1, 1);
    assert_eq!((db.info()[0].1).1, 65536);
}

#[test]
fn opening_backs_more_items() {
    let mut db = database(Options::new().min_items_backed(2));
    insert(&mut db, 1, 1);
    assert_eq!((db.info()[0].1).1, 2);
    let again: Db = Options::new().open(db.commit()).unwrap();
    assert_eq!((again.info()[0].1).1, 8);
    let same: Db = Options::new().min_items_backed(1).open(db.commit()).unwrap();
    assert_eq!((same.info()[0].1).1, 2);
}

#[test]
fn least_recent_are_unmapped() {
    let mut db = database(Options::new().oversize_shrink(100000, 80000));
    insert(&mut db, 1, 40000);
    insert(&mut db, 2, 35000);
    assert_eq!(db.bytes_mapped(), 75000);
    assert_eq!(db.info(), vec![((DatumSize::Oversize, 0), (2, 8, 0, 75000))]);
    assert!(db.touch(&key(1)));
    assert_eq!(db.bytes_mapped(), 75000);
    insert(&mut db, 3, 33000);
    assert_eq!(db.bytes_mapped(), 73000);
    assert_eq!(db.get(&key(2)), Some(vec![2; 35000]));
    assert!(db.touch(&key(1)));
    assert_eq!(db.bytes_mapped(), 73000);
    assert!(db.touch(&key(2)));
    assert_eq!(db.bytes_mapped(), 75000);
}

#[test]
fn reading_is_an_access() {
    let mut db = database(Options::new().oversize_shrink(100000, 80000));
    insert(&mut db, 1, 40000);
    insert(&mut db, 2, 35000);
    assert_eq!(db.read(&key(1)), Some(vec![1; 40000]));
    assert_eq!(db.read(&key(9)), None);
    insert(&mut db, 3, 33000);
    assert_eq!(db.bytes_mapped(), 73000);
    assert_eq!(db.read(&key(2)), Some(vec![2; 35000]));
    assert_eq!(db.bytes_mapped(), 68000);
}

#[test]
fn mapped_bytes_reach_the_trigger() {
    let mut db = database(Options::new().oversize_shrink(80000, 0));
    insert(&mut db, 1, 40000);
    insert(&mut db, 2, 39999);
    assert_eq!(db.bytes_mapped(), 79999);
    insert(&mut db, 3, 32769);
    assert_eq!(db.bytes_mapped(), 0);
    for n in 1..4 {
        assert!(db.contains_key(&key(n)));
    }
}

#[test]
fn removed_data_are_unmapped() {
    let mut db = database(Options::new());
    insert(&mut db, 1, 40000);
    insert(&mut db, 2, 50000);
    insert(&mut db, 1, 40000);
    assert_eq!(db.remove(&key(1)), Ok(1));
    assert_eq!(db.bytes_mapped(), 90000);
    assert_eq!(db.remove(&key(1)), Ok(0));
    assert_eq!(db.bytes_mapped(), 50000);
    assert!(!db.touch(&key(1)));
    assert_eq!(db.bytes_mapped(), 50000);
}

#[test]
fn nothing_oversize_is_mapped_at_first() {
    let mut db = database(Options::new());
    insert(&mut db, 1, 40000);
    insert(&mut db, 2, 5);
    let mut again: Db = Options::new().open(db.commit()).unwrap();
    assert_eq!(again.bytes_mapped(), 256);
    assert!(again.touch(&key(2)));
    assert_eq!(again.bytes_mapped(), 256);
    assert!(again.touch(&key(1)));
    assert_eq!(again.bytes_mapped(), 40256);
}
