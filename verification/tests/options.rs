use std::path::PathBuf;
use subdb::{Database, Error, Image, MetadataV1, OpenPlan, Options, PathKind};

#[test]
fn defaults() {
    let options = Options::new();
    assert_eq!(options.path, PathBuf::new());
    assert_eq!(options.key_bytes, 4);
    assert_eq!(options.index_bits, 24);
    assert_eq!(options.skipped_count_trigger, 240);
    assert_eq!(options.key_correction_trigger, 32);
    assert_eq!(options.oversize_trigger_mapped, 268435456);
    assert_eq!(options.oversize_shrink_mapped, 67108864);
    assert_eq!(options.min_items_backed, 8);
}

#[test]
fn from_path_sets_the_path_alone() {
    let options = Options::from_path(PathBuf::from("/data/db"));
    assert_eq!(options.path, PathBuf::from("/data/db"));
    assert_eq!(options.key_bytes, 4);
    assert_eq!(options.index_bits, 24);
    assert_eq!(options.min_items_backed, 8);
    let moved = options.path(PathBuf::from("elsewhere"));
    assert_eq!(moved.path, PathBuf::from("elsewhere"));
}

#[test]
fn a_short_key_limits_the_index() {
    let options = Options::new().key_bytes(2);
    assert_eq!((options.key_bytes, options.index_bits), (2, 16));
    let options = Options::new().key_bytes(3);
    assert_eq!((options.key_bytes, options.index_bits), (3, 24));
    let options = Options::new().key_bytes(8);
    assert_eq!((options.key_bytes, options.index_bits), (8, 24));
    let options = Options::new().key_bytes(0);
    assert_eq!((options.key_bytes, options.index_bits), (0, 0));
}

#[test]
fn a_large_index_lengthens_the_key() {
    let options = Options::new().index_bits(48);
    assert_eq!((options.key_bytes, options.index_bits), (6, 48));
    let options = Options::new().index_bits(39);
    assert_eq!((options.key_bytes, options.index_bits), (4, 39));
    let options = Options::new().index_bits(8);
    assert_eq!((options.key_bytes, options.index_bits), (4, 8));
}

#[test]
fn limits_are_set() {
    let options = Options::new().oversize_shrink(1000, 500).min_items_backed(3);
    assert_eq!(options.oversize_trigger_mapped, 1000);
    assert_eq!(options.oversize_shrink_mapped, 500);
    assert_eq!(options.min_items_backed, 3);
    assert_eq!(options.all_items_backed().min_items_backed, 65536);
}

#[test]
fn options_open_a_new_database() {
    let image = Image::empty(MetadataV1 { key_bytes: 4, index_bits: 10 });
    let database: Database<[u8; 32]> = Options::new().open(image).unwrap();
    assert!(!database.contains_key(&[0; 32]));
    assert!(database.is_attached());
    assert!(database.info().is_empty());
}

#[test]
fn an_index_has_at_most_63_bits() {
    let image = Image::empty(MetadataV1 { key_bytes: 8, index_bits: 63 });
    assert!(Options::new().open::<[u8; 32]>(image).is_ok());
    let image = Image::empty(MetadataV1 { key_bytes: 8, index_bits: 64 });
    let r = Options::new().open::<[u8; 32]>(image);
    assert_eq!(r.err(), Some(Error::UnsupportedSize));
}

#[test]
fn a_new_database_gets_the_sizes_of_the_options() {
    let options = Options::new().key_bytes(5).index_bits(12);
    let plan = OpenPlan::new(&options, PathKind::Nothing, None);
    assert_eq!(
        plan,
        OpenPlan {
            create_directory: true,
            metadata: MetadataV1 { key_bytes: 5, index_bits: 12 },
            write_metadata: true,
        }
    );
}

#[test]
fn an_existing_database_keeps_its_sizes() {
    let options = Options::new().key_bytes(5).index_bits(12);
    let found = MetadataV1 { key_bytes: 4, index_bits: 20 };
    let plan = OpenPlan::new(&options, PathKind::Directory, Some(found));
    assert_eq!(
        plan,
        OpenPlan { create_directory: false, metadata: found, write_metadata: false }
    );
    assert_eq!(MetadataV1::from(&options), MetadataV1 { key_bytes: 5, index_bits: 12 });
}
