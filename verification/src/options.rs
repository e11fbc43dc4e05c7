//! What a database is opened with.
use crate::content::TableItemCount;
use crate::database::{Database, Image};
use crate::error::Error;
use crate::index::MAX_INDEX_BITS;
use crate::key::KeyType;
use std::path::PathBuf;
use vstd::prelude::*;

verus! {

/// Declares `std::path::PathBuf`, of which nothing but identity is used here.
#[verifier::external_type_specification]
#[verifier::external_body]
pub struct ExPathBuf(std::path::PathBuf);

/// The bytes that a path is made of.
pub uninterp spec fn path_bytes(path: PathBuf) -> Seq<u8>;

/// Calls `std::path::PathBuf::new`, which makes an empty path.
#[verifier::external_body]
fn empty_path() -> (path: PathBuf)
    ensures
        path_bytes(path) == Seq::<u8>::empty(),
{
    PathBuf::new()
}

/// The options builder.
#[derive(Debug)]
pub struct Options {
    pub path: PathBuf,
    pub key_bytes: usize,
    pub index_bits: usize,
    pub skipped_count_trigger: u8,
    pub key_correction_trigger: usize,
    pub oversize_trigger_mapped: usize,
    pub oversize_shrink_mapped: usize,
    pub min_items_backed: TableItemCount,
}

impl Options {
    /// Create a new instance.
    pub fn new() -> (r: Self)
        ensures
            path_bytes(r.path) == Seq::<u8>::empty(),
            r.key_bytes == 4,
            r.index_bits == 24,
            r.skipped_count_trigger == 240,
            r.key_correction_trigger == 32,
            r.oversize_trigger_mapped == 256 * 1024 * 1024,
            r.oversize_shrink_mapped == 64 * 1024 * 1024,
            r.min_items_backed == 8,
    {
        Self {
            path: empty_path(),
            key_bytes: 4,
            index_bits: 24,
            skipped_count_trigger: 240,
            key_correction_trigger: 32,
            oversize_trigger_mapped: 256 * 1024 * 1024,
            oversize_shrink_mapped: 64 * 1024 * 1024,
            min_items_backed: 8,
        }
    }

    /// Create a new instance, providing a path.
    pub fn from_path(path: PathBuf) -> (r: Self)
        ensures
            r.path == path,
            r.key_bytes == 4,
            r.index_bits == 24,
            r.skipped_count_trigger == 240,
            r.key_correction_trigger == 32,
            r.oversize_trigger_mapped == 256 * 1024 * 1024,
            r.oversize_shrink_mapped == 64 * 1024 * 1024,
            r.min_items_backed == 8,
    {
        Self::new().path(path)
    }

    /// Set the number of bytes to use for the index key (default: 4). The index has no more bits
    /// than the key.
    pub fn key_bytes(self, key_bytes: usize) -> (r: Self)
        requires
            key_bytes * 8 <= usize::MAX,
        ensures
            r == (Options {
                key_bytes,
                index_bits: if self.index_bits <= key_bytes * 8 {
                    self.index_bits
                } else {
                    (key_bytes * 8) as usize
                },
                ..self
            }),
            r.index_bits <= r.key_bytes * 8,
    {
        let mut options = self;
        options.key_bytes = key_bytes;
        if options.index_bits > key_bytes * 8 {
            options.index_bits = key_bytes * 8;
        }
        options
    }

    /// Set the number of bits to use for the index (default: 24). The key has at least as many
    /// whole bytes as the index.
    pub fn index_bits(self, index_bits: usize) -> (r: Self)
        ensures
            r == (Options {
                index_bits,
                key_bytes: if self.key_bytes >= index_bits / 8 {
                    self.key_bytes
                } else {
                    index_bits / 8
                },
                ..self
            }),
            r.index_bits < (r.key_bytes + 1) * 8,
    {
        let mut options = self;
        options.index_bits = index_bits;
        if options.key_bytes < index_bits / 8 {
            options.key_bytes = index_bits / 8;
        }
        options
    }

    /// Set the path in which the database should be opened.
    pub fn path(self, path: PathBuf) -> (r: Self)
        ensures
            r == (Options { path, ..self }),
    {
        let mut options = self;
        options.path = path;
        options
    }

    /// Set the oversize tables' mapping management properties. Whereas sized tables keep everything
    /// mapped all the time, oversize tables (owing to the fact they are essentially unbounded in
    /// how much they might be mapping) regularly prune the items that are mapped. This is done as a
    /// simple LRU scheme where items accessed least recently will be prioritised for removal.
    ///
    /// The system has two parameters: a `trigger` size, which is how many bytes must be mapped in
    /// total before a "shrinking" (unmapping) happens; and a `shrink` size which is how many bytes,
    /// at most, may continue to be mapped when the "shrinking" is completed.
    pub fn oversize_shrink(self, trigger: usize, shrink: usize) -> (r: Self)
        ensures
            r == (Options {
                oversize_trigger_mapped: trigger,
                oversize_shrink_mapped: shrink,
                ..self
            }),
    {
        let mut options = self;
        options.oversize_trigger_mapped = trigger;
        options.oversize_shrink_mapped = shrink;
        options
    }

    /// Set the minimum number of items that will be backed on disk. This basically sets the
    /// minimum disk space that will be used by a table with a single element in it.
    pub fn min_items_backed(self, min_items_backed: TableItemCount) -> (r: Self)
        ensures
            r == (Options { min_items_backed, ..self }),
    {
        let mut options = self;
        options.min_items_backed = min_items_backed;
        options
    }

    /// Ensure that the disk files never need to extend by always requiring any tables to use their
    /// full amount.
    pub fn all_items_backed(self) -> (r: Self)
        ensures
            r == (Options { min_items_backed: 65536, ..self }),
    {
        let mut options = self;
        options.min_items_backed = 65536;
        options
    }

    /// Open the database that was found on disk, or, where nothing was found but the sizes it is
    /// created with, a new one.
    pub fn open<K: KeyType>(self, image: Image) -> (r: Result<Database<K>, Error>)
        ensures
            match r {
                Ok(database) => {
                    &&& image.metadata.index_bits <= MAX_INDEX_BITS
                    &&& image.describes(K::spec_size())
                    &&& database.wf()
                    &&& database.opened_from(self, image)
                },
                Err(Error::UnsupportedSize) => image.metadata.index_bits > MAX_INDEX_BITS,
                Err(e) => {
                    &&& image.metadata.index_bits <= MAX_INDEX_BITS
                    &&& !image.describes(K::spec_size())
                    &&& e == Error::Corrupt
                },
            },
    {
        Database::open(self, image)
    }
}

} // verus!
