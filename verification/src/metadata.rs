//! The sizes that are written beside a database, and how it is opened.
use crate::options::Options;
use vstd::prelude::*;

verus! {

/// The sizes of the index of a database, as they are written beside it.
#[derive(Clone, Copy, Debug, PartialEq, Eq, Structural)]
pub struct MetadataV1 {
    pub key_bytes: usize,
    pub index_bits: usize,
}

/// What there is at the path of a database.
#[derive(Clone, Copy, Debug, PartialEq, Eq, Structural)]
pub enum PathKind {
    Nothing,
    Directory,
    File,
}

/// What has to be done before a database can be read.
#[derive(Clone, Copy, Debug, PartialEq, Eq, Structural)]
pub struct OpenPlan {
    /// The directory has to be created.
    pub create_directory: bool,
    /// The sizes of the index.
    pub metadata: MetadataV1,
    /// The sizes have to be written.
    pub write_metadata: bool,
}

impl MetadataV1 {
    /// The sizes that the options ask for.
    pub fn from(options: &Options) -> (r: MetadataV1)
        ensures
            r == (MetadataV1 { key_bytes: options.key_bytes, index_bits: options.index_bits }),
    {
        MetadataV1 { key_bytes: options.key_bytes, index_bits: options.index_bits }
    }
}

impl OpenPlan {
    /// Decides how to open a database. A database that exists keeps its sizes, whatever the options
    /// ask for; one that does not is created with those of the options. The path must be a
    /// directory or not exist.
    pub fn new(options: &Options, kind: PathKind, found: Option<MetadataV1>) -> (r: OpenPlan)
        requires
            kind != PathKind::File,
        ensures
            r.create_directory == (kind == PathKind::Nothing),
            match found {
                Some(metadata) => r.metadata == metadata && !r.write_metadata,
                None => {
                    &&& r.metadata.key_bytes == options.key_bytes
                    &&& r.metadata.index_bits == options.index_bits
                    &&& r.write_metadata
                },
            },
    {
        let create_directory = match kind {
            PathKind::Nothing => true,
            _ => false,
        };
        match found {
            Some(metadata) => OpenPlan { create_directory, metadata, write_metadata: false },
            None => OpenPlan {
                create_directory,
                metadata: MetadataV1::from(options),
                write_metadata: true,
            },
        }
    }
}

} // verus!
