//! A reference-counted store of data under keys: an index that leads from keys to addresses, and
//! tables that hold the data.
pub mod bytes;
pub mod content;
pub mod content_address;
pub mod database;
pub mod datum_size;
pub mod error;
pub mod growth;
pub mod index;
pub mod key;
pub mod laws;
pub mod mapping;
pub mod meaning;
pub mod metadata;
pub mod options;
pub mod owed;
pub mod safe;

pub use content::{Content, Item, RefCount, Table, TableInfo, TableItemCount};
pub use content_address::ContentAddress;
pub use database::{Database, Image, Insertion, ReindexPlan, ReindexStage};
pub use datum_size::DatumSize;
pub use error::Error;
pub use index::{Index, IndexEntry, IndexRecord};
pub use key::{hash_bytes, KeyType};
pub use mapping::{Mapped, Mapping};
pub use metadata::{MetadataV1, OpenPlan, PathKind};
pub use options::Options;
pub use owed::Owed;
pub use safe::{SafeDatabase, SafeInsertion};
