//! A database with the operations of a key-value store whose removals may come before the
//! insertions that they take back.
//!
//! What is owed is kept in memory alone: an image of the database holds no debts, so that they are
//! forgotten when the store is closed.
use crate::content::RefCount;
use crate::database::{Database, Datum, Image, Insertion, ReindexPlan, ReindexStage};
use crate::error::Error;
use crate::key::{hash32, hash_bytes, KeyType};
use crate::owed::{owed_times, recorded_debt, settled, Owed};
use vstd::prelude::*;

verus! {

/// A database, and the insertions that are owed to it.
#[derive(Debug)]
pub struct SafeDatabase<K: KeyType> {
    database: Database<K>,
    owed: Owed,
}

/// What became of an insertion.
#[derive(Debug)]
pub enum SafeInsertion<K> {
    /// An insertion was owed under `hash`. It no longer is, and nothing was stored.
    Settled { hash: K },
    /// The insertion was handed to the database.
    Passed(Insertion<K>),
}

/// How often data were inserted under a key, less how often they were removed. Where that is
/// negative, insertions are owed.
pub open spec fn balance(data: Map<Seq<u8>, Datum>, owed: Map<Seq<u8>, nat>, key: Seq<u8>) -> int {
    if data.contains_key(key) {
        data[key].refs as int
    } else {
        -(owed_times(owed, key) as int)
    }
}

impl<K: KeyType> SafeDatabase<K> {
    /// The database.
    pub closed spec fn database(self) -> Database<K> {
        self.database
    }

    /// How many insertions are owed, by key.
    pub closed spec fn owed(self) -> Map<Seq<u8>, nat> {
        self.owed@
    }

    /// The database is in order, and insertions are owed only for what is not there.
    pub closed spec fn wf(self) -> bool {
        &&& self.database.wf()
        &&& self.owed.wf()
        &&& forall|key: Seq<u8>| #[trigger]
            self.owed@.contains_key(key) ==> !self.database@.contains_key(key)
    }

    pub proof fn lemma_wf(self)
        requires
            self.wf(),
        ensures
            self.database().wf(),
            forall|key: Seq<u8>| #[trigger]
                self.owed().contains_key(key) ==> !self.database()@.contains_key(key)
                    && self.owed()[key] >= 1,
    {
        self.owed.lemma_wf();
    }

    /// What an insertion does: it makes up for one that is owed, or else it goes to the database.
    pub open spec fn insertion(
        self,
        now: SafeDatabase<K>,
        key: Seq<u8>,
        value: Seq<u8>,
        hash: Option<K>,
        r: SafeInsertion<K>,
    ) -> bool {
        match r {
            SafeInsertion::Settled { hash: used } => {
                &&& self.owed().contains_key(key)
                &&& now.owed() == settled(self.owed(), key)
                &&& now.database() == self.database()
                &&& used.bytes() == key
                &&& hash is Some ==> hash == Some(used)
            },
            SafeInsertion::Passed(done) => {
                &&& !self.owed().contains_key(key)
                &&& now.owed() == self.owed()
                &&& self.database().insertion(now.database(), value, hash, done)
            },
        }
    }

    /// What a removal does: it takes back an insertion, or, where there is none, one is owed.
    pub open spec fn removal(self, now: SafeDatabase<K>, key: Seq<u8>) -> bool {
        if self.database()@.contains_key(key) {
            &&& now.owed() == self.owed()
            &&& self.database().removal(
                now.database(),
                key,
                Ok::<RefCount, ()>((self.database()@[key].refs - 1) as RefCount),
            )
        } else {
            &&& now.owed() == recorded_debt(self.owed(), key)
            &&& now.database() == self.database()
        }
    }

    /// What an access does: it is noted in the database.
    pub open spec fn reading(self, now: SafeDatabase<K>, key: Seq<u8>) -> bool {
        &&& now.owed() == self.owed()
        &&& self.database().reading(now.database(), key)
    }

    /// What a rebuild of the index does: nothing is owed more or less for it.
    pub open spec fn reindexing(
        self,
        now: SafeDatabase<K>,
        key_bytes: usize,
        index_bits: usize,
        failure: Option<(ReindexStage, Error)>,
        r: Result<(), Error>,
    ) -> bool {
        &&& now.owed() == self.owed()
        &&& self.database().reindexing(now.database(), key_bytes, index_bits, failure, r)
    }

    /// Nothing is owed to a database at first.
    pub fn new(database: Database<K>) -> (r: Self)
        requires
            database.wf(),
        ensures
            r.wf(),
            r.database() == database,
            r.owed() == Map::<Seq<u8>, nat>::empty(),
    {
        SafeDatabase { database, owed: Owed::new() }
    }

    /// Look up a key.
    pub fn get(&self, key: &K) -> (r: Option<Vec<u8>>)
        requires
            self.wf(),
        ensures
            match r {
                Some(data) => self.database()@.contains_key(key.bytes())
                    && self.database()@[key.bytes()].data == data@,
                None => !self.database()@.contains_key(key.bytes()),
            },
    {
        self.database.get(key)
    }

    /// Look up a key, and note the access.
    pub fn read(&mut self, key: &K) -> (r: Option<Vec<u8>>)
        requires
            old(self).wf(),
        ensures
            final(self).wf(),
            old(self).reading(*final(self), key.bytes()),
            match r {
                Some(data) => old(self).database()@.contains_key(key.bytes()) && old(
                    self,
                ).database()@[key.bytes()].data == data@,
                None => !old(self).database()@.contains_key(key.bytes()),
            },
    {
        self.database.read(key)
    }

    /// Check for the existence of a key.
    pub fn contains(&self, key: &K) -> (r: bool)
        requires
            self.wf(),
        ensures
            r == self.database()@.contains_key(key.bytes()),
    {
        self.database.contains_key(key)
    }

    /// How many insertions are owed under a key.
    pub fn times_owed(&self, key: &K) -> (r: u64)
        requires
            self.wf(),
        ensures
            r == owed_times(self.owed(), key.bytes()),
            self.owed().contains_key(key.bytes()) ==> r == self.owed()[key.bytes()],
            !self.owed().contains_key(key.bytes()) ==> r == 0,
    {
        self.owed.times(key.as_bytes())
    }

    /// The reference count of the data under a key, which is 0 where there are none.
    pub fn get_ref_count(&self, key: &K) -> (r: RefCount)
        requires
            self.wf(),
        ensures
            r == (if self.database()@.contains_key(key.bytes()) {
                self.database()@[key.bytes()].refs
            } else {
                0
            }),
    {
        self.database.get_ref_count(key)
    }

    /// What a rebuild of the index with other sizes would write, where it can be done.
    pub fn plan_reindex(&self, key_bytes: usize, index_bits: usize) -> (r: Result<
        ReindexPlan,
        Error,
    >)
        requires
            self.wf(),
        ensures
            self.database().planning(key_bytes, index_bits, r),
    {
        self.database.plan_reindex(key_bytes, index_bits)
    }

    /// Rebuilds the index with other sizes, once the file operations have been done or one has
    /// failed.
    pub fn reindex(
        &mut self,
        key_bytes: usize,
        index_bits: usize,
        failure: Option<(ReindexStage, Error)>,
    ) -> (r: Result<(), Error>)
        requires
            old(self).wf(),
        ensures
            final(self).wf(),
            old(self).reindexing(*final(self), key_bytes, index_bits, failure, r),
    {
        self.database.reindex(key_bytes, index_bits, failure)
    }

    /// Whether the index is that of the database.
    pub fn is_attached(&self) -> (r: bool)
        ensures
            r == self.database().attached(),
    {
        self.database.is_attached()
    }

    /// Hands out all that has to be on disk.
    pub fn commit(&mut self) -> (image: Image)
        requires
            old(self).wf(),
        ensures
            *final(self) == *old(self),
            old(self).database().imaged_by(image),
            image.data() == old(self).database()@,
    {
        self.database.commit()
    }

    /// Inserts a datum under the key that belongs to it. Insertions are counted and the equivalent
    /// number of `remove()`s must be performed before the data is considered dead.
    pub fn insert(&mut self, value: &[u8]) -> (r: SafeInsertion<K>)
        requires
            old(self).wf(),
            old(self).database()@.contains_key(K::digest(value@)) ==> old(self).database()@[K::digest(
                value@,
            )].refs < RefCount::MAX,
        ensures
            final(self).wf(),
            old(self).insertion(*final(self), K::digest(value@), value@, None, r),
    {
        let key = K::from_data(value);
        self.emplace(key, value)
    }

    /// Like `insert()`, except that the key is given.
    pub fn emplace(&mut self, key: K, value: &[u8]) -> (r: SafeInsertion<K>)
        requires
            old(self).wf(),
            old(self).database()@.contains_key(key.bytes()) ==> old(self).database()@[key.bytes()].refs
                < RefCount::MAX,
        ensures
            final(self).wf(),
            old(self).insertion(*final(self), key.bytes(), value@, Some(key), r),
    {
        if self.owed.settle(key.as_bytes()) {
            return SafeInsertion::Settled { hash: key };
        }
        SafeInsertion::Passed(self.database.insert(value, Some(key)))
    }

    /// Removes a datum previously inserted. Insertions can be "owed" such that the same number of
    /// `insert()`s may happen without the data being eventually inserted into the database. It can
    /// be "owed" more than once.
    pub fn remove(&mut self, key: &K)
        requires
            old(self).wf(),
            owed_times(old(self).owed(), key.bytes()) < u64::MAX,
        ensures
            final(self).wf(),
            old(self).removal(*final(self), key.bytes()),
    {
        if self.database.remove(key).is_err() {
            self.owed.record(key.as_bytes());
        }
    }
}

/// Keys that are hashed before use.
impl SafeDatabase<[u8; 32]> {
    /// Look up the data under an encoded key.
    pub fn plain_get(&self, encoded: &[u8]) -> (r: Option<Vec<u8>>)
        requires
            self.wf(),
        ensures
            match r {
                Some(data) => self.database()@.contains_key(hash32(encoded@))
                    && self.database()@[hash32(encoded@)].data == data@,
                None => !self.database()@.contains_key(hash32(encoded@)),
            },
    {
        self.get(&hash_bytes(encoded))
    }

    /// Look up the data under an encoded key, and note the access.
    pub fn plain_read(&mut self, encoded: &[u8]) -> (r: Option<Vec<u8>>)
        requires
            old(self).wf(),
        ensures
            final(self).wf(),
            old(self).reading(*final(self), hash32(encoded@)),
            match r {
                Some(data) => old(self).database()@.contains_key(hash32(encoded@)) && old(
                    self,
                ).database()@[hash32(encoded@)].data == data@,
                None => !old(self).database()@.contains_key(hash32(encoded@)),
            },
    {
        self.read(&hash_bytes(encoded))
    }

    /// Check for the existence of an encoded key.
    pub fn plain_contains(&self, encoded: &[u8]) -> (r: bool)
        requires
            self.wf(),
        ensures
            r == self.database()@.contains_key(hash32(encoded@)),
    {
        self.contains(&hash_bytes(encoded))
    }

    /// Inserts a datum under an encoded key. Insertions are counted and the equivalent number of
    /// `plain_remove()`s must be performed before the data is considered dead. The caller should
    /// ensure that a key only corresponds to one value.
    pub fn plain_emplace(&mut self, encoded: &[u8], value: &[u8]) -> (r: SafeInsertion<[u8; 32]>)
        requires
            old(self).wf(),
            old(self).database()@.contains_key(hash32(encoded@)) ==> old(self).database()@[hash32(
                encoded@,
            )].refs < RefCount::MAX,
        ensures
            final(self).wf(),
            exists|key: [u8; 32]|
                key@ == hash32(encoded@) && #[trigger] old(self).insertion(
                    *final(self),
                    hash32(encoded@),
                    value@,
                    Some(key),
                    r,
                ),
    {
        let key = hash_bytes(encoded);
        let r = self.emplace(key, value);
        assert(old(self).insertion(*self, hash32(encoded@), value@, Some(key), r));
        r
    }

    /// Like `plain_emplace()`, except that nothing is done where the data have been inserted as often
    /// as can be counted.
    pub fn try_plain_emplace(&mut self, encoded: &[u8], value: &[u8]) -> (r: Option<
        SafeInsertion<[u8; 32]>,
    >)
        requires
            old(self).wf(),
        ensures
            final(self).wf(),
            match r {
                Some(done) => {
                    &&& old(self).database()@.contains_key(hash32(encoded@)) ==> old(
                        self,
                    ).database()@[hash32(encoded@)].refs < RefCount::MAX
                    &&& exists|key: [u8; 32]|
                        key@ == hash32(encoded@) && #[trigger] old(self).insertion(
                            *final(self),
                            hash32(encoded@),
                            value@,
                            Some(key),
                            done,
                        )
                },
                None => {
                    &&& old(self).database()@.contains_key(hash32(encoded@))
                    &&& old(self).database()@[hash32(encoded@)].refs == RefCount::MAX
                    &&& *final(self) == *old(self)
                },
            },
    {
        if self.get_ref_count(&hash_bytes(encoded)) == RefCount::MAX {
            return None;
        }
        Some(self.plain_emplace(encoded, value))
    }

    /// Removes a datum previously inserted under an encoded key. Insertions can be "owed", as with
    /// `remove()`.
    pub fn plain_remove(&mut self, encoded: &[u8])
        requires
            old(self).wf(),
            owed_times(old(self).owed(), hash32(encoded@)) < u64::MAX,
        ensures
            final(self).wf(),
            old(self).removal(*final(self), hash32(encoded@)),
    {
        self.remove(&hash_bytes(encoded));
    }

    /// Like `plain_remove()`, except that nothing is done where as many insertions are owed as can be
    /// counted. Hands back whether it was done.
    pub fn try_plain_remove(&mut self, encoded: &[u8]) -> (r: bool)
        requires
            old(self).wf(),
        ensures
            final(self).wf(),
            r == (owed_times(old(self).owed(), hash32(encoded@)) < u64::MAX),
            r ==> old(self).removal(*final(self), hash32(encoded@)),
            !r ==> *final(self) == *old(self),
    {
        if self.times_owed(&hash_bytes(encoded)) == u64::MAX {
            return false;
        }
        self.plain_remove(encoded);
        true
    }
}

} // verus!
