//! The database: an index from keys to addresses, and the content at those addresses.
use crate::bytes::same_bytes;
use crate::content::{
    items_in, least_backed, placed, same_layout, same_tables, table_info, Content, RefCount, Stored,
    Table, TableInfo,
};
use crate::content_address::ContentAddress;
use crate::datum_size::DatumSize;
use crate::error::Error;
use crate::growth::sound;
use crate::index::{
    empty_index, layout_ok, lemma_rebuilt_entries, next_index_size, rebuilt, recorded, Index,
    IndexRecord, IndexView, Slot, MAX_INDEX_BITS, MAX_SKIPPED,
};
use crate::key::KeyType;
use crate::mapping::{accessed, without, Mapped};
use crate::metadata::MetadataV1;
use crate::options::Options;
use vstd::prelude::*;

verus! {

/// A datum of a database: its bytes, and how often it was inserted without having been removed.
pub struct Datum {
    pub data: Seq<u8>,
    pub refs: nat,
}

/// Whether slot `p` of an index leads to a datum of key `key`.
pub open spec fn leads_to(
    entries: Map<u64, Slot>,
    items: Map<ContentAddress, Stored>,
    p: u64,
    key: Seq<u8>,
) -> bool {
    &&& entries.contains_key(p)
    &&& items.contains_key(entries[p].address)
    &&& items[entries[p].address].key == key
}

/// The data that an index makes available, by key.
pub open spec fn reachable(entries: Map<u64, Slot>, items: Map<ContentAddress, Stored>) -> Map<
    Seq<u8>,
    Datum,
> {
    Map::new(
        |key: Seq<u8>| exists|p: u64| leads_to(entries, items, p, key),
        |key: Seq<u8>|
            {
                let p = choose|p: u64| leads_to(entries, items, p, key);
                let item = items[entries[p].address];
                Datum { data: item.data, refs: item.refs }
            },
    )
}

/// Whether slot `p` of the index leads to a datum, keeps what it should of the key, and is the only
/// slot for that key.
pub open spec fn slot_ok(
    index: IndexView,
    items: Map<ContentAddress, Stored>,
    key_size: nat,
    p: u64,
) -> bool {
    let a = index.entries[p].address;
    &&& items.contains_key(a)
    &&& items[a].key.len() == key_size
    &&& index.entries[p].key == index.kept(items[a].key)
    &&& forall|q: u64| #[trigger] leads_to(index.entries, items, q, items[a].key) ==> q == p
}

/// Whether an index fits the content.
pub open spec fn linked(
    index: IndexView,
    items: Map<ContentAddress, Stored>,
    key_size: nat,
) -> bool {
    forall|p: u64| #[trigger]
        index.entries.contains_key(p) ==> slot_ok(index, items, key_size, p)
}

/// The data after an insertion under a key: a datum that is there gains a reference and keeps its
/// bytes, one that is not is stored with one reference.
pub open spec fn inserted(m: Map<Seq<u8>, Datum>, key: Seq<u8>, data: Seq<u8>) -> Map<
    Seq<u8>,
    Datum,
> {
    if m.contains_key(key) {
        m.insert(key, Datum { refs: m[key].refs + 1, ..m[key] })
    } else {
        m.insert(key, Datum { data, refs: 1 })
    }
}

/// The data after a removal under a key: the datum loses a reference, and goes with its last.
pub open spec fn removed(m: Map<Seq<u8>, Datum>, key: Seq<u8>) -> Map<Seq<u8>, Datum> {
    if !m.contains_key(key) {
        m
    } else if m[key].refs <= 1 {
        m.remove(key)
    } else {
        m.insert(key, Datum { refs: (m[key].refs - 1) as nat, ..m[key] })
    }
}

/// Changing the reference count of a datum changes nothing else.
proof fn lemma_recount(
    index: IndexView,
    items: Map<ContentAddress, Stored>,
    key_size: nat,
    p: u64,
    refs: nat,
)
    requires
        linked(index, items, key_size),
        index.entries.contains_key(p),
    ensures
        ({
            let a = index.entries[p].address;
            let now = items.insert(a, Stored { refs, ..items[a] });
            &&& linked(index, now, key_size)
            &&& reachable(index.entries, now) == reachable(index.entries, items).insert(
                items[a].key,
                Datum { data: items[a].data, refs },
            )
        }),
{
    let a = index.entries[p].address;
    let key = items[a].key;
    let now = items.insert(a, Stored { refs, ..items[a] });
    assert forall|q: u64, k: Seq<u8>|
        leads_to(index.entries, now, q, k) == #[trigger] leads_to(index.entries, items, q, k) by {}
    assert forall|q: u64| #[trigger] index.entries.contains_key(q) implies slot_ok(
        index,
        now,
        key_size,
        q,
    ) by {
        let b = index.entries[q].address;
        assert forall|s: u64| #[trigger] leads_to(index.entries, now, s, now[b].key) implies s == q by {
            assert(leads_to(index.entries, items, s, items[b].key));
        }
    }
    let m0 = reachable(index.entries, items);
    let m1 = reachable(index.entries, now);
    let want = m0.insert(key, Datum { data: items[a].data, refs });
    assert forall|k: Seq<u8>| m1.contains_key(k) <==> want.contains_key(k) by {
        if m1.contains_key(k) {
            let q = choose|q: u64| leads_to(index.entries, now, q, k);
            assert(leads_to(index.entries, items, q, k));
        }
        if k == key {
            assert(leads_to(index.entries, now, p, k));
        }
    }
}

/// Adding a datum under a key that is not there, and a slot that leads to it, adds that datum alone.
proof fn lemma_add(
    index: IndexView,
    items: Map<ContentAddress, Stored>,
    key_size: nat,
    now: IndexView,
    p: u64,
    a: ContentAddress,
    item: Stored,
)
    requires
        linked(index, items, key_size),
        !items.contains_key(a),
        !index.entries.contains_key(p),
        !reachable(index.entries, items).contains_key(item.key),
        item.key.len() == key_size,
        now.key_bytes == index.key_bytes,
        now.index_bits == index.index_bits,
        now.entries == index.entries.insert(p, Slot { key: index.kept(item.key), address: a }),
    ensures
        linked(now, items.insert(a, item), key_size),
        reachable(now.entries, items.insert(a, item)) == reachable(index.entries, items).insert(
            item.key,
            Datum { data: item.data, refs: item.refs },
        ),
{
    let more = items.insert(a, item);
    assert forall|q: u64, k: Seq<u8>| q != p implies #[trigger] leads_to(now.entries, more, q, k)
        == leads_to(index.entries, items, q, k) by {}
    assert forall|q: u64| #[trigger] now.entries.contains_key(q) implies slot_ok(
        now,
        more,
        key_size,
        q,
    ) by {
        let b = now.entries[q].address;
        if q != p {
            assert(leads_to(index.entries, items, q, items[b].key));
        }
    }
    let m0 = reachable(index.entries, items);
    let m1 = reachable(now.entries, more);
    let want = m0.insert(item.key, Datum { data: item.data, refs: item.refs });
    assert(leads_to(now.entries, more, p, item.key));
    assert forall|k: Seq<u8>| m1.contains_key(k) <==> want.contains_key(k) by {
        if m0.contains_key(k) {
            let q = choose|q: u64| leads_to(index.entries, items, q, k);
            assert(leads_to(now.entries, more, q, k));
        }
    }
}

/// Taking away a slot and the datum that it leads to takes away that datum alone.
proof fn lemma_take(
    index: IndexView,
    items: Map<ContentAddress, Stored>,
    key_size: nat,
    now: IndexView,
    p: u64,
)
    requires
        linked(index, items, key_size),
        index.entries.contains_key(p),
        now.key_bytes == index.key_bytes,
        now.index_bits == index.index_bits,
        now.entries == index.entries.remove(p),
    ensures
        ({
            let a = index.entries[p].address;
            let fewer = items.remove(a);
            &&& linked(now, fewer, key_size)
            &&& reachable(now.entries, fewer) == reachable(index.entries, items).remove(items[a].key)
        }),
{
    let a = index.entries[p].address;
    let key = items[a].key;
    let fewer = items.remove(a);
    assert forall|q: u64, k: Seq<u8>| q != p implies #[trigger] leads_to(now.entries, fewer, q, k)
        == leads_to(index.entries, items, q, k) by {}
    assert forall|q: u64| #[trigger] now.entries.contains_key(q) implies slot_ok(
        now,
        fewer,
        key_size,
        q,
    ) by {
        let b = index.entries[q].address;
        assert(leads_to(now.entries, fewer, q, items[b].key));
    }
    let m0 = reachable(index.entries, items);
    let m1 = reachable(now.entries, fewer);
    let want = m0.remove(key);
    assert forall|k: Seq<u8>| m1.contains_key(k) <==> want.contains_key(k) by {
        if m0.contains_key(k) && k != key {
            let q = choose|q: u64| leads_to(index.entries, items, q, k);
            assert(leads_to(now.entries, fewer, q, k));
        }
    }
}

/// Rebuilding the index changes nothing that can be read.
proof fn lemma_rebuild(
    index: IndexView,
    items: Map<ContentAddress, Stored>,
    key_size: nat,
    key_bytes: usize,
    index_bits: usize,
)
    requires
        linked(index, items, key_size),
        index_bits <= MAX_INDEX_BITS,
        rebuilt(index, items, key_bytes, index_bits) is Some,
    ensures
        ({
            let v = rebuilt(index, items, key_bytes, index_bits).unwrap();
            &&& linked(v, items, key_size)
            &&& reachable(v.entries, items) == reachable(index.entries, items)
        }),
{
    let v = rebuilt(index, items, key_bytes, index_bits).unwrap();
    lemma_rebuilt_entries(index, items, key_bytes, index_bits);
    assert forall|p: u64, q: u64| #[trigger]
        index.entries.contains_key(p) && #[trigger] index.entries.contains_key(q)
            && index.entries[p].address == index.entries[q].address implies p == q by {
        assert(leads_to(index.entries, items, q, items[index.entries[p].address].key));
    }
    assert forall|q: u64, k: Seq<u8>| #[trigger] leads_to(v.entries, items, q, k) implies exists|p: u64|
        #[trigger] leads_to(index.entries, items, p, k) && index.entries[p].address == v.entries[q].address by {
        let p = choose|p: u64| #[trigger]
            index.entries.contains_key(p) && v.entries[q].address == index.entries[p].address
                && v.entries[q].key == v.kept(items[index.entries[p].address].key);
        assert(leads_to(index.entries, items, p, k));
    }
    assert forall|p: u64, k: Seq<u8>| #[trigger] leads_to(index.entries, items, p, k) implies exists|q: u64|
        #[trigger] leads_to(v.entries, items, q, k) && index.entries[p].address == v.entries[q].address by {
        let q = choose|q: u64| #[trigger]
            v.entries.contains_key(q) && v.entries[q].address == index.entries[p].address
                && v.entries[q].key == v.kept(items[index.entries[p].address].key);
        assert(leads_to(v.entries, items, q, k));
    }
    assert forall|q: u64| #[trigger] v.entries.contains_key(q) implies slot_ok(
        v,
        items,
        key_size,
        q,
    ) by {
        let p = choose|p: u64| #[trigger]
            index.entries.contains_key(p) && v.entries[q].address == index.entries[p].address
                && v.entries[q].key == v.kept(items[index.entries[p].address].key);
        assert(slot_ok(index, items, key_size, p));
    }
}

/// A database of data under keys of type `K`.
#[derive(Debug)]
pub struct Database<K: KeyType> {
    options: Options,
    index: Index,
    /// Whether the index is that of the database, rather than an empty one that stands in for it.
    attached: bool,
    content: Content,
    _dummy: core::marker::PhantomData<K>,
}

/// What became of an insertion.
#[derive(Debug)]
pub enum Insertion<K> {
    /// The datum is stored under `hash` and now has `refs` references. Where `grow` says so, the
    /// index has become crowded and should be rebuilt with those sizes.
    Done { refs: RefCount, hash: K, grow: Option<(usize, usize)> },
    /// The index has no room for `hash`, and nothing has changed. It has to be rebuilt, with these
    /// sizes, before the datum can be inserted.
    Full { hash: K, key_bytes: usize, index_bits: usize },
}

/// The bytes of the key that an insertion uses: those of the key that is given, or else those that
/// belong to the data.
pub open spec fn insertion_key<K: KeyType>(data: Seq<u8>, hash: Option<K>) -> Seq<u8> {
    match hash {
        Some(key) => key.bytes(),
        None => K::digest(data),
    }
}

/// The watermarks of the index once a datum has been inserted under a key.
pub open spec fn marks_after(index: IndexView, known: bool, key: Seq<u8>) -> (u8, u64) {
    if known {
        (index.skipped_mark, index.correction_mark)
    } else {
        let now = index.stored(key, ContentAddress { table: 0, entry: 0 });
        (now.skipped_mark, now.correction_mark)
    }
}

/// Whether watermarks say that the index has become crowded.
pub open spec fn crowded(options: Options, marks: (u8, u64)) -> bool {
    marks.0 > options.skipped_count_trigger || marks.1 >= options.key_correction_trigger
}

impl<K: KeyType> View for Database<K> {
    type V = Map<Seq<u8>, Datum>;

    closed spec fn view(&self) -> Map<Seq<u8>, Datum> {
        reachable(self.index@.entries, self.content.items())
    }
}

impl<K: KeyType> Database<K> {
    pub closed spec fn options(self) -> Options {
        self.options
    }

    pub closed spec fn index(self) -> IndexView {
        self.index@
    }

    /// Whether the index is that of the database, rather than an empty one that stands in for it.
    pub closed spec fn attached(self) -> bool {
        self.attached
    }

    pub closed spec fn content(self) -> Content {
        self.content
    }

    /// The index and the content are in order, the index fits the content, the content has the limits
    /// that the options ask for, and the watermarks have been taken.
    pub closed spec fn wf(self) -> bool {
        &&& self.index.wf()
        &&& self.content.wf()
        &&& linked(self.index@, self.content.items(), K::spec_size())
        &&& self.limits_kept()
        &&& self.index@.skipped_mark == 0
        &&& self.index@.correction_mark == 0
    }

    /// The content has the limits that the options ask for.
    pub open spec fn limits_kept(self) -> bool {
        &&& self.content().min_items_backed() == self.options().min_items_backed
        &&& self.content().mapping().trigger() == self.options().oversize_trigger_mapped
        &&& self.content().mapping().shrink() == self.options().oversize_shrink_mapped
    }

    /// What a database in order is made of.
    pub proof fn lemma_wf(self)
        requires
            self.wf(),
        ensures
            self.content().wf(),
            linked(self.index(), self.content().items(), K::spec_size()),
            self.limits_kept(),
            self@ == reachable(self.index().entries, self.content().items()),
            self.index().index_bits <= MAX_INDEX_BITS,
            sound(self.index(), self.content().items()),
            self.index().skipped_mark == 0,
            self.index().correction_mark == 0,
    {
        self.index.lemma_wf();
        crate::index::lemma_slots(self.index@.index_bits);
        assert forall|s: int| 0 <= s < self.index@.size() implies #[trigger] self.index@.skipped(s)
            <= MAX_SKIPPED by {
            assert(self.index@.skipped((s as u64) as int) <= MAX_SKIPPED);
        }
    }

    /// The slot that leads to the datum of a key.
    pub open spec fn slot_of(self, key: Seq<u8>) -> u64 {
        choose|p: u64| leads_to(self.index().entries, self.content().items(), p, key)
    }

    /// The address of the datum of a key.
    pub open spec fn address_of(self, key: Seq<u8>) -> ContentAddress {
        self.index().entries[self.slot_of(key)].address
    }

    /// The data of the oversize tables that are mapped, the least recently accessed first.
    pub open spec fn mapped(self) -> Seq<Mapped> {
        self.content().mapping().list()
    }

    /// What is mapped once a datum has been accessed: an oversize datum comes last, and others may
    /// have had to make room.
    pub open spec fn mapped_after(self, address: ContentAddress, bytes: nat) -> Seq<Mapped> {
        if DatumSize::Oversize.suits(bytes) {
            accessed(
                self.mapped(),
                Mapped { address, bytes: bytes as usize },
                self.options().oversize_trigger_mapped,
                self.options().oversize_shrink_mapped,
            )
        } else {
            self.mapped()
        }
    }

    /// What an insertion does: the datum gets a reference, and is stored under the key where it was
    /// not there yet. It needs room in the index for that; where there is none, nothing changes.
    pub open spec fn insertion(
        self,
        now: Database<K>,
        data: Seq<u8>,
        hash: Option<K>,
        r: Insertion<K>,
    ) -> bool {
        let key = insertion_key(data, hash);
        let known = self@.contains_key(key);
        &&& now.options() == self.options()
        &&& now.attached() == self.attached()
        &&& match r {
            Insertion::Done { refs, hash: used, grow } => {
                &&& known || self.index().has_room(key)
                &&& now@ == inserted(self@, key, data)
                &&& refs == now@[key].refs
                &&& used.bytes() == key
                &&& hash is Some ==> hash == Some(used)
                &&& now.index() == (IndexView {
                    skipped_mark: 0,
                    correction_mark: 0,
                    ..if known {
                        self.index()
                    } else {
                        self.index().stored(key, now.address_of(key))
                    }
                })
                &&& now.content().items() == self.content().items().insert(
                    now.address_of(key),
                    Stored { key, data: now@[key].data, refs: refs as nat },
                )
                &&& if known {
                    &&& now.address_of(key) == self.address_of(key)
                    &&& same_layout(
                        now.content().tables(),
                        self.content().tables(),
                    )
                    &&& now.mapped() == self.mapped()
                } else {
                    &&& !self.content().items().contains_key(
                        now.address_of(key),
                    )
                    &&& placed(
                        self.content().tables(),
                        now.content().tables(),
                        now.address_of(key),
                        data.len(),
                        self.options().min_items_backed,
                    )
                    &&& now.mapped() == self.mapped_after(
                        now.address_of(key),
                        data.len(),
                    )
                }
                &&& grow == (if crowded(
                    self.options(),
                    marks_after(self.index(), known, key),
                ) {
                    Some(
                        next_index_size(
                            self.index().key_bytes,
                            self.index().index_bits,
                        ),
                    )
                } else {
                    None
                })
            },
            Insertion::Full { hash: used, key_bytes, index_bits } => {
                &&& !known && !self.index().has_room(key)
                &&& now == self
                &&& used.bytes() == key
                &&& hash is Some ==> hash == Some(used)
                &&& (key_bytes, index_bits) == next_index_size(
                    self.index().key_bytes,
                    self.index().index_bits,
                )
            },
        }
    }

    /// What a removal does: the datum loses a reference, and goes with its last. Where there is no
    /// such datum, nothing changes.
    pub open spec fn removal(
        self,
        now: Database<K>,
        key: Seq<u8>,
        r: Result<RefCount, ()>,
    ) -> bool {
        &&& now.options() == self.options()
        &&& now.attached() == self.attached()
        &&& now@ == removed(self@, key)
        &&& same_layout(now.content().tables(), self.content().tables())
        &&& match r {
            Ok(refs) => {
                &&& self@.contains_key(key)
                &&& refs == self@[key].refs - 1
                &&& now.index() == (if refs == 0 {
                    IndexView {
                        entries: self.index().entries.remove(
                            self.slot_of(key),
                        ),
                        ..self.index()
                    }
                } else {
                    self.index()
                })
                &&& now.content().items() == (if refs == 0 {
                    self.content().items().remove(self.address_of(key))
                } else {
                    self.content().items().insert(
                        self.address_of(key),
                        Stored {
                            key,
                            data: self@[key].data,
                            refs: refs as nat,
                        },
                    )
                })
                &&& now.mapped() == (if refs == 0 {
                    without(self.mapped(), self.address_of(key))
                } else {
                    self.mapped()
                })
            },
            Err(()) => !self@.contains_key(key) && now == self,
        }
    }

    /// What an access to the data under a key does: an oversize datum is mapped, and others may have
    /// had to make room. Nothing else changes.
    pub open spec fn reading(self, now: Database<K>, key: Seq<u8>) -> bool {
        &&& now.options() == self.options()
        &&& now.attached() == self.attached()
        &&& now@ == self@
        &&& now.index() == self.index()
        &&& now.content().tables() == self.content().tables()
        &&& now.mapped() == (if self@.contains_key(key) {
            self.mapped_after(self.address_of(key), self@[key].data.len())
        } else {
            self.mapped()
        })
    }

    /// What a rebuild of the index with other sizes would write, and where it cannot be done.
    pub open spec fn planning(
        self,
        key_bytes: usize,
        index_bits: usize,
        r: Result<ReindexPlan, Error>,
    ) -> bool {
        match r {
            Ok(plan) => {
                &&& index_bits <= MAX_INDEX_BITS
                &&& rebuilt(
                    self.index(),
                    self.content().items(),
                    key_bytes,
                    index_bits,
                ) matches Some(v)
                &&& plan.metadata == (MetadataV1 { key_bytes, index_bits })
                &&& layout_ok(plan.index@, index_bits)
                &&& recorded(plan.index@) == v.entries
            },
            Err(Error::UnsupportedSize) => index_bits > MAX_INDEX_BITS,
            Err(e) => {
                &&& index_bits <= MAX_INDEX_BITS
                &&& rebuilt(
                    self.index(),
                    self.content().items(),
                    key_bytes,
                    index_bits,
                ) is None
                &&& e == Error::IndexFull
            },
        }
    }

    /// What a rebuild of the index with other sizes does, where the file operations stopped with a
    /// failure or with none. Where the index cannot be rebuilt or the new file could not be written,
    /// nothing changes; where a later operation failed, an empty index stands in for the index.
    pub open spec fn reindexing(
        self,
        now: Database<K>,
        key_bytes: usize,
        index_bits: usize,
        failure: Option<(ReindexStage, Error)>,
        r: Result<(), Error>,
    ) -> bool {
        &&& now.options() == self.options()
        &&& now.content() == self.content()
        &&& if index_bits > MAX_INDEX_BITS {
            r == Err::<(), Error>(Error::UnsupportedSize) && now == self
        } else {
            match (
                rebuilt(self.index(), self.content().items(), key_bytes, index_bits),
                failure,
            ) {
                (None, _) => r == Err::<(), Error>(Error::IndexFull) && now == self,
                (Some(_), Some((ReindexStage::CreateNew, e))) => r == Err::<(), Error>(e) && now
                    == self,
                (Some(_), Some((_, e))) => {
                    &&& r == Err::<(), Error>(e)
                    &&& now.index() == empty_index(1, 1)
                    &&& !now.attached()
                    &&& now@ == Map::<Seq<u8>, Datum>::empty()
                },
                (Some(v), None) => {
                    &&& r == Ok::<(), Error>(())
                    &&& now.index() == v
                    &&& now.attached()
                    &&& now@ == self@
                },
            }
        }
    }

    /// Whether this is the database that an image describes, as it is opened with some options.
    pub open spec fn opened_from(self, options: Options, image: Image) -> bool {
        &&& self@ == image.data()
        &&& self.options() == options
        &&& self.attached()
        &&& self.index() == image.index_view()
        &&& image.backs(self.content().tables(), options.min_items_backed)
        &&& self.mapped() == Seq::<Mapped>::empty()
    }

    /// Whether an image describes this database.
    pub open spec fn imaged_by(self, image: Image) -> bool {
        &&& image.metadata.key_bytes == self.index().key_bytes
        &&& image.metadata.index_bits == self.index().index_bits
        &&& image.describes(K::spec_size())
        &&& recorded(image.index@) == self.index().entries
        &&& same_tables(image.tables@, self.content().tables())
    }

    /// The slot that leads to the datum of a key.
    fn find(&self, key: &[u8]) -> (r: Option<u64>)
        requires
            self.wf(),
        ensures
            match r {
                Some(p) => {
                    &&& leads_to(self.index@.entries, self.content.items(), p, key@)
                    &&& p == self.slot_of(key@)
                },
                None => !self@.contains_key(key@),
            },
    {
        let candidates = self.index.candidates(key);
        let mut i: usize = 0;
        while i < candidates.len()
            invariant
                self.wf(),
                i <= candidates@.len(),
                forall|p: u64| candidates@.contains(p) <==> #[trigger] self.index@.matches(p, key@),
                forall|j: int|
                    0 <= j < i ==> !leads_to(
                        self.index@.entries,
                        self.content.items(),
                        #[trigger] candidates@[j],
                        key@,
                    ),
            decreases candidates.len() - i,
        {
            let p = candidates[i];
            assert(self.index@.matches(p, key@));
            let address = self.index.address_at(p);
            match self.content.item_hash(&address) {
                Ok(hash) => {
                    if same_bytes(hash, key) {
                        proof {
                            lemma_slot_found(*self, p, key@);
                        }
                        return Some(p);
                    }
                },
                Err(()) => {},
            }
            i = i + 1;
        }
        proof {
            if self@.contains_key(key@) {
                let p = choose|p: u64| leads_to(self.index@.entries, self.content.items(), p, key@);
                assert(self.index@.matches(p, key@));
            }
        }
        None
    }

    /// The data stored under a key.
    pub fn get_ref(&self, hash: &K) -> (r: Option<&[u8]>)
        requires
            self.wf(),
        ensures
            match r {
                Some(data) => self@.contains_key(hash.bytes()) && self@[hash.bytes()].data == data@,
                None => !self@.contains_key(hash.bytes()),
            },
    {
        let key = hash.as_bytes();
        match self.find(key) {
            Some(p) => {
                let address = self.index.address_at(p);
                match self.content.item_ref(&address, key) {
                    Ok(data) => Some(data),
                    Err(()) => None,
                }
            },
            None => None,
        }
    }

    /// A copy of the data stored under a key.
    pub fn get(&self, hash: &K) -> (r: Option<Vec<u8>>)
        requires
            self.wf(),
        ensures
            match r {
                Some(data) => self@.contains_key(hash.bytes()) && self@[hash.bytes()].data == data@,
                None => !self@.contains_key(hash.bytes()),
            },
    {
        match self.get_ref(hash) {
            Some(data) => Some(crate::bytes::copy_bytes(data)),
            None => None,
        }
    }

    /// Whether there are data under a key.
    pub fn contains_key(&self, hash: &K) -> (r: bool)
        requires
            self.wf(),
        ensures
            r == self@.contains_key(hash.bytes()),
    {
        let key = hash.as_bytes();
        self.find(key).is_some()
    }

    /// The reference count of the data under a key, which is 0 where there are none.
    pub fn get_ref_count(&self, hash: &K) -> (r: RefCount)
        requires
            self.wf(),
        ensures
            r == (if self@.contains_key(hash.bytes()) {
                self@[hash.bytes()].refs
            } else {
                0
            }),
    {
        let key = hash.as_bytes();
        match self.find(key) {
            Some(p) => {
                let address = self.index.address_at(p);
                match self.content.item_ref_count(&address, key) {
                    Ok(refs) => refs,
                    Err(()) => 0,
                }
            },
            None => 0,
        }
    }

    /// Inserts data under a key, or under the key that belongs to the data.
    pub fn insert(&mut self, data: &[u8], hash: Option<K>) -> (r: Insertion<K>)
        requires
            old(self).wf(),
            old(self)@.contains_key(insertion_key(data@, hash)) ==> old(self)@[insertion_key(
                data@,
                hash,
            )].refs < RefCount::MAX,
        ensures
            final(self).wf(),
            old(self).insertion(*final(self), data@, hash, r),
    {
        let ghost before = *self;
        let used = match hash {
            Some(key) => key,
            None => K::from_data(data),
        };
        let key = used.as_bytes();
        let refs: RefCount = match self.find(key) {
            Some(p) => {
                let address = self.index.address_at(p);
                proof {
                    lemma_recount(
                        self.index@,
                        self.content.items(),
                        K::spec_size(),
                        p,
                        self.content.items()[self.index@.entries[p].address].refs + 1,
                    );
                }
                let bumped = self.content.bump(&address, key);
                proof {
                    lemma_slot_found(*self, p, key@);
                }
                match bumped {
                    Ok(refs) => refs,
                    Err(()) => 0,
                }
            },
            None => {
                if !self.index.has_room(key) {
                    let (key_bytes, index_bits) = self.index.next_size();
                    return Insertion::Full { hash: used, key_bytes, index_bits };
                }
                let address = self.content.emplace(key, data);
                let _ = self.index.insert(key, address);
                proof {
                    let item = Stored { key: key@, data: data@, refs: 1 };
                    let d = before.index@.next_distance(key@);
                    let p = crate::index::after(
                        before.index@.home_of(key@),
                        d,
                        before.index@.size(),
                    ) as u64;
                    lemma_add(
                        before.index@,
                        before.content.items(),
                        K::spec_size(),
                        self.index@,
                        p,
                        address,
                        item,
                    );
                    lemma_slot_found(*self, p, key@);
                }
                1
            },
        };
        let marks = self.index.take_watermarks();
        let grow: Option<(usize, usize)> = if marks.0 > self.options.skipped_count_trigger || marks.1
            >= self.options.key_correction_trigger as u64 {
            Some(self.index.next_size())
        } else {
            None
        };
        Insertion::Done { refs, hash: used, grow }
    }

    /// Removes a reference to the data under a key, and the data with the last of them. Hands back
    /// how many references are left.
    pub fn remove(&mut self, hash: &K) -> (r: Result<RefCount, ()>)
        requires
            old(self).wf(),
        ensures
            final(self).wf(),
            old(self).removal(*final(self), hash.bytes(), r),
    {
        let ghost before = *self;
        let key = hash.as_bytes();
        match self.find(key) {
            Some(p) => {
                let address = self.index.address_at(p);
                proof {
                    lemma_recount(
                        self.index@,
                        self.content.items(),
                        K::spec_size(),
                        p,
                        (self.content.items()[address].refs - 1) as nat,
                    );
                }
                match self.content.free(&address, key) {
                    Ok(refs) => {
                        if refs == 0 {
                            self.index.remove(p);
                            proof {
                                lemma_take(
                                    before.index@,
                                    before.content.items(),
                                    K::spec_size(),
                                    self.index@,
                                    p,
                                );
                            }
                        }
                        Ok(refs)
                    },
                    Err(()) => Err(()),
                }
            },
            None => Err(()),
        }
    }
}

/// A slot that leads to the datum of a key is the one for that key.
proof fn lemma_slot_found<K: KeyType>(database: Database<K>, p: u64, key: Seq<u8>)
    requires
        linked(database.index@, database.content.items(), K::spec_size()),
        leads_to(database.index@.entries, database.content.items(), p, key),
    ensures
        p == database.slot_of(key),
{
}

/// The file operations of a rebuild of the index, in the order in which they are done.
#[derive(Clone, Copy, Debug, PartialEq, Eq, Structural)]
pub enum ReindexStage {
    /// Write the rebuilt index to a file beside the index.
    CreateNew,
    /// Remove the file of the index.
    RemoveOld,
    /// Give the new file the name of the old one.
    RenameNew,
    /// Write the new sizes.
    WriteMetadata,
    /// Open the index again.
    OpenNew,
}

impl ReindexStage {
    /// The operation that follows, if any.
    pub fn next(self) -> (r: Option<ReindexStage>)
        ensures
            r == (match self {
                ReindexStage::CreateNew => Some(ReindexStage::RemoveOld),
                ReindexStage::RemoveOld => Some(ReindexStage::RenameNew),
                ReindexStage::RenameNew => Some(ReindexStage::WriteMetadata),
                ReindexStage::WriteMetadata => Some(ReindexStage::OpenNew),
                ReindexStage::OpenNew => None,
            }),
    {
        match self {
            ReindexStage::CreateNew => Some(ReindexStage::RemoveOld),
            ReindexStage::RemoveOld => Some(ReindexStage::RenameNew),
            ReindexStage::RenameNew => Some(ReindexStage::WriteMetadata),
            ReindexStage::WriteMetadata => Some(ReindexStage::OpenNew),
            ReindexStage::OpenNew => None,
        }
    }
}

/// What a rebuild of the index writes.
#[derive(Debug)]
pub struct ReindexPlan {
    /// The new sizes.
    pub metadata: MetadataV1,
    /// The rebuilt index.
    pub index: Vec<IndexRecord>,
}

/// All that is kept of a database on disk.
#[derive(Debug)]
pub struct Image {
    pub metadata: MetadataV1,
    pub index: Vec<IndexRecord>,
    pub tables: Vec<Table>,
}

impl Image {
    /// The index that is described.
    pub open spec fn index_view(self) -> IndexView {
        IndexView {
            entries: recorded(self.index@),
            ..empty_index(self.metadata.key_bytes, self.metadata.index_bits)
        }
    }

    /// Whether this describes a database with keys of `key_size` bytes: an index that can be laid
    /// out, tables in order, and the one fits the other.
    pub open spec fn describes(self, key_size: nat) -> bool {
        &&& layout_ok(self.index@, self.metadata.index_bits)
        &&& forall|t: int| 0 <= t < self.tables@.len() ==> (#[trigger] self.tables@[t]).wf()
        &&& linked(self.index_view(), items_in(self.tables@), key_size)
    }

    /// Whether some tables are those that are described, backed for at least as many items as was
    /// asked for.
    pub open spec fn backs(self, tables: Seq<Table>, min_items_backed: usize) -> bool {
        &&& tables.len() == self.tables@.len()
        &&& forall|t: int|
            0 <= t < tables.len() ==> #[trigger] tables[t] == (Table {
                backed: if self.tables@[t].backed >= least_backed(min_items_backed) {
                    self.tables@[t].backed
                } else {
                    least_backed(min_items_backed)
                },
                ..self.tables@[t]
            })
    }

    /// The data that are described, by key.
    pub open spec fn data(self) -> Map<Seq<u8>, Datum> {
        reachable(recorded(self.index@), items_in(self.tables@))
    }

    /// What a new database starts from: the sizes of its index, and no data.
    pub fn empty(metadata: MetadataV1) -> (image: Image)
        ensures
            image.metadata == metadata,
            image.index@ == Seq::<IndexRecord>::empty(),
            image.tables@ == Seq::<Table>::empty(),
    {
        Image { metadata, index: Vec::new(), tables: Vec::new() }
    }
}

/// The sum of the mapped bytes of the first `n` tables.
pub open spec fn sum_mapped(info: Seq<TableInfo>, n: nat) -> int
    decreases n,
{
    if n == 0 {
        0
    } else {
        sum_mapped(info, (n - 1) as nat) + info[n - 1].1.3
    }
}

proof fn lemma_sum_mapped(info: Seq<TableInfo>, m: nat, n: nat)
    requires
        m <= n,
    ensures
        0 <= sum_mapped(info, m) <= sum_mapped(info, n),
    decreases n,
{
    if n > 0 {
        if m < n {
            lemma_sum_mapped(info, m, (n - 1) as nat);
        } else {
            lemma_sum_mapped(info, (m - 1) as nat, (n - 1) as nat);
        }
    }
}

impl<K: KeyType> Database<K> {
    /// Opens a database from what was found on disk. For a new database nothing was found but the
    /// sizes that it is created with.
    pub fn open(options: Options, image: Image) -> (r: Result<Self, Error>)
        ensures
            match r {
                Ok(database) => {
                    &&& image.metadata.index_bits <= MAX_INDEX_BITS
                    &&& image.describes(K::spec_size())
                    &&& database.wf()
                    &&& database.opened_from(options, image)
                },
                Err(Error::UnsupportedSize) => image.metadata.index_bits > MAX_INDEX_BITS,
                Err(e) => {
                    &&& image.metadata.index_bits <= MAX_INDEX_BITS
                    &&& !image.describes(K::spec_size())
                    &&& e == Error::Corrupt
                },
            },
    {
        let index = match Index::open(
            image.metadata.key_bytes,
            image.metadata.index_bits,
            &image.index,
        ) {
            Ok(index) => index,
            Err(e) => {
                return Err(e);
            },
        };
        let content = match Content::open(
            image.tables,
            options.oversize_trigger_mapped,
            options.oversize_shrink_mapped,
            options.min_items_backed,
        ) {
            Ok(content) => content,
            Err(e) => {
                return Err(e);
            },
        };
        let database = Database {
            options,
            index,
            attached: true,
            content,
            _dummy: core::marker::PhantomData,
        };
        let ghost entries = recorded(image.index@);
        let mut i: usize = 0;
        while i < image.index.len()
            invariant
                i <= image.index@.len(),
                image.metadata.index_bits <= MAX_INDEX_BITS,
                database.index.wf(),
                database.content.wf(),
                database.limits_kept(),
                database.attached,
                database.index@ == image.index_view(),
                database.content.items() == items_in(image.tables@),
                entries == recorded(image.index@),
                forall|j: int|
                    0 <= j < i ==> slot_fits(
                        database.index@,
                        database.content.items(),
                        K::spec_size(),
                        (#[trigger] image.index@[j]).slot,
                    ),
            decreases image.index.len() - i,
        {
            let p = image.index[i].slot;
            proof {
                crate::index::lemma_recorded(image.index@);
            }
            if !database.check_slot(p) {
                return Err(Error::Corrupt);
            }
            i = i + 1;
        }
        proof {
            crate::index::lemma_recorded(image.index@);
        }
        Ok(database)
    }

    /// Whether an occupied slot is in order.
    fn check_slot(&self, p: u64) -> (r: bool)
        requires
            self.index.wf(),
            self.content.wf(),
            self.index@.entries.contains_key(p),
        ensures
            r == slot_fits(self.index@, self.content.items(), K::spec_size(), p),
    {
        let address = self.index.address_at(p);
        let key = match self.content.item_hash(&address) {
            Ok(key) => key,
            Err(()) => {
                return false;
            },
        };
        if key.len() != K::size() {
            return false;
        }
        let candidates = self.index.candidates(key);
        let mut seen = false;
        let mut i: usize = 0;
        while i < candidates.len()
            invariant
                self.index.wf(),
                self.content.wf(),
                self.index@.entries.contains_key(p),
                address == self.index@.entries[p].address,
                self.content.items().contains_key(address),
                key@ == self.content.items()[address].key,
                i <= candidates@.len(),
                forall|q: u64| candidates@.contains(q) <==> #[trigger] self.index@.matches(q, key@),
                seen ==> self.index@.matches(p, key@),
                forall|j: int| 0 <= j < i && #[trigger] candidates@[j] == p ==> seen,
                forall|j: int|
                    0 <= j < i && leads_to(
                        self.index@.entries,
                        self.content.items(),
                        #[trigger] candidates@[j],
                        key@,
                    ) ==> candidates@[j] == p,
            decreases candidates.len() - i,
        {
            let q = candidates[i];
            assert(self.index@.matches(q, key@));
            if q == p {
                seen = true;
            } else {
                let other = self.index.address_at(q);
                if let Ok(found) = self.content.item_hash(&other) {
                    if same_bytes(found, key) {
                        assert(leads_to(self.index@.entries, self.content.items(), q, key@));
                        return false;
                    }
                }
            }
            i = i + 1;
        }
        assert(self.index@.matches(p, key@) ==> candidates@.contains(p));
        seen
    }

    /// What a rebuild of the index with other sizes would write, where it can be done.
    pub fn plan_reindex(&self, key_bytes: usize, index_bits: usize) -> (r: Result<
        ReindexPlan,
        Error,
    >)
        requires
            self.wf(),
        ensures
            self.planning(key_bytes, index_bits, r),
    {
        match Index::from_existing(&self.index, &self.content, key_bytes, index_bits) {
            Ok(index) => {
                proof {
                    lemma_rebuilt_entries(
                        self.index@,
                        self.content.items(),
                        key_bytes,
                        index_bits,
                    );
                }
                Ok(
                    ReindexPlan {
                        metadata: MetadataV1 { key_bytes, index_bits },
                        index: index.records(),
                    },
                )
            },
            Err(e) => Err(e),
        }
    }

    /// Rebuilds the index with other sizes. The file operations have been done by now; `failure`
    /// tells at which of them it stopped, and why. Where the new file could not be written, the
    /// index is as it was; where a later one failed, the index is closed and an empty one takes its
    /// place.
    pub fn reindex(
        &mut self,
        key_bytes: usize,
        index_bits: usize,
        failure: Option<(ReindexStage, Error)>,
    ) -> (r: Result<(), Error>)
        requires
            old(self).wf(),
        ensures
            final(self).wf(),
            old(self).reindexing(*final(self), key_bytes, index_bits, failure, r),
    {
        let index = match Index::from_existing(&self.index, &self.content, key_bytes, index_bits) {
            Ok(index) => index,
            Err(e) => {
                return Err(e);
            },
        };
        proof {
            lemma_rebuild(
                self.index@,
                self.content.items(),
                K::spec_size(),
                key_bytes,
                index_bits,
            );
        }
        match failure {
            Some((ReindexStage::CreateNew, e)) => Err(e),
            Some((_, e)) => {
                let dummy = match Index::anonymous(1, 1) {
                    Ok(index) => index,
                    Err(other) => {
                        return Err(other);
                    },
                };
                self.index = dummy;
                self.attached = false;
                proof {
                    assert(self@ =~= Map::<Seq<u8>, Datum>::empty());
                }
                Err(e)
            },
            None => {
                self.index = index;
                self.attached = true;
                Ok(())
            },
        }
    }

    /// Whether the index is that of the database. It is not once a rebuild has failed half-way: an
    /// empty index then stands in for it, and is not to be written in its place.
    pub fn is_attached(&self) -> (r: bool)
        ensures
            r == self.attached(),
    {
        self.attached
    }

    /// Hands out all that has to be on disk. What can be read stays as it is.
    pub fn commit(&mut self) -> (image: Image)
        requires
            old(self).wf(),
        ensures
            *final(self) == *old(self),
            old(self).imaged_by(image),
            image.data() == old(self)@,
    {
        let metadata = self.index.sizes();
        let image = Image {
            metadata: MetadataV1 { key_bytes: metadata.0, index_bits: metadata.1 },
            index: self.index.records(),
            tables: self.content.image(),
        };
        image
    }

    /// What is known of each content table.
    pub fn info(&self) -> (r: Vec<TableInfo>)
        requires
            self.wf(),
        ensures
            r@ == self.spec_info(),
    {
        let r = self.content.info();
        r
    }

    /// What is known of each content table.
    pub open spec fn spec_info(self) -> Seq<TableInfo> {
        Seq::new(
            self.content().tables().len(),
            |t: int| table_info(self.content().tables()[t], t as usize, self.content().mapping()),
        )
    }

    /// The number of bytes that are mapped.
    pub fn bytes_mapped(&self) -> (r: usize)
        requires
            self.wf(),
            sum_mapped(self.spec_info(), self.spec_info().len()) <= usize::MAX,
        ensures
            r == sum_mapped(self.spec_info(), self.spec_info().len()),
            r == self.spec_info().fold_left(0int, |sum: int, x: TableInfo| sum + x.1.3),
    {
        let info = self.info();
        let mut sum: usize = 0;
        let mut t: usize = 0;
        while t < info.len()
            invariant
                t <= info@.len(),
                sum == sum_mapped(info@, t as nat),
                sum == info@.take(t as int).fold_left(0int, |sum: int, x: TableInfo| sum + x.1.3),
                sum_mapped(info@, info@.len()) <= usize::MAX,
            decreases info.len() - t,
        {
            assert(info@.take(t as int + 1).drop_last() =~= info@.take(t as int));
            proof {
                lemma_sum_mapped(info@, (t + 1) as nat, info@.len());
            }
            sum = sum + (info[t].1).3;
            t = t + 1;
        }
        assert(info@.take(t as int) =~= info@);
        sum
    }

    /// Notes that the data under a key are being read: an oversize datum is mapped, and others may
    /// have to make room. Hands back whether there are such data.
    pub fn touch(&mut self, hash: &K) -> (r: bool)
        requires
            old(self).wf(),
        ensures
            final(self).wf(),
            old(self).reading(*final(self), hash.bytes()),
            r == old(self)@.contains_key(hash.bytes()),
    {
        let key = hash.as_bytes();
        match self.find(key) {
            Some(p) => {
                let address = self.index.address_at(p);
                self.content.touch(&address);
                true
            },
            None => false,
        }
    }

    /// Reads the data under a key: hands back a copy of them, and notes the access as `touch` does.
    pub fn read(&mut self, hash: &K) -> (r: Option<Vec<u8>>)
        requires
            old(self).wf(),
        ensures
            final(self).wf(),
            old(self).reading(*final(self), hash.bytes()),
            match r {
                Some(data) => old(self)@.contains_key(hash.bytes()) && old(
                    self,
                )@[hash.bytes()].data == data@,
                None => !old(self)@.contains_key(hash.bytes()),
            },
    {
        if self.touch(hash) {
            self.get(hash)
        } else {
            None
        }
    }
}

/// Whether slot `p` of the index leads to a datum, keeps what it should of the key, and is the only
/// slot for that key among those that keep the same.
spec fn slot_fits(
    index: IndexView,
    items: Map<ContentAddress, Stored>,
    key_size: nat,
    p: u64,
) -> bool {
    let a = index.entries[p].address;
    &&& items.contains_key(a)
    &&& items[a].key.len() == key_size
    &&& index.entries[p].key == index.kept(items[a].key)
    &&& forall|q: u64| #[trigger]
        leads_to(index.entries, items, q, items[a].key) && index.matches(q, items[a].key) ==> q == p
}

} // verus!
