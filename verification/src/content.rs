//! The content: tables that hold the data, with the key and the reference count of each.
use crate::content_address::ContentAddress;
use crate::datum_size::{DatumSize, LARGEST_CLASS};
use crate::bytes::{copy_bytes, same_bytes};
use crate::mapping::{Mapped, Mapping};
use vstd::prelude::*;

verus! {

/// How often a datum was inserted without having been removed.
pub type RefCount = u64;

/// A number of items of a table.
pub type TableItemCount = usize;

/// The number of items that a table can hold.
pub const TABLE_ITEMS: usize = 65536;

/// A stored datum.
#[derive(Debug)]
pub struct Item {
    pub key: Vec<u8>,
    pub data: Vec<u8>,
    pub refs: RefCount,
}

/// What a stored datum stands for.
pub struct Stored {
    pub key: Seq<u8>,
    pub data: Seq<u8>,
    pub refs: nat,
}

impl View for Item {
    type V = Stored;

    open spec fn view(&self) -> Stored {
        Stored { key: self.key@, data: self.data@, refs: self.refs as nat }
    }
}

/// A table of data of one size class.
#[derive(Debug)]
pub struct Table {
    pub datum_size: DatumSize,
    /// The number of items for which there is room on disk.
    pub backed: TableItemCount,
    pub items: Vec<Option<Item>>,
}

/// The number of items that a new table is backed for.
pub open spec fn least_backed(min_items_backed: TableItemCount) -> TableItemCount {
    if min_items_backed == 0 {
        1
    } else if min_items_backed > TABLE_ITEMS {
        TABLE_ITEMS
    } else {
        min_items_backed
    }
}

/// The number of items that a new table is backed for.
fn backed_at_least(min_items_backed: TableItemCount) -> (r: TableItemCount)
    ensures
        r == least_backed(min_items_backed),
{
    if min_items_backed == 0 {
        1
    } else if min_items_backed > TABLE_ITEMS {
        TABLE_ITEMS
    } else {
        min_items_backed
    }
}

impl Table {
    pub open spec fn item_ok(self, e: int) -> bool {
        self.items@[e] matches Some(item) ==> item.refs >= 1 && self.datum_size.suits(
            item.data@.len(),
        )
    }

    /// The table holds what it can hold: data of its size class, referred to at least once.
    pub open spec fn wf(self) -> bool {
        &&& self.items@.len() <= self.backed <= TABLE_ITEMS
        &&& self.datum_size matches DatumSize::Size(class) ==> class <= LARGEST_CLASS
        &&& forall|e: int| 0 <= e < self.items@.len() ==> #[trigger] self.item_ok(e)
    }

    /// Whether an entry holds no item.
    pub open spec fn vacant(self, e: usize) -> bool {
        e < self.items@.len() && self.items@[e as int] is None
    }

    /// Whether there is no room for another item.
    pub open spec fn is_full(self) -> bool {
        &&& self.items@.len() >= TABLE_ITEMS
        &&& forall|e: usize| !#[trigger] self.vacant(e)
    }

    /// How many of the first `n` entries hold an item.
    pub open spec fn used(self, n: int) -> int
        decreases n,
    {
        if n <= 0 {
            0
        } else {
            self.used(n - 1) + (if self.items@[n - 1] is Some {
                1int
            } else {
                0
            })
        }
    }

    /// Whether what a table describes can be held.
    fn check(&self) -> (r: bool)
        ensures
            r == self.wf(),
    {
        if self.items.len() > self.backed || self.backed > TABLE_ITEMS {
            return false;
        }
        if let DatumSize::Size(class) = self.datum_size {
            if class > LARGEST_CLASS {
                return false;
            }
        }
        let mut e: usize = 0;
        while e < self.items.len()
            invariant
                e <= self.items@.len(),
                forall|j: int| 0 <= j < e ==> #[trigger] self.item_ok(j),
            decreases self.items.len() - e,
        {
            if let Some(item) = &self.items[e] {
                let class = DatumSize::nearest(item.data.len());
                proof {
                    if self.datum_size.suits(item.data@.len()) {
                        crate::datum_size::lemma_class_unique(
                            self.datum_size,
                            class,
                            item.data@.len(),
                        );
                    }
                }
                if item.refs == 0 || class != self.datum_size {
                    assert(!self.item_ok(e as int));
                    return false;
                }
            }
            e = e + 1;
        }
        true
    }

    fn count_used(&self) -> (r: usize)
        ensures
            r == self.used(self.items@.len() as int),
            r <= self.items@.len(),
    {
        let mut n: usize = 0;
        let mut e: usize = 0;
        while e < self.items.len()
            invariant
                e <= self.items@.len(),
                n <= e,
                n == self.used(e as int),
            decreases self.items.len() - e,
        {
            if self.items[e].is_some() {
                n = n + 1;
            }
            e = e + 1;
        }
        n
    }
}

/// Whether some tables hold a datum at an address.
pub open spec fn holds(tables: Seq<Table>, a: ContentAddress) -> bool {
    &&& a.table < tables.len()
    &&& a.entry < tables[a.table as int].items@.len()
    &&& tables[a.table as int].items@[a.entry as int] is Some
}

/// The datum that some tables hold at an address.
pub open spec fn held(tables: Seq<Table>, a: ContentAddress) -> Stored {
    tables[a.table as int].items@[a.entry as int]->0@
}

/// The data that some tables hold, by address.
pub open spec fn items_in(tables: Seq<Table>) -> Map<ContentAddress, Stored> {
    Map::new(|a: ContentAddress| holds(tables, a), |a: ContentAddress| held(tables, a))
}

/// Whether two lists of tables have the same size classes and the same room.
pub open spec fn same_layout(a: Seq<Table>, b: Seq<Table>) -> bool {
    &&& a.len() == b.len()
    &&& forall|t: int|
        0 <= t < a.len() ==> (#[trigger] a[t]).datum_size == b[t].datum_size && a[t].backed
            == b[t].backed && a[t].items@.len() == b[t].items@.len()
}

/// Whether two lists of tables hold the same data at the same addresses.
pub open spec fn same_tables(a: Seq<Table>, b: Seq<Table>) -> bool {
    &&& same_layout(a, b)
    &&& items_in(a) == items_in(b)
}

/// The number of items that a table is backed for once it has got one entry more.
pub open spec fn backed_for(table: Table) -> TableItemCount {
    if table.items@.len() < table.backed {
        table.backed
    } else if table.backed > TABLE_ITEMS / 2 {
        TABLE_ITEMS
    } else if table.backed == 0 {
        1
    } else {
        (table.backed * 2) as usize
    }
}

/// Whether `now` are the tables `before` once `bytes` bytes have been stored at address `a`: in a
/// vacant entry of a table of their size class, in a new entry of such a table, or, where all of
/// these are full, in a new table.
pub open spec fn placed(
    before: Seq<Table>,
    now: Seq<Table>,
    a: ContentAddress,
    bytes: nat,
    min_items_backed: TableItemCount,
) -> bool {
    let t = a.table as int;
    &&& t < now.len()
    &&& now[t].datum_size.suits(bytes)
    &&& forall|i: int| 0 <= i < before.len() && i != t ==> #[trigger] now[i] == before[i]
    &&& if t < before.len() {
        &&& now.len() == before.len()
        &&& now[t].datum_size == before[t].datum_size
        &&& if a.entry < before[t].items@.len() {
            &&& before[t].vacant(a.entry)
            &&& now[t].items@.len() == before[t].items@.len()
            &&& now[t].backed == before[t].backed
        } else {
            &&& a.entry == before[t].items@.len() < TABLE_ITEMS
            &&& forall|e: usize| !#[trigger] before[t].vacant(e)
            &&& now[t].items@.len() == a.entry + 1
            &&& now[t].backed == backed_for(before[t])
        }
    } else {
        &&& t == before.len()
        &&& now.len() == t + 1
        &&& a.entry == 0
        &&& now[t].items@.len() == 1
        &&& now[t].backed == least_backed(min_items_backed)
        &&& forall|i: int|
            0 <= i < before.len() && (#[trigger] before[i]).datum_size == now[t].datum_size
                ==> before[i].is_full()
    }
}

/// What is known of a table: its size class and number, and with them the number of items in use,
/// the number of items backed, the bytes of a slot, and the bytes mapped.
pub type TableInfo = ((DatumSize, usize), (TableItemCount, TableItemCount, usize, usize));

/// Whether `free` lists the vacant entries of a table.
spec fn lists_vacant(free: Seq<usize>, table: Table) -> bool {
    &&& free.no_duplicates()
    &&& forall|e: usize|
        #![trigger free.contains(e)]
        #![trigger table.vacant(e)]
        free.contains(e) <==> table.vacant(e)
}

/// All tables of a database.
#[derive(Debug)]
pub struct Content {
    tables: Vec<Table>,
    /// The vacant entries, by table.
    free: Vec<Vec<usize>>,
    mapping: Mapping,
    min_items_backed: TableItemCount,
}

impl Content {
    pub closed spec fn tables(self) -> Seq<Table> {
        self.tables@
    }

    pub closed spec fn mapping(self) -> Mapping {
        self.mapping
    }

    pub closed spec fn min_items_backed(self) -> TableItemCount {
        self.min_items_backed
    }

    /// Whether an address is that of a stored datum.
    pub open spec fn live(self, a: ContentAddress) -> bool {
        holds(self.tables(), a)
    }

    pub open spec fn item(self, a: ContentAddress) -> Stored {
        held(self.tables(), a)
    }

    /// The stored data by address.
    pub open spec fn items(self) -> Map<ContentAddress, Stored> {
        items_in(self.tables())
    }

    /// Every table is in order and backed for at least as many items as was asked for, and what is
    /// mapped is stored in an oversize table.
    pub closed spec fn wf(self) -> bool {
        &&& self.free@.len() == self.tables@.len()
        &&& self.mapping.wf()
        &&& forall|t: int|
            0 <= t < self.tables@.len() ==> (#[trigger] self.tables@[t]).wf()
                && self.tables@[t].backed >= least_backed(self.min_items_backed) && lists_vacant(
                self.free@[t]@,
                self.tables@[t],
            )
        &&& forall|i: int| #![trigger self.mapping.list()[i]]
            0 <= i < self.mapping.list().len() ==> {
                let m = self.mapping.list()[i];
                &&& self.live(m.address)
                &&& self.tables@[m.address.table as int].datum_size == DatumSize::Oversize
                &&& self.item(m.address).data.len() == m.bytes
            }
    }

    pub proof fn lemma_wf(self)
        requires
            self.wf(),
        ensures
            self.mapping().wf(),
            forall|i: int|
                0 <= i < self.mapping().list().len() ==> {
                    let m = #[trigger] self.mapping().list()[i];
                    &&& self.items().contains_key(m.address)
                    &&& self.items()[m.address].data.len() == m.bytes
                    &&& DatumSize::Oversize.suits(m.bytes as nat)
                },
            self.tables().len() <= usize::MAX,
            forall|t: int|
                0 <= t < self.tables().len() ==> (#[trigger] self.tables()[t]).wf()
                    && self.tables()[t].backed >= least_backed(self.min_items_backed()),
            forall|a: ContentAddress| #[trigger]
                self.items().contains_key(a) ==> self.items()[a].refs >= 1,
    {
        assert(self.tables.len() == self.tables@.len());
        assert forall|i: int| 0 <= i < self.mapping().list().len() implies {
            let m = #[trigger] self.mapping().list()[i];
            &&& self.items().contains_key(m.address)
            &&& self.items()[m.address].data.len() == m.bytes
            &&& DatumSize::Oversize.suits(m.bytes as nat)
        } by {
            let m = self.mapping.list()[i];
            let table = self.tables@[m.address.table as int];
            assert(table.wf() && table.item_ok(m.address.entry as int));
        }
        assert forall|a: ContentAddress| #[trigger] self.items().contains_key(a) implies self.items()[a].refs
            >= 1 by {
            assert(self.tables@[a.table as int].item_ok(a.entry as int));
        }
    }

    /// The key and data of a stored datum whose key is `key`.
    fn lookup(&self, a: &ContentAddress, key: &[u8]) -> (r: Option<&Item>)
        ensures
            match r {
                Some(item) => self.live(*a) && item@ == self.item(*a) && item@.key == key@,
                None => !(self.live(*a) && self.item(*a).key == key@),
            },
    {
        if a.table >= self.tables.len() {
            return None;
        }
        let table = &self.tables[a.table];
        if a.entry >= table.items.len() {
            return None;
        }
        match &table.items[a.entry] {
            Some(item) => if same_bytes(item.key.as_slice(), key) {
                Some(item)
            } else {
                None
            },
            None => None,
        }
    }

    /// The data at an address, if the datum there has the key `key`.
    pub fn item_ref(&self, a: &ContentAddress, key: &[u8]) -> (r: Result<&[u8], ()>)
        ensures
            match r {
                Ok(data) => self.live(*a) && self.item(*a).key == key@ && self.item(*a).data
                    == data@,
                Err(()) => !(self.live(*a) && self.item(*a).key == key@),
            },
    {
        match self.lookup(a, key) {
            Some(item) => Ok(item.data.as_slice()),
            None => Err(()),
        }
    }

    /// The key of the datum at an address.
    pub fn item_hash(&self, a: &ContentAddress) -> (r: Result<&[u8], ()>)
        ensures
            match r {
                Ok(key) => self.live(*a) && self.item(*a).key == key@,
                Err(()) => !self.live(*a),
            },
    {
        if a.table >= self.tables.len() {
            return Err(());
        }
        let table = &self.tables[a.table];
        if a.entry >= table.items.len() {
            return Err(());
        }
        match &table.items[a.entry] {
            Some(item) => Ok(item.key.as_slice()),
            None => Err(()),
        }
    }

    /// The reference count of the datum at an address, if it has the key `key`.
    pub fn item_ref_count(&self, a: &ContentAddress, key: &[u8]) -> (r: Result<RefCount, ()>)
        ensures
            match r {
                Ok(refs) => self.live(*a) && self.item(*a).key == key@ && self.item(*a).refs
                    == refs,
                Err(()) => !(self.live(*a) && self.item(*a).key == key@),
            },
    {
        match self.lookup(a, key) {
            Some(item) => Ok(item.refs),
            None => Err(()),
        }
    }

    /// Sets the reference count of a stored datum.
    fn set_refs(&mut self, a: &ContentAddress, refs: RefCount)
        requires
            old(self).wf(),
            old(self).live(*a),
            refs >= 1,
        ensures
            final(self).wf(),
            final(self).items() == old(self).items().insert(
                *a,
                Stored { refs: refs as nat, ..old(self).item(*a) },
            ),
            same_layout(final(self).tables(), old(self).tables()),
            final(self).mapping() == old(self).mapping(),
            final(self).min_items_backed() == old(self).min_items_backed(),
    {
        let ghost before = *self;
        if let Some(item) = &mut self.tables[a.table].items[a.entry] {
            item.refs = refs;
        }
        proof {
            self.lemma_same_shape(before, *a);
        }
    }

    /// A change to one stored datum that leaves its data and all else alone keeps the content in
    /// order.
    proof fn lemma_same_shape(self, before: Content, a: ContentAddress)
        requires
            before.wf(),
            before.live(a),
            self.live(a),
            self.free == before.free,
            self.mapping == before.mapping,
            self.min_items_backed == before.min_items_backed,
            self.item(a).refs >= 1,
            self.item(a).data == before.item(a).data,
            ({
                let t = self.tables@[a.table as int];
                &&& self.tables@ == before.tables@.update(a.table as int, t)
                &&& t.datum_size == before.tables@[a.table as int].datum_size
                &&& t.backed == before.tables@[a.table as int].backed
                &&& t.items@ == before.tables@[a.table as int].items@.update(
                    a.entry as int,
                    t.items@[a.entry as int],
                )
            }),
        ensures
            self.wf(),
            self.items() == before.items().insert(a, self.item(a)),
            same_layout(self.tables(), before.tables()),
    {
        let t = self.tables@[a.table as int];
        let t0 = before.tables@[a.table as int];
        assert forall|e: int| 0 <= e < t.items@.len() implies #[trigger] t.item_ok(e) by {
            assert(t0.item_ok(e));
        }
    }
}

impl Content {
    /// Adds a reference to the datum at an address, if it has the key `key`.
    pub fn bump(&mut self, a: &ContentAddress, key: &[u8]) -> (r: Result<RefCount, ()>)
        requires
            old(self).wf(),
            old(self).live(*a) && old(self).item(*a).key == key@ ==> old(self).item(*a).refs
                < RefCount::MAX,
        ensures
            final(self).wf(),
            same_layout(final(self).tables(), old(self).tables()),
            final(self).mapping() == old(self).mapping(),
            final(self).min_items_backed() == old(self).min_items_backed(),
            match r {
                Ok(refs) => {
                    &&& old(self).live(*a)
                    &&& old(self).item(*a).key == key@
                    &&& refs == old(self).item(*a).refs + 1
                    &&& final(self).items() == old(self).items().insert(
                        *a,
                        Stored { refs: refs as nat, ..old(self).item(*a) },
                    )
                },
                Err(()) => {
                    &&& !(old(self).live(*a) && old(self).item(*a).key == key@)
                    &&& final(self).items() == old(self).items()
                },
            },
    {
        let refs: RefCount = match self.lookup(a, key) {
            Some(item) => item.refs + 1,
            None => {
                return Err(());
            },
        };
        self.set_refs(a, refs);
        Ok(refs)
    }

    /// Takes away a reference to the datum at an address, if it has the key `key`. The datum goes
    /// with its last reference.
    pub fn free(&mut self, a: &ContentAddress, key: &[u8]) -> (r: Result<RefCount, ()>)
        requires
            old(self).wf(),
        ensures
            final(self).wf(),
            same_layout(final(self).tables(), old(self).tables()),
            final(self).min_items_backed() == old(self).min_items_backed(),
            final(self).mapping().trigger() == old(self).mapping().trigger(),
            final(self).mapping().shrink() == old(self).mapping().shrink(),
            match r {
                Ok(refs) => {
                    &&& old(self).live(*a)
                    &&& old(self).item(*a).key == key@
                    &&& refs == old(self).item(*a).refs - 1
                    &&& final(self).items() == (if refs == 0 {
                        old(self).items().remove(*a)
                    } else {
                        old(self).items().insert(
                            *a,
                            Stored { refs: refs as nat, ..old(self).item(*a) },
                        )
                    })
                    &&& final(self).mapping().list() == (if refs == 0 {
                        crate::mapping::without(old(self).mapping().list(), *a)
                    } else {
                        old(self).mapping().list()
                    })
                },
                Err(()) => {
                    &&& !(old(self).live(*a) && old(self).item(*a).key == key@)
                    &&& final(self).items() == old(self).items()
                    &&& final(self).mapping() == old(self).mapping()
                },
            },
    {
        proof {
            self.lemma_wf();
        }
        let refs: RefCount = match self.lookup(a, key) {
            Some(item) => {
                assert(self.items().contains_key(*a));
                item.refs - 1
            },
            None => {
                return Err(());
            },
        };
        if refs > 0 {
            self.set_refs(a, refs);
        } else {
            let ghost before = *self;
            self.tables[a.table].items[a.entry] = None;
            self.free[a.table].push(a.entry);
            self.mapping.forget(*a);
            proof {
                let t = self.tables@[a.table as int];
                let t0 = before.tables@[a.table as int];
                assert forall|e: int| 0 <= e < t.items@.len() implies #[trigger] t.item_ok(e) by {
                    assert(t0.item_ok(e));
                }
                let f0 = before.free@[a.table as int]@;
                lemma_listed(f0, t0, a.entry, t);
                crate::mapping::lemma_without(before.mapping.list(), *a);
            }
        }
        Ok(refs)
    }

    /// Adds a vacant entry to a table that is not full, and backs more items where there is no room
    /// left for it.
    fn extend(&mut self, t: usize)
        requires
            old(self).wf(),
            t < old(self).tables().len(),
            old(self).tables()[t as int].items@.len() < TABLE_ITEMS,
        ensures
            final(self).wf(),
            final(self).items() == old(self).items(),
            final(self).mapping() == old(self).mapping(),
            final(self).min_items_backed() == old(self).min_items_backed(),
            final(self).tables().len() == old(self).tables().len(),
            forall|i: int|
                0 <= i < old(self).tables().len() && i != t ==> #[trigger] final(self).tables()[i]
                    == old(self).tables()[i],
            ({
                let before = old(self).tables()[t as int];
                let now = final(self).tables()[t as int];
                &&& now.datum_size == before.datum_size
                &&& now.backed == backed_for(before)
                &&& now.items@ == before.items@.push(None)
                &&& final(self).free@[t as int]@.len() > 0
                &&& final(self).free@[t as int]@.last() == before.items@.len()
            }),
    {
        let ghost before = *self;
        let e = self.tables[t].items.len();
        let backed = self.tables[t].backed;
        if e == backed {
            let more: usize = if backed > TABLE_ITEMS / 2 {
                TABLE_ITEMS
            } else if backed == 0 {
                1
            } else {
                backed * 2
            };
            self.tables[t].backed = more;
        }
        self.tables[t].items.push(None);
        self.free[t].push(e);
        proof {
            let t1 = self.tables@[t as int];
            let t0 = before.tables@[t as int];
            assert forall|e: int| 0 <= e < t1.items@.len() implies #[trigger] t1.item_ok(e) by {
                if e < t0.items@.len() {
                    assert(t0.item_ok(e));
                }
            }
            lemma_listed(before.free@[t as int]@, t0, e, t1);
        }
    }

    /// A vacant entry of a table of a size class, in a new table where none has room.
    fn take_entry(&mut self, class: DatumSize, Ghost(bytes): Ghost<nat>) -> (a: ContentAddress)
        requires
            old(self).wf(),
            class.suits(bytes),
        ensures
            final(self).wf(),
            final(self).items() == old(self).items(),
            final(self).mapping() == old(self).mapping(),
            final(self).min_items_backed() == old(self).min_items_backed(),
            placed(
                old(self).tables(),
                final(self).tables(),
                a,
                bytes,
                old(self).min_items_backed(),
            ),
            final(self).tables()[a.table as int].datum_size == class,
            final(self).tables()[a.table as int].vacant(a.entry),
            final(self).free@[a.table as int]@.len() > 0,
            final(self).free@[a.table as int]@.last() == a.entry,
    {
        let mut t: usize = 0;
        while t < self.tables.len()
            invariant
                self.wf(),
                *self == *old(self),
                class.suits(bytes),
                forall|i: int|
                    0 <= i < t && (#[trigger] self.tables@[i]).datum_size == class
                        ==> self.tables@[i].is_full(),
            decreases self.tables.len() - t,
        {
            if self.tables[t].datum_size == class {
                let n = self.free[t].len();
                if n > 0 {
                    let e = self.free[t][n - 1];
                    assert(self.tables@[t as int].vacant(e));
                    return ContentAddress { table: t, entry: e };
                }
                if self.tables[t].items.len() < TABLE_ITEMS {
                    let e = self.tables[t].items.len();
                    self.extend(t);
                    return ContentAddress { table: t, entry: e };
                }
            }
            t = t + 1;
        }
        let backed = backed_at_least(self.min_items_backed);
        let mut items: Vec<Option<Item>> = Vec::new();
        items.push(None);
        let mut vacant: Vec<usize> = Vec::new();
        vacant.push(0);
        let t = self.tables.len();
        self.tables.push(Table { datum_size: class, backed, items });
        self.free.push(vacant);
        proof {
            let t1 = self.tables@[t as int];
            assert(lists_vacant(vacant@, t1)) by {
                assert(vacant@[0] == 0);
            }
        }
        ContentAddress { table: t, entry: 0 }
    }

    /// Stores a datum under a new address, with one reference.
    pub fn emplace(&mut self, key: &[u8], data: &[u8]) -> (a: ContentAddress)
        requires
            old(self).wf(),
        ensures
            final(self).wf(),
            !old(self).items().contains_key(a),
            final(self).items() == old(self).items().insert(
                a,
                Stored { key: key@, data: data@, refs: 1 },
            ),
            placed(
                old(self).tables(),
                final(self).tables(),
                a,
                data@.len(),
                old(self).min_items_backed(),
            ),
            final(self).min_items_backed() == old(self).min_items_backed(),
            final(self).mapping().trigger() == old(self).mapping().trigger(),
            final(self).mapping().shrink() == old(self).mapping().shrink(),
            final(self).mapping().list() == (if DatumSize::Oversize.suits(data@.len()) {
                crate::mapping::accessed(
                    old(self).mapping().list(),
                    Mapped { address: a, bytes: data@.len() as usize },
                    old(self).mapping().trigger(),
                    old(self).mapping().shrink(),
                )
            } else {
                old(self).mapping().list()
            }),
    {
        let class = DatumSize::nearest(data.len());
        let a = self.take_entry(class, Ghost(data@.len()));
        let ghost before = *self;
        let item = Item {
            key: copy_bytes(key),
            data: copy_bytes(data),
            refs: 1,
        };
        self.tables[a.table].items[a.entry] = Some(item);
        let _ = self.free[a.table].pop();
        proof {
            let t1 = self.tables@[a.table as int];
            let t0 = before.tables@[a.table as int];
            assert forall|e: int| 0 <= e < t1.items@.len() implies #[trigger] t1.item_ok(e) by {
                if e != a.entry {
                    assert(t0.item_ok(e));
                }
            }
            let f0 = before.free@[a.table as int]@;
            lemma_popped(f0);
            if DatumSize::Oversize.suits(data@.len()) {
                crate::datum_size::lemma_class_unique(DatumSize::Oversize, class, data@.len());
            }
        }
        if class == DatumSize::Oversize {
            self.touch_oversize(a, data.len());
        }
        a
    }

    /// Notes an access to a datum of an oversize table.
    fn touch_oversize(&mut self, a: ContentAddress, bytes: usize)
        requires
            old(self).wf(),
            old(self).live(a),
            old(self).tables()[a.table as int].datum_size == DatumSize::Oversize,
            old(self).item(a).data.len() == bytes,
        ensures
            final(self).wf(),
            final(self).tables() == old(self).tables(),
            final(self).min_items_backed() == old(self).min_items_backed(),
            final(self).mapping().trigger() == old(self).mapping().trigger(),
            final(self).mapping().shrink() == old(self).mapping().shrink(),
            final(self).mapping().list() == crate::mapping::accessed(
                old(self).mapping().list(),
                Mapped { address: a, bytes },
                old(self).mapping().trigger(),
                old(self).mapping().shrink(),
            ),
    {
        let ghost before = *self;
        self.mapping.access(a, bytes);
        proof {
            crate::mapping::lemma_accessed(
                before.mapping.list(),
                Mapped { address: a, bytes },
                before.mapping.trigger(),
                before.mapping.shrink(),
            );
        }
    }

    /// Notes an access to a stored datum. Those of sized tables are mapped in any case.
    pub fn touch(&mut self, a: &ContentAddress)
        requires
            old(self).wf(),
            old(self).live(*a),
        ensures
            final(self).wf(),
            final(self).tables() == old(self).tables(),
            final(self).min_items_backed() == old(self).min_items_backed(),
            final(self).mapping().trigger() == old(self).mapping().trigger(),
            final(self).mapping().shrink() == old(self).mapping().shrink(),
            final(self).mapping().list() == (if DatumSize::Oversize.suits(
                old(self).item(*a).data.len(),
            ) {
                crate::mapping::accessed(
                    old(self).mapping().list(),
                    Mapped { address: *a, bytes: old(self).item(*a).data.len() as usize },
                    old(self).mapping().trigger(),
                    old(self).mapping().shrink(),
                )
            } else {
                old(self).mapping().list()
            }),
    {
        let mut bytes: usize = 0;
        if let Some(item) = &self.tables[a.table].items[a.entry] {
            bytes = item.data.len();
        }
        proof {
            let t = self.tables@[a.table as int];
            assert(t.wf() && t.item_ok(a.entry as int));
            if DatumSize::Oversize.suits(bytes as nat) {
                crate::datum_size::lemma_class_unique(
                    DatumSize::Oversize,
                    t.datum_size,
                    bytes as nat,
                );
            }
        }
        if self.tables[a.table].datum_size == DatumSize::Oversize {
            self.touch_oversize(*a, bytes);
        }
    }
}

/// The bytes of a table that are mapped: all that is backed of a sized table, and of an oversize
/// table what was accessed lately.
pub open spec fn mapped_bytes(table: Table, t: usize, mapping: Mapping) -> int {
    match table.datum_size {
        DatumSize::Size(_) => table.backed * table.datum_size.spec_size(),
        DatumSize::Oversize => crate::mapping::total_in(mapping.list(), t),
    }
}

/// What is known of the table of number `t`.
pub open spec fn table_info(table: Table, t: usize, mapping: Mapping) -> TableInfo {
    (
        (table.datum_size, t),
        (
            table.used(table.items@.len() as int) as usize,
            table.backed,
            table.datum_size.spec_size() as usize,
            mapped_bytes(table, t, mapping) as usize,
        ),
    )
}

impl Content {
    /// What is known of each table.
    pub fn info(&self) -> (r: Vec<TableInfo>)
        requires
            self.wf(),
        ensures
            r@.len() == self.tables().len(),
            forall|t: int|
                0 <= t < r@.len() ==> #[trigger] r@[t] == table_info(
                    self.tables()[t],
                    t as usize,
                    self.mapping(),
                ),
    {
        let mut r: Vec<TableInfo> = Vec::new();
        let mut t: usize = 0;
        while t < self.tables.len()
            invariant
                self.wf(),
                t <= self.tables@.len(),
                r@.len() == t,
                forall|i: int|
                    0 <= i < t ==> #[trigger] r@[i] == table_info(
                        self.tables@[i],
                        i as usize,
                        self.mapping,
                    ),
            decreases self.tables.len() - t,
        {
            let table = &self.tables[t];
            let used = table.count_used();
            let bytes = table.datum_size.size();
            let mapped: usize = match table.datum_size {
                DatumSize::Size(_) => {
                    assert(0 <= table.backed * bytes <= 65536 * 32768) by (nonlinear_arith)
                        requires
                            0 <= table.backed <= 65536,
                            0 <= bytes <= 32768,
                    ;
                    table.backed * bytes
                },
                DatumSize::Oversize => self.mapping.total_in(t),
            };
            r.push(((table.datum_size, t), (used, table.backed, bytes, mapped)));
            t = t + 1;
        }
        r
    }

    /// Opens the content that some tables hold. Tables that are backed for fewer items than asked
    /// for are extended. Nothing of an oversize table is mapped yet.
    pub fn open(
        tables: Vec<Table>,
        oversize_trigger_mapped: usize,
        oversize_shrink_mapped: usize,
        min_items_backed: TableItemCount,
    ) -> (r: Result<Content, crate::error::Error>)
        ensures
            match r {
                Ok(content) => {
                    &&& forall|t: int| 0 <= t < tables@.len() ==> (#[trigger] tables@[t]).wf()
                    &&& content.wf()
                    &&& content.items() == items_in(tables@)
                    &&& content.tables().len() == tables@.len()
                    &&& forall|t: int|
                        0 <= t < tables@.len() ==> (#[trigger] content.tables()[t]) == (Table {
                            backed: if tables@[t].backed >= least_backed(min_items_backed) {
                                tables@[t].backed
                            } else {
                                least_backed(min_items_backed)
                            },
                            ..tables@[t]
                        })
                    &&& content.min_items_backed() == min_items_backed
                    &&& content.mapping().list() == Seq::<Mapped>::empty()
                    &&& content.mapping().trigger() == oversize_trigger_mapped
                    &&& content.mapping().shrink() == oversize_shrink_mapped
                },
                Err(e) => {
                    &&& exists|t: int| 0 <= t < tables@.len() && !(#[trigger] tables@[t]).wf()
                    &&& e == crate::error::Error::Corrupt
                },
            },
    {
        let ghost given = tables@;
        let mut opened = tables;
        let mut free: Vec<Vec<usize>> = Vec::new();
        let backed = backed_at_least(min_items_backed);
        let mut t: usize = 0;
        while t < opened.len()
            invariant
                t <= opened@.len() == given.len(),
                given == tables@,
                free@.len() == t,
                backed == least_backed(min_items_backed),
                forall|i: int| 0 <= i < t ==> (#[trigger] given[i]).wf(),
                forall|i: int|
                    0 <= i < t ==> (#[trigger] opened@[i]).wf() && lists_vacant(
                        free@[i]@,
                        opened@[i],
                    ) && opened@[i] == (Table {
                        backed: if given[i].backed >= backed {
                            given[i].backed
                        } else {
                            backed
                        },
                        ..given[i]
                    }),
                forall|i: int| t <= i < opened@.len() ==> #[trigger] opened@[i] == given[i],
            decreases opened.len() - t,
        {
            if !opened[t].check() {
                return Err(crate::error::Error::Corrupt);
            }
            if opened[t].backed < backed {
                opened[t].backed = backed;
            }
            proof {
                let t1 = opened@[t as int];
                assert forall|e: int| 0 <= e < t1.items@.len() implies #[trigger] t1.item_ok(e) by {
                    assert(given[t as int].item_ok(e));
                }
            }
            let vacant = opened[t].unused();
            free.push(vacant);
            t = t + 1;
        }
        let content = Content {
            tables: opened,
            free,
            mapping: Mapping::new(oversize_trigger_mapped, oversize_shrink_mapped),
            min_items_backed,
        };
        Ok(content)
    }

    /// A copy of the tables, from which the content can be opened again.
    pub fn image(&self) -> (r: Vec<Table>)
        requires
            self.wf(),
        ensures
            same_tables(r@, self.tables()),
            forall|t: int| 0 <= t < r@.len() ==> (#[trigger] r@[t]).wf(),
    {
        let mut r: Vec<Table> = Vec::new();
        let mut t: usize = 0;
        while t < self.tables.len()
            invariant
                self.wf(),
                t <= self.tables@.len(),
                r@.len() == t,
                forall|i: int|
                    0 <= i < t ==> {
                        &&& (#[trigger] r@[i]).wf()
                        &&& r@[i].datum_size == self.tables@[i].datum_size
                        &&& r@[i].backed == self.tables@[i].backed
                        &&& same_items(r@[i].items@, self.tables@[i].items@)
                    },
            decreases self.tables.len() - t,
        {
            let copy = self.tables[t].copy();
            r.push(copy);
            t = t + 1;
        }
        assert(items_in(r@) =~= items_in(self.tables@));
        r
    }
}

/// A list with an element added holds that element and no other more.
proof fn lemma_pushed(list: Seq<usize>, e: usize)
    requires
        list.no_duplicates(),
        !list.contains(e),
    ensures
        list.push(e).no_duplicates(),
        forall|i: usize| #[trigger] list.push(e).contains(i) <==> list.contains(i) || i == e,
{
    let more = list.push(e);
    assert forall|i: usize| #[trigger] more.contains(i) <==> list.contains(i) || i == e by {
        if list.contains(i) {
            let j = choose|j: int| 0 <= j < list.len() && list[j] == i;
            assert(more[j] == i);
        }
        if i == e {
            assert(more[list.len() as int] == e);
        }
    }
}

/// A list without its last element lacks that element and no other.
proof fn lemma_popped(list: Seq<usize>)
    requires
        list.no_duplicates(),
        list.len() > 0,
    ensures
        list.drop_last().no_duplicates(),
        forall|i: usize| #[trigger]
            list.drop_last().contains(i) <==> list.contains(i) && i != list.last(),
{
    let fewer = list.drop_last();
    assert forall|i: usize| #[trigger] fewer.contains(i) <==> list.contains(i) && i
        != list.last() by {
        if list.contains(i) && i != list.last() {
            let j = choose|j: int| 0 <= j < list.len() && list[j] == i;
            assert(fewer[j] == i);
        }
    }
}

/// Listing an entry keeps the list of vacant entries right where that entry becomes vacant.
proof fn lemma_listed(free: Seq<usize>, before: Table, e: usize, now: Table)
    requires
        lists_vacant(free, before),
        !free.contains(e),
        now.vacant(e),
        forall|i: usize| i != e ==> #[trigger] now.vacant(i) == before.vacant(i),
    ensures
        lists_vacant(free.push(e), now),
{
    lemma_pushed(free, e);
}

/// Whether two lists of items are the same, entry by entry.
pub open spec fn same_items(a: Seq<Option<Item>>, b: Seq<Option<Item>>) -> bool {
    &&& a.len() == b.len()
    &&& forall|e: int|
        #![trigger a[e]]
        #![trigger b[e]]
        0 <= e < a.len() ==> {
            &&& a[e] is Some <==> b[e] is Some
            &&& a[e] is Some ==> a[e]->0@ == b[e]->0@
        }
}

impl Table {
    /// The entries that hold no item.
    fn unused(&self) -> (r: Vec<usize>)
        ensures
            lists_vacant(r@, *self),
    {
        let mut r: Vec<usize> = Vec::new();
        let mut e: usize = 0;
        while e < self.items.len()
            invariant
                e <= self.items@.len(),
                r@.no_duplicates(),
                forall|i: usize|
                    #![trigger r@.contains(i)]
                    #![trigger self.vacant(i)]
                    r@.contains(i) <==> i < e && self.vacant(i),
            decreases self.items.len() - e,
        {
            if self.items[e].is_none() {
                let ghost before = r@;
                r.push(e);
                proof {
                    lemma_pushed(before, e);
                }
            }
            e = e + 1;
        }
        r
    }

    fn copy(&self) -> (r: Table)
        requires
            self.wf(),
        ensures
            r.wf(),
            r.datum_size == self.datum_size,
            r.backed == self.backed,
            same_items(r.items@, self.items@),
    {
        let mut items: Vec<Option<Item>> = Vec::new();
        let mut e: usize = 0;
        while e < self.items.len()
            invariant
                e <= self.items@.len(),
                items@.len() == e,
                forall|i: int|
                    #![trigger items@[i]]
                    #![trigger self.items@[i]]
                    0 <= i < e ==> {
                        &&& items@[i] is Some <==> self.items@[i] is Some
                        &&& items@[i] is Some ==> items@[i]->0@ == self.items@[i]->0@
                    },
            decreases self.items.len() - e,
        {
            let copy: Option<Item> = match &self.items[e] {
                Some(item) => Some(
                    Item {
                        key: copy_bytes(item.key.as_slice()),
                        data: copy_bytes(item.data.as_slice()),
                        refs: item.refs,
                    },
                ),
                None => None,
            };
            items.push(copy);
            e = e + 1;
        }
        let r = Table { datum_size: self.datum_size, backed: self.backed, items };
        assert forall|e: int| 0 <= e < r.items@.len() implies #[trigger] r.item_ok(e) by {
            assert(self.item_ok(e));
        }
        r
    }
}

} // verus!
