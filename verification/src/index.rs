//! The index: an open-addressing table from the leading bytes of a key to the address of the
//! datum stored under it.
//!
//! A key has a home slot, given by its leading bits. It is placed in the first free slot at or
//! after its home, wrapping around at the end. Every slot passed over on the way remembers how
//! many entries were placed beyond it, so that a search can stop at the first slot that nothing
//! was placed beyond.
use crate::bytes::{copy_bytes, copy_prefix, same_bytes};
use crate::content::{Content, Stored};
use crate::content_address::ContentAddress;
use crate::error::Error;
use std::collections::BTreeMap;
use vstd::arithmetic::power2::pow2;
use vstd::prelude::*;

verus! {

/// An index has at most `2^63` slots.
pub const MAX_INDEX_BITS: usize = 63;

/// A slot cannot remember more than this many entries placed beyond it.
pub const MAX_SKIPPED: u8 = 255;

/// An occupied slot: the part of the key that is kept, and the address of the datum.
#[derive(Debug)]
pub struct IndexEntry {
    pub key: Vec<u8>,
    pub address: ContentAddress,
}

/// What an occupied slot stands for.
pub struct Slot {
    pub key: Seq<u8>,
    pub address: ContentAddress,
}

impl View for IndexEntry {
    type V = Slot;

    open spec fn view(&self) -> Slot {
        Slot { key: self.key@, address: self.address }
    }
}

/// What an index stands for: its sizes, its occupied slots, and how far entries had to be moved
/// since the watermarks were last taken.
#[verifier::ext_equal]
pub struct IndexView {
    pub key_bytes: usize,
    pub index_bits: usize,
    pub entries: Map<u64, Slot>,
    pub skipped_mark: u8,
    pub correction_mark: u64,
}

/// The number of slots.
pub open spec fn slots(index_bits: usize) -> int {
    pow2(index_bits as nat) as int
}

/// The number of leading key bytes that an entry keeps.
pub open spec fn kept_bytes(key_bytes: usize, index_bits: usize) -> int {
    let for_index = (index_bits + 7) / 8;
    if key_bytes >= for_index {
        key_bytes as int
    } else {
        for_index
    }
}

/// The part of a key that an entry keeps.
pub open spec fn kept_key(key: Seq<u8>, key_bytes: usize, index_bits: usize) -> Seq<u8> {
    if key.len() <= kept_bytes(key_bytes, index_bits) {
        key
    } else {
        key.take(kept_bytes(key_bytes, index_bits))
    }
}

/// The first `n` bytes of a key as a big-endian number, a key that is too short being extended
/// with zeros.
pub open spec fn leading(key: Seq<u8>, n: nat) -> int
    decreases n,
{
    if n == 0 {
        0
    } else {
        leading(key, (n - 1) as nat) * 256 + (if n <= key.len() {
            key[n - 1] as int
        } else {
            0
        })
    }
}

/// The slot at which the search for a key starts: its leading `index_bits` bits.
pub open spec fn home(key: Seq<u8>, index_bits: usize) -> int {
    leading(key, 8) / pow2((64 - index_bits) as nat) as int
}

/// How many slots lie between `from` and `to`, going forward and wrapping around at `size`.
pub open spec fn distance(from: int, to: int, size: int) -> int {
    if from <= to {
        to - from
    } else {
        to + size - from
    }
}

/// The slot that lies `d` slots after `from`.
pub open spec fn after(from: int, d: int, size: int) -> int {
    if from + d < size {
        from + d
    } else {
        from + d - size
    }
}

/// Whether the entry in slot `p` was placed beyond slot `s`.
pub open spec fn passes(e: Slot, p: u64, s: int, index_bits: usize) -> bool {
    let h = home(e.key, index_bits);
    distance(h, s, slots(index_bits)) < distance(h, p as int, slots(index_bits))
}

/// The slots of the entries that were placed beyond slot `s`.
pub open spec fn passers(entries: Map<u64, Slot>, s: int, index_bits: usize) -> Set<u64> {
    entries.dom().filter(|p: u64| passes(entries[p], p, s, index_bits))
}

impl IndexView {
    pub open spec fn size(self) -> int {
        slots(self.index_bits)
    }

    /// How many entries were placed beyond slot `s`.
    pub open spec fn skipped(self, s: int) -> nat {
        passers(self.entries, s, self.index_bits).len()
    }

    pub open spec fn kept(self, key: Seq<u8>) -> Seq<u8> {
        kept_key(key, self.key_bytes, self.index_bits)
    }

    pub open spec fn home_of(self, key: Seq<u8>) -> int {
        home(self.kept(key), self.index_bits)
    }

    /// Whether the first free slot for `key` lies `d` slots after its home.
    pub open spec fn first_free(self, key: Seq<u8>, d: int) -> bool {
        let h = self.home_of(key);
        &&& 0 <= d < self.size()
        &&& !self.entries.contains_key(after(h, d, self.size()) as u64)
        &&& forall|c: int| 0 <= c < d ==> self.entries.contains_key(
            #[trigger] after(h, c, self.size()) as u64,
        )
    }

    /// Whether `key` can be placed `d` slots after its home.
    pub open spec fn free_at(self, key: Seq<u8>, d: int) -> bool {
        &&& self.first_free(key, d)
        &&& forall|c: int| 0 <= c < d ==> self.skipped(
            #[trigger] after(self.home_of(key), c, self.size()),
        ) < MAX_SKIPPED
    }

    /// Whether another entry for `key` can be placed.
    pub open spec fn has_room(self, key: Seq<u8>) -> bool {
        exists|d: int| self.free_at(key, d)
    }

    /// How far from its home another entry for `key` would be placed.
    pub open spec fn next_distance(self, key: Seq<u8>) -> int {
        choose|d: int| self.free_at(key, d)
    }

    /// The highest of `self.skipped_mark` and the counts that the first `n` slots from `h` on have
    /// once one more entry has passed over them.
    pub open spec fn raised_mark(self, h: int, n: nat) -> int
        decreases n,
    {
        if n == 0 {
            self.skipped_mark as int
        } else {
            let before = self.raised_mark(h, (n - 1) as nat);
            let count = self.skipped(after(h, n - 1, self.size())) as int + 1;
            if before >= count {
                before
            } else {
                count
            }
        }
    }

    /// The index with an entry added in the slot that lies `d` slots after the home of `key`.
    pub open spec fn with_entry(self, key: Seq<u8>, address: ContentAddress, d: int) -> IndexView {
        let h = self.home_of(key);
        IndexView {
            entries: self.entries.insert(
                after(h, d, self.size()) as u64,
                Slot { key: self.kept(key), address },
            ),
            skipped_mark: self.raised_mark(h, d as nat) as u8,
            correction_mark: if self.correction_mark >= d {
                self.correction_mark
            } else {
                d as u64
            },
            ..self
        }
    }

    /// The index with an entry for `key` added in its first free slot.
    pub open spec fn stored(self, key: Seq<u8>, address: ContentAddress) -> IndexView {
        self.with_entry(key, address, self.next_distance(key))
    }

    /// The slots whose entry keeps what an entry for `key` would keep.
    pub open spec fn matches(self, p: u64, key: Seq<u8>) -> bool {
        &&& self.entries.contains_key(p)
        &&& self.entries[p].key == self.kept(key)
    }
}

/// An index table.
#[derive(Debug)]
pub struct Index {
    key_bytes: usize,
    index_bits: usize,
    entries: BTreeMap<u64, IndexEntry>,
    skipped: BTreeMap<u64, u8>,
    skipped_mark: u8,
    correction_mark: u64,
}

impl View for Index {
    type V = IndexView;

    closed spec fn view(&self) -> IndexView {
        IndexView {
            key_bytes: self.key_bytes,
            index_bits: self.index_bits,
            entries: self.entries@.map_values(|e: IndexEntry| e@),
            skipped_mark: self.skipped_mark,
            correction_mark: self.correction_mark,
        }
    }
}

proof fn lemma_leading_bound(key: Seq<u8>, n: nat)
    ensures
        0 <= leading(key, n) < pow2(8 * n),
    decreases n,
{
    vstd::arithmetic::power2::lemma2_to64();
    if n > 0 {
        lemma_leading_bound(key, (n - 1) as nat);
        vstd::arithmetic::power2::lemma_pow2_adds((8 * (n - 1)) as nat, 8);
    }
}

pub proof fn lemma_slots(index_bits: usize)
    requires
        index_bits <= MAX_INDEX_BITS,
    ensures
        1 <= slots(index_bits) <= 0x8000_0000_0000_0000,
{
    vstd::arithmetic::power2::lemma2_to64();
    vstd::arithmetic::power2::lemma2_to64_rest();
}

pub proof fn lemma_home_bound(key: Seq<u8>, index_bits: usize)
    requires
        index_bits <= MAX_INDEX_BITS,
    ensures
        0 <= home(key, index_bits) < slots(index_bits),
{
    let shift = (64 - index_bits) as nat;
    lemma_leading_bound(key, 8);
    vstd::arithmetic::power2::lemma_pow2_pos(shift);
    vstd::arithmetic::power2::lemma_pow2_adds(index_bits as nat, shift);
    let v = leading(key, 8);
    let p = pow2(shift) as int;
    let q = slots(index_bits);
    assert(v / p < q) by (nonlinear_arith)
        requires
            0 <= v < q * p,
            p > 0,
    ;
    assert(v / p >= 0) by (nonlinear_arith)
        requires
            0 <= v,
            p > 0,
    ;
}

/// Adding an entry adds one to the count of each slot that it passes over, and changes no other.
pub proof fn lemma_passers_insert(entries: Map<u64, Slot>, p: u64, e: Slot, s: int, index_bits: usize)
    requires
        entries.dom().finite(),
        !entries.contains_key(p),
    ensures
        passers(entries.insert(p, e), s, index_bits).len() == passers(entries, s, index_bits).len()
            + (if passes(e, p, s, index_bits) {
            1int
        } else {
            0
        }),
{
    let before = passers(entries, s, index_bits);
    let now = passers(entries.insert(p, e), s, index_bits);
    entries.dom().lemma_len_filter(|p: u64| passes(entries[p], p, s, index_bits));
    if passes(e, p, s, index_bits) {
        assert(now =~= before.insert(p));
    } else {
        assert(now =~= before);
    }
}

proof fn lemma_passers_remove(entries: Map<u64, Slot>, p: u64, s: int, index_bits: usize)
    requires
        entries.dom().finite(),
        entries.contains_key(p),
    ensures
        passers(entries, s, index_bits).len() == passers(entries.remove(p), s, index_bits).len() + (
        if passes(entries[p], p, s, index_bits) {
            1int
        } else {
            0
        }),
{
    lemma_passers_insert(entries.remove(p), p, entries[p], s, index_bits);
    assert(entries.remove(p).insert(p, entries[p]) =~= entries);
}

/// A slot that an entry was placed beyond has a count above zero.
proof fn lemma_passed_is_counted(entries: Map<u64, Slot>, p: u64, s: int, index_bits: usize)
    requires
        entries.dom().finite(),
        entries.contains_key(p),
        passes(entries[p], p, s, index_bits),
    ensures
        passers(entries, s, index_bits).len() > 0,
{
    lemma_passers_remove(entries, p, s, index_bits);
}

/// The slot at which the search for `key` starts.
fn home_slot(key: &Vec<u8>, index_bits: usize) -> (h: u64)
    requires
        index_bits <= MAX_INDEX_BITS,
    ensures
        h == home(key@, index_bits),
        h < slots(index_bits),
{
    let mut value: u64 = 0;
    let mut i: usize = 0;
    while i < 8
        invariant
            i <= 8,
            value == leading(key@, i as nat),
        decreases 8 - i,
    {
        let byte: u8 = if i < key.len() {
            key[i]
        } else {
            0
        };
        proof {
            lemma_leading_bound(key@, (i + 1) as nat);
            vstd::arithmetic::power2::lemma2_to64();
            vstd::arithmetic::power2::lemma2_to64_rest();
        }
        value = value * 256 + byte as u64;
        i = i + 1;
    }
    proof {
        lemma_home_bound(key@, index_bits);
        vstd::arithmetic::power2::lemma2_to64();
        vstd::arithmetic::power2::lemma2_to64_rest();
    }
    if index_bits == 0 {
        0
    } else {
        let shift: u64 = 64 - index_bits as u64;
        proof {
            vstd::bits::lemma_u64_shr_is_div(value, shift);
        }
        value >> shift
    }
}

impl Index {
    spec fn count(self, s: u64) -> u8 {
        if self.skipped@.contains_key(s) {
            self.skipped@[s]
        } else {
            0
        }
    }

    /// Every occupied slot exists, and every slot knows how many entries were placed beyond it.
    pub closed spec fn wf(self) -> bool {
        &&& self.index_bits <= MAX_INDEX_BITS
        &&& forall|p: u64| #[trigger] self@.entries.contains_key(p) ==> p < self@.size()
        &&& forall|s: u64| s < self@.size() ==> #[trigger] self.count(s) == self@.skipped(s as int)
    }

    pub proof fn lemma_wf(self)
        requires
            self.wf(),
        ensures
            self@.index_bits <= MAX_INDEX_BITS,
            self@.entries.dom().finite(),
            forall|p: u64| #[trigger] self@.entries.contains_key(p) ==> p < self@.size(),
            forall|s: u64| s < self@.size() ==> self@.skipped(s as int) <= MAX_SKIPPED,
    {
        assert(self@.entries.dom() =~= self.entries@.dom());
        assert forall|s: u64| s < self@.size() implies self@.skipped(s as int) <= MAX_SKIPPED by {
            assert(self.count(s) == self@.skipped(s as int));
        }
    }

    /// An empty index that no file backs.
    pub fn anonymous(key_bytes: usize, index_bits: usize) -> (r: Result<Index, Error>)
        ensures
            match r {
                Ok(index) => {
                    &&& index_bits <= MAX_INDEX_BITS
                    &&& index.wf()
                    &&& index@ == empty_index(key_bytes, index_bits)
                },
                Err(e) => index_bits > MAX_INDEX_BITS && e == Error::UnsupportedSize,
            },
    {
        if index_bits > MAX_INDEX_BITS {
            return Err(Error::UnsupportedSize);
        }
        let index = Index {
            key_bytes,
            index_bits,
            entries: BTreeMap::new(),
            skipped: BTreeMap::new(),
            skipped_mark: 0,
            correction_mark: 0,
        };
        assert forall|s: u64| s < index@.size() implies #[trigger] index.count(s) == index@.skipped(
            s as int,
        ) by {
            assert(passers(index@.entries, s as int, index_bits) =~= Set::<u64>::empty());
        }
        Ok(index)
    }

    /// The number of slots.
    fn size(&self) -> (n: u64)
        requires
            self.wf(),
        ensures
            n == self@.size(),
            n >= 1,
    {
        proof {
            lemma_slots(self.index_bits);
            vstd::bits::lemma_u64_shl_is_mul(1, self.index_bits as u64);
        }
        1u64 << (self.index_bits as u64)
    }

    /// How many entries were placed beyond a slot.
    fn skipped_at(&self, slot: u64) -> (n: u8)
        ensures
            n == self.count(slot),
    {
        match self.skipped.get(&slot) {
            Some(n) => *n,
            None => 0,
        }
    }

    /// The part of a key that an entry keeps.
    fn kept(&self, key: &[u8]) -> (r: Vec<u8>)
        requires
            self.wf(),
        ensures
            r@ == self@.kept(key@),
    {
        let for_index: usize = (self.index_bits + 7) / 8;
        let n: usize = if self.key_bytes >= for_index {
            self.key_bytes
        } else {
            for_index
        };
        if key.len() <= n {
            copy_bytes(key)
        } else {
            copy_prefix(key, n)
        }
    }

    /// The slot in which another entry for `key` would be placed, if there is one.
    fn find_room(&self, key: &[u8]) -> (r: Option<u64>)
        requires
            self.wf(),
        ensures
            match r {
                Some(slot) => {
                    &&& slot < self@.size()
                    &&& self@.free_at(key@, distance(self@.home_of(key@), slot as int, self@.size()))
                },
                None => !self@.has_room(key@),
            },
    {
        let kept = self.kept(key);
        let h = home_slot(&kept, self.index_bits);
        let size = self.size();
        proof {
            lemma_slots(self.index_bits);
        }
        let mut d: u64 = 0;
        let mut slot: u64 = h;
        while d < size
            invariant
                self.wf(),
                h == self@.home_of(key@),
                h < size == self@.size() <= 0x8000_0000_0000_0000,
                d <= size,
                slot == after(h as int, d as int, size as int) || d == size,
                slot < size,
                forall|c: int|
                    0 <= c < d ==> {
                        let s = #[trigger] after(h as int, c, size as int);
                        &&& self@.entries.contains_key(s as u64)
                        &&& self@.skipped(s) < MAX_SKIPPED
                    },
            decreases size - d,
        {
            if !self.entries.contains_key(&slot) {
                return Some(slot);
            }
            let n = self.skipped_at(slot);
            if n == MAX_SKIPPED {
                return None;
            }
            d = d + 1;
            slot = if slot + 1 == size {
                0
            } else {
                slot + 1
            };
        }
        None
    }
}

/// An index without entries.
pub open spec fn empty_index(key_bytes: usize, index_bits: usize) -> IndexView {
    IndexView {
        key_bytes,
        index_bits,
        entries: Map::empty(),
        skipped_mark: 0,
        correction_mark: 0,
    }
}

impl Index {
    /// Whether an entry can be put into a slot: the slot is free, and every slot that the entry
    /// passes over can still count it.
    spec fn can_hold(self, e: Slot, slot: u64) -> bool {
        &&& slot < self@.size()
        &&& !self@.entries.contains_key(slot)
        &&& forall|s: u64|
            s < self@.size() && passes(e, slot, s as int, self.index_bits) ==> #[trigger] self.count(
                s,
            ) < MAX_SKIPPED
    }

    /// Puts an entry into a slot and counts it in the slots that it passes over.
    fn put(&mut self, slot: u64, key: Vec<u8>, address: ContentAddress)
        requires
            old(self).wf(),
            old(self).can_hold(Slot { key: key@, address }, slot),
        ensures
            final(self).wf(),
            final(self)@ == (IndexView {
                entries: old(self)@.entries.insert(slot, Slot { key: key@, address }),
                skipped_mark: old(self)@.raised_mark(
                    home(key@, old(self)@.index_bits),
                    distance(
                        home(key@, old(self)@.index_bits),
                        slot as int,
                        old(self)@.size(),
                    ) as nat,
                ) as u8,
                correction_mark: {
                    let d = distance(
                        home(key@, old(self)@.index_bits),
                        slot as int,
                        old(self)@.size(),
                    );
                    if old(self)@.correction_mark >= d {
                        old(self)@.correction_mark
                    } else {
                        d as u64
                    }
                },
                ..old(self)@
            }),
    {
        let h = home_slot(&key, self.index_bits);
        let size = self.size();
        let ghost before = *self;
        let ghost e = Slot { key: key@, address };
        proof {
            lemma_slots(self.index_bits);
            before.lemma_wf();
        }
        let n: u64 = if h <= slot {
            slot - h
        } else {
            slot + (size - h)
        };
        let mut d: u64 = 0;
        let mut s: u64 = h;
        while d < n
            invariant
                before.wf(),
                before.can_hold(e, slot),
                e == (Slot { key: key@, address }),
                h == home(key@, before.index_bits),
                h < size == before@.size() <= 0x8000_0000_0000_0000,
                n == distance(h as int, slot as int, size as int),
                n < size,
                d <= n,
                slot < size,
                s == after(h as int, d as int, size as int),
                self.key_bytes == before.key_bytes,
                self.index_bits == before.index_bits,
                self.entries == before.entries,
                self.correction_mark == before.correction_mark,
                self.skipped_mark == before@.raised_mark(h as int, d as nat),
                forall|t: u64|
                    t < size ==> #[trigger] self.count(t) == before.count(t) + (if distance(
                        h as int,
                        t as int,
                        size as int,
                    ) < d {
                        1int
                    } else {
                        0
                    }),
            decreases n - d,
        {
            let c = self.skipped_at(s);
            let ghost prior = *self;
            self.skipped.insert(s, c + 1);
            if c + 1 > self.skipped_mark {
                self.skipped_mark = c + 1;
            }
            assert forall|t: u64| t < size implies #[trigger] self.count(t) == before.count(t) + (
            if distance(h as int, t as int, size as int) < d + 1 {
                1int
            } else {
                0
            }) by {
                assert(prior.count(t) == before.count(t) + (if distance(
                    h as int,
                    t as int,
                    size as int,
                ) < d {
                    1int
                } else {
                    0
                }));
            }
            d = d + 1;
            s = if s + 1 == size {
                0
            } else {
                s + 1
            };
        }
        let ghost counted = *self;
        if n > self.correction_mark {
            self.correction_mark = n;
        }
        self.entries.insert(slot, IndexEntry { key, address });
        assert(self@.entries =~= before@.entries.insert(slot, e));
        assert forall|t: u64| t < self@.size() implies #[trigger] self.count(t) == self@.skipped(
            t as int,
        ) by {
            assert(self.count(t) == counted.count(t));
            lemma_passers_insert(before@.entries, slot, e, t as int, before.index_bits);
        }
    }

    /// Adds an entry for `key` in the first free slot at or after its home.
    pub fn insert(&mut self, key: &[u8], address: ContentAddress) -> (r: Result<(), Error>)
        requires
            old(self).wf(),
        ensures
            final(self).wf(),
            match r {
                Ok(()) => old(self)@.has_room(key@) && final(self)@ == old(self)@.stored(
                    key@,
                    address,
                ),
                Err(e) => !old(self)@.has_room(key@) && final(self)@ == old(self)@ && e
                    == Error::IndexFull,
            },
    {
        match self.find_room(key) {
            None => Err(Error::IndexFull),
            Some(slot) => {
                let kept = self.kept(key);
                proof {
                    lemma_home_bound(kept@, self.index_bits);
                    let h = self@.home_of(key@);
                    assert forall|s: u64|
                        s < self@.size() && passes(
                            Slot { key: kept@, address },
                            slot,
                            s as int,
                            self.index_bits,
                        ) implies #[trigger] self.count(s) < MAX_SKIPPED by {
                        let c = distance(h, s as int, self@.size());
                        assert(after(h, c, self@.size()) == s);
                    }
                }
                self.put(slot, kept, address);
                Ok(())
            },
        }
    }

    /// Whether another entry for `key` can be placed.
    pub fn has_room(&self, key: &[u8]) -> (r: bool)
        requires
            self.wf(),
        ensures
            r == self@.has_room(key@),
    {
        self.find_room(key).is_some()
    }

    /// Empties an occupied slot.
    pub fn remove(&mut self, slot: u64)
        requires
            old(self).wf(),
            old(self)@.entries.contains_key(slot),
        ensures
            final(self).wf(),
            final(self)@ == (IndexView {
                entries: old(self)@.entries.remove(slot),
                ..old(self)@
            }),
    {
        let ghost before = *self;
        let size = self.size();
        proof {
            lemma_slots(self.index_bits);
            before.lemma_wf();
        }
        if let Some(entry) = self.entries.remove(&slot) {
            let ghost e = entry@;
            let h = home_slot(&entry.key, self.index_bits);
            let n: u64 = if h <= slot {
                slot - h
            } else {
                slot + (size - h)
            };
            let ghost taken = *self;
            let mut d: u64 = 0;
            let mut s: u64 = h;
            while d < n
                invariant
                    before.wf(),
                    before@.entries.dom().finite(),
                    before@.entries.contains_key(slot),
                    before@.entries[slot] == e,
                    h == home(e.key, before.index_bits),
                    h < size == before@.size() <= 0x8000_0000_0000_0000,
                    n == distance(h as int, slot as int, size as int),
                    n < size,
                    d <= n,
                    slot < size,
                    s == after(h as int, d as int, size as int),
                    self.key_bytes == before.key_bytes,
                    self.index_bits == before.index_bits,
                    self.entries == taken.entries,
                    self.correction_mark == before.correction_mark,
                    self.skipped_mark == before.skipped_mark,
                    forall|t: u64|
                        t < size ==> #[trigger] self.count(t) == before.count(t) - (if distance(
                            h as int,
                            t as int,
                            size as int,
                        ) < d {
                            1int
                        } else {
                            0
                        }),
                decreases n - d,
            {
                let c = self.skipped_at(s);
                proof {
                    lemma_passed_is_counted(before@.entries, slot, s as int, before.index_bits);
                }
                let ghost prior = *self;
                self.skipped.insert(s, c - 1);
                assert forall|t: u64| t < size implies #[trigger] self.count(t) == before.count(t)
                    - (if distance(h as int, t as int, size as int) < d + 1 {
                    1int
                } else {
                    0
                }) by {
                    assert(prior.count(t) == before.count(t) - (if distance(
                        h as int,
                        t as int,
                        size as int,
                    ) < d {
                        1int
                    } else {
                        0
                    }));
                }
                d = d + 1;
                s = if s + 1 == size {
                    0
                } else {
                    s + 1
                };
            }
            assert(self@.entries =~= before@.entries.remove(slot));
            assert forall|t: u64| t < self@.size() implies #[trigger] self.count(t)
                == self@.skipped(t as int) by {
                lemma_passers_remove(before@.entries, slot, t as int, before.index_bits);
            }
        }
    }

    /// The slots of the entries that may be for `key`: those that keep the same leading bytes.
    pub fn candidates(&self, key: &[u8]) -> (r: Vec<u64>)
        requires
            self.wf(),
        ensures
            forall|p: u64| r@.contains(p) <==> #[trigger] self@.matches(p, key@),
    {
        let kept = self.kept(key);
        let h = home_slot(&kept, self.index_bits);
        let size = self.size();
        proof {
            lemma_slots(self.index_bits);
            self.lemma_wf();
        }
        let mut r: Vec<u64> = Vec::new();
        let mut d: u64 = 0;
        let mut s: u64 = h;
        while d < size
            invariant_except_break
                d < size ==> s == after(h as int, d as int, size as int),
                forall|p: u64|
                    r@.contains(p) <==> #[trigger] self@.matches(p, key@) && distance(
                        h as int,
                        p as int,
                        size as int,
                    ) < d,
            invariant
                self.wf(),
                self@.entries.dom().finite(),
                forall|p: u64| #[trigger] self@.entries.contains_key(p) ==> p < self@.size(),
                kept@ == self@.kept(key@),
                h == self@.home_of(key@),
                h < size == self@.size() <= 0x8000_0000_0000_0000,
                d <= size,
                s < size,
            ensures
                forall|p: u64| r@.contains(p) <==> #[trigger] self@.matches(p, key@),
            decreases size - d,
        {
            let ghost found = r@;
            if let Some(entry) = self.entries.get(&s) {
                if same_bytes(entry.key.as_slice(), kept.as_slice()) {
                    r.push(s);
                    assert(r@.last() == s);
                    assert forall|p: u64| found.contains(p) implies r@.contains(p) by {
                        let i = choose|i: int| 0 <= i < found.len() && found[i] == p;
                        assert(r@[i] == p);
                    }
                }
            }
            assert forall|p: u64|
                r@.contains(p) <==> #[trigger] self@.matches(p, key@) && distance(
                    h as int,
                    p as int,
                    size as int,
                ) < d + 1 by {
                if self@.matches(p, key@) && distance(h as int, p as int, size as int) == d {
                    assert(p == s);
                }
                if r@.contains(p) && !found.contains(p) {
                    assert(p == s);
                }
            }
            let n = self.skipped_at(s);
            if n == 0 {
                assert forall|p: u64| #[trigger] self@.matches(p, key@) implies distance(
                    h as int,
                    p as int,
                    size as int,
                ) < d + 1 by {
                    if distance(h as int, p as int, size as int) > d {
                        lemma_passed_is_counted(self@.entries, p, s as int, self.index_bits);
                    }
                }
                break;
            }
            d = d + 1;
            s = if s + 1 == size {
                0
            } else {
                s + 1
            };
        }
        r
    }

    /// The address that an occupied slot holds.
    pub fn address_at(&self, slot: u64) -> (r: ContentAddress)
        requires
            self.wf(),
            self@.entries.contains_key(slot),
        ensures
            r == self@.entries[slot].address,
    {
        match self.entries.get(&slot) {
            Some(entry) => entry.address,
            None => ContentAddress { table: 0, entry: 0 },
        }
    }

    /// Takes the watermarks: the highest count of entries placed beyond one slot, and the furthest
    /// that an entry was placed from its home, since they were last taken.
    pub fn take_watermarks(&mut self) -> (r: (u8, u64))
        requires
            old(self).wf(),
        ensures
            final(self).wf(),
            r == (old(self)@.skipped_mark, old(self)@.correction_mark),
            final(self)@ == (IndexView { skipped_mark: 0, correction_mark: 0, ..old(self)@ }),
    {
        let r: (u8, u64) = (self.skipped_mark, self.correction_mark);
        let ghost before = *self;
        self.skipped_mark = 0;
        self.correction_mark = 0;
        assert forall|s: u64| s < self@.size() implies #[trigger] self.count(s) == self@.skipped(
            s as int,
        ) by {
            assert(before.count(s) == before@.skipped(s as int));
        }
        r
    }

    /// The sizes of the index: the bytes of a key and the bits of a slot number.
    pub fn sizes(&self) -> (r: (usize, usize))
        ensures
            r == (self@.key_bytes, self@.index_bits),
    {
        (self.key_bytes, self.index_bits)
    }

    /// The sizes to rebuild the index with when it has become too small: twice as many slots.
    pub fn next_size(&self) -> (r: (usize, usize))
        requires
            self.wf(),
        ensures
            r == next_index_size(self@.key_bytes, self@.index_bits),
    {
        (self.key_bytes, self.index_bits + 1)
    }
}

/// The sizes of an index with twice as many slots.
pub open spec fn next_index_size(key_bytes: usize, index_bits: usize) -> (usize, usize) {
    (key_bytes, (index_bits + 1) as usize)
}

/// Whether a sequence of slots is in increasing order.
pub open spec fn increasing(s: Seq<u64>) -> bool {
    forall|i: int, j: int| 0 <= i < j < s.len() ==> s[i] < s[j]
}

impl Index {
    /// The occupied slots in increasing order.
    fn occupied(&self) -> (r: Vec<u64>)
        ensures
            increasing(r@),
            forall|p: u64| r@.contains(p) <==> #[trigger] self@.entries.contains_key(p),
    {
        broadcast use vstd::std_specs::btree::group_btree_axioms;
        broadcast use vstd::laws_cmp::group_laws_cmp;

        let mut r: Vec<u64> = Vec::new();
        for p in it: self.entries.keys()
            invariant
                it.seq() == vstd::std_specs::iter::IteratorSpec::remaining(
            &vstd::std_specs::btree::spec_keys_iter(&self.entries),
        ),
                r@.len() == it.index(),
                forall|i: int| 0 <= i < r@.len() ==> r@[i] == *it.seq()[i],
        {
            r.push(*p);
        }
        let ghost all = vstd::std_specs::iter::IteratorSpec::remaining(
            &vstd::std_specs::btree::spec_keys_iter(&self.entries),
        );
        assert(r@ =~= all.unref());
        assert forall|i: int, j: int| 0 <= i < j < r@.len() implies r@[i] < r@[j] by {
            assert(vstd::std_specs::cmp::OrdSpec::cmp_spec(&all[i], &all[j]) is Less);
        }
        r
    }
}

/// An occupied slot as it is written to disk.
#[derive(Debug)]
pub struct IndexRecord {
    pub slot: u64,
    pub key: Vec<u8>,
    pub address: ContentAddress,
}

impl IndexRecord {
    pub open spec fn entry(self) -> Slot {
        Slot { key: self.key@, address: self.address }
    }
}

/// The occupied slots that a list of records describes.
pub open spec fn recorded(records: Seq<IndexRecord>) -> Map<u64, Slot>
    decreases records.len(),
{
    if records.len() == 0 {
        Map::empty()
    } else {
        recorded(records.drop_last()).insert(records.last().slot, records.last().entry())
    }
}

/// Whether a list of records describes an index of `2^index_bits` slots: the slots exist, none is
/// listed twice, and no slot has more entries placed beyond it than it can count.
pub open spec fn layout_ok(records: Seq<IndexRecord>, index_bits: usize) -> bool {
    &&& forall|i: int| 0 <= i < records.len() ==> (#[trigger] records[i]).slot < slots(index_bits)
    &&& forall|i: int, j: int|
        0 <= i < j < records.len() ==> (#[trigger] records[i]).slot != (#[trigger] records[j]).slot
    &&& forall|s: int|
        0 <= s < slots(index_bits) ==> #[trigger] passers(recorded(records), s, index_bits).len()
            <= MAX_SKIPPED
}

pub proof fn lemma_recorded(records: Seq<IndexRecord>)
    ensures
        recorded(records).dom().finite(),
        forall|i: int|
            0 <= i < records.len() ==> recorded(records).contains_key((#[trigger] records[i]).slot),
        forall|p: u64| #[trigger]
            recorded(records).contains_key(p) ==> exists|i: int|
                0 <= i < records.len() && (#[trigger] records[i]).slot == p
                    && recorded(records)[p] == records[i].entry(),
    decreases records.len(),
{
    if records.len() > 0 {
        let rest = records.drop_last();
        lemma_recorded(rest);
        assert forall|i: int| 0 <= i < records.len() implies recorded(records).contains_key(
            (#[trigger] records[i]).slot,
        ) by {
            if i < rest.len() {
                assert(rest[i] == records[i]);
            }
        }
    }
}

/// The records seen so far describe a part of what all of them describe.
proof fn lemma_recorded_part(records: Seq<IndexRecord>, n: int, s: int, index_bits: usize)
    requires
        0 <= n <= records.len(),
        forall|i: int, j: int|
            0 <= i < j < records.len() ==> (#[trigger] records[i]).slot != (
            #[trigger] records[j]).slot,
    ensures
        passers(recorded(records.take(n)), s, index_bits).len() <= passers(
            recorded(records),
            s,
            index_bits,
        ).len(),
    decreases records.len() - n,
{
    if n < records.len() {
        lemma_recorded_part(records, n + 1, s, index_bits);
        let part = records.take(n);
        let more = records.take(n + 1);
        assert(more.drop_last() =~= part);
        lemma_recorded(part);
        let p = records[n].slot;
        lemma_passers_insert(recorded(part), p, records[n].entry(), s, index_bits);
    } else {
        assert(records.take(n) =~= records);
    }
}

impl Index {
    /// Whether an entry can be put into a slot.
    fn can_put(&self, key: &Vec<u8>, slot: u64) -> (r: bool)
        requires
            self.wf(),
        ensures
            forall|address: ContentAddress|
                r == #[trigger] self.can_hold(Slot { key: key@, address }, slot),
    {
        let size = self.size();
        if slot >= size || self.entries.contains_key(&slot) {
            return false;
        }
        let h = home_slot(key, self.index_bits);
        proof {
            lemma_slots(self.index_bits);
        }
        let n: u64 = if h <= slot {
            slot - h
        } else {
            slot + (size - h)
        };
        let mut d: u64 = 0;
        let mut s: u64 = h;
        while d < n
            invariant
                self.wf(),
                slot < size,
                h == home(key@, self.index_bits),
                h < size == self@.size() <= 0x8000_0000_0000_0000,
                n == distance(h as int, slot as int, size as int),
                n < size,
                d <= n,
                s == after(h as int, d as int, size as int),
                forall|t: u64|
                    t < size && distance(h as int, t as int, size as int) < d
                        ==> #[trigger] self.count(t) < MAX_SKIPPED,
            decreases n - d,
        {
            if self.skipped_at(s) == MAX_SKIPPED {
                return false;
            }
            d = d + 1;
            s = if s + 1 == size {
                0
            } else {
                s + 1
            };
        }
        true
    }

    /// Restores an index from the records of its occupied slots.
    pub fn open(key_bytes: usize, index_bits: usize, records: &Vec<IndexRecord>) -> (r: Result<
        Index,
        Error,
    >)
        ensures
            match r {
                Ok(index) => {
                    &&& index_bits <= MAX_INDEX_BITS
                    &&& layout_ok(records@, index_bits)
                    &&& index.wf()
                    &&& index@ == (IndexView {
                        entries: recorded(records@),
                        ..empty_index(key_bytes, index_bits)
                    })
                },
                Err(Error::UnsupportedSize) => index_bits > MAX_INDEX_BITS,
                Err(e) => {
                    &&& index_bits <= MAX_INDEX_BITS
                    &&& !layout_ok(records@, index_bits)
                    &&& e == Error::Corrupt
                },
            },
    {
        let mut index = Index::anonymous(key_bytes, index_bits)?;
        let mut i: usize = 0;
        while i < records.len()
            invariant
                i <= records@.len(),
                index_bits <= MAX_INDEX_BITS,
                index.wf(),
                index@.key_bytes == key_bytes,
                index@.index_bits == index_bits,
                index@.entries == recorded(records@.take(i as int)),
                forall|j: int| 0 <= j < i ==> (#[trigger] records@[j]).slot < slots(index_bits),
                forall|j: int, k: int|
                    0 <= j < k < i ==> (#[trigger] records@[j]).slot != (#[trigger] records@[k]).slot,
            decreases records.len() - i,
        {
            let record = &records[i];
            let ghost part = records@.take(i as int);
            let ghost more = records@.take(i as int + 1);
            proof {
                lemma_recorded(part);
                assert(more.drop_last() =~= part);
            }
            if !index.can_put(&record.key, record.slot) {
                proof {
                    let e = record.entry();
                    assert(!index.can_hold(Slot { key: record.key@, address: record.address }, record.slot));
                    if layout_ok(records@, index_bits) {
                        let s = choose|s: u64|
                            s < index@.size() && passes(e, record.slot, s as int, index_bits)
                                && #[trigger] index.count(s) >= MAX_SKIPPED;
                        lemma_passers_insert(recorded(part), record.slot, e, s as int, index_bits);
                        lemma_recorded_part(records@, i as int + 1, s as int, index_bits);
                    }
                }
                return Err(Error::Corrupt);
            }
            let key = copy_bytes(record.key.as_slice());
            assert(index.can_hold(Slot { key: record.key@, address: record.address }, record.slot));
            index.put(record.slot, key, record.address);
            assert forall|j: int| 0 <= j < i implies (#[trigger] records@[j]).slot
                != records@[i as int].slot by {
                assert(recorded(part).contains_key(part[j].slot));
            }
            i = i + 1;
        }
        assert(records@.take(records@.len() as int) =~= records@);
        let _ = index.take_watermarks();
        proof {
            index.lemma_wf();
            assert forall|s: int| 0 <= s < slots(index_bits) implies #[trigger] passers(
                recorded(records@),
                s,
                index_bits,
            ).len() <= MAX_SKIPPED by {
                assert(index@.skipped((s as u64) as int) <= MAX_SKIPPED);
                lemma_slots(index_bits);
            }
        }
        Ok(index)
    }

    /// The records from which the index can be restored, in slot order.
    pub fn records(&self) -> (r: Vec<IndexRecord>)
        requires
            self.wf(),
        ensures
            recorded(r@) == self@.entries,
            layout_ok(r@, self@.index_bits),
            forall|i: int, j: int|
                0 <= i < j < r@.len() ==> (#[trigger] r@[i]).slot < (#[trigger] r@[j]).slot,
    {
        let order = self.occupied();
        let mut r: Vec<IndexRecord> = Vec::new();
        let mut i: usize = 0;
        while i < order.len()
            invariant
                i <= order@.len(),
                increasing(order@),
                forall|p: u64| order@.contains(p) <==> #[trigger] self@.entries.contains_key(p),
                r@.len() == i,
                forall|j: int|
                    0 <= j < i ==> {
                        &&& (#[trigger] r@[j]).slot == order@[j]
                        &&& r@[j].entry() == self@.entries[order@[j]]
                    },
            decreases order.len() - i,
        {
            let p = order[i];
            assert(self@.entries.contains_key(p));
            if let Some(entry) = self.entries.get(&p) {
                let key = copy_bytes(entry.key.as_slice());
                r.push(IndexRecord { slot: p, key, address: entry.address });
            }
            i = i + 1;
        }
        proof {
            lemma_recorded(r@);
            self.lemma_wf();
            lemma_slots(self.index_bits);
            assert forall|p: u64| #[trigger] recorded(r@).contains_key(p)
                <==> self@.entries.contains_key(p) by {
                if self@.entries.contains_key(p) {
                    let j = choose|j: int| 0 <= j < order@.len() && order@[j] == p;
                    assert(r@[j].slot == p);
                }
            }
            assert(recorded(r@) =~= self@.entries);
            assert forall|s: int| 0 <= s < slots(self@.index_bits) implies #[trigger] passers(
                recorded(r@),
                s,
                self@.index_bits,
            ).len() <= MAX_SKIPPED by {
                assert(self@.skipped((s as u64) as int) <= MAX_SKIPPED);
            }
        }
        r
    }
}

/// Whether a sequence lists the occupied slots in increasing order.
pub open spec fn lists_slots(order: Seq<u64>, entries: Map<u64, Slot>) -> bool {
    &&& increasing(order)
    &&& forall|p: u64| order.contains(p) <==> #[trigger] entries.contains_key(p)
}

/// The occupied slots in increasing order.
pub open spec fn slot_order(entries: Map<u64, Slot>) -> Seq<u64> {
    choose|order: Seq<u64>| lists_slots(order, entries)
}

/// The index with the entries of some slots added one after the other, unless one finds no room.
pub open spec fn refilled(index: IndexView, entries: Map<u64, Slot>, order: Seq<u64>) -> Option<
    IndexView,
>
    decreases order.len(),
{
    if order.len() == 0 {
        Some(index)
    } else {
        let e = entries[order.last()];
        match refilled(index, entries, order.drop_last()) {
            Some(v) if v.has_room(e.key) => Some(v.stored(e.key, e.address)),
            _ => None,
        }
    }
}

/// Some entries, each with the whole key of the datum that it leads to.
pub open spec fn whole_keys(
    entries: Map<u64, Slot>,
    items: Map<ContentAddress, Stored>,
) -> Map<u64, Slot> {
    entries.map_values(|e: Slot| Slot { key: items[e.address].key, ..e })
}

/// The index rebuilt with other sizes: entries for the keys of the data that it leads to, taken in
/// slot order, added to an empty index.
pub open spec fn rebuilt(
    index: IndexView,
    items: Map<ContentAddress, Stored>,
    key_bytes: usize,
    index_bits: usize,
) -> Option<IndexView> {
    match refilled(
        empty_index(key_bytes, index_bits),
        whole_keys(index.entries, items),
        slot_order(index.entries),
    ) {
        Some(v) => Some(IndexView { skipped_mark: 0, correction_mark: 0, ..v }),
        None => None,
    }
}

proof fn lemma_increasing_unique(a: Seq<u64>, b: Seq<u64>)
    requires
        increasing(a),
        increasing(b),
        forall|p: u64| a.contains(p) <==> b.contains(p),
    ensures
        a == b,
    decreases a.len(),
{
    if a.len() == 0 {
        if b.len() > 0 {
            assert(b.contains(b[0]));
        }
    } else {
        assert(a.contains(a.last()));
        assert(b.contains(b.last()));
        let ra = a.drop_last();
        let rb = b.drop_last();
        assert forall|p: u64| ra.contains(p) <==> rb.contains(p) by {
            if ra.contains(p) {
                let k = choose|k: int| 0 <= k < ra.len() && ra[k] == p;
                assert(a.contains(p));
                let m = choose|m: int| 0 <= m < b.len() && b[m] == p;
                assert(rb[m] == p);
            }
            if rb.contains(p) {
                let k = choose|k: int| 0 <= k < rb.len() && rb[k] == p;
                assert(b.contains(p));
                let m = choose|m: int| 0 <= m < a.len() && a[m] == p;
                assert(ra[m] == p);
            }
        }
        lemma_increasing_unique(ra, rb);
        assert(b =~= rb.push(b.last()));
    }
}

proof fn lemma_slot_order(order: Seq<u64>, entries: Map<u64, Slot>)
    requires
        lists_slots(order, entries),
    ensures
        slot_order(entries) == order,
{
    let other = slot_order(entries);
    assert forall|p: u64| order.contains(p) <==> other.contains(p) by {
        assert(other.contains(p) <==> entries.contains_key(p));
    }
    lemma_increasing_unique(order, other);
}

/// When adding one after the other fails somewhere, it fails as a whole.
proof fn lemma_refilled_stops(
    index: IndexView,
    entries: Map<u64, Slot>,
    order: Seq<u64>,
    n: int,
)
    requires
        0 <= n <= order.len(),
        refilled(index, entries, order.take(n)) is None,
    ensures
        refilled(index, entries, order) is None,
    decreases order.len() - n,
{
    if n < order.len() {
        assert(order.take(n + 1).drop_last() =~= order.take(n));
        lemma_refilled_stops(index, entries, order, n + 1);
    } else {
        assert(order.take(n) =~= order);
    }
}

impl Index {
    /// Rebuilds an index with other sizes, from the keys of the data that it leads to.
    pub fn from_existing(
        existing: &Index,
        content: &Content,
        key_bytes: usize,
        index_bits: usize,
    ) -> (r: Result<Index, Error>)
        requires
            existing.wf(),
            forall|p: u64| #[trigger]
                existing@.entries.contains_key(p) ==> content.items().contains_key(
                    existing@.entries[p].address,
                ),
        ensures
            match r {
                Ok(index) => {
                    &&& index_bits <= MAX_INDEX_BITS
                    &&& index.wf()
                    &&& rebuilt(existing@, content.items(), key_bytes, index_bits) == Some(index@)
                },
                Err(Error::UnsupportedSize) => index_bits > MAX_INDEX_BITS,
                Err(e) => {
                    &&& index_bits <= MAX_INDEX_BITS
                    &&& rebuilt(existing@, content.items(), key_bytes, index_bits) is None
                    &&& e == Error::IndexFull
                },
            },
    {
        if index_bits > MAX_INDEX_BITS {
            return Err(Error::UnsupportedSize);
        }
        let order = existing.occupied();
        let ghost entries = whole_keys(existing@.entries, content.items());
        let ghost blank = empty_index(key_bytes, index_bits);
        proof {
            lemma_slot_order(order@, existing@.entries);
        }
        let mut index = Index::anonymous(key_bytes, index_bits)?;
        let mut i: usize = 0;
        while i < order.len()
            invariant
                i <= order@.len(),
                existing.wf(),
                forall|p: u64| #[trigger]
                    existing@.entries.contains_key(p) ==> content.items().contains_key(
                        existing@.entries[p].address,
                    ),
                lists_slots(order@, existing@.entries),
                slot_order(existing@.entries) == order@,
                index_bits <= MAX_INDEX_BITS,
                blank == empty_index(key_bytes, index_bits),
                entries == whole_keys(existing@.entries, content.items()),
                index.wf(),
                refilled(blank, entries, order@.take(i as int)) == Some(index@),
            decreases order.len() - i,
        {
            let p = order[i];
            assert(existing@.entries.contains_key(p));
            assert(order@.take(i as int + 1).drop_last() =~= order@.take(i as int));
            let address = existing.address_at(p);
            if let Ok(key) = content.item_hash(&address) {
                assert(entries[p] == (Slot { key: key@, address }));
                match index.insert(key, address) {
                    Ok(()) => {},
                    Err(_) => {
                        proof {
                            lemma_refilled_stops(blank, entries, order@, i as int + 1);
                        }
                        return Err(Error::IndexFull);
                    },
                }
            }
            i = i + 1;
        }
        assert(order@.take(order@.len() as int) =~= order@);
        let _ = index.take_watermarks();
        Ok(index)
    }
}

/// Adding one after the other keeps every entry, under what the index keeps of its key.
proof fn lemma_refilled_entries(
    index: IndexView,
    entries: Map<u64, Slot>,
    order: Seq<u64>,
    v: IndexView,
)
    requires
        index.index_bits <= MAX_INDEX_BITS,
        index.entries == Map::<u64, Slot>::empty(),
        refilled(index, entries, order) == Some(v),
        increasing(order),
        forall|p: u64| order.contains(p) ==> entries.contains_key(p),
    ensures
        v.key_bytes == index.key_bytes,
        v.index_bits == index.index_bits,
        forall|q: u64| #[trigger]
            v.entries.contains_key(q) ==> exists|i: int| #![trigger order[i]]
                0 <= i < order.len() && v.entries[q].address == entries[order[i]].address
                    && v.entries[q].key == v.kept(entries[order[i]].key),
        forall|i: int|
            0 <= i < order.len() ==> exists|q: u64| #[trigger]
                v.entries.contains_key(q) && v.entries[q].address == entries[
                #[trigger] order[i]].address && v.entries[q].key == v.kept(entries[order[i]].key),
        (forall|p: u64, q: u64| #[trigger]
            entries.contains_key(p) && #[trigger] entries.contains_key(q) && entries[p].address
                == entries[q].address ==> p == q) ==> (forall|p: u64, q: u64| #[trigger]
            v.entries.contains_key(p) && #[trigger] v.entries.contains_key(q)
                && v.entries[p].address == v.entries[q].address ==> p == q),
    decreases order.len(),
{
    if order.len() > 0 {
        let rest = order.drop_last();
        let n = order.len() - 1;
        let e = entries[order.last()];
        let w = refilled(index, entries, rest).unwrap();
        assert forall|p: u64| rest.contains(p) implies entries.contains_key(p) by {
            let i = choose|i: int| 0 <= i < rest.len() && rest[i] == p;
            assert(order[i] == p);
            assert(order.contains(p));
        }
        lemma_refilled_entries(index, entries, rest, w);
        let d = w.next_distance(e.key);
        assert(w.free_at(e.key, d));
        let h = w.home_of(e.key);
        lemma_home_bound(w.kept(e.key), w.index_bits);
        lemma_slots(w.index_bits);
        let q0 = after(h, d, w.size()) as u64;
        assert(!w.entries.contains_key(q0));
        assert(v.entries == w.entries.insert(q0, Slot { key: w.kept(e.key), address: e.address }));
        assert forall|q: u64| #[trigger] v.entries.contains_key(q) implies exists|i: int|
            #![trigger order[i]]
            0 <= i < order.len() && v.entries[q].address == entries[order[i]].address
                && v.entries[q].key == v.kept(entries[order[i]].key) by {
            if q == q0 {
                assert(order[n] == order.last());
            } else {
                assert(w.entries.contains_key(q));
                let i = choose|i: int| #![trigger rest[i]]
                    0 <= i < rest.len() && w.entries[q].address == entries[rest[i]].address
                        && w.entries[q].key == w.kept(entries[rest[i]].key);
                assert(order[i] == rest[i]);
            }
        }
        assert forall|i: int| 0 <= i < order.len() implies exists|q: u64| #[trigger]
            v.entries.contains_key(q) && v.entries[q].address == entries[#[trigger] order[i]].address
                && v.entries[q].key == v.kept(entries[order[i]].key) by {
            if i == n {
                assert(v.entries.contains_key(q0));
            } else {
                assert(rest[i] == order[i]);
                let q = choose|q: u64| #[trigger]
                    w.entries.contains_key(q) && w.entries[q].address == entries[rest[i]].address
                        && w.entries[q].key == w.kept(entries[rest[i]].key);
                assert(v.entries.contains_key(q));
            }
        }
        if forall|p: u64, q: u64| #[trigger]
            entries.contains_key(p) && #[trigger] entries.contains_key(q) && entries[p].address
                == entries[q].address ==> p == q {
            assert forall|p: u64, q: u64| #[trigger]
                v.entries.contains_key(p) && #[trigger] v.entries.contains_key(q)
                    && v.entries[p].address == v.entries[q].address implies p == q by {
                if p != q {
                    let other = if p == q0 {
                        q
                    } else {
                        p
                    };
                    if p == q0 || q == q0 {
                        assert(w.entries.contains_key(other));
                        let i = choose|i: int| #![trigger rest[i]]
                            0 <= i < rest.len() && w.entries[other].address
                                == entries[rest[i]].address && w.entries[other].key == w.kept(
                                entries[rest[i]].key,
                            );
                        assert(order[i] == rest[i]);
                        assert(order.contains(order[i]) && order.contains(order[n]));
                        assert(entries.contains_key(order[i]) && entries.contains_key(order[n]));
                        assert(order[i] < order[n]);
                    } else {
                        assert(w.entries.contains_key(p) && w.entries.contains_key(q));
                    }
                }
            }
        }
    }
}

proof fn lemma_slots_below(entries: Map<u64, Slot>, n: int) -> (order: Seq<u64>)
    requires
        0 <= n <= 0x1_0000_0000_0000_0000,
    ensures
        increasing(order),
        forall|p: u64| #[trigger] order.contains(p) <==> (p < n && entries.contains_key(p)),
    decreases n,
{
    if n == 0 {
        Seq::empty()
    } else {
        let last = (n - 1) as u64;
        let rest = lemma_slots_below(entries, n - 1);
        if entries.contains_key(last) {
            let order = rest.push(last);
            assert forall|i: int, j: int| 0 <= i < j < order.len() implies order[i] < order[j] by {
                if j == rest.len() {
                    assert(rest.contains(rest[i]));
                }
            }
            assert forall|p: u64| #[trigger] order.contains(p) <==> (p < n && entries.contains_key(
                p,
            )) by {
                assert(rest.contains(p) <==> (p < n - 1 && entries.contains_key(p)));
                if order.contains(p) {
                    let i = choose|i: int| 0 <= i < order.len() && order[i] == p;
                    if i < rest.len() {
                        assert(rest[i] == p);
                    }
                }
                if p < n && entries.contains_key(p) {
                    if p == last {
                        assert(order[rest.len() as int] == p);
                    } else {
                        let i = choose|i: int| 0 <= i < rest.len() && rest[i] == p;
                        assert(order[i] == p);
                    }
                }
            }
            order
        } else {
            rest
        }
    }
}

pub proof fn lemma_slot_order_exists(entries: Map<u64, Slot>)
    ensures
        lists_slots(slot_order(entries), entries),
{
    let order = lemma_slots_below(entries, 0x1_0000_0000_0000_0000);
    assert forall|p: u64| order.contains(p) <==> #[trigger] entries.contains_key(p) by {
        assert(order.contains(p) <==> entries.contains_key(p));
    }
    assert(lists_slots(order, entries));
}

/// A set that holds the numbers below `n` has at least `n` elements.
proof fn lemma_all_below(set: Set<u64>, n: int)
    requires
        set.finite(),
        0 <= n <= 0x1_0000_0000_0000_0000,
        forall|s: int| 0 <= s < n ==> set.contains(#[trigger] (s as u64)),
    ensures
        set.len() >= n,
    decreases n,
{
    if n > 0 {
        let last = (n - 1) as u64;
        lemma_all_below(set.remove(last), n - 1);
    }
}

/// Where not all slots are occupied, a search from the home of a key on finds a free one.
pub proof fn lemma_some_free(v: IndexView, key: Seq<u8>, d: int)
    requires
        v.index_bits <= MAX_INDEX_BITS,
        v.entries.dom().finite(),
        v.entries.dom().len() < v.size(),
        0 <= d <= v.size(),
        forall|c: int|
            0 <= c < d ==> v.entries.contains_key(
                #[trigger] after(v.home_of(key), c, v.size()) as u64,
            ),
    ensures
        exists|c: int| v.first_free(key, c),
    decreases v.size() - d,
{
    let h = v.home_of(key);
    lemma_slots(v.index_bits);
    lemma_home_bound(v.kept(key), v.index_bits);
    if d == v.size() {
        assert forall|s: int| 0 <= s < v.size() implies v.entries.dom().contains(
            #[trigger] (s as u64),
        ) by {
            assert(after(h, distance(h, s, v.size()), v.size()) == s);
        }
        lemma_all_below(v.entries.dom(), v.size());
    } else if v.entries.contains_key(after(h, d, v.size()) as u64) {
        lemma_some_free(v, key, d + 1);
    } else {
        assert(v.first_free(key, d));
    }
}

/// An index that has a free slot, and fewer entries than a slot can count, has room for every key.
pub proof fn lemma_few_have_room(v: IndexView, key: Seq<u8>)
    requires
        v.index_bits <= MAX_INDEX_BITS,
        v.entries.dom().finite(),
        v.entries.dom().len() < v.size(),
        v.entries.dom().len() < MAX_SKIPPED,
    ensures
        v.has_room(key),
{
    lemma_some_free(v, key, 0);
    let d = choose|d: int| v.first_free(key, d);
    assert forall|c: int| 0 <= c < d implies v.skipped(
        #[trigger] after(v.home_of(key), c, v.size()),
    ) < MAX_SKIPPED by {
        let s = after(v.home_of(key), c, v.size());
        v.entries.dom().lemma_len_filter(|p: u64| passes(v.entries[p], p, s, v.index_bits));
    }
    assert(v.free_at(key, d));
}

proof fn lemma_refilled_few(index: IndexView, entries: Map<u64, Slot>, order: Seq<u64>)
    requires
        index.index_bits <= MAX_INDEX_BITS,
        index.entries == Map::<u64, Slot>::empty(),
        order.len() <= index.size(),
        order.len() <= MAX_SKIPPED,
    ensures
        refilled(index, entries, order) matches Some(v) && v.index_bits == index.index_bits
            && v.entries.dom().finite() && v.entries.dom().len() <= order.len(),
    decreases order.len(),
{
    if order.len() > 0 {
        lemma_refilled_few(index, entries, order.drop_last());
        let w = refilled(index, entries, order.drop_last()).unwrap();
        lemma_few_have_room(w, entries[order.last()].key);
    }
}

/// An index of no more entries than a slot can count can be rebuilt with every size that has a slot
/// for each of them.
pub proof fn lemma_few_can_be_rebuilt(
    index: IndexView,
    items: Map<ContentAddress, Stored>,
    key_bytes: usize,
    index_bits: usize,
)
    requires
        index_bits <= MAX_INDEX_BITS,
        index.entries.dom().finite(),
        index.entries.dom().len() <= slots(index_bits),
        index.entries.dom().len() <= MAX_SKIPPED,
    ensures
        rebuilt(index, items, key_bytes, index_bits) is Some,
{
    let order = slot_order(index.entries);
    lemma_slot_order_exists(index.entries);
    assert(order.no_duplicates());
    order.unique_seq_to_set();
    assert(order.to_set() =~= index.entries.dom()) by {
        assert forall|p: u64| order.to_set().contains(p) <==> index.entries.dom().contains(p) by {
            assert(order.contains(p) <==> index.entries.contains_key(p));
        }
    }
    lemma_refilled_few(
        empty_index(key_bytes, index_bits),
        whole_keys(index.entries, items),
        order,
    );
}

/// Rebuilding loses no entry and adds none: each entry of the rebuilt index stands for one of the
/// index that it was rebuilt from, and each of those is still there.
pub proof fn lemma_rebuilt_entries(
    index: IndexView,
    items: Map<ContentAddress, Stored>,
    key_bytes: usize,
    index_bits: usize,
)
    requires
        index_bits <= MAX_INDEX_BITS,
        rebuilt(index, items, key_bytes, index_bits) is Some,
    ensures
        ({
            let v = rebuilt(index, items, key_bytes, index_bits).unwrap();
            &&& v.key_bytes == key_bytes
            &&& v.index_bits == index_bits
            &&& v.skipped_mark == 0
            &&& v.correction_mark == 0
            &&& forall|q: u64| #[trigger]
                v.entries.contains_key(q) ==> exists|p: u64| #[trigger]
                    index.entries.contains_key(p) && v.entries[q].address
                        == index.entries[p].address && v.entries[q].key == v.kept(
                        items[index.entries[p].address].key,
                    )
            &&& forall|p: u64| #[trigger]
                index.entries.contains_key(p) ==> exists|q: u64| #[trigger]
                    v.entries.contains_key(q) && v.entries[q].address == index.entries[p].address
                        && v.entries[q].key == v.kept(items[index.entries[p].address].key)
            &&& (forall|p: u64, q: u64| #[trigger]
                index.entries.contains_key(p) && #[trigger] index.entries.contains_key(q)
                    && index.entries[p].address == index.entries[q].address ==> p == q) ==> (forall|
                p: u64,
                q: u64,
            | #[trigger]
                v.entries.contains_key(p) && #[trigger] v.entries.contains_key(q)
                    && v.entries[p].address == v.entries[q].address ==> p == q)
        }),
{
    let order = slot_order(index.entries);
    lemma_slot_order_exists(index.entries);
    let entries = whole_keys(index.entries, items);
    let full = refilled(empty_index(key_bytes, index_bits), entries, order).unwrap();
    let v = rebuilt(index, items, key_bytes, index_bits).unwrap();
    lemma_refilled_entries(empty_index(key_bytes, index_bits), entries, order, full);
    assert forall|q: u64| #[trigger] v.entries.contains_key(q) implies exists|p: u64| #[trigger]
        index.entries.contains_key(p) && v.entries[q].address == index.entries[p].address
            && v.entries[q].key == v.kept(items[index.entries[p].address].key) by {
        let i = choose|i: int| #![trigger order[i]]
            0 <= i < order.len() && full.entries[q].address == entries[order[i]].address
                && full.entries[q].key == full.kept(entries[order[i]].key);
        assert(order.contains(order[i]));
        assert(index.entries.contains_key(order[i]));
    }
    assert forall|p: u64| #[trigger] index.entries.contains_key(p) implies exists|q: u64| #[trigger]
        v.entries.contains_key(q) && v.entries[q].address == index.entries[p].address
            && v.entries[q].key == v.kept(items[index.entries[p].address].key) by {
        assert(order.contains(p));
        let i = choose|i: int| 0 <= i < order.len() && order[i] == p;
        let q = choose|q: u64| #[trigger]
            full.entries.contains_key(q) && full.entries[q].address
                == entries[order[i]].address && full.entries[q].key == full.kept(
                entries[order[i]].key,
            );
        assert(v.entries.contains_key(q));
    }
}

} // verus!
