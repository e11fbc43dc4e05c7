//! What the operations come to, in terms of what goes in and what comes out.
use crate::content::{Item, RefCount, Table, TableInfo};
use crate::content_address::ContentAddress;
use crate::database::{
    insertion_key, leads_to, slot_ok, sum_mapped, Database, Datum, Image, Insertion, ReindexPlan,
    ReindexStage,
};
use crate::datum_size::{slot_bytes, DatumSize};
use crate::error::Error;
use crate::growth::lemma_home_by_bytes;
use crate::index::{
    after, distance, home, leading, lemma_home_bound, lemma_passers_insert, lemma_rebuilt_entries,
    lemma_slots, lemma_some_free, passers, recorded, slots, IndexView, Slot, MAX_INDEX_BITS,
    MAX_SKIPPED,
};
use crate::key::{blake2b_digest, hash32, KeyType};
use crate::mapping::{
    accessed, lemma_shrunk, lemma_total_push, shrunk, total, total_in, without, Mapped,
};
use crate::options::Options;
use crate::safe::{SafeDatabase, SafeInsertion};
use vstd::arithmetic::power2::{lemma2_to64, lemma_pow2_pos, lemma_pow2_unfold, pow2};
use vstd::prelude::*;

verus! {

// Keys.
/// The key of data is the BLAKE2b hash of all of them, of 32 bytes and without a hash key.
pub proof fn law_key_is_hash_of_all_data(data: Seq<u8>)
    ensures
        <[u8; 32] as KeyType>::digest(data) == blake2b_digest(32, Seq::<u8>::empty(), data),
        hash32(data) == blake2b_digest(32, Seq::<u8>::empty(), data),
{
}

/// A key of 32 bytes is all of its bytes.
pub proof fn law_key_is_its_bytes(key: [u8; 32])
    ensures
        key.bytes() == key@,
        <[u8; 32] as KeyType>::spec_size() == 32,
{
}

/// Data that are inserted without a key go under the hash of all of them, which is handed back.
pub proof fn law_data_go_under_their_hash(
    before: Database<[u8; 32]>,
    now: Database<[u8; 32]>,
    data: Seq<u8>,
    r: Insertion<[u8; 32]>,
)
    requires
        before.wf(),
        now.wf(),
        before.insertion(now, data, None, r),
    ensures
        ({
            let key = blake2b_digest(32, Seq::<u8>::empty(), data);
            match r {
                Insertion::Done { refs, hash, .. } => {
                    &&& hash@ == key
                    &&& now@.contains_key(key)
                    &&& refs == now@[key].refs
                    &&& !before@.contains_key(key) ==> now@[key].data == data && refs == 1
                    &&& before@.contains_key(key) ==> now@[key].data == before@[key].data && refs
                        == before@[key].refs + 1
                },
                Insertion::Full { hash, .. } => hash@ == key,
            }
        }),
{
}

/// Data whose hashes differ are stored beside each other, each under a key of its own.
pub proof fn law_different_hashes_are_told_apart(
    before: Database<[u8; 32]>,
    between: Database<[u8; 32]>,
    now: Database<[u8; 32]>,
    x: Seq<u8>,
    y: Seq<u8>,
    of_x: Insertion<[u8; 32]>,
    of_y: Insertion<[u8; 32]>,
)
    requires
        before.wf(),
        between.wf(),
        now.wf(),
        before.insertion(between, x, None, of_x),
        between.insertion(now, y, None, of_y),
        of_x is Done,
        of_y is Done,
        blake2b_digest(32, Seq::<u8>::empty(), x) != blake2b_digest(32, Seq::<u8>::empty(), y),
        !before@.contains_key(blake2b_digest(32, Seq::<u8>::empty(), x)),
        !before@.contains_key(blake2b_digest(32, Seq::<u8>::empty(), y)),
    ensures
        of_x matches Insertion::Done { refs: n, hash: a, .. } && of_y matches Insertion::Done {
            refs: m,
            hash: b,
            ..
        } && a@ != b@ && n == 1 && m == 1 && now@[a@] == (Datum { data: x, refs: 1 }) && now@[b@]
            == (Datum { data: y, refs: 1 }),
{
    law_data_go_under_their_hash(before, between, x, of_x);
    law_data_go_under_their_hash(between, now, y, of_y);
}

/// A key that is given is used as it is, and handed back.
pub proof fn law_given_key_is_used<K: KeyType>(
    before: Database<K>,
    now: Database<K>,
    data: Seq<u8>,
    key: K,
    r: Insertion<K>,
)
    requires
        before.wf(),
        now.wf(),
        before.insertion(now, data, Some(key), r),
    ensures
        match r {
            Insertion::Done { refs, hash, .. } => {
                &&& hash == key
                &&& now@.contains_key(key.bytes())
                &&& refs == now@[key.bytes()].refs
                &&& !before@.contains_key(key.bytes()) ==> now@[key.bytes()].data == data && refs
                    == 1
                &&& before@.contains_key(key.bytes()) ==> now@[key.bytes()].data
                    == before@[key.bytes()].data && refs == before@[key.bytes()].refs + 1
            },
            Insertion::Full { hash, .. } => hash == key && now == before && !before@.contains_key(
                key.bytes(),
            ),
        },
{
}

// Removals.
/// A removal succeeds exactly where there are data. They lose a reference, which is handed back, and
/// keep their bytes for as long as one is left.
pub proof fn law_removal_takes_a_reference<K: KeyType>(
    before: Database<K>,
    now: Database<K>,
    key: Seq<u8>,
    r: Result<RefCount, ()>,
)
    requires
        before.wf(),
        now.wf(),
        before.removal(now, key, r),
    ensures
        r is Ok <==> before@.contains_key(key),
        r is Err ==> now == before,
        r matches Ok(refs) ==> {
            &&& refs + 1 == before@[key].refs
            &&& refs == 0 ==> !now@.contains_key(key)
            &&& refs > 0 ==> now@.contains_key(key) && now@[key].data == before@[key].data
                && now@[key].refs == refs
        },
{
}

// Owed insertions.
/// An insertion that is owed stores nothing and is owed once less; no other is owed more or less.
pub proof fn law_owed_insertion_is_made_up<K: KeyType>(
    before: SafeDatabase<K>,
    now: SafeDatabase<K>,
    key: Seq<u8>,
    value: Seq<u8>,
    hash: Option<K>,
    r: SafeInsertion<K>,
    other: Seq<u8>,
)
    requires
        before.wf(),
        now.wf(),
        key == insertion_key(value, hash),
        before.insertion(now, key, value, hash, r),
    ensures
        r is Settled <==> before.owed().contains_key(key),
        r is Settled ==> {
            &&& now.database() == before.database()
            &&& before.owed()[key] == 1 ==> !now.owed().contains_key(key)
            &&& before.owed()[key] > 1 ==> now.owed().contains_key(key) && now.owed()[key]
                == before.owed()[key] - 1
        },
        r matches SafeInsertion::Passed(done) ==> {
            &&& now.owed() == before.owed()
            &&& before.database().insertion(now.database(), value, hash, done)
        },
        other != key ==> {
            &&& now.owed().contains_key(other) == before.owed().contains_key(other)
            &&& now.owed().contains_key(other) ==> now.owed()[other] == before.owed()[other]
            &&& now.database()@.contains_key(other) == before.database()@.contains_key(other)
            &&& now.database()@.contains_key(other) ==> now.database()@[other]
                == before.database()@[other]
        },
{
    before.lemma_wf();
}

/// A removal where there are no data changes no data, and one insertion more is owed; where there
/// are, nothing is owed for it.
pub proof fn law_removal_of_nothing_is_owed<K: KeyType>(
    before: SafeDatabase<K>,
    now: SafeDatabase<K>,
    key: Seq<u8>,
    other: Seq<u8>,
)
    requires
        before.wf(),
        now.wf(),
        before.removal(now, key),
    ensures
        !before.database()@.contains_key(key) ==> {
            &&& now.database() == before.database()
            &&& now.owed().contains_key(key)
            &&& now.owed()[key] == (if before.owed().contains_key(key) {
                before.owed()[key]
            } else {
                0
            }) + 1
        },
        before.database()@.contains_key(key) ==> {
            &&& now.owed() == before.owed()
            &&& before.database()@[key].refs == 1 ==> !now.database()@.contains_key(key)
            &&& before.database()@[key].refs > 1 ==> now.database()@.contains_key(key)
                && now.database()@[key].refs == before.database()@[key].refs - 1
        },
        other != key ==> {
            &&& now.owed().contains_key(other) == before.owed().contains_key(other)
            &&& now.owed().contains_key(other) ==> now.owed()[other] == before.owed()[other]
            &&& now.database()@.contains_key(other) == before.database()@.contains_key(other)
            &&& now.database()@.contains_key(other) ==> now.database()@[other]
                == before.database()@[other]
        },
{
    before.lemma_wf();
}

/// Values that are put under two encoded keys whose hashes differ are stored beside each other, each
/// under the hash of all of its encoded key.
pub proof fn law_plain_keys_are_told_apart(
    before: SafeDatabase<[u8; 32]>,
    between: SafeDatabase<[u8; 32]>,
    now: SafeDatabase<[u8; 32]>,
    x: Seq<u8>,
    y: Seq<u8>,
    value_x: Seq<u8>,
    value_y: Seq<u8>,
    key_x: [u8; 32],
    key_y: [u8; 32],
    of_x: SafeInsertion<[u8; 32]>,
    of_y: SafeInsertion<[u8; 32]>,
)
    requires
        before.wf(),
        between.wf(),
        now.wf(),
        key_x@ == hash32(x),
        key_y@ == hash32(y),
        before.insertion(between, hash32(x), value_x, Some(key_x), of_x),
        between.insertion(now, hash32(y), value_y, Some(key_y), of_y),
        of_x matches SafeInsertion::Passed(Insertion::Done { .. }),
        of_y matches SafeInsertion::Passed(Insertion::Done { .. }),
        blake2b_digest(32, Seq::<u8>::empty(), x) != blake2b_digest(32, Seq::<u8>::empty(), y),
        !before.database()@.contains_key(blake2b_digest(32, Seq::<u8>::empty(), x)),
        !before.database()@.contains_key(blake2b_digest(32, Seq::<u8>::empty(), y)),
    ensures
        now.database()@[blake2b_digest(32, Seq::<u8>::empty(), x)] == (Datum {
            data: value_x,
            refs: 1,
        }),
        now.database()@[blake2b_digest(32, Seq::<u8>::empty(), y)] == (Datum {
            data: value_y,
            refs: 1,
        }),
{
}

// Mapped data.
/// Taking a datum out of the mapped data keeps all others, in their order.
pub proof fn law_without_keeps_order(list: Seq<Mapped>, address: ContentAddress)
    ensures
        without(list, address) == list.filter(|m: Mapped| m.address != address),
    decreases list.len(),
{
    reveal(Seq::filter);
    if list.len() > 0 {
        law_without_keeps_order(list.drop_last(), address);
    }
}

/// The total of some mapped data is the sum of their bytes.
pub proof fn law_total_is_sum(list: Seq<Mapped>)
    ensures
        total(list) == list.fold_left(0int, |sum: int, m: Mapped| sum + m.bytes),
    decreases list.len(),
{
    if list.len() > 0 {
        law_total_is_sum(list.drop_last());
        lemma_total_push(list.drop_last(), list.last());
        assert(list.drop_last().push(list.last()) =~= list);
    }
}

/// The total of a table is the sum of the bytes of those data that are in it.
pub proof fn law_total_in_is_sum(list: Seq<Mapped>, table: usize)
    ensures
        total_in(list, table) == list.fold_left(
            0int,
            |sum: int, m: Mapped|
                if m.address.table == table {
                    sum + m.bytes
                } else {
                    sum
                },
        ),
    decreases list.len(),
{
    if list.len() > 0 {
        law_total_in_is_sum(list.drop_last(), table);
        lemma_total_in_push(list.drop_last(), list.last(), table);
        assert(list.drop_last().push(list.last()) =~= list);
    }
}

proof fn lemma_total_in_push(list: Seq<Mapped>, m: Mapped, table: usize)
    ensures
        total_in(list.push(m), table) == total_in(list, table) + (if m.address.table == table {
            m.bytes as int
        } else {
            0
        }),
    decreases list.len(),
{
    if list.len() == 0 {
        assert(list.push(m).drop_first() =~= list);
        reveal_with_fuel(total_in, 2);
    } else {
        lemma_total_in_push(list.drop_first(), m, table);
        assert(list.push(m).drop_first() =~= list.drop_first().push(m));
    }
}

/// An access puts the datum behind all others. Where the bytes then reach the trigger, the first of
/// the list are unmapped, as few as it takes to come down to the limit; otherwise none is.
pub proof fn law_access_unmaps_the_first(list: Seq<Mapped>, m: Mapped, trigger: usize, shrink: usize)
    ensures
        ({
            let longer = list.filter(|x: Mapped| x.address != m.address).push(m);
            let now = accessed(list, m, trigger, shrink);
            &&& total(longer) < trigger ==> now == longer
            &&& total(longer) >= trigger ==> {
                &&& total(now) <= shrink
                &&& exists|n: int|
                    0 <= n <= longer.len() && now == #[trigger] longer.skip(n) && forall|k: int|
                        0 <= k < n ==> total(#[trigger] longer.skip(k)) > shrink
            }
        }),
{
    law_without_keeps_order(list, m.address);
    let longer = without(list, m.address).push(m);
    lemma_shrunk(longer, shrink);
    let n = choose|n: int|
        0 <= n <= longer.len() && shrunk(longer, shrink) == #[trigger] longer.skip(n) && (n > 0
            ==> total(longer.skip(n - 1)) > shrink);
    assert forall|k: int| 0 <= k < n implies total(#[trigger] longer.skip(k)) > shrink by {
        lemma_total_skip(longer, k, n - 1);
    }
}

proof fn lemma_total_skip(list: Seq<Mapped>, a: int, b: int)
    requires
        0 <= a <= b <= list.len(),
    ensures
        total(list.skip(a)) >= total(list.skip(b)),
    decreases b - a,
{
    if a < b {
        lemma_total_skip(list, a + 1, b);
        assert(list.skip(a).drop_first() =~= list.skip(a + 1));
    }
}

/// When an address was last accessed, counting accesses from 0; negative where it never was.
pub open spec fn last_access(accesses: Seq<Mapped>, address: ContentAddress) -> int
    decreases accesses.len(),
{
    if accesses.len() == 0 {
        -1
    } else if accesses.last().address == address {
        accesses.len() - 1
    } else {
        last_access(accesses.drop_last(), address)
    }
}

/// After any accesses the mapped data are in the order of their last access, and whatever was
/// accessed after one that is still mapped is mapped too: the least recently accessed go first.
pub proof fn law_mapped_by_last_access(
    lists: Seq<Seq<Mapped>>,
    accesses: Seq<Mapped>,
    trigger: usize,
    shrink: usize,
)
    requires
        lists.len() == accesses.len() + 1,
        lists[0] == Seq::<Mapped>::empty(),
        forall|i: int|
            0 <= i < accesses.len() ==> #[trigger] lists[i + 1] == accessed(
                lists[i],
                accesses[i],
                trigger,
                shrink,
            ),
    ensures
        ({
            let list = lists[accesses.len() as int];
            &&& forall|i: int, j: int|
                0 <= i < j < list.len() ==> last_access(accesses, (#[trigger] list[i]).address)
                    < last_access(accesses, (#[trigger] list[j]).address)
            &&& forall|i: int, b: ContentAddress|
                0 <= i < list.len() && #[trigger] last_access(accesses, b) > last_access(
                    accesses,
                    (#[trigger] list[i]).address,
                ) ==> exists|j: int| 0 <= j < list.len() && (#[trigger] list[j]).address == b
            &&& forall|i: int|
                0 <= i < list.len() ==> last_access(accesses, (#[trigger] list[i]).address) >= 0
        }),
    decreases accesses.len(),
{
    let n = accesses.len() as int;
    if n > 0 {
        let earlier = accesses.drop_last();
        let m = accesses.last();
        let old_list = lists[n - 1];
        let list = lists[n];
        assert forall|i: int| 0 <= i < earlier.len() implies #[trigger] lists.drop_last()[i + 1]
            == accessed(lists.drop_last()[i], earlier[i], trigger, shrink) by {
            assert(lists[i + 1] == accessed(lists[i], accesses[i], trigger, shrink));
        }
        law_mapped_by_last_access(lists.drop_last(), earlier, trigger, shrink);
        assert(lists.drop_last()[earlier.len() as int] == old_list);
        assert(lists[n - 1 + 1] == accessed(old_list, m, trigger, shrink));
        let kept = old_list.filter(|x: Mapped| x.address != m.address);
        let longer = kept.push(m);
        law_access_unmaps_the_first(old_list, m, trigger, shrink);
        assert(longer.skip(0) =~= longer);
        let s = choose|s: int| 0 <= s <= longer.len() && list == #[trigger] longer.skip(s);
        assert forall|x: ContentAddress| #[trigger] last_access(accesses, x) == (if x == m.address {
            n - 1
        } else {
            last_access(earlier, x)
        }) by {}
        lemma_last_access_bound(earlier);
        lemma_filter_sorted(old_list, earlier, m.address);
        assert forall|i: int, j: int| 0 <= i < j < list.len() implies last_access(
            accesses,
            (#[trigger] list[i]).address,
        ) < last_access(accesses, (#[trigger] list[j]).address) by {
            assert(list[i] == longer[i + s] && list[j] == longer[j + s]);
            assert(kept[i + s] == longer[i + s]);
            if j + s < kept.len() {
                assert(kept[j + s] == longer[j + s]);
            }
        }
        assert forall|i: int, b: ContentAddress|
            0 <= i < list.len() && #[trigger] last_access(accesses, b) > last_access(
                accesses,
                (#[trigger] list[i]).address,
            ) implies exists|j: int| 0 <= j < list.len() && (#[trigger] list[j]).address == b by {
            assert(list[i] == longer[i + s]);
            if b == m.address {
                assert(list[list.len() - 1] == longer[list.len() - 1 + s]);
            } else {
                assert(i + s < kept.len());
                assert(kept[i + s] == list[i]);
                assert(old_list.contains(kept[i + s]));
                let k = choose|k: int| 0 <= k < old_list.len() && old_list[k] == kept[i + s];
                assert(last_access(earlier, b) > last_access(earlier, old_list[k].address));
                let q = choose|q: int| 0 <= q < old_list.len() && (#[trigger] old_list[q]).address
                    == b;
                assert(kept.contains(old_list[q]));
                let t = choose|t: int| 0 <= t < kept.len() && kept[t] == old_list[q];
                assert(t > i + s) by {
                    if t < i + s {
                        assert(last_access(earlier, kept[t].address) < last_access(
                            earlier,
                            kept[i + s].address,
                        ));
                    }
                }
                assert(list[t - s] == longer[t]);
            }
        }
        assert forall|i: int| 0 <= i < list.len() implies last_access(
            accesses,
            (#[trigger] list[i]).address,
        ) >= 0 by {
            assert(list[i] == longer[i + s]);
            if i + s < kept.len() {
                assert(kept[i + s] == list[i]);
                assert(old_list.contains(kept[i + s]));
                let k = choose|k: int| 0 <= k < old_list.len() && old_list[k] == kept[i + s];
                assert(last_access(earlier, old_list[k].address) >= 0);
            }
        }
    }
}

proof fn lemma_last_access_bound(accesses: Seq<Mapped>)
    ensures
        forall|a: ContentAddress| -1 <= #[trigger] last_access(accesses, a) < accesses.len(),
    decreases accesses.len(),
{
    if accesses.len() > 0 {
        lemma_last_access_bound(accesses.drop_last());
        assert forall|a: ContentAddress| -1 <= #[trigger] last_access(accesses, a)
            < accesses.len() by {
            assert(last_access(accesses.drop_last(), a) < accesses.len());
        }
    }
}

proof fn lemma_filter_sorted(list: Seq<Mapped>, accesses: Seq<Mapped>, address: ContentAddress)
    requires
        forall|i: int, j: int|
            0 <= i < j < list.len() ==> last_access(accesses, (#[trigger] list[i]).address)
                < last_access(accesses, (#[trigger] list[j]).address),
    ensures
        ({
            let kept = list.filter(|x: Mapped| x.address != address);
            &&& forall|i: int, j: int|
                0 <= i < j < kept.len() ==> last_access(accesses, (#[trigger] kept[i]).address)
                    < last_access(accesses, (#[trigger] kept[j]).address)
            &&& forall|i: int| 0 <= i < kept.len() ==> list.contains(#[trigger] kept[i])
            &&& forall|i: int|
                0 <= i < list.len() && (#[trigger] list[i]).address != address ==> kept.contains(
                    list[i],
                )
        }),
    decreases list.len(),
{
    reveal(Seq::filter);
    let f = |x: Mapped| x.address != address;
    let kept = list.filter(f);
    if list.len() > 0 {
        let rest = list.drop_last();
        let fewer = rest.filter(f);
        lemma_filter_sorted(rest, accesses, address);
        assert forall|i: int| 0 <= i < kept.len() implies list.contains(#[trigger] kept[i]) by {
            if i < fewer.len() {
                assert(rest.contains(fewer[i]));
                let k = choose|k: int| 0 <= k < rest.len() && rest[k] == fewer[i];
                assert(list[k] == kept[i]);
            } else {
                assert(list[list.len() - 1] == kept[i]);
            }
        }
        assert forall|i: int, j: int| 0 <= i < j < kept.len() implies last_access(
            accesses,
            (#[trigger] kept[i]).address,
        ) < last_access(accesses, (#[trigger] kept[j]).address) by {
            assert(fewer[i] == kept[i]);
            if j < fewer.len() {
                assert(fewer[j] == kept[j]);
            } else {
                assert(rest.contains(fewer[i]));
                let k = choose|k: int| 0 <= k < rest.len() && rest[k] == fewer[i];
                assert(list[k] == kept[i] && list[list.len() - 1] == kept[j]);
            }
        }
        assert forall|i: int|
            0 <= i < list.len() && (#[trigger] list[i]).address != address implies kept.contains(
            list[i],
        ) by {
            if i < rest.len() {
                assert(rest[i] == list[i]);
                assert(fewer.contains(rest[i]));
                let k = choose|k: int| 0 <= k < fewer.len() && fewer[k] == rest[i];
                assert(kept[k] == list[i]);
            } else {
                assert(kept[fewer.len() as int] == list[i]);
            }
        }
    }
}

/// The address of the data under a key is where they are stored.
pub proof fn law_address_is_where_data_are<K: KeyType>(database: Database<K>, key: Seq<u8>)
    requires
        database.wf(),
        database@.contains_key(key),
    ensures
        ({
            let items = database.content().items();
            let a = database.address_of(key);
            &&& items.contains_key(a)
            &&& items[a].key == key
            &&& items[a].data == database@[key].data
            &&& items[a].refs == database@[key].refs
        }),
{
    database.lemma_wf();
}

/// The data of a database are those that the occupied slots of its index lead to: no more, no fewer,
/// and with their bytes and counts as they are stored.
pub proof fn law_data_are_what_slots_lead_to<K: KeyType>(database: Database<K>, p: u64)
    requires
        database.wf(),
        database.index().entries.contains_key(p),
    ensures
        ({
            let a = database.index().entries[p].address;
            let t = a.table as int;
            let e = a.entry as int;
            &&& t < database.content().tables().len()
            &&& e < database.content().tables()[t].items@.len()
            &&& database.content().tables()[t].items@[e] matches Some(item)
            &&& database@.contains_key(item.key@)
            &&& database@[item.key@].data == item.data@
            &&& database@[item.key@].refs == item.refs
            &&& database.address_of(item.key@) == a
        }),
{
    database.lemma_wf();
    let items = database.content().items();
    let a = database.index().entries[p].address;
    let key = items[a].key;
    assert(slot_ok(database.index(), items, K::spec_size(), p));
    assert(leads_to(database.index().entries, items, p, key));
}

/// Only data beyond the largest size class are mapped one by one, each at its address and length.
pub proof fn law_mapped_data_are_stored<K: KeyType>(database: Database<K>, i: int)
    requires
        database.wf(),
        0 <= i < database.mapped().len(),
    ensures
        ({
            let m = database.mapped()[i];
            &&& database.content().items().contains_key(m.address)
            &&& database.content().items()[m.address].data.len() == m.bytes
            &&& m.bytes > 32768
        }),
{
    database.lemma_wf();
    database.content().lemma_wf();
    crate::datum_size::lemma_slot_bytes();
}

/// Reading data beyond the largest size class is an access to them; other reading maps nothing. It
/// changes nothing else.
pub proof fn law_reading_is_an_access<K: KeyType>(
    before: Database<K>,
    now: Database<K>,
    key: Seq<u8>,
)
    requires
        before.wf(),
        now.wf(),
        before.reading(now, key),
    ensures
        now@ == before@,
        now.options() == before.options(),
        now.attached() == before.attached(),
        now.index() == before.index(),
        now.content().tables() == before.content().tables(),
        now.mapped() == (if before@.contains_key(key) && before@[key].data.len() > 32768 {
            accessed(
                before.mapped(),
                Mapped {
                    address: before.address_of(key),
                    bytes: before@[key].data.len() as usize,
                },
                before.options().oversize_trigger_mapped,
                before.options().oversize_shrink_mapped,
            )
        } else {
            before.mapped()
        }),
{
    crate::datum_size::lemma_slot_bytes();
}

/// Storing data beyond the largest size class is an access to them; other insertions map nothing.
pub proof fn law_storing_is_an_access<K: KeyType>(
    before: Database<K>,
    now: Database<K>,
    data: Seq<u8>,
    key: K,
    r: Insertion<K>,
)
    requires
        before.wf(),
        now.wf(),
        before.insertion(now, data, Some(key), r),
    ensures
        now.mapped() == (if r is Done && !before@.contains_key(key.bytes()) && data.len() > 32768 {
            accessed(
                before.mapped(),
                Mapped { address: now.address_of(key.bytes()), bytes: data.len() as usize },
                before.options().oversize_trigger_mapped,
                before.options().oversize_shrink_mapped,
            )
        } else {
            before.mapped()
        }),
{
    crate::datum_size::lemma_slot_bytes();
}

/// Data that go with their last reference are no longer mapped; all others stay as they were.
pub proof fn law_removal_unmaps<K: KeyType>(
    before: Database<K>,
    now: Database<K>,
    key: Seq<u8>,
    r: Result<RefCount, ()>,
)
    requires
        before.wf(),
        now.wf(),
        before.removal(now, key, r),
    ensures
        now.mapped() == (if before@.contains_key(key) && before@[key].refs == 1 {
            before.mapped().filter(|m: Mapped| m.address != before.address_of(key))
        } else {
            before.mapped()
        }),
{
    law_without_keeps_order(before.mapped(), before.address_of(key));
}

// Reports.
/// The bytes mapped are the sum of what is reported of each table.
pub proof fn law_bytes_mapped_is_sum(info: Seq<TableInfo>)
    ensures
        sum_mapped(info, info.len()) == info.fold_left(0int, |sum: int, x: TableInfo| sum + x.1.3),
{
    lemma_sum_mapped_of_some(info, info.len() as int);
    assert(info.take(info.len() as int) =~= info);
}

proof fn lemma_sum_mapped_of_some(info: Seq<TableInfo>, n: int)
    requires
        0 <= n <= info.len(),
    ensures
        sum_mapped(info, n as nat) == info.take(n).fold_left(
            0int,
            |sum: int, x: TableInfo| sum + x.1.3,
        ),
    decreases n,
{
    if n > 0 {
        lemma_sum_mapped_of_some(info, n - 1);
        assert(info.take(n).drop_last() =~= info.take(n - 1));
    }
}

/// The items in use are the entries that hold one.
pub proof fn law_used_entries_hold_items(table: Table)
    ensures
        table.used(table.items@.len() as int) == table.items@.filter(
            |x: Option<Item>| x is Some,
        ).len(),
{
    lemma_used_of_some(table, table.items@.len() as int);
    assert(table.items@.take(table.items@.len() as int) =~= table.items@);
}

proof fn lemma_used_of_some(table: Table, n: int)
    requires
        0 <= n <= table.items@.len(),
    ensures
        table.used(n) == table.items@.take(n).filter(|x: Option<Item>| x is Some).len(),
    decreases n,
{
    reveal(Seq::filter);
    if n > 0 {
        lemma_used_of_some(table, n - 1);
        assert(table.items@.take(n).drop_last() =~= table.items@.take(n - 1));
    }
}

/// What is reported of each table, in the order of the tables: its class and number, the entries
/// that hold an item, the items it is backed for, the bytes of a slot, and the bytes mapped, which
/// are all that is backed of a sized table and the mapped data of an oversize one.
pub proof fn law_info_is_of_each_table<K: KeyType>(database: Database<K>, t: int)
    requires
        database.wf(),
        0 <= t < database.content().tables().len(),
    ensures
        ({
            let table = database.content().tables()[t];
            let info = database.spec_info();
            &&& info.len() == database.content().tables().len()
            &&& info[t].0.0 == table.datum_size
            &&& info[t].0.1 == t
            &&& info[t].1.0 == table.items@.filter(|x: Option<Item>| x is Some).len()
            &&& info[t].1.1 == table.backed
            &&& table.datum_size matches DatumSize::Size(class) ==> {
                &&& class <= 10
                &&& info[t].1.2 == 32 * pow2(class as nat)
                &&& info[t].1.3 == table.backed * info[t].1.2
            }
            &&& table.datum_size is Oversize ==> {
                &&& info[t].1.2 == 0
                &&& info[t].1.3 == database.mapped().fold_left(
                    0int,
                    |sum: int, m: Mapped|
                        if m.address.table == t {
                            sum + m.bytes
                        } else {
                            sum
                        },
                )
            }
        }),
{
    database.lemma_wf();
    database.content().lemma_wf();
    let table = database.content().tables()[t];
    assert(table.wf());
    law_used_entries_hold_items(table);
    crate::laws::law_info_reports_tables(database, t);
    if let DatumSize::Size(class) = table.datum_size {
        lemma_slot_bytes_pow(class as nat);
    }
    lemma_total_in_at(database.mapped(), t);
}

proof fn lemma_total_in_at(list: Seq<Mapped>, t: int)
    requires
        0 <= t <= usize::MAX,
    ensures
        total_in(list, t as usize) == list.fold_left(
            0int,
            |sum: int, m: Mapped|
                if m.address.table == t {
                    sum + m.bytes
                } else {
                    sum
                },
        ),
    decreases list.len(),
{
    if list.len() > 0 {
        lemma_total_in_at(list.drop_last(), t);
        lemma_total_in_push(list.drop_last(), list.last(), t as usize);
        assert(list.drop_last().push(list.last()) =~= list);
    }
}

// Size classes.
proof fn lemma_slot_bytes_pow(class: nat)
    ensures
        slot_bytes(class) == 32 * pow2(class),
    decreases class,
{
    lemma2_to64();
    if class > 0 {
        lemma_slot_bytes_pow((class - 1) as nat);
        lemma_pow2_unfold(class);
    }
}

/// The slots of a size class are twice as long as those of the one before, from 32 bytes on. Data
/// belong to the first class whose slots they fit into, and where there is none, to no sized table.
pub proof fn law_size_classes(class: u8, len: nat)
    ensures
        DatumSize::Size(class).spec_size() == 32 * pow2(class as nat),
        DatumSize::Size(class).suits(len) <==> class <= 10 && len <= 32 * pow2(class as nat) && (
        class > 0 ==> len > 32 * pow2((class - 1) as nat)),
        DatumSize::Oversize.suits(len) <==> len > 32768,
        DatumSize::Oversize.spec_size() == 0,
{
    lemma_slot_bytes_pow(class as nat);
    if class > 0 {
        lemma_slot_bytes_pow((class - 1) as nat);
    }
    crate::datum_size::lemma_slot_bytes();
}

/// Every length belongs to one class, and to no other.
pub proof fn law_one_class_for_each_length(a: DatumSize, b: DatumSize, len: nat)
    requires
        a.suits(len),
        b.suits(len),
    ensures
        a == b,
{
    crate::datum_size::lemma_class_unique(a, b, len);
}

// Backing.
/// Every table is backed for at least as many items as was asked for, as far as a table can hold
/// them, and for those that it holds.
pub proof fn law_least_backing<K: KeyType>(database: Database<K>, t: int)
    requires
        database.wf(),
        0 <= t < database.content().tables().len(),
    ensures
        ({
            let table = database.content().tables()[t];
            &&& 1 <= table.backed <= 65536
            &&& database.options().min_items_backed <= 65536 ==> table.backed
                >= database.options().min_items_backed
            &&& database.options().min_items_backed > 65536 ==> table.backed == 65536
            &&& table.items@.len() <= table.backed
        }),
{
    database.lemma_wf();
    database.content().lemma_wf();
    assert(database.content().tables()[t].wf());
}

/// A table holds data of its size class alone, and each of them at least once.
pub proof fn law_tables_hold_their_class<K: KeyType>(database: Database<K>, t: int, e: int)
    requires
        database.wf(),
        0 <= t < database.content().tables().len(),
        0 <= e < database.content().tables()[t].items@.len(),
    ensures
        database.content().tables()[t].items@[e] matches Some(item) ==> {
            &&& item.refs >= 1
            &&& database.content().tables()[t].datum_size.suits(item.data@.len())
        },
{
    database.lemma_wf();
    database.content().lemma_wf();
    let table = database.content().tables()[t];
    assert(table.wf() && table.item_ok(e));
}

/// A removal leaves the tables, their classes, their entries and their backing alone; and so does an
/// insertion under a known key.
pub proof fn law_layout_is_kept<K: KeyType>(
    before: Database<K>,
    after_removal: Database<K>,
    after_insertion: Database<K>,
    key: K,
    removed: Result<RefCount, ()>,
    data: Seq<u8>,
    inserted: Insertion<K>,
    t: int,
)
    requires
        before.wf(),
        after_removal.wf(),
        after_insertion.wf(),
        before.removal(after_removal, key.bytes(), removed),
        before.insertion(after_insertion, data, Some(key), inserted),
        before@.contains_key(key.bytes()),
    ensures
        ({
            let was = before.content().tables();
            let a = after_removal.content().tables();
            let b = after_insertion.content().tables();
            &&& a.len() == was.len()
            &&& b.len() == was.len()
            &&& 0 <= t < was.len() ==> {
                &&& a[t].datum_size == was[t].datum_size
                &&& a[t].backed == was[t].backed
                &&& a[t].items@.len() == was[t].items@.len()
                &&& b[t].datum_size == was[t].datum_size
                &&& b[t].backed == was[t].backed
                &&& b[t].items@.len() == was[t].items@.len()
            }
        }),
{
}

/// An insertion leaves the backing of a table alone, but where it needs an entry more than that:
/// then the table is backed for twice as many items, as far as a table can hold them. A new table is
/// backed for as many as was asked for, but for one at least; it comes only where every table of its
/// class is full.
pub proof fn law_insertion_backs_more<K: KeyType>(
    before: Database<K>,
    now: Database<K>,
    data: Seq<u8>,
    hash: Option<K>,
    r: Insertion<K>,
    t: int,
)
    requires
        before.wf(),
        now.wf(),
        before.insertion(now, data, hash, r),
        0 <= t < now.content().tables().len(),
    ensures
        ({
            let was = before.content().tables();
            let is = now.content().tables();
            let asked = before.options().min_items_backed;
            &&& was.len() <= is.len() <= was.len() + 1
            &&& t < was.len() ==> {
                &&& is[t].datum_size == was[t].datum_size
                &&& is[t].items@.len() <= was[t].backed ==> is[t].backed == was[t].backed
                &&& is[t].items@.len() > was[t].backed ==> {
                    &&& is[t].items@.len() == was[t].backed + 1
                    &&& was[t].backed <= 32768 ==> is[t].backed == 2 * was[t].backed
                    &&& was[t].backed > 32768 ==> is[t].backed == 65536
                }
            }
            &&& t == was.len() ==> {
                &&& is[t].items@.len() == 1
                &&& is[t].backed == (if asked == 0 {
                    1
                } else if asked <= 65536 {
                    asked
                } else {
                    65536
                })
                &&& forall|i: int|
                    0 <= i < was.len() && (#[trigger] was[i]).datum_size == is[t].datum_size ==> {
                        &&& was[i].items@.len() == 65536
                        &&& forall|e: int| 0 <= e < 65536 ==> (#[trigger] was[i].items@[e]) is Some
                    }
            }
        }),
{
    before.lemma_wf();
    now.lemma_wf();
    before.content().lemma_wf();
    let was = before.content().tables();
    let is = now.content().tables();
    if t < was.len() {
        assert(was[t].wf());
    } else {
        assert forall|i: int|
            0 <= i < was.len() && (#[trigger] was[i]).datum_size == is[t].datum_size implies {
            &&& was[i].items@.len() == 65536
            &&& forall|e: int| 0 <= e < 65536 ==> (#[trigger] was[i].items@[e]) is Some
        } by {
            assert(was[i].wf());
            assert(was[i].is_full());
            assert forall|e: int| 0 <= e < 65536 implies (#[trigger] was[i].items@[e]) is Some by {
                assert(!was[i].vacant(e as usize));
            }
        }
    }
}

// The index.
/// The home of a key is given by its leading bits: with one bit more there are two slots for each,
/// and the bit tells which. A key that is too short has zeros behind it.
pub proof fn law_home_is_leading_bits(key: Seq<u8>, bits: usize)
    requires
        bits < 63,
    ensures
        home(key, 0) == 0,
        home(key, (bits + 1) as usize) == 2 * home(key, bits) + (if bits / 8 < key.len() {
            (key[bits as int / 8] as int / pow2((7 - bits % 8) as nat) as int) % 2
        } else {
            0
        }),
{
    lemma_home_bound(key, 0);
    lemma2_to64();
    let j = (bits / 8 + 1) as nat;
    lemma_home_by_bytes(key, bits, j);
    lemma_home_by_bytes(key, (bits + 1) as usize, j);
    let before = leading(key, (j - 1) as nat);
    let byte: int = if j <= key.len() {
        key[j - 1] as int
    } else {
        0
    };
    let x = leading(key, j);
    assert(x == before * 256 + byte);
    let m = 7 - bits % 8;
    assert(8 * j - (bits + 1) == m);
    assert(8 * j - bits == m + 1);
    crate::growth::lemma_leading_bytes(key, (j - 1) as nat, (j - 1) as nat);
    lemma_bit(before, byte, m as nat);
}

proof fn lemma_bit(before: int, byte: int, m: nat)
    requires
        0 <= before,
        0 <= byte < 256,
        m <= 7,
    ensures
        ({
            let x = before * 256 + byte;
            x / pow2(m) as int == 2 * (x / pow2(m + 1) as int) + (byte / pow2(m) as int) % 2
        }),
{
    let x = before * 256 + byte;
    let p = pow2(m) as int;
    let half = (7 - m) as nat;
    let j = before * pow2(half);
    lemma_pow2_pos(m);
    lemma_pow2_unfold(m + 1);
    vstd::arithmetic::div_mod::lemma_div_denominator(x, p, 2);
    assert(p * 2 == pow2(m + 1)) by (nonlinear_arith)
        requires
            pow2(m + 1) == 2 * p,
    ;
    lemma2_to64();
    vstd::arithmetic::power2::lemma_pow2_adds(m, half);
    assert(m + half == 7);
    assert(p * pow2(half) == 128);
    assert((2 * j) * p == before * 256) by (nonlinear_arith)
        requires
            j == before * pow2(half),
            p * pow2(half) == 128,
    ;
    vstd::arithmetic::div_mod::lemma_hoist_over_denominator(byte, 2 * j, pow2(m));
    assert(x / p == byte / p + 2 * j);
}

/// Slots are counted forward, and round from the last to the first.
pub proof fn law_slots_go_round(from: int, to: int, d: int, size: int)
    requires
        0 <= from < size,
        0 <= to < size,
        0 <= d < size,
    ensures
        distance(from, to, size) == (to - from) % size,
        after(from, d, size) == (from + d) % size,
{
    lemma_round(to - from, size);
    lemma_round(from + d, size);
}

proof fn lemma_round(x: int, size: int)
    requires
        0 < size,
        -size < x < 2 * size,
    ensures
        x % size == (if x < 0 {
            x + size
        } else if x < size {
            x
        } else {
            x - size
        }),
{
    if x < 0 {
        vstd::arithmetic::div_mod::lemma_mod_add_multiples_vanish(x, size);
        vstd::arithmetic::div_mod::lemma_small_mod((x + size) as nat, size as nat);
    } else if x < size {
        vstd::arithmetic::div_mod::lemma_small_mod(x as nat, size as nat);
    } else {
        vstd::arithmetic::div_mod::lemma_mod_add_multiples_vanish(x - size, size);
        vstd::arithmetic::div_mod::lemma_small_mod((x - size) as nat, size as nat);
    }
}

/// What an entry keeps of a key is its beginning: as many bytes as the index is to keep, and at
/// least those that its bits are taken from, or all where the key is no longer.
pub proof fn law_beginning_is_kept(index: IndexView, key: Seq<u8>)
    ensures
        ({
            let kept = index.kept(key);
            &&& kept.len() <= key.len()
            &&& kept == key.take(kept.len() as int)
            &&& kept.len() < key.len() ==> {
                &&& kept.len() >= index.key_bytes
                &&& 8 * kept.len() >= index.index_bits
                &&& kept.len() == index.key_bytes || 8 * (kept.len() - 1) < index.index_bits
            }
        }),
{
    assert(key.take(key.len() as int) =~= key);
}

/// An entry was placed beyond a slot where, going from its home, that slot comes before its own.
pub proof fn law_beyond_means_passed(index: IndexView, s: int, p: u64)
    requires
        index.index_bits <= MAX_INDEX_BITS,
        0 <= s < index.size(),
        p < index.size(),
    ensures
        passers(index.entries, s, index.index_bits).contains(p) <==> {
            let h = home(index.entries[p].key, index.index_bits);
            &&& index.entries.contains_key(p)
            &&& (s - h) % index.size() < (p - h) % index.size()
        },
        index.skipped(s) == passers(index.entries, s, index.index_bits).len(),
{
    let h = home(index.entries[p].key, index.index_bits);
    lemma_home_bound(index.entries[p].key, index.index_bits);
    law_slots_go_round(h, s, 0, index.size());
    law_slots_go_round(h, p as int, 0, index.size());
}

/// An index with a free slot has room for every key, unless a slot has counted as many entries beyond
/// it as it can; one without has room for none.
pub proof fn law_room_in_the_index(index: IndexView, key: Seq<u8>, free: u64)
    requires
        index.index_bits <= MAX_INDEX_BITS,
        forall|p: u64| #[trigger] index.entries.contains_key(p) ==> p < index.size(),
        index.entries.dom().finite(),
    ensures
        free < index.size() && !index.entries.contains_key(free) && (forall|s: int|
            0 <= s < index.size() ==> #[trigger] index.skipped(s) < 255) ==> index.has_room(key),
        (forall|s: u64| s < index.size() ==> #[trigger] index.entries.contains_key(s))
            ==> !index.has_room(key),
{
    let h = index.home_of(key);
    let size = index.size();
    lemma_slots(index.index_bits);
    lemma_home_bound(index.kept(key), index.index_bits);
    if free < size && !index.entries.contains_key(free) && (forall|s: int|
        0 <= s < size ==> #[trigger] index.skipped(s) < 255) {
        crate::growth::lemma_free_slot_counts(index.entries.dom(), size, free);
        lemma_some_free(index, key, 0);
        let d = choose|d: int| index.first_free(key, d);
        assert(index.free_at(key, d));
    }
    if forall|s: u64| s < size ==> #[trigger] index.entries.contains_key(s) {
        if index.has_room(key) {
            let d = choose|d: int| index.free_at(key, d);
            assert(index.entries.contains_key(after(h, d, size) as u64));
        }
    }
}

/// An insertion of new data takes one slot that was free, the first at or after the home of the key,
/// and no other slot changes.
pub proof fn law_insertion_takes_the_first_free_slot<K: KeyType>(
    before: Database<K>,
    now: Database<K>,
    data: Seq<u8>,
    key: K,
    r: Insertion<K>,
)
    requires
        before.wf(),
        now.wf(),
        before.insertion(now, data, Some(key), r),
        r is Done,
        !before@.contains_key(key.bytes()),
    ensures
        exists|q: u64|
            {
                let n = before.index().size();
                let h = home(key.bytes(), before.index().index_bits);
                &&& q < n
                &&& !(#[trigger] before.index().entries.contains_key(q))
                &&& now.index().entries == before.index().entries.insert(
                    q,
                    Slot {
                        key: before.index().kept(key.bytes()),
                        address: now.address_of(key.bytes()),
                    },
                )
                &&& forall|s: u64|
                    s < n && (s - h) % n < (q - h) % n
                        ==> #[trigger] before.index().entries.contains_key(s)
            },
{
    let k = key.bytes();
    let index = before.index();
    let n = index.size();
    before.lemma_wf();
    lemma_slots(index.index_bits);
    lemma_home_bound(index.kept(k), index.index_bits);
    crate::growth::lemma_home_kept(k, index.key_bytes, index.index_bits);
    let h = index.home_of(k);
    let d = index.next_distance(k);
    assert(index.free_at(k, d));
    let q = after(h, d, n) as u64;
    law_slots_go_round(h, q as int, 0, n);
    assert forall|s: u64| s < n && (s - h) % n < (q - h) % n implies #[trigger] index.entries.contains_key(
        s,
    ) by {
        law_slots_go_round(h, s as int, 0, n);
        let c = distance(h, s as int, n);
        assert(after(h, c, n) == s);
    }
    assert(!index.entries.contains_key(q));
}

/// The mark is raised above `x` exactly where one more entry beyond a slot makes its count so.
proof fn lemma_raised_mark(index: IndexView, h: int, n: nat, x: int)
    requires
        index.skipped_mark <= x,
    ensures
        index.raised_mark(h, n) > x <==> exists|c: int|
            0 <= c < n && #[trigger] index.skipped(after(h, c, index.size())) + 1 > x,
        index.raised_mark(h, n) >= index.skipped_mark,
        (forall|c: int|
            0 <= c < n ==> #[trigger] index.skipped(after(h, c, index.size())) < MAX_SKIPPED)
            ==> index.raised_mark(h, n) <= MAX_SKIPPED,
    decreases n,
{
    if n > 0 {
        lemma_raised_mark(index, h, (n - 1) as nat, x);
        let last = index.skipped(after(h, n - 1, index.size()));
        if last + 1 > x {
            assert(index.raised_mark(h, n) >= last + 1);
        }
        if exists|c: int| 0 <= c < n - 1 && #[trigger] index.skipped(after(h, c, index.size())) + 1
            > x {
            let c = choose|c: int|
                0 <= c < n - 1 && #[trigger] index.skipped(after(h, c, index.size())) + 1 > x;
            assert(0 <= c < n);
        }
    }
}

/// An insertion of new data asks for a larger index exactly where the entry was placed as far from
/// its home as the one trigger says, or where a slot that it passed over has now more entries placed
/// beyond it than the other says. The index asked for has one bit more.
pub proof fn law_growth_is_asked_for<K: KeyType>(
    before: Database<K>,
    now: Database<K>,
    data: Seq<u8>,
    key: K,
    r: Insertion<K>,
    q: u64,
)
    requires
        before.wf(),
        now.wf(),
        before.insertion(now, data, Some(key), r),
        !before.index().entries.contains_key(q),
        now.index().entries.contains_key(q),
    ensures
        ({
            let n = before.index().size();
            let h = home(key.bytes(), before.index().index_bits);
            let far = (q - h) % n >= before.options().key_correction_trigger;
            let often = exists|s: int|
                0 <= s < n && (s - h) % n < (q - h) % n && #[trigger] now.index().skipped(s)
                    > before.options().skipped_count_trigger;
            r matches Insertion::Done { grow, .. } && grow == (if far || often {
                Some((before.index().key_bytes, (before.index().index_bits + 1) as usize))
            } else {
                None
            })
        }),
{
    let k = key.bytes();
    let index = before.index();
    let n = index.size();
    before.lemma_wf();
    lemma_slots(index.index_bits);
    lemma_home_bound(index.kept(k), index.index_bits);
    crate::growth::lemma_home_kept(k, index.key_bytes, index.index_bits);
    let h = index.home_of(k);
    let d = index.next_distance(k);
    assert(index.free_at(k, d));
    assert(q == after(h, d, n) as u64);
    law_slots_go_round(h, q as int, 0, n);
    assert(distance(h, q as int, n) == d);
    let e = Slot { key: index.kept(k), address: now.address_of(k) };
    let limit = before.options().skipped_count_trigger as int;
    lemma_raised_mark(index, h, d as nat, limit);
    assert forall|c: int| 0 <= c < d implies now.index().skipped(#[trigger] after(h, c, n))
        == index.skipped(after(h, c, n)) + 1 by {
        lemma_passers_insert(index.entries, q, e, after(h, c, n), index.index_bits);
    }
    let often = exists|s: int|
        0 <= s < n && (s - h) % n < (q - h) % n && #[trigger] now.index().skipped(s) > limit;
    if often {
        let s = choose|s: int|
            0 <= s < n && (s - h) % n < (q - h) % n && #[trigger] now.index().skipped(s) > limit;
        law_slots_go_round(h, s, 0, n);
        let c = distance(h, s, n);
        assert(after(h, c, n) == s);
        assert(index.skipped(after(h, c, n)) + 1 > limit);
    }
    if index.raised_mark(h, d as nat) > limit {
        let c = choose|c: int| 0 <= c < d && #[trigger] index.skipped(after(h, c, n)) + 1 > limit;
        let s = after(h, c, n);
        law_slots_go_round(h, s, 0, n);
        assert(distance(h, s, n) == c);
        assert(now.index().skipped(s) > limit);
    }
}

/// An insertion under a known key places no entry, so that it asks for a larger index only where that
/// is asked for at any distance; nor does it change the index.
pub proof fn law_known_key_places_no_entry<K: KeyType>(
    before: Database<K>,
    now: Database<K>,
    data: Seq<u8>,
    key: K,
    r: Insertion<K>,
)
    requires
        before.wf(),
        now.wf(),
        before.insertion(now, data, Some(key), r),
        before@.contains_key(key.bytes()),
    ensures
        now.index() == before.index(),
        r matches Insertion::Done { grow, .. } && grow == (if before.options().key_correction_trigger
            == 0 {
            Some((before.index().key_bytes, (before.index().index_bits + 1) as usize))
        } else {
            None
        }),
{
    before.lemma_wf();
}

/// An insertion is refused only where the data are new and the index has no free slot, or has a slot
/// that can count no more; nothing changes then, and the index asked for has one bit more.
pub proof fn law_full_means_no_room<K: KeyType>(
    before: Database<K>,
    now: Database<K>,
    data: Seq<u8>,
    key: K,
    r: Insertion<K>,
    free: u64,
)
    requires
        before.wf(),
        now.wf(),
        before.insertion(now, data, Some(key), r),
        r is Full,
    ensures
        now == before,
        !before@.contains_key(key.bytes()),
        r matches Insertion::Full { key_bytes, index_bits, .. } && key_bytes
            == before.index().key_bytes && index_bits == before.index().index_bits + 1,
        free < before.index().size() ==> before.index().entries.contains_key(free) || exists|s: int|
            0 <= s < before.index().size() && #[trigger] before.index().skipped(s) >= 255,
{
    before.lemma_wf();
    law_room_in_the_index(before.index(), key.bytes(), free);
}

// Rebuilds.
/// A rebuild for which a file operation failed hands the failure back. Where the new file could not
/// be written nothing has changed; otherwise the index is lost, and with it all that can be read,
/// while what is stored stays.
pub proof fn law_failed_rebuild<K: KeyType>(
    before: Database<K>,
    now: Database<K>,
    key_bytes: usize,
    index_bits: usize,
    stage: ReindexStage,
    e: Error,
    r: Result<(), Error>,
)
    requires
        before.wf(),
        now.wf(),
        before.reindexing(now, key_bytes, index_bits, Some((stage, e)), r),
        before.index().index_bits <= index_bits <= 63,
    ensures
        r == Err::<(), Error>(e),
        stage is CreateNew ==> now == before,
        !(stage is CreateNew) ==> {
            &&& now@ == Map::<Seq<u8>, Datum>::empty()
            &&& !now.attached()
            &&& now.content() == before.content()
            &&& now.options() == before.options()
        },
{
    before.lemma_wf();
    crate::growth::lemma_more_slots_suffice(
        before.index(),
        before.content().items(),
        key_bytes,
        index_bits,
    );
}

/// A rebuild with more bits than an index can have, or with fewer slots than there are entries, is
/// refused, and nothing changes.
pub proof fn law_refused_rebuild<K: KeyType>(
    before: Database<K>,
    now: Database<K>,
    key_bytes: usize,
    index_bits: usize,
    failure: Option<(ReindexStage, Error)>,
    r: Result<(), Error>,
)
    requires
        before.wf(),
        now.wf(),
        before.reindexing(now, key_bytes, index_bits, failure, r),
    ensures
        index_bits > 63 ==> r == Err::<(), Error>(Error::UnsupportedSize) && now == before,
        index_bits <= 63 && before.index().entries.dom().len() > slots(index_bits) ==> r == Err::<
            (),
            Error,
        >(Error::IndexFull) && now == before,
        r is Ok ==> failure is None && now.attached() && now.content() == before.content()
            && now.options() == before.options(),
{
    before.lemma_wf();
    if index_bits <= 63 {
        crate::growth::lemma_rebuilt_len(
            before.index(),
            before.content().items(),
            key_bytes,
            index_bits,
        );
    }
}

/// What is planned for a rebuild is what it does: it can be planned exactly where it succeeds, and is
/// refused alike; the sizes planned are those asked for, and the records those of the new index.
pub proof fn law_plan_is_carried_out<K: KeyType>(
    before: Database<K>,
    now: Database<K>,
    key_bytes: usize,
    index_bits: usize,
    plan: Result<ReindexPlan, Error>,
    r: Result<(), Error>,
)
    requires
        before.wf(),
        now.wf(),
        before.planning(key_bytes, index_bits, plan),
        before.reindexing(now, key_bytes, index_bits, None, r),
    ensures
        plan is Ok <==> r is Ok,
        plan matches Err(e) ==> r == Err::<(), Error>(e),
        plan matches Ok(p) ==> {
            &&& p.metadata.key_bytes == key_bytes
            &&& p.metadata.index_bits == index_bits
            &&& now.index().key_bytes == key_bytes
            &&& now.index().index_bits == index_bits
            &&& recorded(p.index@) == now.index().entries
        },
{
    if index_bits <= 63 && r is Ok {
        lemma_rebuilt_entries(before.index(), before.content().items(), key_bytes, index_bits);
    }
}

// Opening.
/// A database is opened with the options given and the sizes found, holding what is described;
/// nothing oversize is mapped, and tables keep their items and are backed for no fewer than before.
pub proof fn law_opened_as_described<K: KeyType>(
    options: Options,
    image: Image,
    now: Database<K>,
    t: int,
)
    requires
        now.wf(),
        now.opened_from(options, image),
    ensures
        now@ == image.data(),
        now.options() == options,
        now.attached(),
        now.index().key_bytes == image.metadata.key_bytes,
        now.index().index_bits == image.metadata.index_bits,
        now.index().entries == recorded(image.index@),
        now.mapped() == Seq::<Mapped>::empty(),
        now.content().tables().len() == image.tables@.len(),
        0 <= t < image.tables@.len() ==> {
            let table = now.content().tables()[t];
            &&& table.datum_size == image.tables@[t].datum_size
            &&& table.items == image.tables@[t].items
            &&& table.backed >= image.tables@[t].backed
            &&& options.min_items_backed <= image.tables@[t].backed && 1 <= image.tables@[t].backed
                ==> table.backed == image.tables@[t].backed
            &&& image.tables@[t].backed < options.min_items_backed <= 65536 ==> table.backed
                == options.min_items_backed
        },
{
}

/// What a record describes is one occupied slot; a slot without a record is free.
pub proof fn law_records_are_slots(image: Image, i: int, p: u64)
    requires
        crate::index::layout_ok(image.index@, image.metadata.index_bits),
        0 <= i < image.index@.len(),
    ensures
        ({
            let r = image.index@[i];
            let entries = recorded(image.index@);
            &&& entries.contains_key(r.slot)
            &&& entries[r.slot].key == r.key@
            &&& entries[r.slot].address == r.address
            &&& entries.contains_key(p) ==> exists|j: int|
                0 <= j < image.index@.len() && (#[trigger] image.index@[j]).slot == p
        }),
{
    crate::index::lemma_recorded(image.index@);
}

/// What a database commits holds every datum with its key, bytes and count, at the address that the
/// record for it has.
pub proof fn law_commit_holds_all_data<K: KeyType>(database: Database<K>, image: Image, key: Seq<u8>)
    requires
        database.wf(),
        database.imaged_by(image),
        database@.contains_key(key),
    ensures
        ({
            let a = database.address_of(key);
            &&& image.metadata.key_bytes == database.index().key_bytes
            &&& image.metadata.index_bits == database.index().index_bits
            &&& image.tables@[a.table as int].items@[a.entry as int] matches Some(item)
            &&& item.key@ == key
            &&& item.data@ == database@[key].data
            &&& item.refs == database@[key].refs
            &&& exists|i: int|
                0 <= i < image.index@.len() && (#[trigger] image.index@[i]).address == a
        }),
{
    law_address_is_where_data_are(database, key);
    let a = database.address_of(key);
    let items = crate::content::items_in(image.tables@);
    assert(items.contains_key(a));
    let p = database.slot_of(key);
    database.lemma_wf();
    assert(leads_to(database.index().entries, database.content().items(), p, key));
    crate::index::lemma_recorded(image.index@);
    assert(recorded(image.index@).contains_key(p));
}

} // verus!
