//! What holds of the library as a whole.
use crate::content::{items_in, least_backed, mapped_bytes, RefCount, Table, TABLE_ITEMS};
use crate::content_address::ContentAddress;
use crate::database::{
    inserted, insertion_key, removed, Database, Datum, Image, Insertion, ReindexStage,
};
use crate::error::Error;
use crate::growth::lemma_more_slots_suffice;
use crate::index::{
    lemma_few_can_be_rebuilt, lemma_few_have_room, lemma_rebuilt_entries, next_index_size, passers,
    recorded, slots, IndexRecord, IndexView, Slot, MAX_INDEX_BITS, MAX_SKIPPED,
};
use crate::key::KeyType;
use crate::mapping::{accessed, total, without, Mapped};
use crate::options::Options;
use crate::owed::owed_times;
use crate::safe::{balance, SafeDatabase, SafeInsertion};
use vstd::prelude::*;

verus! {

/// Every datum of a database is referred to at least once, and its key has the size of a key. So
/// there are data under a key exactly where the reference count is not 0.
pub proof fn law_data_are_referred_to<K: KeyType>(database: Database<K>, key: Seq<u8>)
    requires
        database.wf(),
        database@.contains_key(key),
    ensures
        database@[key].refs >= 1,
        key.len() == K::spec_size(),
{
    database.lemma_wf();
    database.content().lemma_wf();
}

/// What was inserted under a new key can be read back; a key that is known keeps its data.
pub proof fn law_insertion_reads_back<K: KeyType>(
    before: Database<K>,
    now: Database<K>,
    data: Seq<u8>,
    hash: Option<K>,
    r: Insertion<K>,
)
    requires
        before.wf(),
        now.wf(),
        before.insertion(now, data, hash, r),
        r is Done,
    ensures
        ({
            let key = insertion_key(data, hash);
            &&& now@.contains_key(key)
            &&& !before@.contains_key(key) ==> now@[key] == (Datum { data, refs: 1 })
            &&& before@.contains_key(key) ==> now@[key] == (Datum {
                data: before@[key].data,
                refs: before@[key].refs + 1,
            })
        }),
{
}

/// An insertion leaves the data under every other key alone, also where the index keeps the same of
/// both keys.
pub proof fn law_insertion_leaves_others<K: KeyType>(
    before: Database<K>,
    now: Database<K>,
    data: Seq<u8>,
    hash: Option<K>,
    r: Insertion<K>,
    other: Seq<u8>,
)
    requires
        before.wf(),
        now.wf(),
        before.insertion(now, data, hash, r),
        other != insertion_key(data, hash),
    ensures
        now@.contains_key(other) == before@.contains_key(other),
        now@.contains_key(other) ==> now@[other] == before@[other],
{
}

/// A removal leaves the data under every other key alone.
pub proof fn law_removal_leaves_others<K: KeyType>(
    before: Database<K>,
    now: Database<K>,
    key: Seq<u8>,
    r: Result<RefCount, ()>,
    other: Seq<u8>,
)
    requires
        before.wf(),
        now.wf(),
        before.removal(now, key, r),
        other != key,
    ensures
        now@.contains_key(other) == before@.contains_key(other),
        now@.contains_key(other) ==> now@[other] == before@[other],
{
}

/// A removal takes back an insertion.
pub proof fn law_removal_undoes_insertion<K: KeyType>(
    before: Database<K>,
    between: Database<K>,
    now: Database<K>,
    data: Seq<u8>,
    hash: Option<K>,
    done: Insertion<K>,
    r: Result<RefCount, ()>,
)
    requires
        before.wf(),
        between.wf(),
        now.wf(),
        before.insertion(between, data, hash, done),
        done is Done,
        between.removal(now, insertion_key(data, hash), r),
    ensures
        now@ == before@,
        r matches Ok(refs) && refs == (if before@.contains_key(insertion_key(data, hash)) {
            before@[insertion_key(data, hash)].refs
        } else {
            0
        }),
{
    let key = insertion_key(data, hash);
    if before@.contains_key(key) {
        law_data_are_referred_to(before, key);
    }
}

/// A rebuild of the index that succeeds leaves all data as they are.
pub proof fn law_reindex_keeps_data<K: KeyType>(
    before: Database<K>,
    now: Database<K>,
    key_bytes: usize,
    index_bits: usize,
    failure: Option<(ReindexStage, Error)>,
    r: Result<(), Error>,
)
    requires
        before.wf(),
        now.wf(),
        before.reindexing(now, key_bytes, index_bits, failure, r),
        r is Ok,
    ensures
        now@ == before@,
        now.index().key_bytes == key_bytes,
        now.index().index_bits == index_bits,
{
    lemma_rebuilt_entries(before.index(), before.content().items(), key_bytes, index_bits);
}

/// An insertion that finds the index full, and is done again after the index has been rebuilt, does
/// to the data what it would have done at once.
pub proof fn law_insertion_after_growth<K: KeyType>(
    before: Database<K>,
    full: Database<K>,
    grown: Database<K>,
    now: Database<K>,
    data: Seq<u8>,
    hash: Option<K>,
    r: Insertion<K>,
    failure: Option<(ReindexStage, Error)>,
    again: Insertion<K>,
)
    requires
        before.wf(),
        full.wf(),
        grown.wf(),
        now.wf(),
        before.insertion(full, data, hash, r),
        r matches Insertion::Full { hash: used, key_bytes, index_bits } && full.reindexing(
            grown,
            key_bytes,
            index_bits,
            failure,
            Ok(()),
        ) && grown.insertion(now, data, Some(used), again),
        again is Done,
    ensures
        now@ == inserted(before@, insertion_key(data, hash), data),
{
}

/// Whether `history` is a sequence of databases each of which is the one before it with its index
/// rebuilt.
pub open spec fn all_reindexed<K: KeyType>(history: Seq<Database<K>>) -> bool {
    &&& history.len() >= 1
    &&& forall|i: int| 0 <= i < history.len() ==> (#[trigger] history[i]).wf()
    &&& forall|i: int| 0 <= i < history.len() - 1 ==> #[trigger] reindexed_at(history, i)
}

/// Whether the database after number `i` of a sequence is that one with its index rebuilt.
pub open spec fn reindexed_at<K: KeyType>(history: Seq<Database<K>>, i: int) -> bool {
    exists|key_bytes: usize, index_bits: usize, failure: Option<(ReindexStage, Error)>| #[trigger]
        history[i].reindexing(history[i + 1], key_bytes, index_bits, failure, Ok(()))
}

/// Whether `now` comes from `before` by any number of rebuilds of the index.
pub open spec fn reindexed<K: KeyType>(before: Database<K>, now: Database<K>) -> bool {
    exists|history: Seq<Database<K>>| #[trigger]
        all_reindexed(history) && history.first() == before && history.last() == now
}

/// Whether `now` comes from `before` by an insertion seen through to its end: the index is rebuilt
/// as often as it takes until the insertion is done, and may be rebuilt once it is.
pub open spec fn seen_through<K: KeyType>(
    before: Database<K>,
    now: Database<K>,
    data: Seq<u8>,
    key: Seq<u8>,
    r: Insertion<K>,
) -> bool {
    exists|ready: Database<K>, done: Database<K>, hash: Option<K>|
        {
            &&& reindexed(before, ready)
            &&& #[trigger] ready.insertion(done, data, hash, r)
            &&& insertion_key(data, hash) == key
            &&& r is Done
            &&& reindexed(done, now)
        }
}

/// What an insertion hands back: the reference count, and the bytes of the key.
pub open spec fn outcome<K: KeyType>(r: Insertion<K>) -> (int, Seq<u8>) {
    match r {
        Insertion::Done { refs, hash, .. } => (refs as int, hash.bytes()),
        Insertion::Full { hash, .. } => (0, hash.bytes()),
    }
}

/// Rebuilds of the index leave all data as they are, however many they are.
pub proof fn law_reindexes_keep_data<K: KeyType>(before: Database<K>, now: Database<K>)
    requires
        reindexed(before, now),
    ensures
        before.wf(),
        now.wf(),
        now@ == before@,
{
    let history = choose|history: Seq<Database<K>>| #[trigger]
        all_reindexed(history) && history.first() == before && history.last() == now;
    lemma_history_keeps_data(history, history.len() - 1);
}

proof fn lemma_history_keeps_data<K: KeyType>(history: Seq<Database<K>>, n: int)
    requires
        all_reindexed(history),
        0 <= n < history.len(),
    ensures
        history[n]@ == history[0]@,
    decreases n,
{
    if n > 0 {
        lemma_history_keeps_data(history, n - 1);
        assert(reindexed_at(history, n - 1));
    }
}

/// An insertion that is seen through does to the data what one that finds room at once does.
pub proof fn law_insertion_seen_through<K: KeyType>(
    before: Database<K>,
    now: Database<K>,
    data: Seq<u8>,
    key: Seq<u8>,
    r: Insertion<K>,
)
    requires
        seen_through(before, now, data, key, r),
    ensures
        before.wf(),
        now.wf(),
        now@ == inserted(before@, key, data),
        outcome(r) == (now@[key].refs as int, key),
{
    let (ready, done, hash) = choose|ready: Database<K>, done: Database<K>, hash: Option<K>|
        {
            &&& reindexed(before, ready)
            &&& #[trigger] ready.insertion(done, data, hash, r)
            &&& insertion_key(data, hash) == key
            &&& r is Done
            &&& reindexed(done, now)
        };
    law_reindexes_keep_data(before, ready);
    law_reindexes_keep_data(done, now);
}

/// An insertion that is seen through leaves the data under every other key alone, whether or not
/// the index was rebuilt on the way.
pub proof fn law_insertion_seen_through_leaves_others<K: KeyType>(
    before: Database<K>,
    now: Database<K>,
    data: Seq<u8>,
    key: Seq<u8>,
    r: Insertion<K>,
    other: Seq<u8>,
)
    requires
        seen_through(before, now, data, key, r),
        other != key,
    ensures
        now@.contains_key(other) == before@.contains_key(other),
        now@.contains_key(other) ==> now@[other] == before@[other],
{
    law_insertion_seen_through(before, now, data, key, r);
}

/// Insertions under two keys give the same data and hand back the same in either order.
pub proof fn law_insertions_commute<K: KeyType>(
    a: Seq<Database<K>>,
    b: Seq<Database<K>>,
    x: Seq<u8>,
    y: Seq<u8>,
    key_x: Seq<u8>,
    key_y: Seq<u8>,
    of_a: (Insertion<K>, Insertion<K>),
    of_b: (Insertion<K>, Insertion<K>),
)
    requires
        a.len() == 3,
        b.len() == 3,
        a[0]@ == b[0]@,
        key_x != key_y,
        seen_through(a[0], a[1], x, key_x, of_a.0),
        seen_through(a[1], a[2], y, key_y, of_a.1),
        seen_through(b[0], b[1], y, key_y, of_b.1),
        seen_through(b[1], b[2], x, key_x, of_b.0),
    ensures
        a[2]@ == b[2]@,
        outcome(of_a.0) == outcome(of_b.0),
        outcome(of_a.1) == outcome(of_b.1),
{
    law_insertion_seen_through(a[0], a[1], x, key_x, of_a.0);
    law_insertion_seen_through(a[1], a[2], y, key_y, of_a.1);
    law_insertion_seen_through(b[0], b[1], y, key_y, of_b.1);
    law_insertion_seen_through(b[1], b[2], x, key_x, of_b.0);
    assert(a[2]@ =~= b[2]@);
}

/// The data after a number of insertions under a key.
pub open spec fn inserted_times(
    m: Map<Seq<u8>, Datum>,
    key: Seq<u8>,
    data: Seq<u8>,
    n: nat,
) -> Map<Seq<u8>, Datum>
    decreases n,
{
    if n == 0 {
        m
    } else {
        inserted(inserted_times(m, key, data, (n - 1) as nat), key, data)
    }
}

/// The data after a number of removals under a key.
pub open spec fn removed_times(m: Map<Seq<u8>, Datum>, key: Seq<u8>, n: nat) -> Map<
    Seq<u8>,
    Datum,
>
    decreases n,
{
    if n == 0 {
        m
    } else {
        removed(removed_times(m, key, (n - 1) as nat), key)
    }
}

/// Insertions are counted: after `n` of them under a new key it takes `n` removals until the data
/// are gone, and then all is as it was.
pub proof fn law_insertions_are_counted(
    m: Map<Seq<u8>, Datum>,
    key: Seq<u8>,
    data: Seq<u8>,
    n: nat,
    k: nat,
)
    requires
        !m.contains_key(key),
        k <= n,
    ensures
        ({
            let now = removed_times(inserted_times(m, key, data, n), key, k);
            &&& k < n ==> now == m.insert(key, Datum { data, refs: (n - k) as nat })
            &&& k == n ==> now == m
        }),
    decreases n + k,
{
    if k > 0 {
        law_insertions_are_counted(m, key, data, n, (k - 1) as nat);
    } else if n > 0 {
        law_insertions_are_counted(m, key, data, (n - 1) as nat, 0);
    }
    let now = removed_times(inserted_times(m, key, data, n), key, k);
    if k < n {
        assert(now =~= m.insert(key, Datum { data, refs: (n - k) as nat }));
    } else {
        assert(now =~= m);
    }
}

/// A database that is opened from what another has committed holds the same data, under an index of
/// the same sizes, whatever the options are.
pub proof fn law_commit_then_open<K: KeyType>(
    before: Database<K>,
    image: Image,
    options: Options,
    now: Database<K>,
)
    requires
        before.wf(),
        before.imaged_by(image),
        now.wf(),
        now.opened_from(options, image),
    ensures
        now@ == before@,
        now.index().key_bytes == before.index().key_bytes,
        now.index().index_bits == before.index().index_bits,
        now.index().entries == before.index().entries,
{
    before.lemma_wf();
}

/// What a database has committed can be opened.
pub proof fn law_committed_can_be_opened<K: KeyType>(before: Database<K>, image: Image)
    requires
        before.wf(),
        before.imaged_by(image),
    ensures
        image.metadata.index_bits <= MAX_INDEX_BITS,
        image.describes(K::spec_size()),
{
    before.lemma_wf();
}

/// An image without data can be opened with any sizes that an index can have, and the database is
/// then empty.
pub proof fn law_new_database_is_empty(image: Image, key_size: nat)
    requires
        image.index@ == Seq::<IndexRecord>::empty(),
        image.tables@ == Seq::<Table>::empty(),
    ensures
        image.describes(key_size),
        image.data() == Map::<Seq<u8>, Datum>::empty(),
{
    assert forall|s: int|
        0 <= s < slots(image.metadata.index_bits) implies #[trigger] passers(
        recorded(image.index@),
        s,
        image.metadata.index_bits,
    ).len() <= MAX_SKIPPED by {
        assert(passers(recorded(image.index@), s, image.metadata.index_bits) =~= Set::<u64>::empty());
    }
}

/// There are data under a key exactly where they were inserted more often than removed.
pub proof fn law_present_iff_positive<K: KeyType>(database: SafeDatabase<K>, key: Seq<u8>)
    requires
        database.wf(),
    ensures
        database.database()@.contains_key(key) <==> balance(
            database.database()@,
            database.owed(),
            key,
        ) > 0,
{
    database.lemma_wf();
    if database.database()@.contains_key(key) {
        law_data_are_referred_to(database.database(), key);
    }
}

/// Whether an insertion was done, be it that the data are stored or that it was owed.
pub open spec fn completed<K: KeyType>(r: SafeInsertion<K>) -> bool {
    !(r matches SafeInsertion::Passed(Insertion::Full { .. }))
}

/// A completed insertion raises the balance of its key by one, and leaves that of others alone.
pub proof fn law_insertion_raises_balance<K: KeyType>(
    before: SafeDatabase<K>,
    now: SafeDatabase<K>,
    key: Seq<u8>,
    value: Seq<u8>,
    hash: Option<K>,
    r: SafeInsertion<K>,
    other: Seq<u8>,
)
    requires
        before.wf(),
        now.wf(),
        key == insertion_key(value, hash),
        before.insertion(now, key, value, hash, r),
        completed(r),
    ensures
        balance(now.database()@, now.owed(), other) == balance(
            before.database()@,
            before.owed(),
            other,
        ) + (if other == key {
            1int
        } else {
            0
        }),
{
    before.lemma_wf();
}

/// A rebuild of the index that succeeds leaves every balance as it is.
pub proof fn law_reindex_keeps_balance<K: KeyType>(
    before: SafeDatabase<K>,
    now: SafeDatabase<K>,
    key_bytes: usize,
    index_bits: usize,
    failure: Option<(ReindexStage, Error)>,
    key: Seq<u8>,
)
    requires
        before.wf(),
        now.wf(),
        before.reindexing(now, key_bytes, index_bits, failure, Ok(())),
    ensures
        balance(now.database()@, now.owed(), key) == balance(
            before.database()@,
            before.owed(),
            key,
        ),
{
}

/// An insertion that finds the index full, and is done again after the index has been rebuilt,
/// raises the balance of its key by one, and leaves that of others alone.
pub proof fn law_insertion_after_growth_raises_balance<K: KeyType>(
    before: SafeDatabase<K>,
    full: SafeDatabase<K>,
    grown: SafeDatabase<K>,
    now: SafeDatabase<K>,
    key: Seq<u8>,
    value: Seq<u8>,
    hash: Option<K>,
    r: SafeInsertion<K>,
    failure: Option<(ReindexStage, Error)>,
    again: SafeInsertion<K>,
    other: Seq<u8>,
)
    requires
        before.wf(),
        full.wf(),
        grown.wf(),
        now.wf(),
        key == insertion_key(value, hash),
        before.insertion(full, key, value, hash, r),
        r matches SafeInsertion::Passed(Insertion::Full { hash: used, key_bytes, index_bits })
            && full.reindexing(grown, key_bytes, index_bits, failure, Ok(())) && grown.insertion(
            now,
            key,
            value,
            Some(used),
            again,
        ),
        completed(again),
    ensures
        balance(now.database()@, now.owed(), other) == balance(
            before.database()@,
            before.owed(),
            other,
        ) + (if other == key {
            1int
        } else {
            0
        }),
{
    if let SafeInsertion::Passed(Insertion::Full { hash: used, key_bytes, index_bits }) = r {
        law_reindex_keeps_balance(full, grown, key_bytes, index_bits, failure, other);
        law_insertion_raises_balance(grown, now, key, value, Some(used), again, other);
    }
}

/// A removal lowers the balance of its key by one, and leaves that of others alone.
pub proof fn law_removal_lowers_balance<K: KeyType>(
    before: SafeDatabase<K>,
    now: SafeDatabase<K>,
    key: Seq<u8>,
    other: Seq<u8>,
)
    requires
        before.wf(),
        now.wf(),
        before.removal(now, key),
    ensures
        balance(now.database()@, now.owed(), other) == balance(
            before.database()@,
            before.owed(),
            other,
        ) - (if other == key {
            1int
        } else {
            0
        }),
{
    before.lemma_wf();
    if before.database()@.contains_key(key) {
        law_data_are_referred_to(before.database(), key);
    }
}

/// What can happen to a database, each under a key of its own.
pub enum Step {
    /// An insertion that was done.
    Insert { key: Seq<u8> },
    /// An insertion that found the index full.
    Full { key: Seq<u8> },
    /// A removal, of data that were there or were not.
    Remove { key: Seq<u8>, found: bool },
    /// An access.
    Read { key: Seq<u8> },
    /// A rebuild of the index that succeeded.
    Reindex,
}

/// Whether `now` comes from `before` by a step.
pub open spec fn steps<K: KeyType>(before: Database<K>, now: Database<K>, step: Step) -> bool {
    &&& before.wf()
    &&& now.wf()
    &&& match step {
        Step::Insert { key } => exists|data: Seq<u8>, hash: Option<K>, r: Insertion<K>|
            key == insertion_key(data, hash) && r is Done && #[trigger] before.insertion(
                now,
                data,
                hash,
                r,
            ),
        Step::Full { key } => exists|data: Seq<u8>, hash: Option<K>, r: Insertion<K>|
            key == insertion_key(data, hash) && r is Full && #[trigger] before.insertion(
                now,
                data,
                hash,
                r,
            ),
        Step::Remove { key, found } => exists|r: Result<RefCount, ()>|
            found == (r is Ok) && #[trigger] before.removal(now, key, r),
        Step::Read { key } => before.reading(now, key),
        Step::Reindex => exists|
            key_bytes: usize,
            index_bits: usize,
            failure: Option<(ReindexStage, Error)>,
        | #[trigger] before.reindexing(now, key_bytes, index_bits, failure, Ok(())),
    }
}

/// How often data are referred to under a key.
pub open spec fn count(data: Map<Seq<u8>, Datum>, key: Seq<u8>) -> int {
    if data.contains_key(key) {
        data[key].refs as int
    } else {
        0
    }
}

/// What a step adds to the count of a key.
pub open spec fn change(step: Step, key: Seq<u8>) -> int {
    match step {
        Step::Insert { key: k } if k == key => 1,
        Step::Remove { key: k, found } if k == key && found => -1,
        _ => 0,
    }
}

/// By how much the insertions under a key outnumber the removals of what was there.
pub open spec fn counted(taken: Seq<Step>, key: Seq<u8>) -> int
    decreases taken.len(),
{
    if taken.len() == 0 {
        0
    } else {
        counted(taken.drop_last(), key) + change(taken.last(), key)
    }
}

/// Insertions are counted, whatever happens in between: after any steps under any keys, data are
/// referred to as often as they were at first and have been inserted since, less how often they were
/// removed; and they are there exactly where that is not 0.
pub proof fn law_references_are_counted<K: KeyType>(
    history: Seq<Database<K>>,
    taken: Seq<Step>,
    key: Seq<u8>,
)
    requires
        history.len() == taken.len() + 1,
        history[0].wf(),
        forall|i: int|
            0 <= i < taken.len() ==> #[trigger] steps(history[i], history[i + 1], taken[i]),
    ensures
        ({
            let last = history[taken.len() as int];
            let n = count(history[0]@, key) + counted(taken, key);
            &&& last.wf()
            &&& count(last@, key) == n
            &&& last@.contains_key(key) <==> n > 0
        }),
    decreases taken.len(),
{
    let n = taken.len() as int;
    if n > 0 {
        law_references_are_counted(history.take(n), taken.drop_last(), key);
        let before = history[n - 1];
        let now = history[n - 1 + 1];
        assert(steps(before, now, taken[n - 1]));
        if before@.contains_key(key) {
            law_data_are_referred_to(before, key);
        }
    }
    let last = history[n];
    if last@.contains_key(key) {
        law_data_are_referred_to(last, key);
    }
}

/// Data stay as they were inserted for as long as they are referred to, whatever happens.
pub proof fn law_data_stay<K: KeyType>(history: Seq<Database<K>>, taken: Seq<Step>, key: Seq<u8>)
    requires
        history.len() == taken.len() + 1,
        history[0].wf(),
        forall|i: int|
            0 <= i < taken.len() ==> #[trigger] steps(history[i], history[i + 1], taken[i]),
        forall|i: int| 0 <= i < history.len() ==> (#[trigger] history[i])@.contains_key(key),
    ensures
        history[taken.len() as int]@[key].data == history[0]@[key].data,
    decreases taken.len(),
{
    let n = taken.len() as int;
    if n > 0 {
        law_data_stay(history.take(n), taken.drop_last(), key);
        assert(steps(history[n - 1], history[n - 1 + 1], taken[n - 1]));
    }
}

/// Whether `now` comes from `before` by a step.
pub open spec fn safe_steps<K: KeyType>(
    before: SafeDatabase<K>,
    now: SafeDatabase<K>,
    step: Step,
) -> bool {
    &&& before.wf()
    &&& now.wf()
    &&& match step {
        Step::Insert { key } => exists|value: Seq<u8>, hash: Option<K>, r: SafeInsertion<K>|
            key == insertion_key(value, hash) && completed(r) && #[trigger] before.insertion(
                now,
                key,
                value,
                hash,
                r,
            ),
        Step::Full { key } => exists|value: Seq<u8>, hash: Option<K>, r: SafeInsertion<K>|
            key == insertion_key(value, hash) && !completed(r) && #[trigger] before.insertion(
                now,
                key,
                value,
                hash,
                r,
            ),
        Step::Remove { key, found } => {
            &&& found == before.database()@.contains_key(key)
            &&& before.removal(now, key)
        },
        Step::Read { key } => before.reading(now, key),
        Step::Reindex => exists|
            key_bytes: usize,
            index_bits: usize,
            failure: Option<(ReindexStage, Error)>,
        | #[trigger] before.reindexing(now, key_bytes, index_bits, failure, Ok(())),
    }
}

/// What a step adds to the balance of a key. Here a removal counts also where nothing was there.
pub open spec fn safe_change(step: Step, key: Seq<u8>) -> int {
    match step {
        Step::Insert { key: k } if k == key => 1,
        Step::Remove { key: k, .. } if k == key => -1,
        _ => 0,
    }
}

/// By how much the insertions under a key outnumber the removals.
pub open spec fn excess(taken: Seq<Step>, key: Seq<u8>) -> int
    decreases taken.len(),
{
    if taken.len() == 0 {
        0
    } else {
        excess(taken.drop_last(), key) + safe_change(taken.last(), key)
    }
}

/// A step changes the balance of a key as an insertion or removal under that key does, and by
/// nothing else.
pub proof fn law_step_changes_balance<K: KeyType>(
    before: SafeDatabase<K>,
    now: SafeDatabase<K>,
    step: Step,
    key: Seq<u8>,
)
    requires
        safe_steps(before, now, step),
    ensures
        balance(now.database()@, now.owed(), key) == balance(
            before.database()@,
            before.owed(),
            key,
        ) + safe_change(step, key),
{
    match step {
        Step::Insert { key: k } => {
            let (value, hash, r) = choose|value: Seq<u8>, hash: Option<K>, r: SafeInsertion<K>|
                k == insertion_key(value, hash) && completed(r) && #[trigger] before.insertion(
                    now,
                    k,
                    value,
                    hash,
                    r,
                );
            law_insertion_raises_balance(before, now, k, value, hash, r, key);
        },
        Step::Remove { key: k, .. } => law_removal_lowers_balance(before, now, k, key),
        _ => {},
    }
}

/// In whatever order insertions and removals come, and whatever happens in between and under other
/// keys, there are data under a key in the end exactly where, with what there was at first, the
/// insertions outnumber the removals, and by that many they are referred to. Where the removals
/// outnumber the insertions, so many are owed.
pub proof fn law_order_does_not_matter<K: KeyType>(
    history: Seq<SafeDatabase<K>>,
    taken: Seq<Step>,
    key: Seq<u8>,
)
    requires
        history.len() == taken.len() + 1,
        history[0].wf(),
        forall|i: int|
            0 <= i < taken.len() ==> #[trigger] safe_steps(history[i], history[i + 1], taken[i]),
    ensures
        ({
            let first = history[0];
            let last = history[taken.len() as int];
            let n = balance(first.database()@, first.owed(), key) + excess(taken, key);
            &&& last.wf()
            &&& balance(last.database()@, last.owed(), key) == n
            &&& last.database()@.contains_key(key) <==> n > 0
            &&& n > 0 ==> last.database()@[key].refs == n
            &&& n <= 0 ==> owed_times(last.owed(), key) == -n
        }),
    decreases taken.len(),
{
    let n = taken.len() as int;
    if n > 0 {
        law_order_does_not_matter(history.take(n), taken.drop_last(), key);
        assert(safe_steps(history[n - 1], history[n - 1 + 1], taken[n - 1]));
        law_step_changes_balance(history[n - 1], history[n - 1 + 1], taken[n - 1], key);
    }
    law_present_iff_positive(history[n], key);
}

/// Of the oversize data fewer than `trigger` bytes are mapped, or at most `shrink`, as the options
/// say, and no datum is mapped twice.
pub proof fn law_mapped_bytes_are_limited<K: KeyType>(database: Database<K>)
    requires
        database.wf(),
    ensures
        total(database.mapped()) < database.options().oversize_trigger_mapped || total(
            database.mapped(),
        ) <= database.options().oversize_shrink_mapped,
        crate::mapping::distinct(database.mapped()),
{
    database.lemma_wf();
    database.content().lemma_wf();
}

/// When an access makes the mapped bytes reach `trigger`, the data accessed least recently are
/// unmapped, and no more of them than it takes to come down to `shrink`; otherwise none is.
pub proof fn law_least_recent_are_unmapped(
    list: Seq<Mapped>,
    m: Mapped,
    trigger: usize,
    shrink: usize,
)
    ensures
        ({
            let longer = without(list, m.address).push(m);
            let now = accessed(list, m, trigger, shrink);
            &&& total(longer) < trigger ==> now == longer
            &&& total(longer) >= trigger ==> total(now) <= shrink && exists|n: int|
                0 <= n <= longer.len() && now == #[trigger] longer.skip(n) && (n > 0 ==> total(
                    longer.skip(n - 1),
                ) > shrink)
        }),
{
    crate::mapping::lemma_shrunk(without(list, m.address).push(m), shrink);
}

/// Every table is backed for as many items as the options ask for, as far as a table can hold them.
pub proof fn law_tables_are_backed<K: KeyType>(database: Database<K>, t: int)
    requires
        database.wf(),
        0 <= t < database.content().tables().len(),
    ensures
        least_backed(database.options().min_items_backed) <= database.content().tables()[t].backed
            <= TABLE_ITEMS,
{
    database.lemma_wf();
    database.content().lemma_wf();
}

/// With all items backed no table ever has to extend: each one is backed for all that it can hold.
pub proof fn law_all_backed_never_extend<K: KeyType>(database: Database<K>, t: int)
    requires
        database.wf(),
        database.options().min_items_backed == 65536,
        0 <= t < database.content().tables().len(),
    ensures
        database.content().tables()[t].backed == TABLE_ITEMS,
        database.content().tables()[t].items@.len() < TABLE_ITEMS ==> crate::content::backed_for(
            database.content().tables()[t],
        ) == database.content().tables()[t].backed,
{
    law_tables_are_backed(database, t);
}

/// An empty index has room for every key, so that a first insertion succeeds.
pub proof fn law_empty_index_has_room(index: IndexView, key: Seq<u8>)
    requires
        index.entries == Map::<u64, Slot>::empty(),
    ensures
        index.has_room(key),
{
    vstd::arithmetic::power2::lemma_pow2_pos(index.index_bits as nat);
    assert(index.free_at(key, 0));
}

/// A rebuild of the index with as many slots as it has, or more, succeeds where no file operation
/// fails, whatever it is to keep of the keys.
pub proof fn law_enough_slots_suffice<K: KeyType>(
    database: Database<K>,
    now: Database<K>,
    key_bytes: usize,
    index_bits: usize,
    r: Result<(), Error>,
)
    requires
        database.wf(),
        database.index().index_bits <= index_bits <= MAX_INDEX_BITS,
        database.reindexing(now, key_bytes, index_bits, None, r),
    ensures
        r == Ok::<(), Error>(()),
        now@ == database@,
        now.index().key_bytes == key_bytes,
        now.index().index_bits == index_bits,
{
    database.lemma_wf();
    lemma_more_slots_suffice(database.index(), database.content().items(), key_bytes, index_bits);
    lemma_rebuilt_entries(database.index(), database.content().items(), key_bytes, index_bits);
}

/// An index of fewer than the most bits can grow: a rebuild with the sizes that it asks for succeeds
/// where no file operation fails.
pub proof fn law_growth_succeeds<K: KeyType>(
    database: Database<K>,
    now: Database<K>,
    r: Result<(), Error>,
)
    requires
        database.wf(),
        database.index().index_bits < MAX_INDEX_BITS,
        ({
            let next = next_index_size(database.index().key_bytes, database.index().index_bits);
            database.reindexing(now, next.0, next.1, None, r)
        }),
    ensures
        r == Ok::<(), Error>(()),
        now@ == database@,
{
    let next = next_index_size(database.index().key_bytes, database.index().index_bits);
    law_enough_slots_suffice(database, now, next.0, next.1, r);
}

/// A rebuild of an index of few entries succeeds with any sizes that have a slot for each entry,
/// also where more of each key is to be kept than before.
pub proof fn law_few_entries_can_be_rebuilt<K: KeyType>(
    database: Database<K>,
    now: Database<K>,
    key_bytes: usize,
    index_bits: usize,
    r: Result<(), Error>,
)
    requires
        database.wf(),
        index_bits <= MAX_INDEX_BITS,
        database.index().entries.dom().len() <= slots(index_bits),
        database.index().entries.dom().len() <= MAX_SKIPPED,
        database.reindexing(now, key_bytes, index_bits, None, r),
    ensures
        r == Ok::<(), Error>(()),
        now@ == database@,
        now.index().key_bytes == key_bytes,
        now.index().index_bits == index_bits,
{
    database.lemma_wf();
    lemma_few_can_be_rebuilt(
        database.index(),
        database.content().items(),
        key_bytes,
        index_bits,
    );
    lemma_rebuilt_entries(database.index(), database.content().items(), key_bytes, index_bits);
}

/// An index that has a free slot, and fewer entries than a slot can count, has room for every key.
pub proof fn law_few_entries_leave_room(index: IndexView, key: Seq<u8>)
    requires
        index.index_bits <= MAX_INDEX_BITS,
        index.entries.dom().finite(),
        index.entries.dom().len() < slots(index.index_bits),
        index.entries.dom().len() < MAX_SKIPPED,
    ensures
        index.has_room(key),
{
    lemma_few_have_room(index, key);
}

/// The sizes that an index grows to give it twice as many slots.
pub proof fn law_growth_doubles_slots(key_bytes: usize, index_bits: usize)
    requires
        index_bits <= MAX_INDEX_BITS,
    ensures
        next_index_size(key_bytes, index_bits).0 == key_bytes,
        slots(next_index_size(key_bytes, index_bits).1) == 2 * slots(index_bits),
{
    vstd::arithmetic::power2::lemma_pow2_unfold((index_bits + 1) as nat);
}

/// How many items are in use in the table of number `t`.
pub open spec fn in_use(tables: Seq<Table>, t: int) -> int {
    tables[t].used(tables[t].items@.len() as int)
}

proof fn lemma_used_bound(table: Table, n: int)
    requires
        0 <= n,
    ensures
        0 <= table.used(n) <= n,
    decreases n,
{
    if n > 0 {
        lemma_used_bound(table, n - 1);
    }
}

/// Tables whose first `n` entries are vacant alike, but for one entry that is taken in `b` alone,
/// differ by one in how many of them are in use.
proof fn lemma_used(a: Table, b: Table, n: int, taken: int)
    requires
        forall|e: int| 0 <= e < n && e != taken ==> (a.items@[e] is Some) == (#[trigger] b.items@[e] is Some),
        0 <= taken < n ==> a.items@[taken] is None && b.items@[taken] is Some,
    ensures
        b.used(n) == a.used(n) + (if 0 <= taken < n {
            1int
        } else {
            0
        }),
    decreases n,
{
    if n > 0 {
        lemma_used(a, b, n - 1, taken);
    }
}

/// Where the contents of some tables differ by one address alone, so do their vacant entries.
proof fn lemma_vacant_alike(a: Seq<Table>, b: Seq<Table>, t: int, e: int)
    requires
        0 <= t < a.len(),
        0 <= t < b.len(),
        0 <= e < a[t].items@.len(),
        0 <= e < b[t].items@.len(),
        t <= usize::MAX,
        e <= usize::MAX,
        ({
            let address = ContentAddress { table: t as usize, entry: e as usize };
            items_in(a).contains_key(address) == items_in(b).contains_key(address)
        }),
    ensures
        (a[t].items@[e] is Some) == (b[t].items@[e] is Some),
{
}

/// An insertion under a new key puts one item more to use, in the table where the data are stored;
/// one under a known key puts none.
pub proof fn law_insertion_uses_an_item<K: KeyType>(
    before: Database<K>,
    now: Database<K>,
    data: Seq<u8>,
    hash: Option<K>,
    r: Insertion<K>,
    t: int,
)
    requires
        before.wf(),
        now.wf(),
        before.insertion(now, data, hash, r),
        r is Done,
        0 <= t < now.content().tables().len(),
    ensures
        ({
            let key = insertion_key(data, hash);
            in_use(now.content().tables(), t) == (if t < before.content().tables().len() {
                in_use(before.content().tables(), t)
            } else {
                0
            }) + (if !before@.contains_key(key) && t == now.address_of(key).table {
                1int
            } else {
                0
            })
        }),
{
    let key = insertion_key(data, hash);
    let a = now.address_of(key);
    let b0 = before.content().tables();
    let b1 = now.content().tables();
    before.lemma_wf();
    now.lemma_wf();
    before.content().lemma_wf();
    now.content().lemma_wf();
    assert(now.content().items().contains_key(a));
    let taken: int = if t == a.table && !before@.contains_key(key) {
        a.entry as int
    } else {
        -1
    };
    if t < b0.len() {
        let n = b0[t].items@.len() as int;
        if t == a.table || before@.contains_key(key) {
            assert forall|e: int| 0 <= e < n && e != taken implies (b0[t].items@[e] is Some) == (
            #[trigger] b1[t].items@[e] is Some) by {
                lemma_vacant_alike(b0, b1, t, e);
            }
        }
        lemma_used(b0[t], b1[t], n, taken);
    } else {
        reveal_with_fuel(Table::used, 2);
    }
}

/// A removal takes one item out of use where the data go with it, in the table where they were
/// stored, and none otherwise.
pub proof fn law_removal_frees_an_item<K: KeyType>(
    before: Database<K>,
    now: Database<K>,
    key: Seq<u8>,
    r: Result<RefCount, ()>,
    t: int,
)
    requires
        before.wf(),
        now.wf(),
        before.removal(now, key, r),
        0 <= t < now.content().tables().len(),
    ensures
        in_use(now.content().tables(), t) == in_use(before.content().tables(), t) - (if r == Ok::<
            RefCount,
            (),
        >(0) && t == before.address_of(key).table {
            1int
        } else {
            0
        }),
{
    let b0 = before.content().tables();
    let b1 = now.content().tables();
    before.lemma_wf();
    before.content().lemma_wf();
    let n = b0[t].items@.len() as int;
    if r is Ok {
        let a = before.address_of(key);
        let taken: int = if t == a.table && r == Ok::<RefCount, ()>(0) {
            a.entry as int
        } else {
            -1
        };
        assert forall|e: int| 0 <= e < n && e != taken implies (b1[t].items@[e] is Some) == (
        #[trigger] b0[t].items@[e] is Some) by {
            lemma_vacant_alike(b0, b1, t, e);
        }
        if taken >= 0 {
            assert(!now.content().items().contains_key(a));
        }
        lemma_used(b1[t], b0[t], n, taken);
    }
}

/// What is reported of a table is its size class, its number, how many of its items are in use, for
/// how many it is backed, the bytes of a slot, and the bytes that are mapped.
pub proof fn law_info_reports_tables<K: KeyType>(database: Database<K>, t: int)
    requires
        database.wf(),
        0 <= t < database.content().tables().len(),
    ensures
        ({
            let table = database.content().tables()[t];
            let info = database.spec_info()[t];
            &&& info.0 == (table.datum_size, t as usize)
            &&& info.1.0 == in_use(database.content().tables(), t)
            &&& info.1.1 == table.backed
            &&& info.1.2 == table.datum_size.spec_size()
            &&& info.1.3 == mapped_bytes(table, t as usize, database.content().mapping())
            &&& info.1.0 <= info.1.1
        }),
{
    database.lemma_wf();
    database.content().lemma_wf();
    let table = database.content().tables()[t];
    lemma_used_bound(table, table.items@.len() as int);
    crate::datum_size::lemma_slot_bytes();
    crate::mapping::lemma_total_in(database.mapped(), t as usize);
    let bytes = table.datum_size.spec_size();
    assert(0 <= table.backed * bytes <= 65536 * 32768) by (nonlinear_arith)
        requires
            0 <= table.backed <= 65536,
            0 <= bytes <= 32768,
    ;
}

} // verus!
