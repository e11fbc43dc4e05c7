//! Which data of the oversize tables are mapped. Sized tables stay mapped all the time; oversize
//! data are mapped when they are accessed, and the least recently accessed are unmapped when too
//! many bytes are mapped in total.
use crate::content_address::ContentAddress;
use vstd::prelude::*;

verus! {

/// A mapped datum and its length.
#[derive(Clone, Copy, Debug, PartialEq, Eq, Structural)]
pub struct Mapped {
    pub address: ContentAddress,
    pub bytes: usize,
}

/// The total length of some mapped data.
pub open spec fn total(list: Seq<Mapped>) -> int
    decreases list.len(),
{
    if list.len() == 0 {
        0
    } else {
        list.first().bytes + total(list.drop_first())
    }
}

/// The total length of those of some mapped data that are in one table.
pub open spec fn total_in(list: Seq<Mapped>, table: usize) -> int
    decreases list.len(),
{
    if list.len() == 0 {
        0
    } else {
        (if list.first().address.table == table {
            list.first().bytes as int
        } else {
            0
        }) + total_in(list.drop_first(), table)
    }
}

/// The list without a datum.
pub open spec fn without(list: Seq<Mapped>, address: ContentAddress) -> Seq<Mapped>
    decreases list.len(),
{
    if list.len() == 0 {
        list
    } else if list.last().address == address {
        without(list.drop_last(), address)
    } else {
        without(list.drop_last(), address).push(list.last())
    }
}

/// What is left when the least recently accessed are unmapped until at most `limit` bytes are
/// mapped.
pub open spec fn shrunk(list: Seq<Mapped>, limit: usize) -> Seq<Mapped>
    decreases list.len(),
{
    if list.len() == 0 || total(list) <= limit {
        list
    } else {
        shrunk(list.drop_first(), limit)
    }
}

/// What is mapped after an access: the datum comes last, and when at least `trigger` bytes are
/// mapped the list is shrunk to `shrink` bytes.
pub open spec fn accessed(list: Seq<Mapped>, m: Mapped, trigger: usize, shrink: usize) -> Seq<
    Mapped,
> {
    let longer = without(list, m.address).push(m);
    if total(longer) >= trigger {
        shrunk(longer, shrink)
    } else {
        longer
    }
}

/// Whether no datum is listed twice.
pub open spec fn distinct(list: Seq<Mapped>) -> bool {
    forall|i: int, j: int|
        0 <= i < j < list.len() ==> (#[trigger] list[i]).address != (#[trigger] list[j]).address
}

pub proof fn lemma_total_push(list: Seq<Mapped>, m: Mapped)
    ensures
        total(list.push(m)) == total(list) + m.bytes,
        total(list) >= 0,
    decreases list.len(),
{
    if list.len() == 0 {
        reveal_with_fuel(total, 2);
    } else {
        lemma_total_push(list.drop_first(), m);
        assert(list.push(m).drop_first() =~= list.drop_first().push(m));
    }
}

pub proof fn lemma_total_in(list: Seq<Mapped>, table: usize)
    ensures
        0 <= total_in(list, table) <= total(list),
    decreases list.len(),
{
    if list.len() > 0 {
        lemma_total_in(list.drop_first(), table);
    }
}

/// Taking a datum out keeps the others in their order.
pub proof fn lemma_without(list: Seq<Mapped>, address: ContentAddress)
    ensures
        without(list, address).len() <= list.len(),
        0 <= total(without(list, address)) <= total(list),
        forall|i: int|
            0 <= i < without(list, address).len() ==> (#[trigger] without(list, address)[i]).address
                != address && list.contains(without(list, address)[i]),
        forall|i: int|
            0 <= i < list.len() && (#[trigger] list[i]).address != address ==> without(
                list,
                address,
            ).contains(list[i]),
        distinct(list) ==> distinct(without(list, address)),
    decreases list.len(),
{
    if list.len() > 0 {
        let rest = list.drop_last();
        lemma_without(rest, address);
        lemma_total_push(rest, list.last());
        assert(rest.push(list.last()) =~= list);
        let w = without(list, address);
        let wr = without(rest, address);
        if list.last().address != address {
            lemma_total_push(wr, list.last());
        }
        assert forall|i: int|
            0 <= i < list.len() && (#[trigger] list[i]).address != address implies w.contains(
            list[i],
        ) by {
            if i < rest.len() {
                let j = choose|j: int| 0 <= j < wr.len() && wr[j] == rest[i];
                assert(w[j] == list[i]);
            } else {
                assert(w[wr.len() as int] == list[i]);
            }
        }
    }
}

/// Shrinking takes away from the front alone, no more than it has to, and keeps within the limit.
pub proof fn lemma_shrunk(list: Seq<Mapped>, limit: usize)
    ensures
        total(shrunk(list, limit)) <= limit,
        exists|n: int|
            0 <= n <= list.len() && shrunk(list, limit) == #[trigger] list.skip(n) && (n > 0
                ==> total(list.skip(n - 1)) > limit),
    decreases list.len(),
{
    if list.len() == 0 || total(list) <= limit {
        assert(list.skip(0) =~= list);
    } else {
        let rest = list.drop_first();
        lemma_shrunk(rest, limit);
        let n = choose|n: int|
            0 <= n <= rest.len() && shrunk(rest, limit) == #[trigger] rest.skip(n) && (n > 0
                ==> total(rest.skip(n - 1)) > limit);
        assert(rest.skip(n) =~= list.skip(n + 1));
        if n > 0 {
            assert(rest.skip(n - 1) =~= list.skip(n));
        } else {
            assert(list.skip(0) =~= list);
        }
    }
}

/// After an access fewer than `trigger` bytes are mapped, or at most `shrink`; what is left mapped
/// was mapped before or was just accessed; the data that were unmapped are those accessed least
/// recently.
pub proof fn lemma_accessed(list: Seq<Mapped>, m: Mapped, trigger: usize, shrink: usize)
    ensures
        ({
            let now = accessed(list, m, trigger, shrink);
            let longer = without(list, m.address).push(m);
            &&& total(now) < trigger || total(now) <= shrink
            &&& 0 <= total(now)
            &&& exists|n: int| 0 <= n <= longer.len() && now == #[trigger] longer.skip(n)
            &&& distinct(list) ==> distinct(now)
            &&& forall|i: int|
                0 <= i < now.len() ==> #[trigger] now[i] == m || (list.contains(now[i])
                    && now[i].address != m.address)
        }),
{
    let out = without(list, m.address);
    let longer = out.push(m);
    let now = accessed(list, m, trigger, shrink);
    lemma_without(list, m.address);
    assert(longer.skip(0) =~= longer);
    lemma_shrunk(longer, shrink);
    let n = choose|n: int| 0 <= n <= longer.len() && now == #[trigger] longer.skip(n);
    lemma_total_nonneg(now);
}

pub proof fn lemma_total_nonneg(list: Seq<Mapped>)
    ensures
        total(list) >= 0,
    decreases list.len(),
{
    if list.len() > 0 {
        lemma_total_nonneg(list.drop_first());
    }
}

/// The mapped data of the oversize tables, the least recently accessed first.
#[derive(Debug)]
pub struct Mapping {
    list: Vec<Mapped>,
    trigger: usize,
    shrink: usize,
}

impl Mapping {
    pub closed spec fn list(self) -> Seq<Mapped> {
        self.list@
    }

    pub closed spec fn trigger(self) -> usize {
        self.trigger
    }

    pub closed spec fn shrink(self) -> usize {
        self.shrink
    }

    /// No datum is listed twice, and fewer than `trigger` bytes are mapped, or at most `shrink`.
    pub open spec fn wf(self) -> bool {
        &&& distinct(self.list())
        &&& total(self.list()) < self.trigger() || total(self.list()) <= self.shrink()
    }

    pub fn new(trigger: usize, shrink: usize) -> (r: Mapping)
        ensures
            r.wf(),
            r.list() == Seq::<Mapped>::empty(),
            r.trigger() == trigger,
            r.shrink() == shrink,
    {
        Mapping { list: Vec::new(), trigger, shrink }
    }

    /// The total length of the mapped data.
    fn total(&self) -> (r: u128)
        requires
            total(self.list()) <= u128::MAX,
        ensures
            r == total(self.list()),
    {
        let mut sum: u128 = 0;
        let mut i: usize = 0;
        while i < self.list.len()
            invariant
                i <= self.list@.len(),
                sum == total(self.list@.take(i as int)),
                total(self.list@) <= u128::MAX,
            decreases self.list.len() - i,
        {
            proof {
                let part = self.list@.take(i as int);
                assert(self.list@.take(i as int + 1) =~= part.push(self.list@[i as int]));
                lemma_total_push(part, self.list@[i as int]);
                lemma_total_prefix(self.list@, i as int + 1);
            }
            sum = sum + self.list[i].bytes as u128;
            i = i + 1;
        }
        assert(self.list@.take(self.list@.len() as int) =~= self.list@);
        sum
    }

    /// The total length of the mapped data of one table.
    pub fn total_in(&self, table: usize) -> (r: usize)
        requires
            self.wf(),
        ensures
            r == total_in(self.list(), table),
    {
        let mut sum: usize = 0;
        let mut i: usize = self.list.len();
        proof {
            lemma_total_in(self.list@, table);
        }
        while i > 0
            invariant
                i <= self.list@.len(),
                sum == total_in(self.list@.skip(i as int), table),
                total_in(self.list@, table) <= usize::MAX,
            decreases i,
        {
            i = i - 1;
            proof {
                let rest = self.list@.skip(i as int);
                assert(rest.drop_first() =~= self.list@.skip(i as int + 1));
                lemma_total_in_suffix(self.list@, table, i as int);
            }
            if self.list[i].address.table == table {
                sum = sum + self.list[i].bytes;
            }
        }
        assert(self.list@.skip(0) =~= self.list@);
        sum
    }

    /// Forgets a datum that is no longer stored.
    pub fn forget(&mut self, address: ContentAddress)
        requires
            old(self).wf(),
        ensures
            final(self).wf(),
            final(self).list() == without(old(self).list(), address),
            final(self).trigger() == old(self).trigger(),
            final(self).shrink() == old(self).shrink(),
    {
        let mut kept: Vec<Mapped> = Vec::new();
        let mut i: usize = 0;
        let ghost list = self.list@;
        while i < self.list.len()
            invariant
                self.list@ == list,
                i <= list.len(),
                kept@ == without(list.take(i as int), address),
                self.trigger == old(self).trigger,
                self.shrink == old(self).shrink,
            decreases self.list.len() - i,
        {
            assert(list.take(i as int + 1).drop_last() =~= list.take(i as int));
            if self.list[i].address != address {
                kept.push(self.list[i]);
            }
            i = i + 1;
        }
        assert(list.take(list.len() as int) =~= list);
        proof {
            lemma_without(list, address);
        }
        self.list = kept;
    }

    /// Notes an access to a datum, and unmaps what was accessed least recently where too much is
    /// mapped.
    pub fn access(&mut self, address: ContentAddress, bytes: usize)
        requires
            old(self).wf(),
        ensures
            final(self).wf(),
            final(self).list() == accessed(
                old(self).list(),
                Mapped { address, bytes },
                old(self).trigger(),
                old(self).shrink(),
            ),
            final(self).trigger() == old(self).trigger(),
            final(self).shrink() == old(self).shrink(),
    {
        let ghost before = self.list@;
        let m = Mapped { address, bytes };
        proof {
            lemma_accessed(before, m, self.trigger, self.shrink);
            lemma_total_push(without(before, address), m);
        }
        self.forget(address);
        self.list.push(m);
        let ghost longer = self.list@;
        let mut sum: u128 = self.total();
        if sum >= self.trigger as u128 {
            while sum > self.shrink as u128 && self.list.len() > 0
                invariant
                    sum == total(self.list@),
                    shrunk(self.list@, self.shrink) == shrunk(longer, self.shrink),
                    self.trigger == old(self).trigger,
                    self.shrink == old(self).shrink,
                decreases self.list.len(),
            {
                let first = self.list.remove(0);
                proof {
                    lemma_total_nonneg(self.list@);
                }
                sum = sum - first.bytes as u128;
            }
        }
    }
}

proof fn lemma_total_prefix(list: Seq<Mapped>, n: int)
    requires
        0 <= n <= list.len(),
    ensures
        total(list.take(n)) <= total(list),
    decreases list.len() - n,
{
    if n < list.len() {
        lemma_total_prefix(list, n + 1);
        assert(list.take(n + 1) =~= list.take(n).push(list[n]));
        lemma_total_push(list.take(n), list[n]);
    } else {
        assert(list.take(n) =~= list);
    }
}

proof fn lemma_total_in_suffix(list: Seq<Mapped>, table: usize, n: int)
    requires
        0 <= n <= list.len(),
    ensures
        0 <= total_in(list.skip(n), table) <= total_in(list, table),
    decreases n,
{
    if n > 0 {
        lemma_total_in_suffix(list, table, n - 1);
        assert(list.skip(n - 1).drop_first() =~= list.skip(n));
        lemma_total_in(list.skip(n), table);
    } else {
        assert(list.skip(0) =~= list);
        lemma_total_in(list, table);
    }
}

} // verus!
