//! Insertions that are owed: removals of data that were not there, each of which an insertion of
//! the same data makes up for.
use crate::bytes::{copy_bytes, same_bytes};
use vstd::prelude::*;

verus! {

/// How many insertions are owed under a key.
#[derive(Debug)]
struct Debt {
    key: Vec<u8>,
    times: u64,
}

/// All insertions that are owed.
#[derive(Debug)]
pub struct Owed {
    debts: Vec<Debt>,
}

/// How many insertions are owed under a key.
pub open spec fn owed_times(owed: Map<Seq<u8>, nat>, key: Seq<u8>) -> nat {
    if owed.contains_key(key) {
        owed[key]
    } else {
        0
    }
}

/// What is owed once one insertion more is owed under a key.
pub open spec fn recorded_debt(owed: Map<Seq<u8>, nat>, key: Seq<u8>) -> Map<Seq<u8>, nat> {
    owed.insert(key, owed_times(owed, key) + 1)
}

/// What is owed once an insertion has been made under a key.
pub open spec fn settled(owed: Map<Seq<u8>, nat>, key: Seq<u8>) -> Map<Seq<u8>, nat> {
    if owed_times(owed, key) <= 1 {
        owed.remove(key)
    } else {
        owed.insert(key, (owed_times(owed, key) - 1) as nat)
    }
}

spec fn listed(debts: Seq<Debt>, i: int, key: Seq<u8>) -> bool {
    0 <= i < debts.len() && debts[i].key@ == key
}

spec fn owed_in(debts: Seq<Debt>) -> Map<Seq<u8>, nat> {
    Map::new(
        |key: Seq<u8>| exists|i: int| listed(debts, i, key),
        |key: Seq<u8>| debts[choose|i: int| listed(debts, i, key)].times as nat,
    )
}

spec fn debts_ok(debts: Seq<Debt>) -> bool {
    &&& forall|i: int, j: int|
        0 <= i < j < debts.len() ==> (#[trigger] debts[i]).key@ != (#[trigger] debts[j]).key@
    &&& forall|i: int| 0 <= i < debts.len() ==> (#[trigger] debts[i]).times >= 1
}

proof fn lemma_listed(debts: Seq<Debt>, i: int, key: Seq<u8>)
    requires
        debts_ok(debts),
        listed(debts, i, key),
    ensures
        owed_in(debts).contains_key(key),
        owed_in(debts)[key] == debts[i].times,
{
}

impl View for Owed {
    type V = Map<Seq<u8>, nat>;

    closed spec fn view(&self) -> Map<Seq<u8>, nat> {
        owed_in(self.debts@)
    }
}

impl Owed {
    /// Each key is listed once, and only where something is owed.
    pub closed spec fn wf(self) -> bool {
        debts_ok(self.debts@)
    }

    pub proof fn lemma_wf(self)
        requires
            self.wf(),
        ensures
            forall|key: Seq<u8>| #[trigger] self@.contains_key(key) ==> self@[key] >= 1,
    {
    }

    /// Nothing is owed.
    pub fn new() -> (r: Owed)
        ensures
            r.wf(),
            r@ == Map::<Seq<u8>, nat>::empty(),
    {
        let r = Owed { debts: Vec::new() };
        r
    }

    fn find(&self, key: &[u8]) -> (r: Option<usize>)
        requires
            self.wf(),
        ensures
            match r {
                Some(i) => {
                    &&& listed(self.debts@, i as int, key@)
                    &&& self@.contains_key(key@)
                    &&& self@[key@] == self.debts@[i as int].times
                },
                None => !self@.contains_key(key@),
            },
    {
        let mut i: usize = 0;
        while i < self.debts.len()
            invariant
                self.wf(),
                i <= self.debts@.len(),
                forall|j: int| 0 <= j < i ==> !#[trigger] listed(self.debts@, j, key@),
            decreases self.debts.len() - i,
        {
            if same_bytes(self.debts[i].key.as_slice(), key) {
                proof {
                    lemma_listed(self.debts@, i as int, key@);
                }
                return Some(i);
            }
            i = i + 1;
        }
        None
    }

    /// How many insertions are owed under a key.
    pub fn times(&self, key: &[u8]) -> (r: u64)
        requires
            self.wf(),
        ensures
            r == owed_times(self@, key@),
            self@.contains_key(key@) ==> r == self@[key@],
            !self@.contains_key(key@) ==> r == 0,
    {
        match self.find(key) {
            Some(i) => self.debts[i].times,
            None => 0,
        }
    }

    /// One insertion more is owed under a key.
    pub fn record(&mut self, key: &[u8])
        requires
            old(self).wf(),
            owed_times(old(self)@, key@) < u64::MAX,
        ensures
            final(self).wf(),
            final(self)@ == recorded_debt(old(self)@, key@),
    {
        let ghost before = self.debts@;
        match self.find(key) {
            Some(i) => {
                self.debts[i].times = self.debts[i].times + 1;
                proof {
                    lemma_recounted(before, self.debts@, i as int);
                }
            },
            None => {
                self.debts.push(Debt { key: copy_bytes(key), times: 1 });
                proof {
                    let now = self.debts@;
                    assert forall|i: int| 0 <= i < before.len() implies (#[trigger] before[i]).key@
                        != key@ by {
                        assert(!listed(before, i, key@));
                    }
                    assert forall|k: Seq<u8>| #[trigger] owed_in(now).contains_key(k) <==> owed_in(
                        before,
                    ).contains_key(k) || k == key@ by {
                        if owed_in(now).contains_key(k) {
                            let i = choose|i: int| listed(now, i, k);
                            if i < before.len() {
                                assert(listed(before, i, k));
                            }
                        }
                        if owed_in(before).contains_key(k) {
                            let i = choose|i: int| listed(before, i, k);
                            assert(listed(now, i, k));
                        }
                        if k == key@ {
                            assert(listed(now, before.len() as int, k));
                        }
                    }
                }
            },
        }
    }

    /// An insertion is made under a key. Hands back whether one was owed.
    pub fn settle(&mut self, key: &[u8]) -> (r: bool)
        requires
            old(self).wf(),
        ensures
            final(self).wf(),
            r == old(self)@.contains_key(key@),
            final(self)@ == (if r {
                settled(old(self)@, key@)
            } else {
                old(self)@
            }),
    {
        let ghost before = self.debts@;
        match self.find(key) {
            Some(i) => {
                if self.debts[i].times > 1 {
                    self.debts[i].times = self.debts[i].times - 1;
                    proof {
                        lemma_recounted(before, self.debts@, i as int);
                    }
                } else {
                    let _ = self.debts.remove(i);
                    proof {
                        lemma_struck(before, i as int);
                    }
                }
                true
            },
            None => false,
        }
    }
}

/// Changing how often one is owed changes nothing else.
proof fn lemma_recounted(before: Seq<Debt>, now: Seq<Debt>, i: int)
    requires
        debts_ok(before),
        0 <= i < before.len(),
        now == before.update(i, now[i]),
        now[i].key == before[i].key,
        now[i].times >= 1,
    ensures
        debts_ok(now),
        owed_in(now) == owed_in(before).insert(before[i].key@, now[i].times as nat),
{
    let key = before[i].key@;
    let want = owed_in(before).insert(key, now[i].times as nat);
    assert forall|j: int, k: Seq<u8>| listed(now, j, k) == #[trigger] listed(before, j, k) by {}
    assert forall|k: Seq<u8>| #[trigger] owed_in(now).contains_key(k) <==> want.contains_key(k) by {
        if owed_in(now).contains_key(k) {
            let j = choose|j: int| listed(now, j, k);
            assert(listed(before, j, k));
        }
        if k == key {
            assert(listed(now, i, k));
        }
    }
}

/// Striking out a debt strikes out that one alone.
proof fn lemma_struck(before: Seq<Debt>, i: int)
    requires
        debts_ok(before),
        0 <= i < before.len(),
    ensures
        debts_ok(before.remove(i)),
        owed_in(before.remove(i)) == owed_in(before).remove(before[i].key@),
{
    let now = before.remove(i);
    let key = before[i].key@;
    let want = owed_in(before).remove(key);
    assert forall|k: Seq<u8>| #[trigger] owed_in(now).contains_key(k) <==> want.contains_key(k) by {
        if owed_in(now).contains_key(k) {
            let j = choose|j: int| listed(now, j, k);
            let was = if j < i {
                j
            } else {
                j + 1
            };
            assert(listed(before, was, k));
        }
        if want.contains_key(k) {
            let j = choose|j: int| listed(before, j, k);
            let is = if j < i {
                j
            } else {
                j - 1
            };
            assert(listed(now, is, k));
        }
    }
}

} // verus!
