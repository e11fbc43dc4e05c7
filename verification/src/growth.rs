//! Why an index can always be rebuilt with as many slots as it has, or more.
//!
//! Take an entry that would have to pass over a slot whose count is at its limit. The slots before
//! that one are occupied back to some free slot, and the entries in them and beyond, and the new one,
//! all have their home among them. In the index that is rebuilt these homes lie in no more slots, so
//! that there, too, so many entries were placed beyond the last of them, which it could not count.
use crate::content::Stored;
use crate::content_address::ContentAddress;
use crate::index::{
    after, distance, empty_index, home, increasing, kept_bytes, kept_key, leading, lemma_home_bound,
    lemma_slot_order_exists, lemma_slots, lemma_some_free, passers, passes, rebuilt, refilled,
    slot_order, slots, whole_keys, IndexView, Slot, MAX_INDEX_BITS, MAX_SKIPPED,
};
use vstd::arithmetic::div_mod::{
    lemma_div_denominator, lemma_div_is_ordered, lemma_div_multiples_vanish_fancy,
    lemma_fundamental_div_mod,
};
use vstd::arithmetic::power2::{lemma2_to64, lemma_pow2_adds, lemma_pow2_pos, pow2};
use vstd::prelude::*;
use vstd::set_lib::{lemma_len_subset, lemma_len_union, lemma_map_size};

verus! {

pub proof fn lemma_leading_bytes(key: Seq<u8>, n: nat, j: nat)
    requires
        j <= n,
    ensures
        leading(key, n) >= 0,
        leading(key, n) / pow2((8 * (n - j)) as nat) as int == leading(key, j),
    decreases n,
{
    lemma2_to64();
    if n > 0 {
        lemma_leading_bytes(key, (n - 1) as nat, (n - 1) as nat);
    }
    let x = leading(key, n);
    if j < n {
        let before = leading(key, (n - 1) as nat);
        let byte: int = if n <= key.len() {
            key[n - 1] as int
        } else {
            0
        };
        let rest = (8 * (n - 1 - j)) as nat;
        lemma_leading_bytes(key, (n - 1) as nat, j);
        lemma_div_multiples_vanish_fancy(before, byte, 256);
        assert(x / 256 == before);
        lemma_pow2_adds(8, rest);
        lemma_pow2_pos(rest);
        assert((8 * (n - j)) as nat == 8 + rest);
        let r = pow2(rest) as int;
        lemma_div_denominator(x, 256, r);
        assert(pow2((8 * (n - j)) as nat) as int == 256 * r);
    } else {
        assert(pow2((8 * (n - j)) as nat) == 1);
        assert(x / 1 == x);
    }
}

proof fn lemma_leading_take(key: Seq<u8>, len: int, j: nat)
    requires
        j <= len <= key.len(),
    ensures
        leading(key.take(len), j) == leading(key, j),
    decreases j,
{
    if j > 0 {
        lemma_leading_take(key, len, (j - 1) as nat);
    }
}

/// The home of a key is given by its first bytes alone.
pub proof fn lemma_home_by_bytes(key: Seq<u8>, index_bits: usize, j: nat)
    requires
        index_bits <= 8 * j <= 64,
    ensures
        home(key, index_bits) == leading(key, j) / pow2((8 * j - index_bits) as nat) as int,
{
    let c = (8 * (8 - j)) as nat;
    let d = (8 * j - index_bits) as nat;
    lemma_leading_bytes(key, 8, j);
    lemma_pow2_adds(c, d);
    lemma_pow2_pos(c);
    lemma_pow2_pos(d);
    lemma_div_denominator(leading(key, 8), pow2(c) as int, pow2(d) as int);
}

/// What an entry keeps of a key is enough to find its home.
pub proof fn lemma_home_kept(key: Seq<u8>, key_bytes: usize, index_bits: usize)
    requires
        index_bits <= MAX_INDEX_BITS,
    ensures
        home(kept_key(key, key_bytes, index_bits), index_bits) == home(key, index_bits),
{
    let len = kept_bytes(key_bytes, index_bits);
    if key.len() > len {
        let j = ((index_bits + 7) / 8) as nat;
        lemma_home_by_bytes(key, index_bits, j);
        lemma_home_by_bytes(key.take(len), index_bits, j);
        lemma_leading_take(key, len, j);
    }
}

/// With more slots, each of them is a part of one of the fewer.
proof fn lemma_home_coarser(key: Seq<u8>, fewer: usize, more: usize)
    requires
        fewer <= more <= MAX_INDEX_BITS,
    ensures
        home(key, fewer) == home(key, more) / pow2((more - fewer) as nat) as int,
        slots(more) == slots(fewer) * pow2((more - fewer) as nat),
        pow2((more - fewer) as nat) >= 1,
{
    let c = (64 - more) as nat;
    let d = (more - fewer) as nat;
    lemma_leading_bytes(key, 8, 8);
    lemma_pow2_adds(c, d);
    lemma_pow2_adds(fewer as nat, d);
    lemma_pow2_pos(c);
    lemma_pow2_pos(d);
    lemma_div_denominator(leading(key, 8), pow2(c) as int, pow2(d) as int);
}

/// The `len` slots that end with slot `t`.
spec fn up_to(t: int, len: int, size: int) -> Set<u64> {
    Set::new(|x: u64| x < size && distance(x as int, t, size) < len)
}

proof fn lemma_up_to(t: int, len: int, size: int)
    requires
        0 <= t < size <= 0x8000_0000_0000_0000,
        0 <= len <= size,
    ensures
        up_to(t, len, size).finite(),
        up_to(t, len, size).len() == len,
    decreases len,
{
    if len == 0 {
        assert(up_to(t, len, size) =~= Set::<u64>::empty());
    } else {
        lemma_up_to(t, len - 1, size);
        let first: int = if t >= len - 1 {
            t - (len - 1)
        } else {
            t - (len - 1) + size
        };
        assert(up_to(t, len, size) =~= up_to(t, len - 1, size).insert(first as u64));
    }
}

/// How many of the fewer slots the `len` of the more slots that end with `t` are parts of.
spec fn coarse_len(t: int, len: int, f: int, n: int) -> int {
    let first = if t >= len - 1 {
        t - (len - 1)
    } else {
        t - (len - 1) + f * n
    };
    if first > t && first / f == t / f {
        n
    } else {
        distance(first / f, t / f, n) + 1
    }
}

proof fn lemma_coarse_len(t: int, len: int, f: int, n: int, x: int)
    requires
        f >= 1,
        n >= 1,
        0 <= t < f * n,
        0 <= x < f * n,
        1 <= len < f * n,
        distance(x, t, f * n) < len,
    ensures
        0 <= x / f < n,
        0 <= t / f < n,
        1 <= coarse_len(t, len, f, n) <= n,
        coarse_len(t, len, f, n) <= len,
        distance(x / f, t / f, n) < coarse_len(t, len, f, n),
{
    let size = f * n;
    let first = if t >= len - 1 {
        t - (len - 1)
    } else {
        t - (len - 1) + size
    };
    lemma_part(x, f, n);
    lemma_part(t, f, n);
    lemma_part(first, f, n);
    if first <= t {
        lemma_div_is_ordered(first, x, f);
        lemma_div_is_ordered(x, t, f);
        lemma_parts_apart(first, t, f, 0);
    } else {
        lemma_div_is_ordered(t, first, f);
        if first / f == t / f {
            lemma_fundamental_div_mod(first, f);
            lemma_fundamental_div_mod(t, f);
            assert(f * n - (f - 1) + 1 >= n) by (nonlinear_arith)
                requires
                    f >= 1,
                    n >= 1,
            ;
        } else {
            lemma_parts_apart(first, t, f, n);
            if x >= first {
                lemma_div_is_ordered(first, x, f);
            } else {
                lemma_div_is_ordered(x, t, f);
            }
        }
    }
}

proof fn lemma_part(x: int, f: int, n: int)
    requires
        f >= 1,
        0 <= x < f * n,
    ensures
        0 <= x / f < n,
{
    lemma_fundamental_div_mod(x, f);
    let q = x / f;
    let r = x % f;
    assert(0 <= q < n) by (nonlinear_arith)
        requires
            x == f * q + r,
            0 <= r < f,
            0 <= x < f * n,
    ;
}

/// Slots lie at least as far apart as those that they are parts of, `w` being how often all slots
/// are gone round.
proof fn lemma_parts_apart(from: int, to: int, f: int, w: int)
    requires
        f >= 1,
        from <= to + f * w,
        from / f <= to / f + w,
    ensures
        to + f * w - from >= to / f + w - from / f,
{
    lemma_fundamental_div_mod(from, f);
    lemma_fundamental_div_mod(to, f);
    let a = from / f;
    let b = to / f;
    let ra = from % f;
    let rb = to % f;
    let d = b + w - a;
    assert(to + f * w - from == f * d + rb - ra) by (nonlinear_arith)
        requires
            from == f * a + ra,
            to == f * b + rb,
            d == b + w - a,
    ;
    if d > 0 {
        assert(f * d - (f - 1) >= d) by (nonlinear_arith)
            requires
                f >= 1,
                d >= 1,
        ;
    }
}

/// What is used of an index that is rebuilt: its slots exist, each entry keeps what it should of the
/// key of its datum, and no slot has more entries placed beyond it than it can count.
pub open spec fn sound(index: IndexView, items: Map<ContentAddress, Stored>) -> bool {
    &&& index.index_bits <= MAX_INDEX_BITS
    &&& index.entries.dom().finite()
    &&& forall|p: u64| #[trigger]
        index.entries.contains_key(p) ==> p < index.size() && index.entries[p].key == index.kept(
            items[index.entries[p].address].key,
        )
    &&& forall|s: int| 0 <= s < index.size() ==> #[trigger] index.skipped(s) <= MAX_SKIPPED
}

/// Whether the slots from the home of a key to slot `q` are occupied.
spec fn way_occupied(w: IndexView, h: int, q: int) -> bool {
    forall|c: int|
        0 <= c <= distance(h, q, w.size()) ==> w.entries.contains_key(
            #[trigger] after(h, c, w.size()) as u64,
        )
}

/// Whether `w` holds the entries of the slots `done` alone, `from` being the slot that each comes
/// from, none of them beyond a free slot.
spec fn filled_from(
    w: IndexView,
    entries: Map<u64, Slot>,
    done: Seq<u64>,
    from: Map<u64, u64>,
) -> bool {
    &&& w.entries.dom().finite()
    &&& from.dom() == w.entries.dom()
    &&& forall|q: u64| #[trigger]
        w.entries.contains_key(q) ==> {
            &&& q < w.size()
            &&& done.contains(from[q])
            &&& w.entries[q].key == w.kept(entries[from[q]].key)
            &&& way_occupied(w, home(w.entries[q].key, w.index_bits), q as int)
        }
    &&& forall|a: u64, b: u64| #[trigger]
        w.entries.contains_key(a) && #[trigger] w.entries.contains_key(b) && from[a] == from[b]
            ==> a == b
}

/// Going round: where the way from `h` to `q` does not meet the free slot `z`, which lies `e` slots
/// before `t`, and `q` lies after `z` up to `t`, or the way leads beyond `t`, then `h` lies after `z`
/// up to `t`; and not both are so.
proof fn lemma_way(h: int, q: int, t: int, e: int, z: int, size: int)
    requires
        0 <= h < size,
        0 <= q < size,
        0 <= t < size,
        0 <= z < size,
        1 <= e < size,
        distance(z, t, size) == e,
        distance(h, z, size) > distance(h, q, size),
    ensures
        distance(q, t, size) < e || distance(h, t, size) < distance(h, q, size) ==> distance(
            h,
            t,
            size,
        ) < e,
        !(distance(q, t, size) < e && distance(h, t, size) < distance(h, q, size)),
{
}

/// The free slot that comes last before slot `t`.
proof fn lemma_last_free(w: IndexView, t: int, e: int) -> (z: int)
    requires
        w.index_bits <= MAX_INDEX_BITS,
        w.entries.dom().finite(),
        w.entries.dom().len() < w.size(),
        0 <= t < w.size(),
        0 <= e <= w.size(),
        forall|x: int|
            0 <= x < w.size() && distance(x, t, w.size()) < e ==> w.entries.contains_key(
                #[trigger] (x as u64),
            ),
    ensures
        0 <= z < w.size(),
        e <= distance(z, t, w.size()),
        !w.entries.contains_key(z as u64),
        forall|x: int|
            0 <= x < w.size() && distance(x, t, w.size()) < distance(z, t, w.size())
                ==> w.entries.contains_key(#[trigger] (x as u64)),
    decreases w.size() - e,
{
    let size = w.size();
    lemma_slots(w.index_bits);
    if e == size {
        assert(up_to(t, size, size).subset_of(w.entries.dom())) by {
            assert forall|x: u64| up_to(t, size, size).contains(x) implies w.entries.dom().contains(
                x,
            ) by {
                assert(w.entries.contains_key((x as int) as u64));
            }
        }
        lemma_up_to(t, size, size);
        lemma_len_subset(up_to(t, size, size), w.entries.dom());
        0
    } else {
        let x = if t >= e {
            t - e
        } else {
            t - e + size
        };
        if w.entries.contains_key(x as u64) {
            lemma_last_free(w, t, e + 1)
        } else {
            x
        }
    }
}

/// Fewer entries have been put into the new index than there are in the old one.
proof fn lemma_some_left(
    index: IndexView,
    items: Map<ContentAddress, Stored>,
    w: IndexView,
    done: Seq<u64>,
    from: Map<u64, u64>,
    p: u64,
)
    requires
        sound(index, items),
        filled_from(w, whole_keys(index.entries, items), done, from),
        index.entries.contains_key(p),
        !done.contains(p),
        forall|x: u64| #[trigger] done.contains(x) ==> index.entries.contains_key(x),
    ensures
        w.entries.dom().len() < index.size(),
{
    lemma_slots(index.index_bits);
    let f = |q: u64| from[q];
    let image = w.entries.dom().map(f);
    lemma_map_size(w.entries.dom(), image, f);
    assert(image.insert(p).subset_of(index.entries.dom()));
    assert(!image.contains(p));
    lemma_len_subset(image.insert(p), index.entries.dom());
    assert(index.entries.dom().subset_of(up_to(0, index.size(), index.size())));
    lemma_up_to(0, index.size(), index.size());
    lemma_len_subset(index.entries.dom(), up_to(0, index.size(), index.size()));
}

/// A slot on the way of the next entry can still count it.
proof fn lemma_can_count(
    index: IndexView,
    items: Map<ContentAddress, Stored>,
    w: IndexView,
    done: Seq<u64>,
    from: Map<u64, u64>,
    p: u64,
    c: int,
)
    requires
        sound(index, items),
        index.index_bits <= w.index_bits <= MAX_INDEX_BITS,
        filled_from(w, whole_keys(index.entries, items), done, from),
        index.entries.contains_key(p),
        !done.contains(p),
        forall|x: u64| #[trigger] done.contains(x) ==> index.entries.contains_key(x),
        0 <= c < w.size(),
        ({
            let h = w.home_of(items[index.entries[p].address].key);
            way_occupied(w, h, after(h, c, w.size()))
        }),
    ensures
        w.skipped(after(w.home_of(items[index.entries[p].address].key), c, w.size())) < MAX_SKIPPED,
{
    let key = items[index.entries[p].address].key;
    let h = w.home_of(key);
    let size = w.size();
    let n = index.size();
    let f = pow2((w.index_bits - index.index_bits) as nat) as int;
    let t = after(h, c, size);
    lemma_slots(w.index_bits);
    lemma_slots(index.index_bits);
    lemma_home_bound(w.kept(key), w.index_bits);
    lemma_home_coarser(key, index.index_bits, w.index_bits);
    assert(size == f * n) by (nonlinear_arith)
        requires
            size == n * f,
    ;
    assert(size >= n) by (nonlinear_arith)
        requires
            size == n * f,
            f >= 1,
            n >= 1,
    ;
    lemma_some_left(index, items, w, done, from, p);
    let z = lemma_last_free(w, t, 0);
    let e = distance(z, t, size);
    assert(after(h, distance(h, t, size), size) == t);
    assert(e >= 1);
    lemma_way_avoids(w, h, t, z);
    lemma_way(h, t, t, e, z, size);
    let m = coarse_len(t, e, f, n);
    lemma_coarse_len(t, e, f, n, h);
    let inside = up_to(t, e, size);
    let beyond = passers(w.entries, t, w.index_bits);
    lemma_up_to(t, e, size);
    w.entries.dom().lemma_len_filter(|q: u64| passes(w.entries[q], q, t, w.index_bits));
    assert forall|q: u64| #[trigger] inside.contains(q) implies w.entries.contains_key(q) by {
        assert(w.entries.contains_key((q as int) as u64));
    }
    let near = index.entries.dom().filter(
        |x: u64| distance(home(index.entries[x].key, index.index_bits), t / f, n) < m,
    );
    assert forall|q: u64| #[trigger] w.entries.contains_key(q) implies !(inside.contains(q)
        && beyond.contains(q)) && (inside.contains(q) || beyond.contains(q) ==> near.contains(
        from[q],
    )) by {
        lemma_comes_from_near(index, items, w, done, from, q, t, z);
    }
    assert(near.contains(p)) by {
        lemma_home_kept(key, w.key_bytes, w.index_bits);
        lemma_home_kept(key, index.key_bytes, index.index_bits);
    }
    let all = inside + beyond;
    assert(inside.disjoint(beyond));
    vstd::set_lib::lemma_set_disjoint_lens(inside, beyond);
    let g = |q: u64| from[q];
    let image = all.map(g);
    assert(vstd::relations::injective_on(g, all));
    lemma_map_size(all, image, g);
    assert(!image.contains(p)) by {
        if image.contains(p) {
            let q = choose|q: u64| all.contains(q) && g(q) == p;
            assert(w.entries.contains_key(q));
        }
    }
    index.entries.dom().lemma_len_filter(
        |x: u64| distance(home(index.entries[x].key, index.index_bits), t / f, n) < m,
    );
    assert(image.insert(p).subset_of(near)) by {
        assert forall|x: u64| image.insert(p).contains(x) implies near.contains(x) by {
            if x != p {
                let q = choose|q: u64| all.contains(q) && g(q) == x;
                assert(w.entries.contains_key(q));
            }
        }
    }
    lemma_len_subset(image.insert(p), near);
    lemma_near(index, t / f, m, near);
}

/// An occupied way does not meet a free slot.
proof fn lemma_way_avoids(w: IndexView, h: int, q: int, z: int)
    requires
        0 <= h < w.size(),
        0 <= q < w.size(),
        0 <= z < w.size(),
        way_occupied(w, h, q),
        !w.entries.contains_key(z as u64),
    ensures
        distance(h, z, w.size()) > distance(h, q, w.size()),
{
    assert(after(h, distance(h, z, w.size()), w.size()) == z);
}

/// The entries in the slots after the free slot `z` up to `t`, and those beyond `t`, come from
/// entries whose home is near; and no entry is both.
proof fn lemma_comes_from_near(
    index: IndexView,
    items: Map<ContentAddress, Stored>,
    w: IndexView,
    done: Seq<u64>,
    from: Map<u64, u64>,
    q: u64,
    t: int,
    z: int,
)
    requires
        sound(index, items),
        index.index_bits <= w.index_bits <= MAX_INDEX_BITS,
        filled_from(w, whole_keys(index.entries, items), done, from),
        forall|x: u64| #[trigger] done.contains(x) ==> index.entries.contains_key(x),
        w.entries.contains_key(q),
        0 <= t < w.size(),
        0 <= z < w.size(),
        z != t,
        !w.entries.contains_key(z as u64),
    ensures
        ({
            let size = w.size();
            let e = distance(z, t, size);
            let f = pow2((w.index_bits - index.index_bits) as nat) as int;
            let n = index.size();
            let near = distance(
                home(index.entries[from[q]].key, index.index_bits),
                t / f,
                n,
            ) < coarse_len(t, e, f, n);
            let inside = distance(q as int, t, size) < e;
            let beyond = passes(w.entries[q], q, t, w.index_bits);
            &&& index.entries.contains_key(from[q])
            &&& !(inside && beyond)
            &&& inside || beyond ==> near
        }),
{
    let p = from[q];
    let key = items[index.entries[p].address].key;
    let size = w.size();
    let n = index.size();
    let e = distance(z, t, size);
    let f = pow2((w.index_bits - index.index_bits) as nat) as int;
    let h = home(w.entries[q].key, w.index_bits);
    assert(index.entries.contains_key(p));
    lemma_slots(w.index_bits);
    lemma_slots(index.index_bits);
    lemma_home_bound(w.entries[q].key, w.index_bits);
    lemma_home_coarser(key, index.index_bits, w.index_bits);
    lemma_home_kept(key, w.key_bytes, w.index_bits);
    lemma_home_kept(key, index.key_bytes, index.index_bits);
    assert(size == f * n) by (nonlinear_arith)
        requires
            size == n * f,
    ;
    lemma_way_avoids(w, h, q as int, z);
    lemma_way(h, q as int, t, e, z, size);
    if distance(q as int, t, size) < e || passes(w.entries[q], q, t, w.index_bits) {
        lemma_coarse_len(t, e, f, n, h);
    }
}

/// There are no more entries with their home in the `m` slots up to `t` than there are such slots
/// and entries placed beyond the last of them.
proof fn lemma_near(index: IndexView, t: int, m: int, near: Set<u64>)
    requires
        index.index_bits <= MAX_INDEX_BITS,
        index.entries.dom().finite(),
        forall|p: u64| #[trigger] index.entries.contains_key(p) ==> p < index.size(),
        0 <= t < index.size(),
        1 <= m <= index.size(),
        near == index.entries.dom().filter(
            |x: u64|
                distance(home(index.entries[x].key, index.index_bits), t, index.size()) < m,
        ),
    ensures
        near.len() <= m + index.skipped(t),
{
    let n = index.size();
    lemma_slots(index.index_bits);
    lemma_up_to(t, m, n);
    let beyond = passers(index.entries, t, index.index_bits);
    index.entries.dom().lemma_len_filter(
        |p: u64| passes(index.entries[p], p, t, index.index_bits),
    );
    assert(near.subset_of(up_to(t, m, n).union(beyond))) by {
        assert forall|x: u64| near.contains(x) implies up_to(t, m, n).union(beyond).contains(x) by {
            assert(index.entries.contains_key(x));
            lemma_home_bound(index.entries[x].key, index.index_bits);
        }
    }
    lemma_len_union(up_to(t, m, n), beyond);
    lemma_len_subset(near, up_to(t, m, n).union(beyond));
}

/// Putting the next entry into its first free slot keeps all entries free of gaps on their way.
proof fn lemma_stored(
    w: IndexView,
    entries: Map<u64, Slot>,
    done: Seq<u64>,
    from: Map<u64, u64>,
    p: u64,
)
    requires
        w.index_bits <= MAX_INDEX_BITS,
        filled_from(w, entries, done, from),
        !done.contains(p),
        w.has_room(entries[p].key),
    ensures
        ({
            let key = entries[p].key;
            let q = after(w.home_of(key), w.next_distance(key), w.size()) as u64;
            filled_from(
                w.stored(key, entries[p].address),
                entries,
                done.push(p),
                from.insert(q, p),
            )
        }),
{
    let key = entries[p].key;
    let d = w.next_distance(key);
    let h = w.home_of(key);
    let size = w.size();
    let v = w.stored(key, entries[p].address);
    let q0 = after(h, d, size) as u64;
    let now = from.insert(q0, p);
    let more = done.push(p);
    assert(w.free_at(key, d));
    lemma_slots(w.index_bits);
    lemma_home_bound(w.kept(key), w.index_bits);
    assert(now.dom() =~= v.entries.dom());
    assert forall|q: u64| #[trigger] v.entries.contains_key(q) implies {
        &&& q < v.size()
        &&& more.contains(now[q])
        &&& v.entries[q].key == v.kept(entries[now[q]].key)
        &&& way_occupied(v, home(v.entries[q].key, v.index_bits), q as int)
    } by {
        if q == q0 {
            assert(more[done.len() as int] == p);
            assert(way_occupied(v, h, q as int)) by {
                assert forall|c: int|
                    0 <= c <= distance(h, q as int, size) implies v.entries.contains_key(
                    #[trigger] after(h, c, size) as u64,
                ) by {
                    if c < d {
                        assert(w.entries.contains_key(after(h, c, size) as u64));
                    }
                }
            }
        } else {
            assert(w.entries.contains_key(q));
            let i = choose|i: int| 0 <= i < done.len() && done[i] == from[q];
            assert(more[i] == from[q]);
            let hq = home(w.entries[q].key, w.index_bits);
            assert forall|c: int|
                0 <= c <= distance(hq, q as int, size) implies v.entries.contains_key(
                #[trigger] after(hq, c, size) as u64,
            ) by {
                assert(w.entries.contains_key(after(hq, c, size) as u64));
            }
        }
    }
    assert forall|a: u64, b: u64| #[trigger]
        v.entries.contains_key(a) && #[trigger] v.entries.contains_key(b) && now[a]
            == now[b] implies a == b by {
        if a != q0 {
            assert(w.entries.contains_key(a));
        }
        if b != q0 {
            assert(w.entries.contains_key(b));
        }
    }
}

/// Each entry finds room where there are at least as many slots as before.
proof fn lemma_refilled_all(
    index: IndexView,
    items: Map<ContentAddress, Stored>,
    key_bytes: usize,
    index_bits: usize,
    done: Seq<u64>,
) -> (from: Map<u64, u64>)
    requires
        sound(index, items),
        index.index_bits <= index_bits <= MAX_INDEX_BITS,
        increasing(done),
        forall|p: u64| #[trigger] done.contains(p) ==> index.entries.contains_key(p),
    ensures
        refilled(
            empty_index(key_bytes, index_bits),
            whole_keys(index.entries, items),
            done,
        ) matches Some(w) && w.key_bytes == key_bytes && w.index_bits == index_bits && filled_from(
            w,
            whole_keys(index.entries, items),
            done,
            from,
        ),
    decreases done.len(),
{
    let blank = empty_index(key_bytes, index_bits);
    let entries = whole_keys(index.entries, items);
    if done.len() == 0 {
        assert(filled_from(blank, entries, done, Map::<u64, u64>::empty()));
        Map::<u64, u64>::empty()
    } else {
        let rest = done.drop_last();
        let p = done.last();
        let key = entries[p].key;
        assert(done.contains(p));
        assert forall|x: u64| #[trigger] rest.contains(x) implies index.entries.contains_key(x) && x
            != p by {
            let i = choose|i: int| 0 <= i < rest.len() && rest[i] == x;
            assert(done[i] == x);
            assert(done.contains(x));
        }
        let from = lemma_refilled_all(index, items, key_bytes, index_bits, rest);
        let w = refilled(blank, entries, rest).unwrap();
        let h = w.home_of(key);
        lemma_slots(index.index_bits);
        lemma_slots(w.index_bits);
        lemma_home_bound(w.kept(key), w.index_bits);
        lemma_home_coarser(key, index.index_bits, w.index_bits);
        let n = index.size();
        let f = pow2((w.index_bits - index.index_bits) as nat) as int;
        assert(n * f >= n) by (nonlinear_arith)
            requires
                f >= 1,
                n >= 1,
        ;
        lemma_some_left(index, items, w, rest, from, p);
        lemma_some_free(w, key, 0);
        let d = choose|d: int| w.first_free(key, d);
        assert forall|c: int| 0 <= c < d implies w.skipped(#[trigger] after(h, c, w.size()))
            < MAX_SKIPPED by {
            let t = after(h, c, w.size());
            assert forall|b: int|
                0 <= b <= distance(h, t, w.size()) implies w.entries.contains_key(
                #[trigger] after(h, b, w.size()) as u64,
            ) by {}
            lemma_can_count(index, items, w, rest, from, p, c);
        }
        assert(w.free_at(key, d));
        lemma_stored(w, entries, rest, from, p);
        assert(rest.push(p) =~= done);
        from.insert(after(h, w.next_distance(key), w.size()) as u64, p)
    }
}

/// An index can be rebuilt with as many slots as it has, or more.
pub proof fn lemma_more_slots_suffice(
    index: IndexView,
    items: Map<ContentAddress, Stored>,
    key_bytes: usize,
    index_bits: usize,
)
    requires
        sound(index, items),
        index.index_bits <= index_bits <= MAX_INDEX_BITS,
    ensures
        rebuilt(index, items, key_bytes, index_bits) is Some,
{
    lemma_slot_order_exists(index.entries);
    let _ = lemma_refilled_all(index, items, key_bytes, index_bits, slot_order(index.entries));
}

/// Where a slot is free, not all slots are occupied.
pub proof fn lemma_free_slot_counts(occupied: Set<u64>, size: int, free: u64)
    requires
        occupied.finite(),
        forall|p: u64| #[trigger] occupied.contains(p) ==> p < size,
        free < size <= 0x8000_0000_0000_0000,
        !occupied.contains(free),
    ensures
        occupied.len() < size,
{
    lemma_up_to(0, size, size);
    assert(occupied.insert(free).subset_of(up_to(0, size, size)));
    lemma_len_subset(occupied.insert(free), up_to(0, size, size));
}

proof fn lemma_refilled_len(index: IndexView, entries: Map<u64, Slot>, order: Seq<u64>)
    requires
        index.index_bits <= MAX_INDEX_BITS,
        index.entries == Map::<u64, Slot>::empty(),
    ensures
        refilled(index, entries, order) matches Some(v) ==> {
            &&& v.index_bits == index.index_bits
            &&& v.entries.dom().finite()
            &&& v.entries.dom().len() == order.len()
            &&& forall|p: u64| #[trigger] v.entries.contains_key(p) ==> p < v.size()
        },
    decreases order.len(),
{
    if order.len() > 0 && refilled(index, entries, order) is Some {
        lemma_refilled_len(index, entries, order.drop_last());
        let w = refilled(index, entries, order.drop_last()).unwrap();
        let key = entries[order.last()].key;
        lemma_slots(w.index_bits);
        lemma_home_bound(w.kept(key), w.index_bits);
        assert(w.free_at(key, w.next_distance(key)));
    }
}

/// An index can be rebuilt only with a slot for each entry.
pub proof fn lemma_rebuilt_len(
    index: IndexView,
    items: Map<ContentAddress, Stored>,
    key_bytes: usize,
    index_bits: usize,
)
    requires
        index_bits <= MAX_INDEX_BITS,
        index.entries.dom().finite(),
    ensures
        rebuilt(index, items, key_bytes, index_bits) is Some ==> index.entries.dom().len() <= slots(
            index_bits,
        ),
{
    let order = slot_order(index.entries);
    let blank = empty_index(key_bytes, index_bits);
    let entries = whole_keys(index.entries, items);
    lemma_slot_order_exists(index.entries);
    lemma_refilled_len(blank, entries, order);
    assert(order.to_set() =~= index.entries.dom()) by {
        assert forall|p: u64| order.to_set().contains(p) <==> index.entries.dom().contains(p) by {
            assert(order.contains(p) <==> index.entries.contains_key(p));
        }
    }
    order.lemma_cardinality_of_set();
    if let Some(v) = refilled(blank, entries, order) {
        let size = slots(index_bits);
        lemma_slots(index_bits);
        lemma_up_to(0, size, size);
        assert(v.entries.dom().subset_of(up_to(0, size, size)));
        lemma_len_subset(v.entries.dom(), up_to(0, size, size));
    }
}

} // verus!
