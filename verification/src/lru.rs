//! A small least-recently-used cache keyed by strings.
//!
//! The cache is a list of entries in recency order: the first entry is the
//! least recently used, the last the most recently used. Keys are distinct.
//! When a new key arrives while the cache already holds `cap` entries, the
//! least recently used entry leaves.

use vstd::prelude::*;

verus! {

/// The keys of the entries are pairwise different.
pub open spec fn keys_distinct<T>(es: Seq<(Seq<char>, T)>) -> bool {
    forall|i: int, j: int| 0 <= i < j < es.len() ==> es[i].0 != es[j].0
}

/// Some entry has key `k`.
pub open spec fn has_key<T>(es: Seq<(Seq<char>, T)>, k: Seq<char>) -> bool {
    exists|i: int| 0 <= i < es.len() && #[trigger] es[i].0 == k
}

/// The position of the entry with key `k` (meaningful when there is one).
pub open spec fn position_of<T>(es: Seq<(Seq<char>, T)>, k: Seq<char>) -> int {
    choose|i: int| 0 <= i < es.len() && #[trigger] es[i].0 == k
}

/// The value stored under `k`, if any.
pub open spec fn lookup<T>(es: Seq<(Seq<char>, T)>, k: Seq<char>) -> Option<T> {
    if has_key(es, k) {
        Some(es[position_of(es, k)].1)
    } else {
        None
    }
}

/// The entries after a hit on `k`: that entry becomes the most recent.
pub open spec fn after_touch<T>(es: Seq<(Seq<char>, T)>, k: Seq<char>) -> Seq<(Seq<char>, T)> {
    if has_key(es, k) {
        let p = position_of(es, k);
        es.remove(p).push(es[p])
    } else {
        es
    }
}

/// The entries after storing `v` under `k` in a cache of capacity `cap`: an
/// existing entry for `k` is replaced and becomes the most recent; otherwise,
/// when the cache is full, the least recently used entry leaves first.
pub open spec fn after_put<T>(es: Seq<(Seq<char>, T)>, k: Seq<char>, v: T, cap: nat) -> Seq<
    (Seq<char>, T),
> {
    if has_key(es, k) {
        es.remove(position_of(es, k)).push((k, v))
    } else if es.len() >= cap && es.len() > 0 {
        es.drop_first().push((k, v))
    } else {
        es.push((k, v))
    }
}

/// The most entries a cache of capacity `cap` holds (one even when `cap` is 0).
pub open spec fn size_bound(cap: nat) -> nat {
    if cap == 0 {
        1
    } else {
        cap
    }
}

/// A least-recently-used cache from strings to values.
///
/// The entries live in one vector in recency order, which serves both as the
/// key-to-value table and as the use order. A `HashMap<String, T>` beside a
/// `VecDeque<String>` would need Verus to know how `String` keys hash and
/// compare inside the map, and vstd states no such model for `String` keys:
/// with them, not even the length after one insertion can be proved. The
/// vector is searched linearly; with the cache's small capacity that costs
/// little.
pub struct LruCache<T> {
    entries: Vec<(String, T)>,
    cap: usize,
}

impl<T> View for LruCache<T> {
    type V = Seq<(Seq<char>, T)>;

    closed spec fn view(&self) -> Seq<(Seq<char>, T)> {
        self.entries@.map_values(|e: (String, T)| (e.0@, e.1))
    }
}

impl<T> LruCache<T> {
    /// The capacity the cache was made with.
    pub closed spec fn capacity(&self) -> nat {
        self.cap as nat
    }

    #[verifier::type_invariant]
    spec fn well_formed(&self) -> bool {
        &&& keys_distinct(self@)
        &&& self@.len() <= size_bound(self.cap as nat)
    }

    /// An empty cache holding at most `cap` entries.
    pub fn new(cap: usize) -> (r: Self)
        ensures
            r@ == Seq::<(Seq<char>, T)>::empty(),
            r.capacity() == cap,
    {
        let r = LruCache { entries: Vec::new(), cap };
        assert(r@ =~= Seq::<(Seq<char>, T)>::empty());
        r
    }

    /// The number of entries.
    pub fn len(&self) -> (r: usize)
        ensures
            r == self@.len(),
    {
        self.entries.len()
    }

    /// The position of the entry with key `key`, if any.
    fn find(&self, key: &String) -> (r: Option<usize>)
        ensures
            match r {
                Some(i) => i < self@.len() && self@[i as int].0 == key@ && i == position_of(
                    self@,
                    key@,
                ),
                None => !has_key(self@, key@),
            },
    {
        proof {
            use_type_invariant(self);
        }
        let mut i: usize = 0;
        while i < self.entries.len()
            invariant
                i <= self.entries.len(),
                keys_distinct(self@),
                forall|j: int| 0 <= j < i ==> self@[j].0 != key@,
            decreases self.entries.len() - i,
        {
            if self.entries[i].0 == *key {
                assert(self@[i as int].0 == key@);
                let ghost p = position_of(self@, key@);
                assert(self@[p].0 == key@);
                assert(keys_distinct(self@));
                proof {
                    if p < i as int {
                        assert(self@[p].0 != self@[i as int].0);
                    } else if p > i as int {
                        assert(self@[i as int].0 != self@[p].0);
                    }
                }
                return Some(i);
            }
            i += 1;
        }
        None
    }
}

impl<T: Clone> LruCache<T> {
    /// Looks `key` up. On a hit the entry becomes the most recent and a clone
    /// of its value is returned; on a miss nothing changes.
    pub fn get(&mut self, key: &str) -> (r: Option<T>)
        ensures
            final(self).capacity() == old(self).capacity(),
            final(self)@ == after_touch(old(self)@, key@),
            keys_distinct(final(self)@),
            final(self)@.len() <= size_bound(final(self).capacity()),
            match r {
                Some(v) => has_key(old(self)@, key@) && cloned(lookup(old(self)@, key@)->0, v),
                None => !has_key(old(self)@, key@),
            },
    {
        proof {
            use_type_invariant(&*self);
            lemma_touch_keeps_contents(self@, key@, key@);
        }
        let k = key.to_owned();
        match self.find(&k) {
            Some(i) => {
                let ghost es = self@;
                let mut entries: Vec<(String, T)> = Vec::new();
                std::mem::swap(&mut entries, &mut self.entries);
                let e = entries.remove(i);
                let v = e.1.clone();
                entries.push(e);
                let ghost new_view = entries@.map_values(|e: (String, T)| (e.0@, e.1));
                assert(new_view =~= es.remove(i as int).push(es[i as int]));
                self.entries = entries;
                Some(v)
            },
            None => None,
        }
    }

    /// Stores `val` under `key`, as [`after_put`] describes.
    pub fn put(&mut self, key: String, val: T)
        ensures
            final(self).capacity() == old(self).capacity(),
            final(self)@ == after_put(old(self)@, key@, val, old(self).capacity()),
            keys_distinct(final(self)@),
            final(self)@.len() <= size_bound(final(self).capacity()),
    {
        proof {
            use_type_invariant(&*self);
        }
        let ghost es = self@;
        let ghost kv = key@;
        let found = self.find(&key);
        let mut entries: Vec<(String, T)> = Vec::new();
        std::mem::swap(&mut entries, &mut self.entries);
        match found {
            Some(i) => {
                entries.remove(i);
                entries.push((key, val));
                assert(entries@.map_values(|e: (String, T)| (e.0@, e.1)) =~= es.remove(i as int).push(
                    (kv, val),
                ));
            },
            None => {
                if entries.len() >= self.cap && entries.len() > 0 {
                    entries.remove(0);
                    entries.push((key, val));
                    assert(entries@.map_values(|e: (String, T)| (e.0@, e.1)) =~= es.drop_first().push(
                        (kv, val),
                    ));
                } else {
                    entries.push((key, val));
                    assert(entries@.map_values(|e: (String, T)| (e.0@, e.1)) =~= es.push((kv, val)));
                }
            },
        }
        proof {
            lemma_after_put_well_formed(es, kv, val, self.cap as nat);
        }
        self.entries = entries;
    }
}

/// Storing keeps the keys distinct and the size within the bound.
pub proof fn lemma_after_put_well_formed<T>(es: Seq<(Seq<char>, T)>, k: Seq<char>, v: T, cap: nat)
    requires
        keys_distinct(es),
        es.len() <= size_bound(cap),
    ensures
        keys_distinct(after_put(es, k, v, cap)),
        after_put(es, k, v, cap).len() <= size_bound(cap),
{
    let r = after_put(es, k, v, cap);
    if has_key(es, k) {
        let p = position_of(es, k);
        assert forall|i: int, j: int| 0 <= i < j < r.len() implies r[i].0 != r[j].0 by {
            if j == r.len() - 1 {
                let ii = if i < p { i } else { i + 1 };
                assert(r[i] == es[ii]);
                assert(es[p].0 == k);
            } else {
                let ii = if i < p { i } else { i + 1 };
                let jj = if j < p { j } else { j + 1 };
                assert(r[i] == es[ii] && r[j] == es[jj]);
            }
        }
    } else if es.len() >= cap && es.len() > 0 {
        assert forall|i: int, j: int| 0 <= i < j < r.len() implies r[i].0 != r[j].0 by {
            if j == r.len() - 1 {
                assert(r[i] == es[i + 1]);
                assert(!(es[i + 1].0 == k));
            } else {
                assert(r[i] == es[i + 1] && r[j] == es[j + 1]);
            }
        }
    } else {
        assert forall|i: int, j: int| 0 <= i < j < r.len() implies r[i].0 != r[j].0 by {
            if j == r.len() - 1 {
                assert(r[i] == es[i]);
                assert(!(es[i].0 == k));
            } else {
                assert(r[i] == es[i] && r[j] == es[j]);
            }
        }
    }
}

/// With distinct keys, the entry with key `k` is the one at `i`.
pub proof fn lemma_position_unique<T>(es: Seq<(Seq<char>, T)>, k: Seq<char>, i: int)
    requires
        keys_distinct(es),
        0 <= i < es.len(),
        es[i].0 == k,
    ensures
        has_key(es, k),
        position_of(es, k) == i,
        lookup(es, k) == Some(es[i].1),
{
    assert(has_key(es, k));
    let p = position_of(es, k);
    if p < i {
        assert(es[p].0 != es[i].0);
    } else if p > i {
        assert(es[i].0 != es[p].0);
    }
}

/// A read gives back what the last write stored: after storing `v` under
/// `k`, looking `k` up yields `v`.
pub proof fn lemma_get_after_put<T>(es: Seq<(Seq<char>, T)>, k: Seq<char>, v: T, cap: nat)
    requires
        keys_distinct(es),
        es.len() <= size_bound(cap),
    ensures
        lookup(after_put(es, k, v, cap), k) == Some(v),
{
    lemma_after_put_well_formed(es, k, v, cap);
    let r = after_put(es, k, v, cap);
    lemma_position_unique(r, k, r.len() - 1);
}

/// Storing under `k` leaves every other key as it was, except the least
/// recently used entry that leaves when a new key arrives in a full cache.
pub proof fn lemma_put_keeps_others<T>(
    es: Seq<(Seq<char>, T)>,
    k: Seq<char>,
    v: T,
    cap: nat,
    other: Seq<char>,
)
    requires
        keys_distinct(es),
        es.len() <= size_bound(cap),
        other != k,
        !(!has_key(es, k) && es.len() >= cap && es.len() > 0 && es[0].0 == other),
    ensures
        lookup(after_put(es, k, v, cap), other) == lookup(es, other),
{
    lemma_after_put_well_formed(es, k, v, cap);
    let r = after_put(es, k, v, cap);
    if has_key(es, other) {
        let q = position_of(es, other);
        lemma_position_unique(es, other, q);
        if has_key(es, k) {
            let p = position_of(es, k);
            let qi = if q < p { q } else { q - 1 };
            assert(r[qi] == es[q]);
            lemma_position_unique(r, other, qi);
        } else if es.len() >= cap && es.len() > 0 {
            assert(q != 0);
            assert(r[q - 1] == es[q]);
            lemma_position_unique(r, other, q - 1);
        } else {
            assert(r[q] == es[q]);
            lemma_position_unique(r, other, q);
        }
    } else {
        if has_key(r, other) {
            let q = position_of(r, other);
            if q < r.len() - 1 {
                if has_key(es, k) {
                    let p = position_of(es, k);
                    let qi = if q < p { q } else { q + 1 };
                    assert(es[qi] == r[q]);
                } else if es.len() >= cap && es.len() > 0 {
                    assert(es[q + 1] == r[q]);
                } else {
                    assert(es[q] == r[q]);
                }
            }
        }
    }
}

/// When a new key arrives in a full cache, the least recently used entry is
/// the one that leaves.
pub proof fn lemma_put_evicts_least_recent<T>(es: Seq<(Seq<char>, T)>, k: Seq<char>, v: T, cap: nat)
    requires
        keys_distinct(es),
        es.len() <= size_bound(cap),
        !has_key(es, k),
        es.len() >= cap,
        es.len() > 0,
    ensures
        lookup(after_put(es, k, v, cap), es[0].0) is None,
        after_put(es, k, v, cap).len() == es.len(),
{
    lemma_after_put_well_formed(es, k, v, cap);
    let r = after_put(es, k, v, cap);
    if has_key(r, es[0].0) {
        let q = position_of(r, es[0].0);
        if q < r.len() - 1 {
            assert(r[q] == es[q + 1]);
            assert(es[0].0 != es[q + 1].0);
        } else {
            assert(es[0].0 != k);
        }
    }
}

/// A hit only changes the order: every key keeps its value, the keys stay
/// distinct, and the key that was hit becomes the most recent.
pub proof fn lemma_touch_keeps_contents<T>(es: Seq<(Seq<char>, T)>, k: Seq<char>, other: Seq<char>)
    requires
        keys_distinct(es),
    ensures
        keys_distinct(after_touch(es, k)),
        after_touch(es, k).len() == es.len(),
        lookup(after_touch(es, k), other) == lookup(es, other),
        has_key(es, k) ==> after_touch(es, k).last().0 == k,
{
    let r = after_touch(es, k);
    if has_key(es, k) {
        let p = position_of(es, k);
        assert(es[p].0 == k);
        assert forall|i: int, j: int| 0 <= i < j < r.len() implies r[i].0 != r[j].0 by {
            let ii = if i < p { i } else { i + 1 };
            let jj = if j == r.len() - 1 { p } else if j < p { j } else { j + 1 };
            assert(r[i] == es[ii] && r[j] == es[jj]);
        }
        if has_key(es, other) {
            let q = position_of(es, other);
            lemma_position_unique(es, other, q);
            let qi = if q == p { r.len() - 1 } else if q < p { q } else { q - 1 };
            assert(r[qi] == es[q]);
            lemma_position_unique(r, other, qi);
        } else if has_key(r, other) {
            let q = position_of(r, other);
            let qi = if q == r.len() - 1 { p } else if q < p { q } else { q + 1 };
            assert(es[qi] == r[q]);
        }
    }
}

/// One request to a cache of capacity `cap`: a lookup of key `op.0` when
/// `op.1` is `None` (a hit makes the entry the most recent, a miss changes
/// nothing), else a store of the value `op.1` under it.
pub open spec fn lru_step<T>(es: Seq<(Seq<char>, T)>, op: (Seq<char>, Option<T>), cap: nat) -> Seq<
    (Seq<char>, T),
> {
    match op.1 {
        Some(v) => after_put(es, op.0, v, cap),
        None => after_touch(es, op.0),
    }
}

/// The entries after the requests `ops`, in order.
pub open spec fn apply_ops<T>(es: Seq<(Seq<char>, T)>, ops: Seq<(Seq<char>, Option<T>)>, cap: nat) -> Seq<
    (Seq<char>, T),
>
    decreases ops.len(),
{
    if ops.len() == 0 {
        es
    } else {
        lru_step(apply_ops(es, ops.drop_last(), cap), ops.last(), cap)
    }
}

/// The distinct keys that the requests `ops` name.
pub open spec fn op_keys<T>(ops: Seq<(Seq<char>, Option<T>)>) -> Set<Seq<char>> {
    ops.map_values(|o: (Seq<char>, Option<T>)| o.0).to_set()
}

/// Every entry behind the one with key `k` is keyed by a key of `ks`.
pub open spec fn behind_within<T>(es: Seq<(Seq<char>, T)>, k: Seq<char>, ks: Set<Seq<char>>) -> bool {
    forall|j: int| position_of(es, k) < j < es.len() ==> ks.contains(#[trigger] es[j].0)
}

/// The entry with key `k` stays through the requests `ops`, none of which
/// names `k`, with its value unchanged, as long as every key behind it and
/// every key the requests name lie in a set `ks` of fewer than `cap` keys.
proof fn lemma_survives_steps<T>(
    es: Seq<(Seq<char>, T)>,
    k: Seq<char>,
    ops: Seq<(Seq<char>, Option<T>)>,
    cap: nat,
    ks: Set<Seq<char>>,
)
    requires
        keys_distinct(es),
        es.len() <= size_bound(cap),
        has_key(es, k),
        behind_within(es, k, ks),
        forall|i: int| 0 <= i < ops.len() ==> (#[trigger] ops[i]).0 != k,
        forall|i: int| 0 <= i < ops.len() ==> ks.contains((#[trigger] ops[i]).0),
        ks.finite(),
        ks.len() < cap,
    ensures
        keys_distinct(apply_ops(es, ops, cap)),
        apply_ops(es, ops, cap).len() <= size_bound(cap),
        has_key(apply_ops(es, ops, cap), k),
        lookup(apply_ops(es, ops, cap), k) == lookup(es, k),
        behind_within(apply_ops(es, ops, cap), k, ks),
    decreases ops.len(),
{
    broadcast use vstd::seq_lib::seq_to_set_is_finite;

    if ops.len() > 0 {
        let prefix = ops.drop_last();
        assert forall|i: int| 0 <= i < prefix.len() implies (#[trigger] prefix[i]).0 != k && ks.contains(
            prefix[i].0,
        ) by {
            assert(prefix[i] == ops[i]);
        }
        lemma_survives_steps(es, k, prefix, cap, ks);
        let s = apply_ops(es, prefix, cap);
        let p = position_of(s, k);
        lemma_position_unique(s, k, p);
        let op = ops.last();
        let x = op.0;
        assert(x != k) by {
            assert(ops[ops.len() - 1] == op);
        }
        assert(ks.contains(x)) by {
            assert(ops[ops.len() - 1] == op);
        }
        let r = apply_ops(es, ops, cap);
        assert(r == lru_step(s, op, cap));
        assert(size_bound(cap) == cap);
        match op.1 {
            None => {
                lemma_touch_keeps_contents(s, x, k);
                if has_key(s, x) {
                    let px = position_of(s, x);
                    lemma_position_unique(s, x, px);
                    let qk = if p < px { p } else { p - 1 };
                    assert(r[qk] == s[p]);
                    lemma_position_unique(r, k, qk);
                    assert forall|j: int| position_of(r, k) < j < r.len() implies ks.contains(
                        #[trigger] r[j].0,
                    ) by {
                        if j < r.len() - 1 {
                            let jj = if j < px { j } else { j + 1 };
                            assert(r[j] == s[jj]);
                        }
                    }
                } else {
                    assert(r == s);
                }
            },
            Some(v) => {
                lemma_after_put_well_formed(s, x, v, cap);
                if has_key(s, x) {
                    let px = position_of(s, x);
                    lemma_position_unique(s, x, px);
                    lemma_put_keeps_others(s, x, v, cap, k);
                    let qk = if p < px { p } else { p - 1 };
                    assert(r[qk] == s[p]);
                    lemma_position_unique(r, k, qk);
                    assert forall|j: int| position_of(r, k) < j < r.len() implies ks.contains(
                        #[trigger] r[j].0,
                    ) by {
                        if j < r.len() - 1 {
                            let jj = if j < px { j } else { j + 1 };
                            assert(r[j] == s[jj]);
                        }
                    }
                } else if s.len() >= cap && s.len() > 0 {
                    assert(p != 0) by {
                        if p == 0 {
                            let t = s.drop_first().map_values(|e: (Seq<char>, T)| e.0).push(x);
                            assert(t.no_duplicates()) by {
                                assert forall|a: int, b: int| 0 <= a < t.len() && 0 <= b < t.len() && a != b
                                    implies t[a] != t[b] by {
                                    if a < t.len() - 1 && b < t.len() - 1 {
                                        assert(t[a] == s[a + 1].0 && t[b] == s[b + 1].0);
                                    } else if a < t.len() - 1 {
                                        assert(t[a] == s[a + 1].0);
                                    } else {
                                        assert(t[b] == s[b + 1].0);
                                    }
                                }
                            }
                            t.unique_seq_to_set();
                            assert(t.to_set().subset_of(ks)) by {
                                assert forall|a: Seq<char>| t.to_set().contains(a) implies ks.contains(a) by {
                                    let m = choose|m: int| 0 <= m < t.len() && t[m] == a;
                                    if m < t.len() - 1 {
                                        assert(t[m] == s[m + 1].0);
                                    }
                                }
                            }
                            vstd::set_lib::lemma_len_subset(t.to_set(), ks);
                        }
                    }
                    assert(s[0].0 != k) by {
                        assert(s[0].0 != s[p].0);
                    }
                    lemma_put_keeps_others(s, x, v, cap, k);
                    assert(r[p - 1] == s[p]);
                    lemma_position_unique(r, k, p - 1);
                    assert forall|j: int| position_of(r, k) < j < r.len() implies ks.contains(
                        #[trigger] r[j].0,
                    ) by {
                        if j < r.len() - 1 {
                            assert(r[j] == s[j + 1]);
                        }
                    }
                } else {
                    lemma_put_keeps_others(s, x, v, cap, k);
                    assert(r[p] == s[p]);
                    lemma_position_unique(r, k, p);
                    assert forall|j: int| position_of(r, k) < j < r.len() implies ks.contains(
                        #[trigger] r[j].0,
                    ) by {
                        if j < r.len() - 1 {
                            assert(r[j] == s[j]);
                        }
                    }
                }
            },
        }
    }
}

/// An entry survives fewer than `cap` other keys: after the entry with key
/// `k` was last used, any requests that name fewer than `cap` distinct other
/// keys leave it in the cache with the same value.
pub proof fn lemma_entry_survives<T>(
    es: Seq<(Seq<char>, T)>,
    k: Seq<char>,
    ops: Seq<(Seq<char>, Option<T>)>,
    cap: nat,
)
    requires
        keys_distinct(es),
        es.len() <= size_bound(cap),
        es.len() > 0,
        es.last().0 == k,
        forall|i: int| 0 <= i < ops.len() ==> (#[trigger] ops[i]).0 != k,
        op_keys(ops).len() < cap,
    ensures
        has_key(apply_ops(es, ops, cap), k),
        lookup(apply_ops(es, ops, cap), k) == lookup(es, k),
{
    broadcast use vstd::seq_lib::seq_to_set_is_finite;

    let ks = op_keys(ops);
    lemma_position_unique(es, k, es.len() - 1);
    assert forall|i: int| 0 <= i < ops.len() implies ks.contains((#[trigger] ops[i]).0) by {
        assert(ops.map_values(|o: (Seq<char>, Option<T>)| o.0)[i] == ops[i].0);
    }
    lemma_survives_steps(es, k, ops, cap, ks);
}

/// `ops` is one or two requests, all naming `key`: what one cached lookup
/// of `key` does (a lookup, then on a miss perhaps a store).
pub open spec fn ops_for<T>(ops: Seq<(Seq<char>, Option<T>)>, key: Seq<char>) -> bool {
    &&& 0 < ops.len() <= 2
    &&& forall|i: int| 0 <= i < ops.len() ==> (#[trigger] ops[i]).0 == key
}

/// The cache went from `before` to `after` by requests that name only `key`.
pub open spec fn requests_for<T>(
    before: Seq<(Seq<char>, T)>,
    after: Seq<(Seq<char>, T)>,
    key: Seq<char>,
    cap: nat,
) -> bool {
    exists|ops: Seq<(Seq<char>, Option<T>)>| #[trigger] ops_for(ops, key) && apply_ops(before, ops, cap) == after
}

/// Through the first `n` calls of a run, the entry with key `k` keeps its
/// value and everything behind it is keyed by a key of the run.
proof fn lemma_survives_calls_upto<T>(
    states: Seq<Seq<(Seq<char>, T)>>,
    keys: Seq<Seq<char>>,
    k: Seq<char>,
    cap: nat,
    n: int,
)
    requires
        states.len() == keys.len() + 1,
        keys_distinct(states[0]),
        states[0].len() <= size_bound(cap),
        states[0].len() > 0,
        states[0].last().0 == k,
        forall|j: int| 0 <= j < keys.len() ==> requests_for(states[j], states[j + 1], #[trigger] keys[j], cap),
        forall|j: int| 0 <= j < keys.len() ==> (#[trigger] keys[j]) != k,
        keys.to_set().len() < cap,
        0 <= n <= keys.len(),
    ensures
        keys_distinct(states[n]),
        states[n].len() <= size_bound(cap),
        has_key(states[n], k),
        lookup(states[n], k) == lookup(states[0], k),
        behind_within(states[n], k, keys.to_set()),
    decreases n,
{
    broadcast use vstd::seq_lib::seq_to_set_is_finite;

    if n == 0 {
        lemma_position_unique(states[0], k, states[0].len() - 1);
    } else {
        let j = n - 1;
        lemma_survives_calls_upto(states, keys, k, cap, j);
        let key = keys[j];
        assert(requests_for(states[j], states[j + 1], key, cap));
        let ops = choose|ops: Seq<(Seq<char>, Option<T>)>|
            #[trigger] ops_for(ops, key) && apply_ops(states[j], ops, cap) == states[j + 1];
        assert(key != k);
        assert(keys.to_set().contains(key)) by {
            assert(keys.contains(key));
        }
        lemma_survives_steps(states[j], k, ops, cap, keys.to_set());
    }
}

/// An entry survives a run of cached lookups of fewer than `cap` distinct
/// other keys: `states` are the entries before and after each call of the
/// run, call `j` looking up `keys[j]`; if the entry with key `k` was the most
/// recent at the start, it is still there with the same value at the end.
pub proof fn lemma_entry_survives_calls<T>(
    states: Seq<Seq<(Seq<char>, T)>>,
    keys: Seq<Seq<char>>,
    k: Seq<char>,
    cap: nat,
)
    requires
        states.len() == keys.len() + 1,
        keys_distinct(states[0]),
        states[0].len() <= size_bound(cap),
        states[0].len() > 0,
        states[0].last().0 == k,
        forall|j: int| 0 <= j < keys.len() ==> requests_for(states[j], states[j + 1], #[trigger] keys[j], cap),
        forall|j: int| 0 <= j < keys.len() ==> (#[trigger] keys[j]) != k,
        keys.to_set().len() < cap,
    ensures
        has_key(states.last(), k),
        lookup(states.last(), k) == lookup(states[0], k),
{
    lemma_survives_calls_upto(states, keys, k, cap, keys.len() as int);
}

} // verus!
