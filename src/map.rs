//! The bucket-array hash map.
use vstd::prelude::*;
use crate::flat::{flat, lemma_flat_at, lemma_flat_empty, lemma_flat_end, lemma_flat_update_len, start_of};
use crate::key::HashKey;

verus! {

/// The bucket that a key with view `k` belongs to when there are `n` buckets.
pub open spec fn bucket_of<K: HashKey>(k: K::V, n: nat) -> int
    recommends
        n > 0,
{
    (K::spec_hash(k) as nat % n) as int
}

/// No two entries of `s` have the same key.
pub open spec fn keys_distinct<K: View, V>(s: Seq<(K, V)>) -> bool {
    forall|i: int, j: int|
        0 <= i < s.len() && 0 <= j < s.len() && i != j ==> s[i].0@ != s[j].0@
}

/// Every entry of bucket `b` belongs to bucket `b` out of `n`.
pub open spec fn placed<K: HashKey, V>(bs: Seq<Seq<(K, V)>>, n: nat) -> bool {
    forall|b: int, j: int|
        0 <= b < bs.len() && 0 <= j < bs[b].len() ==> bucket_of::<K>(#[trigger] bs[b][j].0@, n)
            == b
}

/// Within each bucket, no key occurs twice.
pub open spec fn buckets_distinct<K: View, V>(bs: Seq<Seq<(K, V)>>) -> bool {
    forall|b: int| 0 <= b < bs.len() ==> keys_distinct(#[trigger] bs[b])
}

/// The bucket count after an insertion into a map with `n` buckets and
/// `items` entries: the first insertion allocates one bucket, and a map loaded
/// past three quarters doubles before it takes the new entry.
pub open spec fn grown_count(n: nat, items: nat) -> nat {
    if n == 0 {
        1
    } else if items > 3 * n / 4 {
        2 * n
    } else {
        n
    }
}

/// A map from keys to values, stored as an array of buckets; each bucket is a
/// list of entries whose keys hash to it.
pub struct HashMap<K, V> {
    buckets: Vec<Vec<(K, V)>>,
    items: usize,
}

impl<K, V> HashMap<K, V> {
    /// The buckets, each as a sequence of entries.
    pub closed spec fn buckets_view(&self) -> Seq<Seq<(K, V)>> {
        self.buckets@.map_values(|b: Vec<(K, V)>| b@)
    }

    /// All the entries, in bucket-major order: the order of iteration.
    pub closed spec fn entries(&self) -> Seq<(K, V)> {
        flat(self.buckets_view())
    }

    /// The number of buckets currently allocated.
    pub closed spec fn spec_bucket_count(&self) -> nat {
        self.buckets@.len()
    }

    /// A cursor over all the entries, bucket by bucket.
    pub fn iter(&self) -> (r: Iter<'_, K, V>)
        ensures
            r.wf(),
            r.remaining() == self.entries(),
    {
        let r = Iter { map: self, bucket: 0, at: 0 };
        proof {
            assert(self.buckets_view().take(0) =~= Seq::<Seq<(K, V)>>::empty());
            assert(r.remaining() =~= self.entries());
        }
        r
    }

    /// The number of buckets currently allocated.
    pub fn bucket_count(&self) -> (r: usize)
        ensures
            r == self.spec_bucket_count(),
    {
        self.buckets.len()
    }
}

/// A cursor over the entries of a map: the entries of bucket 0 in order,
/// then those of bucket 1, and so on. The map cannot change while it exists.
pub struct Iter<'a, K, V> {
    map: &'a HashMap<K, V>,
    bucket: usize,
    at: usize,
}

impl<'a, K, V> Iter<'a, K, V> {
    /// The cursor stands within the bucket array, or just past its end.
    pub closed spec fn wf(&self) -> bool {
        let bs = self.map.buckets_view();
        &&& self.bucket <= bs.len()
        &&& self.bucket < bs.len() ==> self.at <= bs[self.bucket as int].len()
        &&& self.bucket == bs.len() ==> self.at == 0
    }

    closed spec fn pos(&self) -> int {
        start_of(self.map.buckets_view(), self.bucket as int) + self.at
    }

    /// The entries that are still to come, in order.
    pub closed spec fn remaining(&self) -> Seq<(K, V)> {
        self.map.entries().skip(self.pos())
    }

    /// The next entry, or `None` once every entry has been produced.
    pub fn next(&mut self) -> (r: Option<(&'a K, &'a V)>)
        requires
            old(self).wf(),
        ensures
            final(self).wf(),
            match r {
                Some(e) => {
                    &&& old(self).remaining().len() > 0
                    &&& (*e.0, *e.1) == old(self).remaining()[0]
                    &&& final(self).remaining() == old(self).remaining().drop_first()
                },
                None => {
                    &&& old(self).remaining().len() == 0
                    &&& final(self).remaining() == old(self).remaining()
                },
            },
    {
        let map: &'a HashMap<K, V> = self.map;
        let ghost bs = map.buckets_view();
        proof {
            if self.bucket < bs.len() {
                lemma_flat_at(bs, self.bucket as int);
            } else {
                lemma_flat_end(bs);
            }
        }
        loop
            invariant
                self.map == map,
                bs == map.buckets_view(),
                self.wf(),
                self.remaining() == old(self).remaining(),
                self.pos() <= map.entries().len(),
            decreases bs.len() - self.bucket,
        {
            if self.bucket >= map.buckets.len() {
                proof {
                    lemma_flat_end(bs);
                }
                return None;
            }
            let b = &map.buckets[self.bucket];
            proof {
                lemma_flat_at(bs, self.bucket as int);
            }
            if self.at < b.len() {
                let e = &b[self.at];
                let ghost p = self.pos();
                proof {
                    assert(map.entries()[p] == e);
                }
                self.at = self.at + 1;
                proof {
                    assert(self.remaining() =~= old(self).remaining().drop_first());
                }
                return Some((&e.0, &e.1));
            }
            self.bucket = self.bucket + 1;
            self.at = 0;
            proof {
                if self.bucket < bs.len() {
                    lemma_flat_at(bs, self.bucket as int);
                } else {
                    lemma_flat_end(bs);
                }
            }
        }
    }
}

impl<K: HashKey, V> View for HashMap<K, V> {
    type V = Map<K::V, V>;

    closed spec fn view(&self) -> Map<K::V, V> {
        Map::new(|k: K::V| self.has_key(k), |k: K::V| self.value_of(k))
    }
}

impl<K: HashKey, V> HashMap<K, V> {
    /// An empty map, with no buckets allocated.
    pub fn new() -> (r: Self)
        ensures
            r.wf(),
            r@ == Map::<K::V, V>::empty(),
            r.entries().len() == 0,
            r.spec_bucket_count() == 0,
    {
        let r = HashMap { buckets: Vec::new(), items: 0 };
        proof {
            assert(r.buckets_view().len() == 0);
            assert(r@ =~= Map::<K::V, V>::empty());
        }
        r
    }

    /// The map's internal invariant: every entry sits in the bucket of its
    /// key, no key occurs twice in a bucket, and the counter is the number of
    /// entries.
    pub closed spec fn wf(&self) -> bool {
        &&& placed(self.buckets_view(), self.spec_bucket_count())
        &&& buckets_distinct(self.buckets_view())
        &&& self.items == self.entries().len()
    }

    closed spec fn home(&self, k: K::V) -> Seq<(K, V)> {
        self.buckets_view()[bucket_of::<K>(k, self.spec_bucket_count())]
    }

    closed spec fn has_key(&self, k: K::V) -> bool {
        &&& self.spec_bucket_count() > 0
        &&& exists|j: int| 0 <= j < self.home(k).len() && (#[trigger] self.home(k)[j]).0@ == k
    }

    closed spec fn value_of(&self, k: K::V) -> V {
        self.home(k)[choose|j: int| 0 <= j < self.home(k).len() && (#[trigger] self.home(
            k,
        )[j]).0@ == k].1
    }

    proof fn lemma_lookup(&self, k: K::V, j: int)
        requires
            self.wf(),
            self.spec_bucket_count() > 0,
            0 <= j < self.home(k).len(),
            self.home(k)[j].0@ == k,
        ensures
            self@.contains_key(k),
            self@[k] == self.home(k)[j].1,
    {
        let n = self.spec_bucket_count();
        let b = bucket_of::<K>(k, n);
        assert(0 <= b < n);
        assert(keys_distinct(self.buckets_view()[b]));
        assert(self.has_key(k));
    }

    /// Which bucket `key` belongs to; there must be at least one bucket.
    fn bucket(&self, key: &K) -> (r: usize)
        requires
            self.spec_bucket_count() > 0,
        ensures
            r == bucket_of::<K>(key@, self.spec_bucket_count()),
            r < self.spec_bucket_count(),
    {
        let n = self.buckets.len() as u64;
        (key.hash_code() % n) as usize
    }

    /// The value stored for `key`, if any.
    ///
    /// A map whose buckets are not allocated yet holds nothing, and answers
    /// `None` without hashing the key.
    pub fn get(&self, key: &K) -> (r: Option<&V>)
        requires
            self.wf(),
        ensures
            match r {
                Some(v) => self@.contains_key(key@) && *v == self@[key@],
                None => !self@.contains_key(key@),
            },
    {
        if self.buckets.len() == 0 {
            return None;
        }
        let h = self.bucket(key);
        let bucket = &self.buckets[h];
        assert(bucket@ == self.home(key@));
        let mut j: usize = 0;
        while j < bucket.len()
            invariant
                self.wf(),
                self.spec_bucket_count() > 0,
                bucket@ == self.home(key@),
                j <= bucket@.len(),
                forall|i: int| 0 <= i < j ==> (#[trigger] bucket@[i]).0@ != key@,
            decreases bucket@.len() - j,
        {
            if bucket[j].0.same_key(key) {
                proof {
                    self.lemma_lookup(key@, j as int);
                }
                return Some(&bucket[j].1);
            }
            j = j + 1;
        }
        None
    }

    /// Whether the map holds an entry for `key`.
    pub fn contains_key(&self, key: &K) -> (r: bool)
        requires
            self.wf(),
        ensures
            r == self@.contains_key(key@),
    {
        self.get(key).is_some()
    }

    /// The number of entries.
    pub fn len(&self) -> (r: usize)
        requires
            self.wf(),
        ensures
            r == self@.len(),
    {
        proof {
            self.lemma_entries();
        }
        self.items
    }

    /// Whether the map holds no entry.
    pub fn is_empty(&self) -> (r: bool)
        requires
            self.wf(),
        ensures
            r == (self@.len() == 0),
    {
        proof {
            self.lemma_entries();
        }
        self.items == 0
    }

    /// Two well-formed maps with the same bucket count agree on every key
    /// whose bucket they share.
    proof fn lemma_same_home(&self, other: &Self, k: K::V)
        requires
            self.wf(),
            other.wf(),
            self.spec_bucket_count() == other.spec_bucket_count(),
            self.spec_bucket_count() > 0,
            self.home(k) == other.home(k),
        ensures
            self@.contains_key(k) == other@.contains_key(k),
            self@.contains_key(k) ==> self@[k] == other@[k],
    {
        if self@.contains_key(k) {
            let j = choose|j: int| 0 <= j < self.home(k).len() && (#[trigger] self.home(k)[j]).0@ == k;
            self.lemma_lookup(k, j);
            other.lemma_lookup(k, j);
        }
    }

    proof fn lemma_replaced(&self, mid: &Self, h: int, j: int, k: K::V, v: V)
        requires
            mid.wf(),
            mid.spec_bucket_count() > 0,
            h == bucket_of::<K>(k, mid.spec_bucket_count()),
            0 <= j < mid.home(k).len(),
            mid.home(k)[j].0@ == k,
            self.buckets_view() == mid.buckets_view().update(
                h,
                mid.home(k).update(j, (mid.home(k)[j].0, v)),
            ),
            self.items == mid.items,
        ensures
            self.wf(),
            self.spec_bucket_count() == mid.spec_bucket_count(),
            self@ == mid@.insert(k, v),
            mid@.contains_key(k),
            mid@[k] == mid.home(k)[j].1,
    {
        let n = mid.spec_bucket_count();
        let bs = mid.buckets_view();
        let nb = mid.home(k).update(j, (mid.home(k)[j].0, v));
        assert(self.buckets_view().len() == bs.len());
        lemma_flat_update_len(bs, h, nb);
        assert(self.spec_bucket_count() == n);
        assert(buckets_distinct(self.buckets_view())) by {
            assert(keys_distinct(bs[h]));
        }
        assert(self.home(k) == nb);
        mid.lemma_lookup(k, j);
        self.lemma_lookup(k, j);
        let goal = mid@.insert(k, v);
        assert forall|k2: K::V| #[trigger] self@.contains_key(k2) == goal.contains_key(k2) && (
        self@.contains_key(k2) ==> self@[k2] == goal[k2]) by {
            if k2 != k {
                if bucket_of::<K>(k2, n) != h {
                    assert(self.home(k2) == mid.home(k2));
                    self.lemma_same_home(mid, k2);
                } else {
                    assert(self.home(k2) == nb);
                    assert(mid.home(k2) == bs[h]);
                    if mid@.contains_key(k2) {
                        let j2 = choose|j2: int|
                            0 <= j2 < mid.home(k2).len() && (#[trigger] mid.home(k2)[j2]).0@ == k2;
                        assert(j2 != j);
                        assert(nb[j2] == bs[h][j2]);
                        mid.lemma_lookup(k2, j2);
                        self.lemma_lookup(k2, j2);
                    }
                    if self@.contains_key(k2) {
                        let j2 = choose|j2: int|
                            0 <= j2 < self.home(k2).len() && (#[trigger] self.home(k2)[j2]).0@ == k2;
                        assert(j2 != j);
                        assert(nb[j2] == bs[h][j2]);
                        mid.lemma_lookup(k2, j2);
                    }
                }
            }
        }
        assert(self@ =~= goal);
    }

    proof fn lemma_appended(&self, mid: &Self, h: int, k: K::V)
        requires
            mid.wf(),
            mid.spec_bucket_count() > 0,
            h == bucket_of::<K>(k, mid.spec_bucket_count()),
            forall|i: int| 0 <= i < mid.home(k).len() ==> (#[trigger] mid.home(k)[i]).0@ != k,
            self.buckets_view().len() == mid.buckets_view().len(),
            self.buckets_view()[h].len() > 0,
            self.buckets_view() == mid.buckets_view().update(
                h,
                mid.home(k).push(self.buckets_view()[h].last()),
            ),
            self.buckets_view()[h].last().0@ == k,
            self.items == mid.items + 1,
        ensures
            self.wf(),
            self.spec_bucket_count() == mid.spec_bucket_count(),
            self@ == mid@.insert(k, self.buckets_view()[h].last().1),
            !mid@.contains_key(k),
    {
        let n = mid.spec_bucket_count();
        let bs = mid.buckets_view();
        let e = self.buckets_view()[h].last();
        let nb = mid.home(k).push(e);
        lemma_flat_update_len(bs, h, nb);
        assert(self.spec_bucket_count() == n);
        assert(buckets_distinct(self.buckets_view())) by {
            assert(keys_distinct(bs[h]));
            assert(keys_distinct(nb));
        }
        assert(self.home(k) == nb);
        self.lemma_lookup(k, nb.len() - 1);
        let goal = mid@.insert(k, e.1);
        assert forall|k2: K::V| #[trigger] self@.contains_key(k2) == goal.contains_key(k2) && (
        self@.contains_key(k2) ==> self@[k2] == goal[k2]) by {
            if k2 != k {
                if bucket_of::<K>(k2, n) != h {
                    assert(self.home(k2) == mid.home(k2));
                    self.lemma_same_home(mid, k2);
                } else {
                    assert(self.home(k2) == nb);
                    assert(mid.home(k2) == bs[h]);
                    if mid@.contains_key(k2) {
                        let j2 = choose|j2: int|
                            0 <= j2 < mid.home(k2).len() && (#[trigger] mid.home(k2)[j2]).0@ == k2;
                        assert(nb[j2] == bs[h][j2]);
                        mid.lemma_lookup(k2, j2);
                        self.lemma_lookup(k2, j2);
                    }
                    if self@.contains_key(k2) {
                        let j2 = choose|j2: int|
                            0 <= j2 < self.home(k2).len() && (#[trigger] self.home(k2)[j2]).0@ == k2;
                        assert(j2 < bs[h].len());
                        assert(nb[j2] == bs[h][j2]);
                        mid.lemma_lookup(k2, j2);
                    }
                }
            } else {
                assert(!mid.has_key(k));
            }
        }
        assert(self@ =~= goal);
    }

    /// Appends an entry for a key that is absent to bucket `h`, its bucket.
    fn push_at(&mut self, h: usize, key: K, value: V)
        requires
            old(self).wf(),
            old(self).spec_bucket_count() > 0,
            h == bucket_of::<K>(key@, old(self).spec_bucket_count()),
            !old(self)@.contains_key(key@),
            old(self)@.len() < usize::MAX,
        ensures
            final(self).wf(),
            final(self).spec_bucket_count() == old(self).spec_bucket_count(),
            final(self)@ == old(self)@.insert(key@, value),
            final(self).items == old(self).items + 1,
    {
        proof {
            self.lemma_entries();
        }
        let ghost mid = *self;
        let ghost g_key = key@;
        let ghost g_value = value;
        self.buckets[h].push((key, value));
        self.items = self.items + 1;
        proof {
            assert(self.buckets_view() =~= mid.buckets_view().update(
                h as int,
                mid.home(g_key).push(self.buckets_view()[h as int].last()),
            ));
            self.lemma_appended(&mid, h as int, g_key);
        }
    }

    /// Grows the bucket array (from none to one bucket, else to twice as
    /// many) and moves every entry to its bucket in the new array.
    fn resize(&mut self)
        requires
            old(self).wf(),
            old(self).spec_bucket_count() <= usize::MAX / 2,
        ensures
            final(self).wf(),
            final(self)@ == old(self)@,
            final(self).spec_bucket_count() == (if old(self).spec_bucket_count() == 0 {
                1
            } else {
                2 * old(self).spec_bucket_count()
            }),
    {
        let ghost m = self@;
        proof {
            self.lemma_entries();
        }
        let n = self.buckets.len();
        let target: usize = if n == 0 {
            1
        } else {
            2 * n
        };
        let mut fresh: Vec<Vec<(K, V)>> = Vec::with_capacity(target);
        let mut i: usize = 0;
        while i < target
            invariant
                i <= target,
                fresh@.len() == i,
                forall|b: int| 0 <= b < i ==> (#[trigger] fresh@[b])@.len() == 0,
            decreases target - i,
        {
            fresh.push(Vec::new());
            i = i + 1;
        }
        let mut table = HashMap { buckets: fresh, items: 0 };
        proof {
            lemma_flat_empty(table.buckets_view());
            assert(table@ =~= Map::empty());
        }
        let mut old_buckets: Vec<Vec<(K, V)>> = Vec::new();
        std::mem::swap(&mut self.buckets, &mut old_buckets);
        let mut cur: Vec<(K, V)> = Vec::new();
        loop
            invariant
                table.wf(),
                table.spec_bucket_count() == target,
                target > 0,
                m.len() <= usize::MAX,
                keys_distinct(pending(old_buckets@, cur@)),
                table.items + pending(old_buckets@, cur@).len() == m.len(),
                forall|i: int|
                    0 <= i < pending(old_buckets@, cur@).len() ==> m.contains_key(
                        (#[trigger] pending(old_buckets@, cur@)[i]).0@,
                    ) && m[pending(old_buckets@, cur@)[i].0@] == pending(old_buckets@, cur@)[i].1
                        && !table@.contains_key(pending(old_buckets@, cur@)[i].0@),
                forall|k: K::V|
                    #[trigger] m.contains_key(k) ==> table@.contains_key(k) || exists|i: int|
                        0 <= i < pending(old_buckets@, cur@).len() && (#[trigger] pending(
                            old_buckets@,
                            cur@,
                        )[i]).0@ == k,
                forall|k: K::V|
                    #[trigger] table@.contains_key(k) ==> m.contains_key(k) && table@[k] == m[k],
            ensures
                old_buckets@.len() == 0,
                cur@.len() == 0,
            decreases flat(old_buckets@.map_values(|b: Vec<(K, V)>| b@)).len() + cur@.len()
                + old_buckets@.len(),
        {
            let ghost rem = pending(old_buckets@, cur@);
            match cur.pop() {
                Some(e) => {
                    let ghost ek = e.0@;
                    let ghost ev = e.1;
                    proof {
                        assert(rem.last() == e);
                        assert(rem.drop_last() =~= pending(old_buckets@, cur@));
                        table.lemma_entries();
                    }
                    let h = table.bucket(&e.0);
                    table.push_at(h, e.0, e.1);
                    proof {
                        let rem2 = rem.drop_last();
                        assert forall|i: int| 0 <= i < rem2.len() implies m.contains_key(
                            (#[trigger] rem2[i]).0@,
                        ) && m[rem2[i].0@] == rem2[i].1 && !table@.contains_key(rem2[i].0@) by {
                            assert(rem2[i] == rem[i]);
                            assert(rem[i].0@ != rem[rem.len() - 1].0@);
                        }
                        assert forall|k: K::V| #[trigger] m.contains_key(k) implies table@.contains_key(
                            k,
                        ) || exists|i: int| 0 <= i < rem2.len() && (#[trigger] rem2[i]).0@ == k by {
                            if !table@.contains_key(k) {
                                let i = choose|i: int| 0 <= i < rem.len() && (#[trigger] rem[i]).0@ == k;
                                assert(rem2[i] == rem[i]);
                            }
                        }
                    }
                },
                None => {
                    let ghost obv = old_buckets@.map_values(|b: Vec<(K, V)>| b@);
                    match old_buckets.pop() {
                        Some(b) => {
                            proof {
                                let ob = old_buckets@.map_values(|b: Vec<(K, V)>| b@);
                                assert(ob =~= obv.drop_last());
                                assert(b@ == obv.last());
                                assert(flat(obv) == flat(obv.drop_last()) + obv.last());
                                assert(flat(ob) + b@ =~= rem);
                            }
                            cur = b;
                        },
                        None => {
                            proof {
                                assert(obv.len() == 0);
                                assert(rem.len() == 0);
                            }
                            break ;
                        },
                    }
                },
            }
        }
        proof {
            assert(old_buckets@.len() == 0 && cur@.len() == 0);
            let obv = old_buckets@.map_values(|b: Vec<(K, V)>| b@);
            assert(obv.len() == 0);
            assert(flat(obv).len() == 0);
            assert forall|k: K::V| #[trigger] m.contains_key(k) implies table@.contains_key(k) by {
            }
            assert(table@.dom() =~= m.dom());
            assert(table@ =~= m);
        }
        *self = table;
    }

    /// Inserts `key` with `value`, and returns the value that `key` had.
    ///
    /// Before the entry goes in, an empty bucket array is allocated with one
    /// bucket, and an array whose load is already past three quarters doubles.
    /// A key that is present keeps its place and only its value changes; the
    /// entry count grows only when the key is new, so it always equals the
    /// number of keys.
    ///
    /// The map must stay under a quarter of the address space in entries, so
    /// that the doubled bucket count still fits in a `usize`.
    pub fn insert(&mut self, key: K, value: V) -> (r: Option<V>)
        requires
            old(self).wf(),
            old(self)@.len() < usize::MAX / 4,
        ensures
            final(self).wf(),
            final(self)@ == old(self)@.insert(key@, value),
            r == (if old(self)@.contains_key(key@) {
                Some(old(self)@[key@])
            } else {
                None
            }),
            final(self).spec_bucket_count() == grown_count(
                old(self).spec_bucket_count(),
                old(self)@.len(),
            ),
    {
        proof {
            self.lemma_entries();
        }
        if self.buckets.len() == 0 || self.items as u128 > 3 * (self.buckets.len() as u128) / 4 {
            self.resize();
        }
        let ghost mid = *self;
        let h = self.bucket(&key);
        let blen = self.buckets[h].len();
        let mut j: usize = 0;
        while j < blen
            invariant
                *self == mid,
                mid@ == old(self)@,
                mid.spec_bucket_count() == grown_count(
                    old(self).spec_bucket_count(),
                    old(self)@.len(),
                ),
                mid.wf(),
                mid.spec_bucket_count() > 0,
                h == bucket_of::<K>(key@, mid.spec_bucket_count()),
                blen == mid.home(key@).len(),
                j <= blen,
                forall|i: int| 0 <= i < j ==> (#[trigger] mid.home(key@)[i]).0@ != key@,
            decreases blen - j,
        {
            if self.buckets[h][j].0.same_key(&key) {
                let mut v = value;
                let slot = &mut self.buckets[h][j].1;
                std::mem::swap(slot, &mut v);
                proof {
                    assert(self.buckets_view() =~= mid.buckets_view().update(
                        h as int,
                        mid.home(key@).update(j as int, (mid.home(key@)[j as int].0, value)),
                    ));
                    self.lemma_replaced(&mid, h as int, j as int, key@, value);
                }
                return Some(v);
            }
            j = j + 1;
        }
        self.push_at(h, key, value);
        None
    }

    proof fn lemma_swapped(&self, mid: &Self, h: int, j: int, k: K::V)
        requires
            mid.wf(),
            mid.spec_bucket_count() > 0,
            h == bucket_of::<K>(k, mid.spec_bucket_count()),
            0 <= j < mid.home(k).len(),
            mid.home(k)[j].0@ == k,
            self.buckets_view() == mid.buckets_view().update(
                h,
                mid.home(k).update(j, mid.home(k).last()).drop_last(),
            ),
        ensures
            self.spec_bucket_count() == mid.spec_bucket_count(),
            self.items == mid.items - 1 ==> self.wf(),
            mid.items >= 1,
            self.items == mid.items - 1 ==> self@ == mid@.remove(k),
            mid@.contains_key(k),
            mid@[k] == mid.home(k)[j].1,
    {
        let n = mid.spec_bucket_count();
        let bs = mid.buckets_view();
        let b = mid.home(k);
        let last = b.len() - 1;
        let nb = b.update(j, b.last()).drop_last();
        assert(self.buckets_view().len() == bs.len());
        assert(self.spec_bucket_count() == n);
        lemma_flat_update_len(bs, h, nb);
        mid.lemma_lookup(k, j);
        assert(keys_distinct(b));
        // the entry at `j` is replaced by the last one; every other stays put
        assert forall|i: int| 0 <= i < nb.len() implies #[trigger] nb[i] == (if i == j {
            b[last]
        } else {
            b[i]
        }) && (if i == j {
            last
        } else {
            i
        }) != j by {}
        assert(buckets_distinct(self.buckets_view())) by {
            assert forall|i1: int, i2: int|
                0 <= i1 < nb.len() && 0 <= i2 < nb.len() && i1 != i2 implies nb[i1].0@
                != nb[i2].0@ by {
                let s1 = if i1 == j {
                    last
                } else {
                    i1
                };
                let s2 = if i2 == j {
                    last
                } else {
                    i2
                };
                assert(nb[i1] == b[s1] && nb[i2] == b[s2]);
            }
            assert(keys_distinct(nb));
        }
        assert(placed(self.buckets_view(), n)) by {
            assert forall|bb: int, i: int|
                0 <= bb < self.buckets_view().len() && 0 <= i < self.buckets_view()[bb].len()
                implies bucket_of::<K>(#[trigger] self.buckets_view()[bb][i].0@, n) == bb by {
                if bb == h {
                    assert(nb[i] == b[if i == j {
                        last
                    } else {
                        i
                    }]);
                }
            }
        }
        if self.items == mid.items - 1 {
            let goal = mid@.remove(k);
            assert forall|k2: K::V| #[trigger] self@.contains_key(k2) == goal.contains_key(k2) && (
            self@.contains_key(k2) ==> self@[k2] == goal[k2]) by {
                if bucket_of::<K>(k2, n) != h {
                    assert(self.home(k2) == mid.home(k2));
                    self.lemma_same_home(mid, k2);
                } else {
                    assert(self.home(k2) == nb);
                    if self@.contains_key(k2) {
                        let i = choose|i: int|
                            0 <= i < self.home(k2).len() && (#[trigger] self.home(k2)[i]).0@ == k2;
                        let si = if i == j {
                            last
                        } else {
                            i
                        };
                        assert(nb[i] == b[si]);
                        assert(si != j);
                        assert(k2 != k);
                        self.lemma_lookup(k2, i);
                        mid.lemma_lookup(k2, si);
                    }
                    if k2 != k && mid@.contains_key(k2) {
                        let si = choose|si: int|
                            0 <= si < mid.home(k2).len() && (#[trigger] mid.home(k2)[si]).0@ == k2;
                        assert(si != j);
                        let i = if si == last {
                            j
                        } else {
                            si
                        };
                        assert(nb[i] == b[si]);
                        self.lemma_lookup(k2, i);
                    }
                }
            }
            assert(self@ =~= goal);
        }
    }

    /// Removes the entry for `key` and returns its value, or `None` (with the
    /// map unchanged) where there is none.
    ///
    /// The last entry of the bucket takes the place of the one removed, so
    /// removal costs no shifting; the bucket array never shrinks.
    pub fn remove(&mut self, key: &K) -> (r: Option<V>)
        requires
            old(self).wf(),
        ensures
            final(self).wf(),
            final(self)@ == old(self)@.remove(key@),
            r == (if old(self)@.contains_key(key@) {
                Some(old(self)@[key@])
            } else {
                None
            }),
            final(self).spec_bucket_count() == old(self).spec_bucket_count(),
    {
        if self.buckets.len() == 0 {
            proof {
                assert(self@ =~= self@.remove(key@));
            }
            return None;
        }
        let ghost mid = *self;
        let h = self.bucket(key);
        let blen = self.buckets[h].len();
        let mut j: usize = 0;
        while j < blen
            invariant
                *self == mid,
                mid == *old(self),
                mid.wf(),
                mid.spec_bucket_count() > 0,
                h == bucket_of::<K>(key@, mid.spec_bucket_count()),
                blen == mid.home(key@).len(),
                j <= blen,
                forall|i: int| 0 <= i < j ==> (#[trigger] mid.home(key@)[i]).0@ != key@,
            decreases blen - j,
        {
            if self.buckets[h][j].0.same_key(key) {
                let e = self.buckets[h].swap_remove(j);
                proof {
                    assert(self.buckets_view() =~= mid.buckets_view().update(
                        h as int,
                        mid.home(key@).update(j as int, mid.home(key@).last()).drop_last(),
                    ));
                    self.lemma_swapped(&mid, h as int, j as int, key@);
                }
                self.items = self.items - 1;
                proof {
                    self.lemma_swapped(&mid, h as int, j as int, key@);
                }
                return Some(e.1);
            }
            j = j + 1;
        }
        proof {
            assert(!self@.contains_key(key@));
            assert(self@ =~= self@.remove(key@));
        }
        None
    }

    /// The flattened entries are the map: each is a pair of the map, each key
    /// of the map occurs among them, and none occurs twice.
    pub proof fn lemma_entries(&self)
        requires
            self.wf(),
        ensures
            keys_distinct(self.entries()),
            forall|i: int|
                0 <= i < self.entries().len() ==> self@.contains_key(
                    (#[trigger] self.entries()[i]).0@,
                ) && self@[self.entries()[i].0@] == self.entries()[i].1,
            forall|k: K::V|
                #[trigger] self@.contains_key(k) ==> exists|i: int|
                    0 <= i < self.entries().len() && (#[trigger] self.entries()[i]).0@ == k,
            self@.dom().finite(),
            self@.len() == self.entries().len(),
    {
        let bs = self.buckets_view();
        let n = self.spec_bucket_count();
        let es = self.entries();
        lemma_flat_keys::<K, V>(bs, n);
        assert forall|i: int| 0 <= i < es.len() implies self@.contains_key(
            (#[trigger] es[i]).0@,
        ) && self@[es[i].0@] == es[i].1 by {
            let b = bucket_of::<K>(es[i].0@, n);
            let j = choose|j: int| 0 <= j < bs[b].len() && bs[b][j] == es[i];
            self.lemma_lookup(es[i].0@, j);
        }
        assert forall|k: K::V| #[trigger] self@.contains_key(k) implies exists|i: int|
            0 <= i < es.len() && (#[trigger] es[i]).0@ == k by {
            let b = bucket_of::<K>(k, n);
            let j = choose|j: int| 0 <= j < self.home(k).len() && (#[trigger] self.home(k)[j]).0@ == k;
            lemma_flat_at(bs, b);
            assert(es[start_of(bs, b) + j] == bs[b][j]);
        }
        let ks = es.map_values(|e: (K, V)| e.0@);
        assert forall|i: int, j: int| 0 <= i < ks.len() && 0 <= j < ks.len() && i != j
            implies ks[i] != ks[j] by {
            assert(ks[i] == es[i].0@ && ks[j] == es[j].0@);
        }
        assert(ks.no_duplicates());
        ks.unique_seq_to_set();
        assert forall|k: K::V| #[trigger] ks.to_set().contains(k) == self@.dom().contains(k) by {
            if ks.to_set().contains(k) {
                let i = choose|i: int| 0 <= i < ks.len() && ks[i] == k;
                assert(es[i].0@ == k);
            }
            if self@.dom().contains(k) {
                let i = choose|i: int| 0 <= i < es.len() && (#[trigger] es[i]).0@ == k;
                assert(ks[i] == k);
            }
        }
        assert(ks.to_set() =~= self@.dom());
    }
}

/// What is left to move while the bucket array is rebuilt: the buckets not
/// yet taken, then what remains of the bucket being emptied.
spec fn pending<K, V>(rest: Seq<Vec<(K, V)>>, cur: Seq<(K, V)>) -> Seq<(K, V)> {
    flat(rest.map_values(|b: Vec<(K, V)>| b@)) + cur
}

/// Over buckets whose entries are placed by their keys' hashes, the
/// flattened entries have distinct keys, and each of them comes from its own
/// key's bucket.
proof fn lemma_flat_keys<K: HashKey, V>(bs: Seq<Seq<(K, V)>>, n: nat)
    requires
        bs.len() <= n,
        placed(bs, n),
        buckets_distinct(bs),
    ensures
        keys_distinct(flat(bs)),
        forall|i: int|
            0 <= i < flat(bs).len() ==> {
                let b = bucket_of::<K>((#[trigger] flat(bs)[i]).0@, n);
                &&& 0 <= b < bs.len()
                &&& exists|j: int| 0 <= j < bs[b].len() && bs[b][j] == flat(bs)[i]
            },
    decreases bs.len(),
{
    if bs.len() > 0 {
        let pre = bs.drop_last();
        let last = bs.last();
        let l = bs.len() - 1;
        assert(placed(pre, n));
        assert(buckets_distinct(pre));
        lemma_flat_keys::<K, V>(pre, n);
        let fp = flat(pre);
        let f = flat(bs);
        assert(f == fp + last);
        assert(keys_distinct(last));
        assert forall|i: int| 0 <= i < f.len() implies {
            let b = bucket_of::<K>((#[trigger] f[i]).0@, n);
            &&& 0 <= b < bs.len()
            &&& exists|j: int| 0 <= j < bs[b].len() && bs[b][j] == f[i]
        } by {
            if i >= fp.len() {
                let j = i - fp.len();
                assert(last[j] == f[i]);
                assert(bs[l][j] == f[i]);
            } else {
                assert(f[i] == fp[i]);
            }
        }
        assert forall|i: int, j: int| 0 <= i < f.len() && 0 <= j < f.len() && i != j
            implies f[i].0@ != f[j].0@ by {
            if i < fp.len() && j < fp.len() {
                assert(f[i] == fp[i] && f[j] == fp[j]);
            } else if i >= fp.len() && j >= fp.len() {
                assert(f[i] == last[i - fp.len()] && f[j] == last[j - fp.len()]);
            } else {
                assert(bucket_of::<K>(f[i].0@, n) != bucket_of::<K>(f[j].0@, n));
            }
        }
    }
}

} // verus!
