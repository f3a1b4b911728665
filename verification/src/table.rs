//! Small association tables keyed by strings or node ids, with a map view.

use vstd::prelude::*;

verus! {

/// A key of a [`Table`]: compared and copied by its view.
pub trait TableKey: View + Sized {
    /// Key equality.
    fn key_eq(&self, other: &Self) -> (r: bool)
        ensures
            r == (self@ == other@),
    ;

    /// A copy of the key.
    fn key_clone(&self) -> (r: Self)
        ensures
            r@ == self@,
    ;
}

impl TableKey for String {
    fn key_eq(&self, other: &Self) -> (r: bool) {
        *self == *other
    }

    fn key_clone(&self) -> (r: Self) {
        self.clone()
    }
}

impl TableKey for u128 {
    fn key_eq(&self, other: &Self) -> (r: bool) {
        *self == *other
    }

    fn key_clone(&self) -> (r: Self) {
        *self
    }
}

impl TableKey for (String, u128) {
    fn key_eq(&self, other: &Self) -> (r: bool) {
        self.0 == other.0 && self.1 == other.1
    }

    fn key_clone(&self) -> (r: Self) {
        (self.0.clone(), self.1)
    }
}

impl TableKey for (String, String) {
    fn key_eq(&self, other: &Self) -> (r: bool) {
        self.0 == other.0 && self.1 == other.1
    }

    fn key_clone(&self) -> (r: Self) {
        (self.0.clone(), self.1.clone())
    }
}

/// The value bound to `k` in an entry list (the last binding wins; keys are kept unique).
pub open spec fn lookup<KV, V>(s: Seq<(KV, V)>, k: KV) -> Option<V>
    decreases s.len(),
{
    if s.len() == 0 {
        None
    } else if s.last().0 == k {
        Some(s.last().1)
    } else {
        lookup(s.drop_last(), k)
    }
}

/// No key occurs twice.
pub open spec fn keys_unique<KV, V>(s: Seq<(KV, V)>) -> bool {
    forall|i: int, j: int| 0 <= i < j < s.len() ==> #[trigger] s[i].0 != #[trigger] s[j].0
}

/// The map an entry list denotes.
pub open spec fn as_map<KV, V>(s: Seq<(KV, V)>) -> Map<KV, V> {
    Map::new(|k: KV| lookup(s, k) is Some, |k: KV| lookup(s, k)->0)
}

proof fn lemma_lookup_index<KV, V>(s: Seq<(KV, V)>, k: KV)
    requires
        keys_unique(s),
    ensures
        lookup(s, k) is Some <==> exists|i: int| 0 <= i < s.len() && s[i].0 == k,
        forall|i: int| 0 <= i < s.len() && #[trigger] s[i].0 == k ==> lookup(s, k) == Some(s[i].1),
    decreases s.len(),
{
    if s.len() > 0 {
        let t = s.drop_last();
        assert(keys_unique(t)) by {
            assert forall|i: int, j: int| 0 <= i < j < t.len() implies #[trigger] t[i].0
                != #[trigger] t[j].0 by {
                assert(t[i] == s[i] && t[j] == s[j]);
            }
        }
        lemma_lookup_index(t, k);
        if s.last().0 != k {
            assert forall|i: int| 0 <= i < s.len() && #[trigger] s[i].0 == k implies lookup(s, k)
                == Some(s[i].1) by {
                assert(i < t.len());
                assert(t[i] == s[i]);
            }
            if exists|i: int| 0 <= i < s.len() && s[i].0 == k {
                let i = choose|i: int| 0 <= i < s.len() && s[i].0 == k;
                assert(t[i] == s[i]);
            }
            if exists|i: int| 0 <= i < t.len() && t[i].0 == k {
                let i = choose|i: int| 0 <= i < t.len() && t[i].0 == k;
                assert(t[i] == s[i]);
            }
        } else {
            assert(s[s.len() - 1].0 == k);
            assert forall|i: int| 0 <= i < s.len() && #[trigger] s[i].0 == k implies lookup(s, k)
                == Some(s[i].1) by {
                if i < s.len() - 1 {
                    assert(s[i].0 != s[s.len() - 1].0);
                }
            }
        }
    }
}

/// The entries with their keys taken by view.
pub open spec fn kv_view<K: View, V>(s: Seq<(K, V)>) -> Seq<(K::V, V)> {
    s.map_values(|e: (K, V)| (e.0@, e.1))
}

/// A rule deciding which bindings of a table to keep.
pub trait KeepRule<K: View, V> {
    /// Whether the binding `(k, v)` is kept.
    spec fn holds(&self, k: K::V, v: V) -> bool;

    /// Decides one binding.
    fn keep(&self, k: &K, v: &V) -> (r: bool)
        ensures
            r == self.holds(k@, *v),
    ;
}

/// An association table with unique keys.
pub struct Table<K, V> {
    entries: Vec<(K, V)>,
}

impl<K: TableKey, V> Table<K, V> {
    /// The entries, by key view.
    pub closed spec fn entries_view(&self) -> Seq<(K::V, V)> {
        kv_view(self.entries@)
    }

    /// The map of the table.
    pub closed spec fn map(&self) -> Map<K::V, V> {
        as_map(self.entries_view())
    }

    /// Well-formedness: keys are unique.
    pub closed spec fn wf(&self) -> bool {
        keys_unique(self.entries_view())
    }

    /// An empty table.
    pub fn new() -> (r: Self)
        ensures
            r.wf(),
            r.map() == Map::<K::V, V>::empty(),
    {
        let r = Table { entries: Vec::new() };
        assert(r.entries_view() =~= Seq::empty());
        assert(r.map() =~= Map::<K::V, V>::empty());
        r
    }

    /// Number of entries.
    pub fn len(&self) -> (r: usize)
        requires
            self.wf(),
        ensures
            r == self.map().dom().len(),
    {
        proof {
            self.lemma_dom_len();
        }
        self.entries.len()
    }

    proof fn lemma_dom_len(&self)
        requires
            self.wf(),
        ensures
            self.map().dom().finite(),
            self.map().dom().len() == self.entries@.len(),
    {
        let s = self.entries_view();
        lemma_dom_of(s);
    }

    fn find(&self, k: &K) -> (r: Option<usize>)
        requires
            self.wf(),
        ensures
            match r {
                Some(i) => i < self.entries@.len() && self.entries@[i as int].0@ == k@,
                None => !self.map().dom().contains(k@),
            },
    {
        let mut i: usize = 0;
        while i < self.entries.len()
            invariant
                i <= self.entries@.len(),
                forall|j: int| 0 <= j < i ==> self.entries@[j].0@ != k@,
            decreases self.entries.len() - i,
        {
            if self.entries[i].0.key_eq(k) {
                return Some(i);
            }
            i = i + 1;
        }
        proof {
            let s = self.entries_view();
            lemma_lookup_index(s, k@);
            if exists|j: int| 0 <= j < s.len() && s[j].0 == k@ {
                let j = choose|j: int| 0 <= j < s.len() && s[j].0 == k@;
                assert(s[j].0 == self.entries@[j].0@);
            }
        }
        None
    }

    /// Whether `k` is bound.
    pub fn contains_key(&self, k: &K) -> (r: bool)
        requires
            self.wf(),
        ensures
            r == self.map().dom().contains(k@),
    {
        match self.find(k) {
            Some(i) => {
                proof {
                    let s = self.entries_view();
                    lemma_lookup_index(s, k@);
                    assert(s[i as int].0 == k@);
                }
                true
            },
            None => false,
        }
    }

    /// The value bound to `k`.
    pub fn get(&self, k: &K) -> (r: Option<&V>)
        requires
            self.wf(),
        ensures
            match r {
                Some(v) => self.map().dom().contains(k@) && self.map()[k@] == *v,
                None => !self.map().dom().contains(k@),
            },
    {
        match self.find(k) {
            Some(i) => {
                proof {
                    let s = self.entries_view();
                    lemma_lookup_index(s, k@);
                    assert(s[i as int].0 == k@);
                    assert(s[i as int].1 == self.entries@[i as int].1);
                }
                Some(&self.entries[i].1)
            },
            None => None,
        }
    }

    /// Keeps exactly the bindings `(k, v)` for which `keep` holds; returns the bindings dropped.
    pub fn retain<R: KeepRule<K, V>>(&mut self, rule: &R) -> (dropped: Vec<(K, V)>)
        requires
            old(self).wf(),
        ensures
            final(self).wf(),
            forall|q: K::V| #[trigger] final(self).map().dom().contains(q) == (old(self).map().dom().contains(q)
                && rule.holds(q, old(self).map()[q])),
            forall|q: K::V| #[trigger] final(self).map().dom().contains(q) ==> final(self).map()[q]
                == old(self).map()[q],
            keys_unique(kv_view(dropped@)),
            forall|q: K::V| #[trigger] as_map(kv_view(dropped@)).dom().contains(q) == (old(self).map().dom().contains(q)
                && !rule.holds(q, old(self).map()[q])),
            forall|q: K::V| #[trigger] as_map(kv_view(dropped@)).dom().contains(q) ==> as_map(kv_view(dropped@))[q]
                == old(self).map()[q],
    {
        let ghost old_s = self.entries_view();
        let mut rest: Vec<(K, V)> = Vec::new();
        std::mem::swap(&mut rest, &mut self.entries);
        assert(kv_view(rest@) == old_s);
        let mut kept: Vec<(K, V)> = Vec::new();
        let mut dropped: Vec<(K, V)> = Vec::new();
        assert(kv_view(kept@) =~= Seq::empty());
        assert(kv_view(dropped@) =~= Seq::empty());
        assert(old_s.skip(old_s.len() as int) =~= Seq::empty());
        while rest.len() > 0
            invariant
                keys_unique(old_s),
                rest@.len() <= old_s.len(),
                kv_view(rest@) == old_s.take(rest@.len() as int),
                keys_unique(kv_view(kept@)),
                forall|q: K::V| #[trigger] lookup(kv_view(kept@), q) == (
                match lookup(old_s.skip(rest@.len() as int), q) {
                    Some(v) => if rule.holds(q, v) {
                        Some(v)
                    } else {
                        None
                    },
                    None => None,
                }),
                keys_unique(kv_view(dropped@)),
                forall|q: K::V| #[trigger] lookup(kv_view(dropped@), q) == (
                match lookup(old_s.skip(rest@.len() as int), q) {
                    Some(v) => if !rule.holds(q, v) {
                        Some(v)
                    } else {
                        None
                    },
                    None => None,
                }),
            decreases rest@.len(),
        {
            let ghost n = rest@.len() as int;
            let ghost ks = kv_view(kept@);
            let ghost ds = kv_view(dropped@);
            let ghost rv = kv_view(rest@);
            let e = rest.pop().unwrap();
            let ghost ev = (e.0@, e.1);
            proof {
                assert(rv[n - 1] == ev);
                assert(kv_view(rest@) =~= old_s.take(n - 1));
                assert(old_s.take(n)[n - 1] == old_s[n - 1]);
                assert(old_s[n - 1] == ev);
                lemma_prepend_unique(old_s, n - 1);
            }
            let k_ok = rule.keep(&e.0, &e.1);
            if k_ok {
                kept.push(e);
                proof {
                    assert(lookup(ds, ev.0) is None);
                    assert forall|q: K::V| #[trigger] lookup(ds, q) == (match lookup(
                        old_s.skip(n - 1),
                        q,
                    ) {
                        Some(v) => if !rule.holds(q, v) {
                            Some(v)
                        } else {
                            None
                        },
                        None => None,
                    }) by {
                        assert(lookup(ds, q) == (match lookup(old_s.skip(n), q) {
                            Some(v) => if !rule.holds(q, v) {
                                Some(v)
                            } else {
                                None
                            },
                            None => None,
                        }));
                    }
                }
                proof {
                    let ks2 = kv_view(kept@);
                    assert(ks2 =~= ks.push(ev));
                    assert(ks2.drop_last() =~= ks);
                    assert(lookup(ks, ev.0) is None);
                    assert(keys_unique(ks2)) by {
                        assert forall|a: int, b: int| 0 <= a < b < ks2.len() implies #[trigger] ks2[a].0
                            != #[trigger] ks2[b].0 by {
                            if b == ks2.len() - 1 {
                                assert(ks2[a] == ks[a]);
                                lemma_lookup_index(ks, ks[a].0);
                            } else {
                                assert(ks2[a] == ks[a] && ks2[b] == ks[b]);
                            }
                        }
                    }
                    assert forall|q: K::V| #[trigger] lookup(ks2, q) == (match lookup(
                        old_s.skip(n - 1),
                        q,
                    ) {
                        Some(v) => if rule.holds(q, v) {
                            Some(v)
                        } else {
                            None
                        },
                        None => None,
                    }) by {
                        assert(lookup(ks, q) == (match lookup(old_s.skip(n), q) {
                            Some(v) => if rule.holds(q, v) {
                                Some(v)
                            } else {
                                None
                            },
                            None => None,
                        }));
                    }
                }
            } else {
                dropped.push(e);
                proof {
                    let ds2 = kv_view(dropped@);
                    assert(ds2 =~= ds.push(ev));
                    assert(ds2.drop_last() =~= ds);
                    assert(lookup(ds, ev.0) is None);
                    assert(keys_unique(ds2)) by {
                        assert forall|a: int, b: int| 0 <= a < b < ds2.len() implies #[trigger] ds2[a].0
                            != #[trigger] ds2[b].0 by {
                            if b == ds2.len() - 1 {
                                assert(ds2[a] == ds[a]);
                                lemma_lookup_index(ds, ds[a].0);
                            } else {
                                assert(ds2[a] == ds[a] && ds2[b] == ds[b]);
                            }
                        }
                    }
                    assert forall|q: K::V| #[trigger] lookup(ds2, q) == (match lookup(
                        old_s.skip(n - 1),
                        q,
                    ) {
                        Some(v) => if !rule.holds(q, v) {
                            Some(v)
                        } else {
                            None
                        },
                        None => None,
                    }) by {
                        assert(lookup(ds, q) == (match lookup(old_s.skip(n), q) {
                            Some(v) => if !rule.holds(q, v) {
                                Some(v)
                            } else {
                                None
                            },
                            None => None,
                        }));
                    }
                }
                proof {
                    assert(lookup(ks, ev.0) is None);
                    assert forall|q: K::V| #[trigger] lookup(ks, q) == (match lookup(
                        old_s.skip(n - 1),
                        q,
                    ) {
                        Some(v) => if rule.holds(q, v) {
                            Some(v)
                        } else {
                            None
                        },
                        None => None,
                    }) by {
                        assert(lookup(ks, q) == (match lookup(old_s.skip(n), q) {
                            Some(v) => if rule.holds(q, v) {
                                Some(v)
                            } else {
                                None
                            },
                            None => None,
                        }));
                    }
                }
            }
        }
        assert(old_s.skip(0) =~= old_s);
        self.entries = kept;
        proof {
            let s = self.entries_view();
            assert forall|q: K::V| #[trigger] as_map(s).dom().contains(q) == (as_map(old_s).dom().contains(q)
                && rule.holds(q, as_map(old_s)[q])) by {
            }
            let d = kv_view(dropped@);
            assert forall|q: K::V| #[trigger] as_map(d).dom().contains(q) == (as_map(old_s).dom().contains(q)
                && !rule.holds(q, as_map(old_s)[q])) by {
            }
        }
        dropped
    }

    /// The bound values (in no particular order).
    pub fn values(&self) -> (r: Vec<V>) where V: Copy
        requires
            self.wf(),
        ensures
            forall|v: V| #[trigger] r@.contains(v) <==> exists|q: K::V| #[trigger] self.map().dom().contains(q)
                && self.map()[q] == v,
    {
        let ghost s = self.entries_view();
        let mut r: Vec<V> = Vec::new();
        let mut i: usize = 0;
        while i < self.entries.len()
            invariant
                i <= self.entries@.len(),
                s == self.entries_view(),
                r@.len() == i,
                forall|j: int| 0 <= j < i ==> r@[j] == s[j].1,
            decreases self.entries.len() - i,
        {
            r.push(self.entries[i].1);
            i = i + 1;
        }
        proof {
            assert forall|v: V| #[trigger] r@.contains(v) <==> exists|q: K::V| #[trigger] self.map().dom().contains(q)
                && self.map()[q] == v by {
                if r@.contains(v) {
                    let j = choose|j: int| 0 <= j < r@.len() && r@[j] == v;
                    lemma_lookup_index(s, s[j].0);
                    assert(self.map().dom().contains(s[j].0) && self.map()[s[j].0] == v);
                }
                if exists|q: K::V| #[trigger] self.map().dom().contains(q) && self.map()[q] == v {
                    let q = choose|q: K::V| #[trigger] self.map().dom().contains(q) && self.map()[q] == v;
                    lemma_lookup_index(s, q);
                    let j = choose|j: int| 0 <= j < s.len() && s[j].0 == q;
                    assert(r@[j] == v);
                }
            }
        }
        r
    }

    /// The bindings, as key/value pairs (in no particular order).
    pub fn pairs(&self) -> (r: Vec<(K, V)>) where K: Copy, V: Copy
        requires
            self.wf(),
        ensures
            forall|i: int| #![trigger r@[i]] 0 <= i < r@.len() ==> self.map().dom().contains(r@[i].0@)
                && self.map()[r@[i].0@] == r@[i].1,
            forall|q: K::V| #[trigger] self.map().dom().contains(q) ==> exists|i: int| #![trigger r@[i]] 0 <= i < r@.len()
                && r@[i].0@ == q,
    {
        let ghost s = self.entries_view();
        let mut r: Vec<(K, V)> = Vec::new();
        let mut i: usize = 0;
        while i < self.entries.len()
            invariant
                i <= self.entries@.len(),
                s == self.entries_view(),
                r@.len() == i,
                forall|j: int| 0 <= j < i ==> r@[j] == self.entries@[j],
            decreases self.entries.len() - i,
        {
            let e = self.entries[i];
            r.push(e);
            i = i + 1;
        }
        proof {
            assert forall|i: int| #![trigger r@[i]] 0 <= i < r@.len() implies self.map().dom().contains(r@[i].0@)
                && self.map()[r@[i].0@] == r@[i].1 by {
                assert(s[i] == (r@[i].0@, r@[i].1));
                lemma_lookup_index(s, r@[i].0@);
            }
            assert forall|q: K::V| #[trigger] self.map().dom().contains(q) implies exists|i: int| #![trigger r@[i]] 0 <= i < r@.len()
                && r@[i].0@ == q by {
                lemma_lookup_index(s, q);
                let j = choose|j: int| 0 <= j < s.len() && s[j].0 == q;
                assert(s[j] == (self.entries@[j].0@, self.entries@[j].1));
                assert(r@[j].0@ == q);
            }
        }
        r
    }

    /// The keys whose binding satisfies `rule`, each once (in no particular order).
    pub fn keys_where<R: KeepRule<K, V>>(&self, rule: &R) -> (r: Vec<K>)
        requires
            self.wf(),
        ensures
            forall|a: int, b: int| 0 <= a < b < r@.len() ==> #[trigger] r@[a]@ != #[trigger] r@[b]@,
            forall|i: int| #![trigger r@[i]] 0 <= i < r@.len() ==> self.map().dom().contains(r@[i]@)
                && rule.holds(r@[i]@, self.map()[r@[i]@]),
            forall|q: K::V| #[trigger] self.map().dom().contains(q) && rule.holds(q, self.map()[q])
                ==> exists|i: int| #![trigger r@[i]] 0 <= i < r@.len() && r@[i]@ == q,
    {
        let ghost s = self.entries_view();
        let mut r: Vec<K> = Vec::new();
        let ghost mut idx: Seq<int> = Seq::empty();
        let mut i: usize = 0;
        while i < self.entries.len()
            invariant
                i <= self.entries@.len(),
                s == self.entries_view(),
                keys_unique(s),
                idx.len() == r@.len(),
                forall|a: int| #![trigger idx[a]] 0 <= a < idx.len() ==> 0 <= idx[a] < i && r@[a]@ == s[idx[a]].0
                    && rule.holds(s[idx[a]].0, s[idx[a]].1),
                forall|a: int, b: int| 0 <= a < b < idx.len() ==> #[trigger] idx[a] < #[trigger] idx[b],
                forall|j: int| 0 <= j < i && rule.holds(s[j].0, s[j].1) ==> exists|a: int|
                    #![trigger idx[a]] 0 <= a < idx.len() && idx[a] == j,
            decreases self.entries.len() - i,
        {
            let ok = rule.keep(&self.entries[i].0, &self.entries[i].1);
            let ghost old_idx = idx;
            if ok {
                let k = self.entries[i].0.key_clone();
                r.push(k);
                proof {
                    idx = idx.push(i as int);
                }
            }
            proof {
                assert forall|j: int| 0 <= j < i + 1 && rule.holds(s[j].0, s[j].1) implies exists|a: int|
                    #![trigger idx[a]] 0 <= a < idx.len() && idx[a] == j by {
                    if j == i {
                        assert(idx[idx.len() - 1] == j);
                    } else {
                        let a = choose|a: int| #![trigger old_idx[a]] 0 <= a < old_idx.len() && old_idx[a] == j;
                        assert(idx[a] == old_idx[a]);
                    }
                }
            }
            i = i + 1;
        }
        proof {
            assert forall|a: int, b: int| 0 <= a < b < r@.len() implies #[trigger] r@[a]@ != #[trigger] r@[b]@ by {
                assert(idx[a] < idx[b]);
                assert(s[idx[a]].0 != s[idx[b]].0);
            }
            assert forall|a: int| #![trigger r@[a]] 0 <= a < r@.len() implies self.map().dom().contains(r@[a]@)
                && rule.holds(r@[a]@, self.map()[r@[a]@]) by {
                let j = idx[a];
                lemma_lookup_index(s, s[j].0);
            }
            assert forall|q: K::V| #[trigger] self.map().dom().contains(q) && rule.holds(q, self.map()[q])
                implies exists|a: int| #![trigger r@[a]] 0 <= a < r@.len() && r@[a]@ == q by {
                lemma_lookup_index(s, q);
                let j = choose|j: int| 0 <= j < s.len() && s[j].0 == q;
                let a = choose|a: int| #![trigger idx[a]] 0 <= a < idx.len() && idx[a] == j;
                assert(r@[a]@ == q);
            }
        }
        r
    }

    /// The bindings, consumed (in no particular order, each key once).
    pub fn into_entries(self) -> (r: Vec<(K, V)>)
        requires
            self.wf(),
        ensures
            keys_unique(kv_view(r@)),
            as_map(kv_view(r@)) == self.map(),
    {
        self.entries
    }

    /// Binds `k` to `v` (replacing a previous binding).
    pub fn insert(&mut self, k: K, v: V)
        requires
            old(self).wf(),
        ensures
            final(self).wf(),
            final(self).map() == old(self).map().insert(k@, v),
    {
        let ghost kv = k@;
        let ghost old_s = self.entries_view();
        match self.find(&k) {
            Some(i) => {
                let ghost vv = v;
                self.entries.set(i, (k, v));
                proof {
                    let s = self.entries_view();
                    assert(s =~= old_s.update(i as int, (kv, vv)));
                    assert(keys_unique(s)) by {
                        assert forall|a: int, b: int| 0 <= a < b < s.len() implies #[trigger] s[a].0
                            != #[trigger] s[b].0 by {
                            assert(s[a].0 == old_s[a].0 && s[b].0 == old_s[b].0);
                        }
                    }
                    lemma_lookup_index(old_s, kv);
                    assert forall|q: K::V| #[trigger] lookup(s, q) == (if q == kv {
                        Some(vv)
                    } else {
                        lookup(old_s, q)
                    }) by {
                        lemma_lookup_index(s, q);
                        lemma_lookup_index(old_s, q);
                        if q != kv {
                            if exists|j: int| 0 <= j < s.len() && s[j].0 == q {
                                let j = choose|j: int| 0 <= j < s.len() && s[j].0 == q;
                                assert(old_s[j] == s[j]);
                            }
                            if exists|j: int| 0 <= j < old_s.len() && old_s[j].0 == q {
                                let j = choose|j: int| 0 <= j < old_s.len() && old_s[j].0 == q;
                                assert(old_s[j] == s[j]);
                            }
                        } else {
                            assert(s[i as int].0 == kv);
                        }
                    }
                    assert(self.map() =~= as_map(old_s).insert(kv, vv));
                }
            },
            None => {
                let ghost vv = v;
                self.entries.push((k, v));
                proof {
                    let s = self.entries_view();
                    assert(s =~= old_s.push((kv, vv)));
                    lemma_lookup_index(old_s, kv);
                    assert(keys_unique(s)) by {
                        assert forall|a: int, b: int| 0 <= a < b < s.len() implies #[trigger] s[a].0
                            != #[trigger] s[b].0 by {
                            if b == s.len() - 1 {
                                assert(old_s[a] == s[a]);
                            } else {
                                assert(old_s[a] == s[a] && old_s[b] == s[b]);
                            }
                        }
                    }
                    assert forall|q: K::V| #[trigger] lookup(s, q) == (if q == kv {
                        Some(vv)
                    } else {
                        lookup(old_s, q)
                    }) by {
                        assert(s.drop_last() =~= old_s);
                    }
                    assert(self.map() =~= as_map(old_s).insert(kv, vv));
                }
            },
        }
    }

    /// Unbinds `k`.
    pub fn remove(&mut self, k: &K)
        requires
            old(self).wf(),
        ensures
            final(self).wf(),
            final(self).map() == old(self).map().remove(k@),
    {
        let ghost kv = k@;
        let ghost old_s = self.entries_view();
        match self.find(k) {
            Some(i) => {
                let _ = self.entries.remove(i);
                proof {
                    let s = self.entries_view();
                    assert(s =~= old_s.remove(i as int));
                    assert(keys_unique(s)) by {
                        assert forall|a: int, b: int| 0 <= a < b < s.len() implies #[trigger] s[a].0
                            != #[trigger] s[b].0 by {
                            let a2 = if a < i { a } else { a + 1 };
                            let b2 = if b < i { b } else { b + 1 };
                            assert(s[a] == old_s[a2] && s[b] == old_s[b2]);
                        }
                    }
                    assert forall|q: K::V| #[trigger] lookup(s, q) == (if q == kv {
                        None
                    } else {
                        lookup(old_s, q)
                    }) by {
                        lemma_lookup_index(s, q);
                        lemma_lookup_index(old_s, q);
                        if q == kv {
                            if exists|j: int| 0 <= j < s.len() && s[j].0 == q {
                                let j = choose|j: int| 0 <= j < s.len() && s[j].0 == q;
                                let j2 = if j < i { j } else { j + 1 };
                                assert(s[j] == old_s[j2]);
                                assert(old_s[i as int].0 == kv);
                            }
                        } else {
                            if exists|j: int| 0 <= j < s.len() && s[j].0 == q {
                                let j = choose|j: int| 0 <= j < s.len() && s[j].0 == q;
                                let j2 = if j < i { j } else { j + 1 };
                                assert(s[j] == old_s[j2]);
                            }
                            if exists|j: int| 0 <= j < old_s.len() && old_s[j].0 == q {
                                let j = choose|j: int| 0 <= j < old_s.len() && old_s[j].0 == q;
                                assert(j != i);
                                let j2 = if j < i { j } else { j - 1 };
                                assert(s[j2] == old_s[j]);
                            }
                        }
                    }
                    assert(self.map() =~= as_map(old_s).remove(kv));
                }
            },
            None => {
                assert(self.map() =~= self.map().remove(kv));
            },
        }
    }
}

/// Taking one more element in front of a unique-key suffix: the suffix map gains that binding,
/// and its key was not bound in the suffix.
proof fn lemma_prepend_unique<KV, V>(s: Seq<(KV, V)>, i: int)
    requires
        keys_unique(s),
        0 <= i < s.len(),
    ensures
        lookup(s.skip(i + 1), s[i].0) is None,
        forall|q: KV| #[trigger] lookup(s.skip(i), q) == (if q == s[i].0 {
            Some(s[i].1)
        } else {
            lookup(s.skip(i + 1), q)
        }),
{
    let t = s.skip(i + 1);
    let u = s.skip(i);
    assert(keys_unique(t)) by {
        assert forall|a: int, b: int| 0 <= a < b < t.len() implies #[trigger] t[a].0 != #[trigger] t[b].0 by {
            assert(t[a] == s[a + i + 1] && t[b] == s[b + i + 1]);
        }
    }
    assert(keys_unique(u)) by {
        assert forall|a: int, b: int| 0 <= a < b < u.len() implies #[trigger] u[a].0 != #[trigger] u[b].0 by {
            assert(u[a] == s[a + i] && u[b] == s[b + i]);
        }
    }
    lemma_lookup_index(t, s[i].0);
    if exists|j: int| 0 <= j < t.len() && t[j].0 == s[i].0 {
        let j = choose|j: int| 0 <= j < t.len() && t[j].0 == s[i].0;
        assert(t[j] == s[j + i + 1]);
    }
    assert forall|q: KV| #[trigger] lookup(u, q) == (if q == s[i].0 {
        Some(s[i].1)
    } else {
        lookup(t, q)
    }) by {
        lemma_lookup_index(u, q);
        lemma_lookup_index(t, q);
        assert(u[0] == s[i]);
        if q != s[i].0 {
            if exists|j: int| 0 <= j < u.len() && u[j].0 == q {
                let j = choose|j: int| 0 <= j < u.len() && u[j].0 == q;
                assert(j > 0);
                assert(u[j] == t[j - 1]);
            }
            if exists|j: int| 0 <= j < t.len() && t[j].0 == q {
                let j = choose|j: int| 0 <= j < t.len() && t[j].0 == q;
                assert(u[j + 1] == t[j]);
            }
        }
    }
}

proof fn lemma_dom_of<KV, V>(s: Seq<(KV, V)>)
    requires
        keys_unique(s),
    ensures
        as_map(s).dom().finite(),
        as_map(s).dom().len() == s.len(),
    decreases s.len(),
{
    if s.len() == 0 {
        assert(as_map(s).dom() =~= Set::<KV>::empty());
    } else {
        let t = s.drop_last();
        assert(keys_unique(t)) by {
            assert forall|i: int, j: int| 0 <= i < j < t.len() implies #[trigger] t[i].0
                != #[trigger] t[j].0 by {
                assert(t[i] == s[i] && t[j] == s[j]);
            }
        }
        lemma_dom_of(t);
        lemma_lookup_index(t, s.last().0);
        if exists|i: int| 0 <= i < t.len() && t[i].0 == s.last().0 {
            let i = choose|i: int| 0 <= i < t.len() && t[i].0 == s.last().0;
            assert(t[i] == s[i]);
            assert(s[i].0 != s[s.len() - 1].0);
        }
        assert(as_map(s).dom() =~= as_map(t).dom().insert(s.last().0));
    }
}

} // verus!
