//! A table keyed by unit id, held as a vector sorted by key so that walking it
//! visits the ids in ascending order.
use vstd::prelude::*;

verus! {

/// Unit ids.
pub type EID = u32;

/// Keys strictly ascending along the sequence.
pub open spec fn keys_sorted<V>(s: Seq<(EID, V)>) -> bool {
    forall|i: int, j: int| 0 <= i < j < s.len() ==> s[i].0 < s[j].0
}

pub open spec fn seq_has<V>(s: Seq<(EID, V)>, k: EID) -> bool {
    exists|i: int| 0 <= i < s.len() && s[i].0 == k
}

/// One of the first `n` pairs has key `k`.
pub open spec fn prefix_has<V>(s: Seq<(EID, V)>, n: int, k: EID) -> bool {
    exists|j: int| 0 <= j < n && s[j].0 == k
}

pub proof fn lemma_prefix_step<V>(s: Seq<(EID, V)>, n: int)
    requires
        0 <= n < s.len(),
    ensures
        forall|k: EID| #[trigger] prefix_has(s, n + 1, k) == (prefix_has(s, n, k) || s[n].0 == k),
{
    assert forall|k: EID| #[trigger] prefix_has(s, n + 1, k) == (prefix_has(s, n, k) || s[n].0 == k) by {
        if prefix_has(s, n + 1, k) && s[n].0 != k {
            let j = choose|j: int| 0 <= j < n + 1 && s[j].0 == k;
            assert(j < n);
        }
    }
}

pub proof fn lemma_prefix_full<V>(s: Seq<(EID, V)>)
    ensures
        forall|k: EID| #[trigger] prefix_has(s, s.len() as int, k) == seq_has(s, k),
{
}

/// The map that a sequence of pairs stands for.
pub open spec fn seq_to_map<V>(s: Seq<(EID, V)>) -> Map<EID, V> {
    Map::new(
        |k: EID| seq_has(s, k),
        |k: EID| s[choose|i: int| 0 <= i < s.len() && s[i].0 == k].1,
    )
}

pub proof fn lemma_entry<V>(s: Seq<(EID, V)>, i: int)
    requires
        keys_sorted(s),
        0 <= i < s.len(),
    ensures
        seq_to_map(s).contains_key(s[i].0),
        seq_to_map(s)[s[i].0] == s[i].1,
{
    assert(seq_has(s, s[i].0));
    let j = choose|j: int| 0 <= j < s.len() && s[j].0 == s[i].0;
    assert(j == i);
}

pub proof fn lemma_entries<V>(s: Seq<(EID, V)>)
    requires
        keys_sorted(s),
    ensures
        forall|i: int|
            0 <= i < s.len() ==> #[trigger] seq_to_map(s).contains_key(s[i].0) && seq_to_map(s)[s[i].0]
                == s[i].1,
        forall|k: EID| seq_to_map(s).contains_key(k) ==> seq_has(s, k),
{
    assert forall|i: int| 0 <= i < s.len() implies #[trigger] seq_to_map(s).contains_key(s[i].0)
        && seq_to_map(s)[s[i].0] == s[i].1 by {
        lemma_entry(s, i);
    }
}

/// A map from unit id to `V`.
pub struct IdMap<V> {
    entries: Vec<(EID, V)>,
}

impl<V> View for IdMap<V> {
    type V = Map<EID, V>;

    open spec fn view(&self) -> Map<EID, V> {
        seq_to_map(self.entries())
    }
}

impl<V> IdMap<V> {
    /// The pairs in ascending key order.
    pub closed spec fn entries(&self) -> Seq<(EID, V)> {
        self.entries@
    }

    pub open spec fn wf(&self) -> bool {
        keys_sorted(self.entries())
    }

    pub fn new() -> (r: Self)
        ensures
            r.wf(),
            r@ == Map::<EID, V>::empty(),
            r.entries().len() == 0,
    {
        let r = IdMap { entries: Vec::new() };
        assert(r@ =~= Map::<EID, V>::empty());
        r
    }

    pub fn len(&self) -> (r: usize)
        requires
            self.wf(),
        ensures
            r == self.entries().len(),
            r == self@.dom().len(),
            (r == 0) == (self@.dom() == Set::<EID>::empty()),
    {
        proof {
            self.lemma_dom_len();
            lemma_entries(self.entries());
            if self.entries().len() > 0 {
                assert(self@.dom().contains(self.entries()[0].0));
            } else {
                assert(self@.dom() =~= Set::<EID>::empty());
            }
        }
        self.entries.len()
    }

    pub proof fn lemma_dom_len(&self)
        requires
            self.wf(),
        ensures
            self@.dom() == self.entries().map_values(|e: (EID, V)| e.0).to_set(),
            self@.dom().len() == self.entries().len(),
            self@.dom().finite(),
    {
        let s = self.entries();
        let ks = s.map_values(|e: (EID, V)| e.0);
        lemma_entries(s);
        assert forall|k: EID| self@.dom().contains(k) <==> ks.to_set().contains(k) by {
            if self@.dom().contains(k) {
                let i = choose|i: int| 0 <= i < s.len() && s[i].0 == k;
                assert(ks[i] == k);
            }
            if ks.to_set().contains(k) {
                let i = choose|i: int| 0 <= i < ks.len() && ks[i] == k;
                assert(s[i].0 == k);
                assert(seq_has(s, k));
            }
        }
        assert(self@.dom() =~= ks.to_set());
        assert(ks.no_duplicates()) by {
            assert forall|i: int, j: int| 0 <= i < ks.len() && 0 <= j < ks.len() && i != j implies ks[i]
                != ks[j] by {
                if i < j {
                    assert(s[i].0 < s[j].0);
                } else {
                    assert(s[j].0 < s[i].0);
                }
            }
        }
        ks.unique_seq_to_set();
    }

    /// A copy of the table.
    pub fn copied(&self) -> (r: Self)
        where
            V: Copy,
        ensures
            r.entries() == self.entries(),
            r@ == self@,
    {
        let mut entries: Vec<(EID, V)> = Vec::new();
        let mut i: usize = 0;
        while i < self.entries.len()
            invariant
                i <= self.entries@.len(),
                entries@ == self.entries@.subrange(0, i as int),
            decreases self.entries@.len() - i,
        {
            let e: (EID, V) = self.entries[i];
            entries.push(e);
            i = i + 1;
            assert(entries@ =~= self.entries@.subrange(0, i as int));
        }
        assert(entries@ =~= self.entries@);
        IdMap { entries }
    }

    /// The values in ascending key order.
    pub fn values(&self) -> (r: Vec<V>)
        where
            V: Copy,
        requires
            self.wf(),
        ensures
            r@.len() == self@.dom().len(),
            forall|i: int| 0 <= i < r@.len() ==> #[trigger] r@[i] == self.entries()[i].1,
            forall|i: int| 0 <= i < r@.len() ==> self@.contains_key(#[trigger] self.entries()[i].0)
                && self@[self.entries()[i].0] == r@[i],
    {
        proof {
            self.lemma_dom_len();
            lemma_entries(self.entries());
        }
        let mut r: Vec<V> = Vec::new();
        let mut i: usize = 0;
        while i < self.entries.len()
            invariant
                i <= self.entries@.len(),
                r@.len() == i,
                forall|j: int| 0 <= j < i ==> #[trigger] r@[j] == self.entries@[j].1,
            decreases self.entries@.len() - i,
        {
            r.push(self.entries[i].1);
            i = i + 1;
        }
        r
    }

    /// The key of the `i`-th pair in ascending order.
    pub fn key_at(&self, i: usize) -> (r: EID)
        requires
            i < self.entries().len(),
        ensures
            r == self.entries()[i as int].0,
    {
        self.entries[i].0
    }

    /// Replaces the value of the `i`-th pair, keeping its key.
    pub fn set_value(&mut self, i: usize, v: V)
        requires
            old(self).wf(),
            i < old(self).entries().len(),
        ensures
            final(self).wf(),
            final(self).entries() == old(self).entries().update(i as int, (old(self).entries()[i as int].0, v)),
    {
        let k = self.entries[i].0;
        self.entries.set(i, (k, v));
    }

    /// The value of the `i`-th pair in ascending order.
    pub fn value_at(&self, i: usize) -> (r: &V)
        requires
            i < self.entries().len(),
        ensures
            *r == self.entries()[i as int].1,
    {
        &self.entries[i].1
    }

    /// The position of `k`, or where it would be inserted.
    fn position(&self, k: EID) -> (r: usize)
        requires
            self.wf(),
        ensures
            r <= self.entries().len(),
            forall|j: int| 0 <= j < r ==> self.entries()[j].0 < k,
            r < self.entries().len() ==> self.entries()[r as int].0 >= k,
    {
        let mut i: usize = 0;
        while i < self.entries.len() && self.entries[i].0 < k
            invariant
                self.wf(),
                i <= self.entries@.len(),
                forall|j: int| 0 <= j < i ==> self.entries@[j].0 < k,
            decreases self.entries@.len() - i,
        {
            i = i + 1;
        }
        i
    }

    pub fn get(&self, k: EID) -> (r: Option<&V>)
        requires
            self.wf(),
        ensures
            match r {
                Some(v) => self@.contains_key(k) && *v == self@[k],
                None => !self@.contains_key(k),
            },
    {
        proof {
            lemma_entries(self.entries());
        }
        let i = self.position(k);
        if i < self.entries.len() && self.entries[i].0 == k {
            Some(&self.entries[i].1)
        } else {
            proof {
                if seq_has(self.entries(), k) {
                    let j = choose|j: int| 0 <= j < self.entries().len() && self.entries()[j].0 == k;
                    if j >= i {
                        assert(self.entries()[i as int].0 > k);
                        if j > i {
                            assert(self.entries()[i as int].0 < self.entries()[j].0);
                        }
                    }
                }
            }
            None
        }
    }

    pub fn contains_key(&self, k: EID) -> (r: bool)
        requires
            self.wf(),
        ensures
            r == self@.contains_key(k),
    {
        match self.get(k) {
            Some(_) => true,
            None => false,
        }
    }

    pub fn insert(&mut self, k: EID, v: V)
        requires
            old(self).wf(),
        ensures
            final(self).wf(),
            final(self)@ == old(self)@.insert(k, v),
    {
        let ghost s0 = self.entries();
        proof {
            lemma_entries(s0);
        }
        let i = self.position(k);
        if i < self.entries.len() && self.entries[i].0 == k {
            self.entries.set(i, (k, v));
            let ghost s1 = self.entries();
            assert(s1 == s0.update(i as int, (k, v)));
            assert(keys_sorted(s1));
            proof {
                lemma_entries(s1);
            }
            assert forall|kk: EID| #[trigger] self@.contains_key(kk) == old(self)@.insert(k, v).contains_key(kk)
                && (self@.contains_key(kk) ==> self@[kk] == old(self)@.insert(k, v)[kk]) by {
                if kk == k {
                    assert(s1[i as int].0 == k);
                } else {
                    if seq_has(s1, kk) {
                        let j = choose|j: int| 0 <= j < s1.len() && s1[j].0 == kk;
                        assert(s0[j] == s1[j]);
                    }
                    if seq_has(s0, kk) {
                        let j = choose|j: int| 0 <= j < s0.len() && s0[j].0 == kk;
                        assert(s0[j] == s1[j]);
                    }
                }
            }
            assert(self@ =~= old(self)@.insert(k, v));
        } else {
            self.entries.insert(i, (k, v));
            let ghost s1 = self.entries();
            assert(s1 == s0.insert(i as int, (k, v)));
            assert(keys_sorted(s1)) by {
                assert forall|a: int, b: int| 0 <= a < b < s1.len() implies s1[a].0 < s1[b].0 by {
                    if b < i {
                    } else if a > i {
                        assert(s1[a] == s0[a - 1]);
                        assert(s1[b] == s0[b - 1]);
                    } else if a == i {
                        assert(s1[b] == s0[b - 1]);
                        assert(s0[i as int].0 >= k);
                        assert(s0[i as int].0 != k);
                        if b - 1 > i {
                            assert(s0[i as int].0 < s0[b - 1].0);
                        }
                    } else {
                        if b == i {
                        } else {
                            assert(s1[b] == s0[b - 1]);
                        }
                    }
                }
            }
            proof {
                lemma_entries(s1);
            }
            assert forall|kk: EID| #[trigger] self@.contains_key(kk) == old(self)@.insert(k, v).contains_key(kk)
                && (self@.contains_key(kk) ==> self@[kk] == old(self)@.insert(k, v)[kk]) by {
                if kk == k {
                    assert(s1[i as int].0 == k);
                } else {
                    if seq_has(s1, kk) {
                        let j = choose|j: int| 0 <= j < s1.len() && s1[j].0 == kk;
                        if j < i {
                            assert(s0[j] == s1[j]);
                        } else {
                            assert(s0[j - 1] == s1[j]);
                        }
                    }
                    if seq_has(s0, kk) {
                        let j = choose|j: int| 0 <= j < s0.len() && s0[j].0 == kk;
                        if j < i {
                            assert(s0[j] == s1[j]);
                        } else {
                            assert(s0[j] == s1[j + 1]);
                        }
                    }
                }
            }
            assert(self@ =~= old(self)@.insert(k, v));
        }
    }
}

/// A table with the keys of `base`, each holding `U`'s default value.
pub fn empty_map<T, U: Default>(base: &IdMap<T>) -> (r: IdMap<U>)
    requires
        base.wf(),
    ensures
        r.wf(),
        r@.dom() == base@.dom(),
        forall|k: EID| #[trigger] r@.contains_key(k) ==> call_ensures(U::default, (), r@[k]),
{
    let ghost s = base.entries();
    proof {
        lemma_entries(s);
    }
    let mut r: IdMap<U> = IdMap::new();
    let mut i: usize = 0;
    while i < base.len()
        invariant
            base.wf(),
            s == base.entries(),
            i <= s.len(),
            r.wf(),
            forall|k: EID| #[trigger] r@.contains_key(k) == prefix_has(s, i as int, k),
            forall|k: EID| #[trigger] r@.contains_key(k) ==> call_ensures(U::default, (), r@[k]),
        decreases s.len() - i,
    {
        let k = base.key_at(i);
        proof {
            lemma_prefix_step(s, i as int);
        }
        r.insert(k, U::default());
        i = i + 1;
    }
    proof {
        lemma_prefix_full(s);
    }
    assert(r@.dom() =~= base@.dom());
    r
}

} // verus!
