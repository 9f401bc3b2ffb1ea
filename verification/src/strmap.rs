//! `StrMap`: a map from strings to values whose keys are kept in ascending
//! lexicographic order, so that walking it visits the keys as an ordered
//! tree map would.
use vstd::prelude::*;

use crate::strs::{compare_chars, lex_lt, lemma_lex_irreflexive, lemma_lex_transitive, lemma_lex_asymmetric, lemma_lex_total, to_chars, KeyOrder};

verus! {

/// Every key comes strictly before every later key.
pub open spec fn strictly_sorted(ks: Seq<Seq<char>>) -> bool {
    forall|i: int, j: int| 0 <= i < j < ks.len() ==> lex_lt(ks[i], ks[j])
}

pub proof fn lemma_sorted_distinct(ks: Seq<Seq<char>>)
    requires
        strictly_sorted(ks),
    ensures
        ks.no_duplicates(),
{
    assert forall|i: int, j: int| 0 <= i < ks.len() && 0 <= j < ks.len() && i != j implies ks[i]
        != ks[j] by {
        if i < j {
            lemma_lex_irreflexive(ks[i]);
        } else {
            lemma_lex_irreflexive(ks[j]);
        }
    }
}

/// The members of a finite set of strings in ascending order.
pub open spec fn sorted_of(s: Set<Seq<char>>) -> Seq<Seq<char>> {
    choose|ks: Seq<Seq<char>>| strictly_sorted(ks) && ks.to_set() == s
}

/// Two strictly sorted sequences with the same members are equal.
pub proof fn lemma_sorted_unique(a: Seq<Seq<char>>, b: Seq<Seq<char>>)
    requires
        strictly_sorted(a),
        strictly_sorted(b),
        a.to_set() == b.to_set(),
    ensures
        a == b,
    decreases a.len(),
{
    if a.len() == 0 {
        if b.len() > 0 {
            assert(b.to_set().contains(b[0]));
        }
        assert(a =~= b);
    } else {
        assert(a.to_set().contains(a[0]));
        assert(b.len() > 0);
        assert(b.to_set().contains(b[0]));
        let j = choose|j: int| 0 <= j < b.len() && b[j] == a[0];
        let k = choose|k: int| 0 <= k < a.len() && a[k] == b[0];
        if j > 0 {
            if k > 0 {
                lemma_lex_asymmetric(a[0], a[k]);
            } else {
                lemma_lex_irreflexive(b[0]);
            }
        }
        assert(a[0] == b[0]);
        lemma_sorted_distinct(a);
        lemma_sorted_distinct(b);
        let a1 = a.drop_first();
        let b1 = b.drop_first();
        assert forall|x: Seq<char>| a1.to_set().contains(x) <==> b1.to_set().contains(x) by {
            if a1.to_set().contains(x) {
                let i = choose|i: int| 0 <= i < a1.len() && a1[i] == x;
                assert(a[i + 1] == x);
                assert(b.to_set().contains(x));
                let i2 = choose|i2: int| 0 <= i2 < b.len() && b[i2] == x;
                assert(i2 != 0);
                assert(b1[i2 - 1] == x);
            }
            if b1.to_set().contains(x) {
                let i = choose|i: int| 0 <= i < b1.len() && b1[i] == x;
                assert(b[i + 1] == x);
                assert(a.to_set().contains(x));
                let i2 = choose|i2: int| 0 <= i2 < a.len() && a[i2] == x;
                assert(i2 != 0);
                assert(a1[i2 - 1] == x);
            }
        }
        assert(a1.to_set() =~= b1.to_set());
        lemma_sorted_unique(a1, b1);
        assert(a =~= seq![a[0]] + a1);
        assert(b =~= seq![b[0]] + b1);
    }
}

/// A strictly sorted sequence is the sorted order of its members.
pub proof fn lemma_sorted_of(a: Seq<Seq<char>>)
    requires
        strictly_sorted(a),
    ensures
        sorted_of(a.to_set()) == a,
{
    let b = sorted_of(a.to_set());
    assert(strictly_sorted(b) && b.to_set() == a.to_set());
    lemma_sorted_unique(b, a);
}

/// `x` put into the ascending sequence `ks` in its place.
pub open spec fn insert_sorted(ks: Seq<Seq<char>>, x: Seq<char>) -> Seq<Seq<char>>
    decreases ks.len(),
{
    if ks.len() == 0 {
        seq![x]
    } else if lex_lt(x, ks[0]) {
        seq![x] + ks
    } else {
        seq![ks[0]] + insert_sorted(ks.drop_first(), x)
    }
}

proof fn lemma_insert_sorted(ks: Seq<Seq<char>>, x: Seq<char>)
    requires
        strictly_sorted(ks),
        !ks.contains(x),
    ensures
        strictly_sorted(insert_sorted(ks, x)),
        insert_sorted(ks, x).to_set() == ks.to_set().insert(x),
        insert_sorted(ks, x).len() == ks.len() + 1,
        insert_sorted(ks, x)[0] == x || (ks.len() > 0 && insert_sorted(ks, x)[0] == ks[0]),
    decreases ks.len(),
{
    let r = insert_sorted(ks, x);
    if ks.len() == 0 {
        assert(r.to_set() =~= ks.to_set().insert(x)) by {
            assert forall|y: Seq<char>| r.to_set().contains(y) <==> ks.to_set().insert(x).contains(y) by {
                if r.to_set().contains(y) {
                    assert(r[0] == y);
                }
                if y == x {
                    assert(r[0] == x);
                }
            }
        }
    } else if lex_lt(x, ks[0]) {
        assert forall|a: int, b: int| 0 <= a < b < r.len() implies lex_lt(r[a], r[b]) by {
            if a == 0 {
                if b > 1 {
                    lemma_lex_transitive(x, ks[0], ks[b - 1]);
                }
            } else {
                assert(r[a] == ks[a - 1] && r[b] == ks[b - 1]);
            }
        }
        assert forall|y: Seq<char>| r.to_set().contains(y) <==> ks.to_set().insert(x).contains(y) by {
            if r.to_set().contains(y) {
                let j = choose|j: int| 0 <= j < r.len() && r[j] == y;
                if j > 0 {
                    assert(ks[j - 1] == y);
                }
            }
            if ks.to_set().contains(y) {
                let j = choose|j: int| 0 <= j < ks.len() && ks[j] == y;
                assert(r[j + 1] == y);
            }
            if y == x {
                assert(r[0] == x);
            }
        }
        assert(r.to_set() =~= ks.to_set().insert(x));
    } else {
        let t = ks.drop_first();
        assert(strictly_sorted(t)) by {
            assert forall|a: int, b: int| 0 <= a < b < t.len() implies lex_lt(t[a], t[b]) by {
                assert(t[a] == ks[a + 1] && t[b] == ks[b + 1]);
            }
        }
        assert(!t.contains(x)) by {
            if t.contains(x) {
                let j = choose|j: int| 0 <= j < t.len() && t[j] == x;
                assert(ks[j + 1] == x);
            }
        }
        lemma_insert_sorted(t, x);
        let rt = insert_sorted(t, x);
        assert(x != ks[0]) by {
            assert(ks[0] == ks[0]);
            if x == ks[0] {
                assert(ks.contains(x));
            }
        }
        lemma_lex_total(x, ks[0]);
        assert(r == seq![ks[0]] + rt);
        assert forall|a: int, b: int| 0 <= a < b < r.len() implies lex_lt(r[a], r[b]) by {
            if a == 0 {
                assert(rt.to_set().contains(rt[b - 1]));
                assert(t.to_set().insert(x).contains(rt[b - 1]));
                if rt[b - 1] == x {
                } else {
                    let j = choose|j: int| 0 <= j < t.len() && t[j] == rt[b - 1];
                    assert(ks[j + 1] == t[j]);
                }
            } else {
                assert(r[a] == rt[a - 1] && r[b] == rt[b - 1]);
            }
        }
        assert forall|y: Seq<char>| r.to_set().contains(y) <==> ks.to_set().insert(x).contains(y) by {
            if r.to_set().contains(y) {
                let j = choose|j: int| 0 <= j < r.len() && r[j] == y;
                if j > 0 {
                    assert(rt[j - 1] == y);
                    assert(rt.to_set().contains(y));
                    if y != x {
                        assert(t.to_set().contains(y));
                        let k = choose|k: int| 0 <= k < t.len() && t[k] == y;
                        assert(ks[k + 1] == y);
                    }
                }
            }
            if ks.to_set().contains(y) {
                let j = choose|j: int| 0 <= j < ks.len() && ks[j] == y;
                if j == 0 {
                    assert(r[0] == y);
                } else {
                    assert(t[j - 1] == y);
                    assert(rt.to_set().contains(y));
                    let k = choose|k: int| 0 <= k < rt.len() && rt[k] == y;
                    assert(r[k + 1] == y);
                }
            }
            if y == x {
                assert(rt.to_set().contains(x));
                let k = choose|k: int| 0 <= k < rt.len() && rt[k] == x;
                assert(r[k + 1] == x);
            }
        }
        assert(r.to_set() =~= ks.to_set().insert(x));
    }
}

/// Every finite set of strings has an ascending order of its members.
pub proof fn lemma_sorted_of_finite(s: Set<Seq<char>>)
    requires
        s.finite(),
    ensures
        strictly_sorted(sorted_of(s)),
        sorted_of(s).to_set() == s,
    decreases s.len(),
{
    if s.len() == 0 {
        assert(s =~= Set::<Seq<char>>::empty());
        let e = Seq::<Seq<char>>::empty();
        assert(e.to_set() =~= s);
        assert(strictly_sorted(e));
    } else {
        let x = s.choose();
        let r = s.remove(x);
        lemma_sorted_of_finite(r);
        let ks = sorted_of(r);
        assert(!ks.contains(x)) by {
            if ks.contains(x) {
                assert(ks.to_set().contains(x));
            }
        }
        lemma_insert_sorted(ks, x);
        assert(insert_sorted(ks, x).to_set() =~= s);
    }
}

/// A string-keyed map kept sorted by key.
#[derive(Debug, Clone)]
pub struct StrMap<T> {
    entries: Vec<(String, T)>,
}

impl<T> StrMap<T> {
    /// The keys, in the order in which they are stored (ascending).
    pub closed spec fn keys(&self) -> Seq<Seq<char>> {
        self.entries@.map_values(|e: (String, T)| e.0@)
    }

    /// The values themselves, in key order.
    pub closed spec fn values(&self) -> Seq<T> {
        self.entries@.map_values(|e: (String, T)| e.1)
    }

    /// Well-formedness: the keys are stored in strictly ascending order.
    pub closed spec fn wf(&self) -> bool {
        strictly_sorted(self.keys())
    }
}

impl<T: View> StrMap<T> {

    /// The values' views, in key order.
    pub closed spec fn vals(&self) -> Seq<T::V> {
        self.entries@.map_values(|e: (String, T)| e.1@)
    }

    /// The map's contents.
    pub closed spec fn view(&self) -> Map<Seq<char>, T::V> {
        Map::new(
            |k: Seq<char>| self.keys().contains(k),
            |k: Seq<char>| self.vals()[self.keys().index_of(k)],
        )
    }

    /// The stored keys are sorted and without duplicates, the map's domain
    /// is exactly the stored keys, and each key maps to the value stored
    /// beside it.
    pub proof fn lemma_view(&self)
        requires
            self.wf(),
        ensures
            strictly_sorted(self.keys()),
            self.keys().no_duplicates(),
            self.keys().len() == self.vals().len(),
            self.values().len() == self.vals().len(),
            forall|i: int| 0 <= i < self.vals().len() ==> #[trigger] self.vals()[i] == self.values()[i]@,
            self.view().dom() == self.keys().to_set(),
            self.view().dom().finite(),
            forall|i: int|
                0 <= i < self.keys().len() ==> self.view().contains_key(#[trigger] self.keys()[i])
                    && self.view()[self.keys()[i]] == self.vals()[i],
            forall|k: Seq<char>| #[trigger]
                self.view().contains_key(k) ==> exists|i: int|
                    0 <= i < self.keys().len() && self.keys()[i] == k,
    {
        lemma_sorted_distinct(self.keys());
        assert(self.view().dom() =~= self.keys().to_set());
        vstd::seq_lib::seq_to_set_is_finite(self.keys());
        assert forall|i: int| 0 <= i < self.keys().len() implies self.view().contains_key(
            #[trigger] self.keys()[i],
        ) && self.view()[self.keys()[i]] == self.vals()[i] by {
            assert(self.keys().contains(self.keys()[i]));
            let j = self.keys().index_of(self.keys()[i]);
            assert(self.keys()[j] == self.keys()[i]);
        }
    }

    pub fn new() -> (m: Self)
        ensures
            m.wf(),
            m.view() == Map::<Seq<char>, T::V>::empty(),
            m.keys().len() == 0,
            m.values().len() == 0,
    {
        let m = StrMap { entries: Vec::new() };
        assert(m.view() =~= Map::<Seq<char>, T::V>::empty());
        m
    }

    pub fn len(&self) -> (n: usize)
        ensures
            n == self.keys().len(),
    {
        self.entries.len()
    }

    pub fn key_at(&self, i: usize) -> (k: &String)
        requires
            i < self.keys().len(),
        ensures
            k@ == self.keys()[i as int],
    {
        &self.entries[i].0
    }

    /// The position of `key` among the stored keys, if it is there.
    pub fn find(&self, key: &str) -> (r: Option<usize>)
        requires
            self.wf(),
        ensures
            r is Some <==> self.view().contains_key(key@),
            r matches Some(i) ==> i < self.keys().len() && self.keys()[i as int] == key@,
    {
        proof {
            self.lemma_view();
        }
        let kc = to_chars(key);
        let mut i: usize = 0;
        while i < self.entries.len()
            invariant
                kc@ == key@,
                i <= self.entries@.len(),
                self.keys().len() == self.entries@.len(),
                forall|j: int| 0 <= j < i ==> self.keys()[j] != key@,
            decreases self.entries@.len() - i,
        {
            let ec = to_chars(self.entries[i].0.as_str());
            assert(ec@ == self.keys()[i as int]);
            if compare_chars(&ec, &kc) == KeyOrder::Equal {
                return Some(i);
            }
            i = i + 1;
        }
        None
    }

    pub fn contains_key(&self, key: &str) -> (r: bool)
        requires
            self.wf(),
        ensures
            r == self.view().contains_key(key@),
    {
        self.find(key).is_some()
    }

    pub fn get(&self, key: &str) -> (r: Option<&T>)
        requires
            self.wf(),
        ensures
            r is Some <==> self.view().contains_key(key@),
            r matches Some(v) ==> v@ == self.view()[key@] && self.values().contains(*v),
    {
        proof {
            self.lemma_view();
        }
        match self.find(key) {
            Some(i) => {
                assert(self.values()[i as int] == self.entries@[i as int].1);
                Some(&self.entries[i].1)
            },
            None => None,
        }
    }

    /// Sets `key` to `value`, replacing any value it had.
    pub fn insert(&mut self, key: String, value: T)
        requires
            old(self).wf(),
        ensures
            final(self).wf(),
            final(self).view() == old(self).view().insert(key@, value@),
            forall|v: T| #[trigger]
                final(self).values().contains(v) ==> old(self).values().contains(v) || v == value,
    {
        proof {
            self.lemma_view();
        }
        let ghost old_keys = self.keys();
        let ghost old_vals = self.vals();
        let ghost old_values = self.values();
        let ghost new_value = value;
        let kc = to_chars(key.as_str());
        let mut i: usize = 0;
        let mut equal = false;
        while i < self.entries.len()
            invariant
                kc@ == key@,
                i <= self.entries@.len(),
                self.keys() == old_keys,
                self.vals() == old_vals,
                self.values() == old_values,
                old_keys.len() == self.entries@.len(),
                strictly_sorted(old_keys),
                forall|j: int| 0 <= j < i ==> lex_lt(#[trigger] old_keys[j], key@),
                equal ==> i < old_keys.len() && old_keys[i as int] == key@,
            ensures
                equal ==> i < old_keys.len() && old_keys[i as int] == key@,
                !equal ==> i == old_keys.len() || lex_lt(key@, old_keys[i as int]),
            decreases self.entries@.len() - i,
        {
            let ec = to_chars(self.entries[i].0.as_str());
            let o = compare_chars(&ec, &kc);
            if o == KeyOrder::Equal {
                equal = true;
                break;
            } else if o == KeyOrder::Greater {
                break;
            }
            i = i + 1;
        }
        if equal {
            self.entries.set(i, (key, value));
            proof {
                assert(self.keys() =~= old_keys);
                assert(self.vals() =~= old_vals.update(i as int, new_value@));
                assert(self.values() =~= old_values.update(i as int, new_value));
            }
        } else {
            self.entries.insert(i, (key, value));
            proof {
                assert(self.keys() =~= old_keys.insert(i as int, key@));
                assert(self.vals() =~= old_vals.insert(i as int, new_value@));
                assert(self.values() =~= old_values.insert(i as int, new_value));
                assert forall|a: int, b: int|
                    0 <= a < b < self.keys().len() implies lex_lt(
                    self.keys()[a],
                    self.keys()[b],
                ) by {
                    if b == i {
                    } else if a == i {
                        if b > i + 1 {
                            lemma_lex_transitive(key@, old_keys[i as int], old_keys[b - 1]);
                        }
                    } else if a < i && b > i {
                        if b - 1 > i {
                            lemma_lex_transitive(key@, old_keys[i as int], old_keys[b - 1]);
                        }
                        lemma_lex_transitive(old_keys[a], key@, old_keys[b - 1]);
                    }
                }
            }
        }
        proof {
            self.lemma_view();
            lemma_sorted_distinct(old_keys);
            assert forall|v: T| #[trigger]
                self.values().contains(v) implies old_values.contains(v) || v == new_value by {
                let j = choose|j: int| 0 <= j < self.values().len() && self.values()[j] == v;
                if !equal && j > i {
                    assert(old_values[j - 1] == v);
                } else if j != i {
                    assert(old_values[j] == v);
                }
            }
            assert(self.view() =~= old(self).view().insert(key@, new_value@)) by {
                assert forall|k: Seq<char>| #[trigger]
                    self.view().contains_key(k) <==> old(self).view().insert(
                        key@,
                        new_value@,
                    ).contains_key(k) by {
                    if self.view().contains_key(k) {
                        let j = choose|j: int| 0 <= j < self.keys().len() && self.keys()[j] == k;
                        if k != key@ {
                            if !equal && j > i {
                                assert(old_keys[j - 1] == k);
                            } else {
                                assert(old_keys[j] == k);
                            }
                        }
                    }
                    if old(self).view().contains_key(k) && k != key@ {
                        let j = choose|j: int| 0 <= j < old_keys.len() && old_keys[j] == k;
                        if !equal && j >= i {
                            assert(self.keys()[j + 1] == k);
                        } else {
                            assert(self.keys()[j] == k);
                        }
                    }
                    if k == key@ {
                        assert(self.keys()[i as int] == k);
                    }
                }
                assert forall|k: Seq<char>| #[trigger]
                    self.view().contains_key(k) implies self.view()[k] == old(self).view().insert(
                    key@,
                    new_value@,
                )[k] by {
                    let j = choose|j: int| 0 <= j < self.keys().len() && self.keys()[j] == k;
                    if k == key@ {
                        assert(self.keys()[i as int] == key@);
                    } else if !equal && j > i {
                        assert(old_keys[j - 1] == k);
                    } else {
                        assert(old_keys[j] == k);
                    }
                }
            }
        }
    }

    /// Removes `key`, giving back its value if it was there.
    pub fn remove(&mut self, key: &str) -> (r: Option<T>)
        requires
            old(self).wf(),
        ensures
            final(self).wf(),
            final(self).view() == old(self).view().remove(key@),
            r is Some <==> old(self).view().contains_key(key@),
            r matches Some(v) ==> v@ == old(self).view()[key@] && old(self).values().contains(v),
            forall|v: T| #[trigger] final(self).values().contains(v) ==> old(self).values().contains(v),
    {
        proof {
            self.lemma_view();
        }
        let ghost old_keys = self.keys();
        let ghost old_vals = self.vals();
        let ghost old_values = self.values();
        match self.find(key) {
            None => {
                assert(self.view() =~= old(self).view().remove(key@));
                None
            },
            Some(i) => {
                let e = self.entries.remove(i);
                proof {
                    assert(self.keys() =~= old_keys.remove(i as int));
                    assert(self.vals() =~= old_vals.remove(i as int));
                    assert(self.values() =~= old_values.remove(i as int));
                    assert(old_values[i as int] == e.1);
                    assert forall|v: T| #[trigger]
                        self.values().contains(v) implies old_values.contains(v) by {
                        let j = choose|j: int| 0 <= j < self.values().len() && self.values()[j] == v;
                        if j >= i {
                            assert(old_values[j + 1] == v);
                        } else {
                            assert(old_values[j] == v);
                        }
                    }
                    self.lemma_view();
                    assert forall|k: Seq<char>| #[trigger]
                        self.view().contains_key(k) <==> old(self).view().remove(
                            key@,
                        ).contains_key(k) by {
                        if self.view().contains_key(k) {
                            let j = choose|j: int| 0 <= j < self.keys().len() && self.keys()[j] == k;
                            if j >= i {
                                assert(old_keys[j + 1] == k);
                            } else {
                                assert(old_keys[j] == k);
                            }
                        }
                        if old(self).view().contains_key(k) && k != key@ {
                            let j = choose|j: int| 0 <= j < old_keys.len() && old_keys[j] == k;
                            if j > i {
                                assert(self.keys()[j - 1] == k);
                            } else {
                                assert(self.keys()[j] == k);
                            }
                        }
                    }
                    assert forall|k: Seq<char>| #[trigger]
                        self.view().contains_key(k) implies self.view()[k] == old(
                        self,
                    ).view().remove(key@)[k] by {
                        let j = choose|j: int| 0 <= j < self.keys().len() && self.keys()[j] == k;
                        if j >= i {
                            assert(old_keys[j + 1] == k);
                        } else {
                            assert(old_keys[j] == k);
                        }
                    }
                    assert(self.view() =~= old(self).view().remove(key@));
                }
                Some(e.1)
            },
        }
    }
}

} // verus!
