//! An ordered map from strings to strings: the index, the configuration and
//! the file listings of trees and of the work tree are all of this shape.
use vstd::prelude::*;
use crate::text::{chars_of, string_of_all, chars_equal, chars_less, chars_lt, lemma_chars_lt_irreflexive, lemma_chars_lt_total, lemma_chars_lt_transitive};

verus! {

/// Keys strictly increasing in `chars_lt` order (hence no key twice).
pub open spec fn keys_sorted(p: Seq<(Seq<char>, Seq<char>)>) -> bool {
    forall|i: int, j: int| 0 <= i < j < p.len() ==> chars_lt(#[trigger] p[i].0, #[trigger] p[j].0)
}

/// Some pair of `p` has key `k`.
pub open spec fn has_key(p: Seq<(Seq<char>, Seq<char>)>, k: Seq<char>) -> bool {
    exists|i: int| 0 <= i < p.len() && (#[trigger] p[i]).0 == k
}

/// The map that a sequence of pairs with distinct keys describes.
pub open spec fn pairs_map(p: Seq<(Seq<char>, Seq<char>)>) -> Map<Seq<char>, Seq<char>> {
    Map::new(
        |k: Seq<char>| has_key(p, k),
        |k: Seq<char>| p[choose|i: int| 0 <= i < p.len() && (#[trigger] p[i]).0 == k].1,
    )
}

/// In a sorted sequence, the pair at `i` is what the map holds for its key.
pub proof fn lemma_pairs_map_at(p: Seq<(Seq<char>, Seq<char>)>, i: int)
    requires
        keys_sorted(p),
        0 <= i < p.len(),
    ensures
        pairs_map(p).dom().contains(p[i].0),
        pairs_map(p)[p[i].0] == p[i].1,
{
    assert(has_key(p, p[i].0));
    let j = choose|j: int| 0 <= j < p.len() && (#[trigger] p[j]).0 == p[i].0;
    if j < i {
        assert(chars_lt(p[j].0, p[i].0));
        lemma_chars_lt_irreflexive(p[i].0);
    } else if i < j {
        assert(chars_lt(p[i].0, p[j].0));
        lemma_chars_lt_irreflexive(p[i].0);
    }
}

/// A map from strings to strings, kept as its pairs in key order.
pub struct StrMap {
    entries: Vec<(Vec<char>, Vec<char>)>,
}

impl View for StrMap {
    type V = Map<Seq<char>, Seq<char>>;

    closed spec fn view(&self) -> Map<Seq<char>, Seq<char>> {
        pairs_map(self.pairs())
    }
}

impl StrMap {
    /// The pairs of the map, in the order of their keys.
    pub closed spec fn pairs(&self) -> Seq<(Seq<char>, Seq<char>)> {
        self.entries@.map_values(|e: (Vec<char>, Vec<char>)| (e.0@, e.1@))
    }

    /// The map is well formed: its keys are strictly increasing.
    pub open spec fn wf(&self) -> bool {
        keys_sorted(self.pairs())
    }

    /// The view is the map that the ordered pairs describe.
    pub proof fn lemma_view(&self)
        ensures
            self@ == pairs_map(self.pairs()),
    {
    }

    /// An empty map.
    pub fn new() -> (m: StrMap)
        ensures
            m.wf(),
            m.pairs().len() == 0,
            m@ == Map::<Seq<char>, Seq<char>>::empty(),
    {
        let m = StrMap { entries: Vec::new() };
        assert(m.pairs() =~= Seq::empty());
        assert(m@ =~= Map::<Seq<char>, Seq<char>>::empty());
        m
    }

    /// The number of pairs.
    pub fn len(&self) -> (n: usize)
        ensures
            n == self.pairs().len(),
    {
        self.entries.len()
    }

    /// The key of the `i`-th pair.
    pub fn key_at(&self, i: usize) -> (k: &Vec<char>)
        requires
            i < self.pairs().len(),
        ensures
            k@ == self.pairs()[i as int].0,
    {
        &self.entries[i].0
    }

    /// The value of the `i`-th pair.
    pub fn value_at(&self, i: usize) -> (v: &Vec<char>)
        requires
            i < self.pairs().len(),
        ensures
            v@ == self.pairs()[i as int].1,
    {
        &self.entries[i].1
    }

    /// The place of `key`: how many keys are smaller, and whether the key
    /// at that place is `key` itself.
    fn find(&self, key: &Vec<char>) -> (r: (usize, bool))
        requires
            self.wf(),
        ensures
            r.0 <= self.pairs().len(),
            forall|j: int| 0 <= j < r.0 ==> chars_lt(#[trigger] self.pairs()[j].0, key@),
            forall|j: int| r.0 <= j < self.pairs().len() ==> !chars_lt(#[trigger] self.pairs()[j].0, key@),
            r.1 <==> (r.0 < self.pairs().len() && self.pairs()[r.0 as int].0 == key@),
    {
        let mut i: usize = 0;
        while i < self.entries.len()
            invariant
                self.wf(),
                i <= self.pairs().len(),
                self.pairs().len() == self.entries@.len(),
                forall|j: int| 0 <= j < i ==> chars_lt(#[trigger] self.pairs()[j].0, key@),
            decreases self.entries@.len() - i,
        {
            if !chars_less(&self.entries[i].0, key) {
                let eq = chars_equal(&self.entries[i].0, key);
                assert forall|j: int| i <= j < self.pairs().len() implies !chars_lt(
                    #[trigger] self.pairs()[j].0,
                    key@,
                ) by {
                    if j > i && chars_lt(self.pairs()[j].0, key@) {
                        assert(chars_lt(self.pairs()[i as int].0, self.pairs()[j].0));
                        lemma_chars_lt_transitive(self.pairs()[i as int].0, self.pairs()[j].0, key@);
                    }
                }
                return (i, eq);
            }
            i = i + 1;
        }
        (i, false)
    }

    /// Whether the map has `key`, and its value if so.
    pub fn get(&self, key: &Vec<char>) -> (r: Option<&Vec<char>>)
        requires
            self.wf(),
        ensures
            r is Some <==> self@.dom().contains(key@),
            r matches Some(v) ==> v@ == self@[key@],
    {
        let (i, found) = self.find(key);
        if found {
            proof {
                lemma_pairs_map_at(self.pairs(), i as int);
            }
            Some(&self.entries[i].1)
        } else {
            proof {
                if has_key(self.pairs(), key@) {
                    let j = choose|j: int| 0 <= j < self.pairs().len() && (#[trigger] self.pairs()[j]).0 == key@;
                    lemma_chars_lt_irreflexive(key@);
                    if j >= i {
                        assert(j != i);
                        assert(chars_lt(self.pairs()[i as int].0, self.pairs()[j].0));
                        lemma_chars_lt_total(self.pairs()[i as int].0, key@);
                    }
                }
            }
            None
        }
    }

    /// Whether the map has `key`.
    pub fn contains_key(&self, key: &Vec<char>) -> (b: bool)
        requires
            self.wf(),
        ensures
            b == self@.dom().contains(key@),
    {
        self.get(key).is_some()
    }

    /// Sets `key` to `value`, replacing any earlier value.
    pub fn insert(&mut self, key: Vec<char>, value: Vec<char>)
        requires
            old(self).wf(),
        ensures
            final(self).wf(),
            final(self)@ == old(self)@.insert(key@, value@),
    {
        let ghost old_p = self.pairs();
        let (i, found) = self.find(&key);
        let ghost k = key@;
        let ghost v = value@;
        if found {
            self.entries.set(i, (key, value));
            assert(self.pairs() =~= old_p.update(i as int, (k, v)));
            assert forall|a: int, b: int| 0 <= a < b < self.pairs().len() implies chars_lt(
                #[trigger] self.pairs()[a].0,
                #[trigger] self.pairs()[b].0,
            ) by {
                assert(old_p[a].0 == self.pairs()[a].0);
                assert(old_p[b].0 == self.pairs()[b].0);
            }
        } else {
            self.entries.insert(i, (key, value));
            assert(self.pairs() =~= old_p.insert(i as int, (k, v)));
            assert forall|a: int, b: int| 0 <= a < b < self.pairs().len() implies chars_lt(
                #[trigger] self.pairs()[a].0,
                #[trigger] self.pairs()[b].0,
            ) by {
                if b == i {
                    assert(chars_lt(old_p[a].0, k));
                } else if a == i {
                    assert(!chars_lt(old_p[b - 1].0, k));
                    lemma_chars_lt_total(old_p[b - 1].0, k);
                } else {
                    let a2 = if a < i { a } else { a - 1 };
                    let b2 = if b < i { b } else { b - 1 };
                    assert(self.pairs()[a] == old_p[a2]);
                    assert(self.pairs()[b] == old_p[b2]);
                }
            }
        }
        let ghost new_p = self.pairs();
        assert(self@ =~= old(self)@.insert(k, v)) by {
            assert forall|key2: Seq<char>| #[trigger] pairs_map(new_p).dom().contains(key2)
                <==> old(self)@.insert(k, v).dom().contains(key2) by {
                if has_key(new_p, key2) {
                    let j = choose|j: int| 0 <= j < new_p.len() && (#[trigger] new_p[j]).0 == key2;
                    if key2 != k {
                        let j2 = if found || j < i { j } else { j - 1 };
                        assert(old_p[j2].0 == key2);
                        assert(has_key(old_p, key2));
                    }
                }
                if key2 != k && has_key(old_p, key2) {
                    let j = choose|j: int| 0 <= j < old_p.len() && (#[trigger] old_p[j]).0 == key2;
                    let j2 = if found || j < i { j } else { j + 1 };
                    assert(new_p[j2].0 == key2);
                }
                if key2 == k {
                    assert(new_p[i as int].0 == k);
                }
            }
            assert forall|key2: Seq<char>| #[trigger] pairs_map(new_p).dom().contains(key2)
                implies pairs_map(new_p)[key2] == old(self)@.insert(k, v)[key2] by {
                let j = choose|j: int| 0 <= j < new_p.len() && (#[trigger] new_p[j]).0 == key2;
                lemma_pairs_map_at(new_p, j);
                if key2 != k {
                    let j2 = if found || j < i { j } else { j - 1 };
                    assert(old_p[j2] == new_p[j]);
                    lemma_pairs_map_at(old_p, j2);
                } else {
                    lemma_pairs_map_at(new_p, i as int);
                }
            }
        }
    }

    /// Removes `key`; tells whether it was there.
    pub fn remove(&mut self, key: &Vec<char>) -> (was: bool)
        requires
            old(self).wf(),
        ensures
            final(self).wf(),
            final(self)@ == old(self)@.remove(key@),
            was == old(self)@.dom().contains(key@),
    {
        let ghost old_p = self.pairs();
        let present = self.contains_key(key);
        let (i, found) = self.find(key);
        if found {
            self.entries.remove(i);
            let ghost new_p = self.pairs();
            assert(new_p =~= old_p.remove(i as int));
            assert forall|a: int, b: int| 0 <= a < b < new_p.len() implies chars_lt(
                #[trigger] new_p[a].0,
                #[trigger] new_p[b].0,
            ) by {
                let a2 = if a < i { a } else { a + 1 };
                let b2 = if b < i { b } else { b + 1 };
                assert(new_p[a] == old_p[a2]);
                assert(new_p[b] == old_p[b2]);
            }
            assert(self@ =~= old(self)@.remove(key@)) by {
                assert forall|key2: Seq<char>| #[trigger] pairs_map(new_p).dom().contains(key2)
                    <==> old(self)@.remove(key@).dom().contains(key2) by {
                    if has_key(new_p, key2) {
                        let j = choose|j: int| 0 <= j < new_p.len() && (#[trigger] new_p[j]).0 == key2;
                        let j2 = if j < i { j } else { j + 1 };
                        assert(old_p[j2].0 == key2);
                        assert(has_key(old_p, key2));
                        if key2 == key@ {
                            assert(chars_lt(old_p[j2].0, old_p[i as int].0) || chars_lt(
                                old_p[i as int].0,
                                old_p[j2].0,
                            ));
                            lemma_chars_lt_irreflexive(key@);
                        }
                    }
                    if key2 != key@ && has_key(old_p, key2) {
                        let j = choose|j: int| 0 <= j < old_p.len() && (#[trigger] old_p[j]).0 == key2;
                        assert(j != i);
                        let j2 = if j < i { j } else { j - 1 };
                        assert(new_p[j2].0 == key2);
                    }
                }
                assert forall|key2: Seq<char>| #[trigger] pairs_map(new_p).dom().contains(key2)
                    implies pairs_map(new_p)[key2] == old(self)@.remove(key@)[key2] by {
                    let j = choose|j: int| 0 <= j < new_p.len() && (#[trigger] new_p[j]).0 == key2;
                    lemma_pairs_map_at(new_p, j);
                    let j2 = if j < i { j } else { j + 1 };
                    assert(old_p[j2] == new_p[j]);
                    lemma_pairs_map_at(old_p, j2);
                }
            }
        } else {
            proof {
            if has_key(old_p, key@) {
                let j = choose|j: int| 0 <= j < old_p.len() && (#[trigger] old_p[j]).0 == key@;
                lemma_chars_lt_irreflexive(key@);
                if j >= i {
                    assert(j != i);
                    assert(chars_lt(old_p[i as int].0, old_p[j].0));
                    lemma_chars_lt_total(old_p[i as int].0, key@);
                }
            }
            }
            assert(old(self)@.remove(key@) =~= old(self)@);
        }
        present
    }
}

impl StrMap {
    /// Sets `key` to `value` (given as strings).
    pub fn insert_str(&mut self, key: &str, value: &str)
        requires
            old(self).wf(),
        ensures
            final(self).wf(),
            final(self)@ == old(self)@.insert(key@, value@),
    {
        self.insert(chars_of(key), chars_of(value));
    }

    /// The value of `key`, if any.
    pub fn get_str(&self, key: &str) -> (r: Option<String>)
        requires
            self.wf(),
        ensures
            r is Some <==> self@.dom().contains(key@),
            r matches Some(v) ==> v@ == self@[key@],
    {
        match self.get(&chars_of(key)) {
            Some(v) => Some(string_of_all(v)),
            None => None,
        }
    }

    /// Whether the map has `key`.
    pub fn contains_str(&self, key: &str) -> (b: bool)
        requires
            self.wf(),
        ensures
            b == self@.dom().contains(key@),
    {
        self.contains_key(&chars_of(key))
    }

    /// Removes `key`; tells whether it was there.
    pub fn remove_str(&mut self, key: &str) -> (was: bool)
        requires
            old(self).wf(),
        ensures
            final(self).wf(),
            final(self)@ == old(self)@.remove(key@),
            was == old(self)@.dom().contains(key@),
    {
        self.remove(&chars_of(key))
    }

    /// The pairs in key order, as strings.
    pub fn entries(&self) -> (r: Vec<(String, String)>)
        ensures
            r@.map_values(|e: (String, String)| (e.0@, e.1@)) == self.pairs(),
    {
        let mut r: Vec<(String, String)> = Vec::new();
        let mut k: usize = 0;
        while k < self.len()
            invariant
                k <= self.pairs().len(),
                r@.map_values(|e: (String, String)| (e.0@, e.1@)) == self.pairs().take(k as int),
            decreases self.pairs().len() - k,
        {
            let e = (string_of_all(self.key_at(k)), string_of_all(self.value_at(k)));
            let ghost old_r = r@;
            r.push(e);
            assert(r@.map_values(|e: (String, String)| (e.0@, e.1@)) =~= old_r.map_values(
                |e: (String, String)| (e.0@, e.1@),
            ).push(self.pairs()[k as int]));
            assert(self.pairs().take(k + 1) =~= self.pairs().take(k as int).push(self.pairs()[k as int]));
            k = k + 1;
        }
        assert(self.pairs().take(self.pairs().len() as int) =~= self.pairs());
        r
    }
}

/// A map reads back what was written: after `insert` of `v` under `k`,
/// `get` of `k` gives `v` and every other key keeps its value; after
/// `remove` of `k`, `k` is gone and every other key keeps its value.
pub proof fn lemma_strmap_read_write(m: Map<Seq<char>, Seq<char>>, k: Seq<char>, v: Seq<char>, other: Seq<char>)
    requires
        other != k,
    ensures
        m.insert(k, v).dom().contains(k),
        m.insert(k, v)[k] == v,
        m.insert(k, v).dom().contains(other) == m.dom().contains(other),
        m.dom().contains(other) ==> m.insert(k, v)[other] == m[other],
        !m.remove(k).dom().contains(k),
        m.remove(k).dom().contains(other) == m.dom().contains(other),
        m.dom().contains(other) ==> m.remove(k)[other] == m[other],
{
}

} // verus!
