use vstd::prelude::*;

use crate::text::str_eq;

verus! {

/// The map that a list of entries describes; a later entry for the same
/// name wins.
pub open spec fn entries_map<V>(e: Seq<(String, V)>) -> Map<Seq<char>, V>
    decreases e.len(),
{
    if e.len() == 0 {
        Map::empty()
    } else {
        entries_map(e.drop_last()).insert(e.last().0@, e.last().1)
    }
}

pub open spec fn entry_names<V>(e: Seq<(String, V)>) -> Seq<Seq<char>> {
    e.map_values(|x: (String, V)| x.0@)
}

pub proof fn lemma_entries_map_dom<V>(e: Seq<(String, V)>, k: Seq<char>)
    ensures
        entries_map(e).contains_key(k) <==> exists|i: int| 0 <= i < e.len() && #[trigger] e[i].0@ == k,
    decreases e.len(),
{
    if e.len() > 0 {
        lemma_entries_map_dom(e.drop_last(), k);
        if entries_map(e).contains_key(k) && k != e.last().0@ {
            let i = choose|i: int| 0 <= i < e.drop_last().len() && #[trigger] e.drop_last()[i].0@ == k;
            assert(e[i].0@ == k);
        }
        if exists|i: int| 0 <= i < e.len() && #[trigger] e[i].0@ == k {
            let i = choose|i: int| 0 <= i < e.len() && #[trigger] e[i].0@ == k;
            if i < e.len() - 1 {
                assert(e.drop_last()[i].0@ == k);
            }
        }
    }
}

pub proof fn lemma_entries_map_value<V>(e: Seq<(String, V)>, i: int)
    requires
        0 <= i < e.len(),
        entry_names(e).no_duplicates(),
    ensures
        entries_map(e).contains_key(e[i].0@),
        entries_map(e)[e[i].0@] == e[i].1,
    decreases e.len(),
{
    if i < e.len() - 1 {
        let d = e.drop_last();
        assert(entry_names(d) =~= entry_names(e).drop_last());
        lemma_entries_map_value(d, i);
        assert(entry_names(e)[i] != entry_names(e)[e.len() - 1]);
        assert(d[i] == e[i]);
    }
}

/// Two entry lists with no repeated name describe the same map when they
/// hold the same entries up to order: checked entry by entry.
proof fn lemma_map_from_entries<V>(e: Seq<(String, V)>, m: Map<Seq<char>, V>)
    requires
        entry_names(e).no_duplicates(),
        forall|k: Seq<char>|
            #[trigger] m.contains_key(k) <==> exists|i: int| 0 <= i < e.len() && #[trigger] e[i].0@ == k,
        forall|i: int| 0 <= i < e.len() ==> m[#[trigger] e[i].0@] == e[i].1,
    ensures
        entries_map(e) == m,
{
    assert forall|k: Seq<char>| #[trigger] entries_map(e).contains_key(k) <==> m.contains_key(k) by {
        lemma_entries_map_dom(e, k);
    }
    assert forall|k: Seq<char>| #[trigger] entries_map(e).contains_key(k) implies entries_map(e)[k]
        == m[k] by {
        lemma_entries_map_dom(e, k);
        let i = choose|i: int| 0 <= i < e.len() && #[trigger] e[i].0@ == k;
        lemma_entries_map_value(e, i);
    }
    assert(entries_map(e) =~= m);
}

/// A map from text to values, held as a list of entries in insertion order
/// with no name twice.
pub struct TextMap<V> {
    entries: Vec<(String, V)>,
}

impl<V: Copy> TextMap<V> {
    pub closed spec fn view(&self) -> Map<Seq<char>, V> {
        entries_map(self.entries@)
    }

    /// The names in insertion order.
    pub closed spec fn names(&self) -> Seq<Seq<char>> {
        entry_names(self.entries@)
    }

    pub closed spec fn wf(&self) -> bool {
        entry_names(self.entries@).no_duplicates()
    }

    pub proof fn lemma_view(&self)
        requires
            self.wf(),
        ensures
            self.names().to_set() == self.view().dom(),
            self.names().len() == self.view().dom().len(),
            self.names().no_duplicates(),
            forall|k: Seq<char>| #[trigger] self.view().contains_key(k) <==> self.names().contains(k),
    {
        let e = self.entries@;
        assert forall|k: Seq<char>| #[trigger] self.view().contains_key(k) <==> self.names().contains(k) by {
            lemma_entries_map_dom(e, k);
            if self.names().contains(k) {
                let i = choose|i: int| 0 <= i < self.names().len() && self.names()[i] == k;
                assert(e[i].0@ == k);
            }
            if self.view().contains_key(k) {
                let i = choose|i: int| 0 <= i < e.len() && #[trigger] e[i].0@ == k;
                assert(self.names()[i] == k);
            }
        }
        assert(self.names().to_set() =~= self.view().dom());
        self.names().unique_seq_to_set();
    }

    pub fn new() -> (r: TextMap<V>)
        ensures
            r.wf(),
            r.view() == Map::<Seq<char>, V>::empty(),
            r.names() == Seq::<Seq<char>>::empty(),
    {
        let r = TextMap { entries: Vec::new() };
        assert(r.names() =~= Seq::<Seq<char>>::empty());
        r
    }

    pub fn len(&self) -> (r: usize)
        requires
            self.wf(),
        ensures
            r == self.view().dom().len(),
            r == self.names().len(),
    {
        proof {
            self.lemma_view();
        }
        self.entries.len()
    }

    fn position(&self, key: &str) -> (r: Option<usize>)
        requires
            self.wf(),
        ensures
            match r {
                Some(i) => i < self.entries@.len() && self.entries@[i as int].0@ == key@,
                None => !self.view().contains_key(key@),
            },
    {
        let mut i: usize = 0;
        while i < self.entries.len()
            invariant
                i <= self.entries@.len(),
                forall|j: int| 0 <= j < i ==> #[trigger] self.entries@[j].0@ != key@,
            decreases self.entries@.len() - i,
        {
            if str_eq(self.entries[i].0.as_str(), key) {
                return Some(i);
            }
            i = i + 1;
        }
        proof {
            lemma_entries_map_dom(self.entries@, key@);
        }
        None
    }

    /// The value held for `key`.
    pub fn get(&self, key: &str) -> (r: Option<V>)
        requires
            self.wf(),
        ensures
            r == (if self.view().contains_key(key@) {
                Some(self.view()[key@])
            } else {
                None
            }),
    {
        match self.position(key) {
            Some(i) => {
                proof {
                    lemma_entries_map_value(self.entries@, i as int);
                }
                Some(self.entries[i].1)
            },
            None => None,
        }
    }

    /// Holds `value` for `key`, replacing a value held before. A new name
    /// goes last in the insertion order; a known one keeps its place.
    pub fn insert(&mut self, key: String, value: V)
        requires
            old(self).wf(),
        ensures
            final(self).wf(),
            final(self).view() == old(self).view().insert(key@, value),
            old(self).view().contains_key(key@) ==> final(self).names() == old(self).names(),
            !old(self).view().contains_key(key@) ==> final(self).names() == old(self).names().push(
                key@,
            ),
    {
        let ghost s = self.entries@;
        let ghost m = self.view().insert(key@, value);
        proof {
            self.lemma_view();
        }
        match self.position(key.as_str()) {
            Some(i) => {
                proof {
                    assert(s[i as int].0@ == key@);
                    lemma_entries_map_dom(s, key@);
                }
                self.entries.set(i, (key, value));
                proof {
                    let f = self.entries@;
                    assert(entry_names(f) =~= entry_names(s));
                    assert forall|k: Seq<char>| #[trigger]
                        m.contains_key(k) implies exists|j: int| 0 <= j < f.len() && #[trigger] f[j].0@ == k by {
                        lemma_entries_map_dom(s, k);
                        if k != key@ {
                            let j = choose|j: int| 0 <= j < s.len() && #[trigger] s[j].0@ == k;
                            assert(f[j].0@ == k);
                        } else {
                            assert(f[i as int].0@ == k);
                        }
                    }
                    assert forall|j: int| 0 <= j < f.len() implies m[#[trigger] f[j].0@] == f[j].1 by {
                        if j != i {
                            assert(f[j] == s[j]);
                            assert(entry_names(s)[j] != entry_names(s)[i as int]);
                            lemma_entries_map_value(s, j);
                        }
                    }
                    assert forall|k: Seq<char>|
                        (exists|j: int| 0 <= j < f.len() && #[trigger] f[j].0@ == k) implies #[trigger] m.contains_key(k) by {
                        let j = choose|j: int| 0 <= j < f.len() && #[trigger] f[j].0@ == k;
                        if j != i {
                            assert(f[j] == s[j]);
                            lemma_entries_map_dom(s, k);
                        }
                    }
                    lemma_map_from_entries(f, m);
                }
            },
            None => {
                self.entries.push((key, value));
                proof {
                    let f = self.entries@;
                    assert(f.drop_last() =~= s);
                    assert(entry_names(f) =~= entry_names(s).push(key@));
                    assert(self.view() =~= m);
                }
            },
        }
    }

    /// Forgets `key`; the others keep their order.
    pub fn remove(&mut self, key: &str)
        requires
            old(self).wf(),
        ensures
            final(self).wf(),
            final(self).view() == old(self).view().remove(key@),
    {
        let ghost s = self.entries@;
        let ghost m = self.view().remove(key@);
        match self.position(key) {
            Some(i) => {
                self.entries.remove(i);
                proof {
                    let f = self.entries@;
                    assert(f =~= s.remove(i as int));
                    assert(entry_names(f) =~= entry_names(s).remove(i as int));
                    assert forall|a: int, b: int|
                        0 <= a < entry_names(f).len() && 0 <= b < entry_names(f).len() && a != b implies #[trigger] entry_names(f)[a]
                        != #[trigger] entry_names(f)[b] by {
                        let a2 = if a < i { a } else { a + 1 };
                        let b2 = if b < i { b } else { b + 1 };
                        assert(entry_names(f)[a] == entry_names(s)[a2]);
                        assert(entry_names(f)[b] == entry_names(s)[b2]);
                    }
                    assert forall|k: Seq<char>| #[trigger]
                        m.contains_key(k) implies exists|j: int| 0 <= j < f.len() && #[trigger] f[j].0@ == k by {
                        lemma_entries_map_dom(s, k);
                        let j = choose|j: int| 0 <= j < s.len() && #[trigger] s[j].0@ == k;
                        if j < i {
                            assert(f[j].0@ == k);
                        } else {
                            assert(j != i);
                            assert(f[j - 1].0@ == k);
                        }
                    }
                    assert forall|j: int| 0 <= j < f.len() implies m[#[trigger] f[j].0@] == f[j].1 by {
                        let j2 = if j < i { j } else { j + 1 };
                        assert(f[j] == s[j2]);
                        assert(entry_names(s)[j2] != entry_names(s)[i as int]);
                        lemma_entries_map_value(s, j2);
                    }
                    assert forall|k: Seq<char>|
                        (exists|j: int| 0 <= j < f.len() && #[trigger] f[j].0@ == k) implies #[trigger] m.contains_key(k) by {
                        let j = choose|j: int| 0 <= j < f.len() && #[trigger] f[j].0@ == k;
                        let j2 = if j < i { j } else { j + 1 };
                        assert(f[j] == s[j2]);
                        assert(entry_names(s)[j2] != entry_names(s)[i as int]);
                        lemma_entries_map_dom(s, k);
                    }
                    lemma_map_from_entries(f, m);
                }
            },
            None => {
                assert(self.view() =~= m);
            },
        }
    }

    /// The name and value at position `i` of the insertion order.
    pub fn entry(&self, i: usize) -> (r: (&String, V))
        requires
            self.wf(),
            i < self.names().len(),
        ensures
            r.0@ == self.names()[i as int],
            self.view().contains_key(r.0@),
            r.1 == self.view()[r.0@],
    {
        proof {
            lemma_entries_map_value(self.entries@, i as int);
        }
        (&self.entries[i].0, self.entries[i].1)
    }
}

} // verus!
