use vstd::prelude::*;

use vstd::string::StringExecFns;

use crate::text::{str_eq, views};
use crate::textmap::TextMap;

verus! {

/// The data type of a stored key, as the store's TYPE command names it.
#[derive(Debug, Clone, Copy, PartialEq, Eq, Structural)]
pub enum KeyType {
    Unknown,
    String,
    List,
    SetOf,
    Zset,
    Hash,
    Stream,
    Vectorset,
}

/// The key type that a TYPE reply names; any other reply is `Unknown`.
pub open spec fn key_type_of(s: Seq<char>) -> KeyType {
    if s == "list"@ {
        KeyType::List
    } else if s == "set"@ {
        KeyType::SetOf
    } else if s == "zset"@ {
        KeyType::Zset
    } else if s == "hash"@ {
        KeyType::Hash
    } else if s == "stream"@ {
        KeyType::Stream
    } else if s == "vectorset"@ {
        KeyType::Vectorset
    } else if s == "string"@ {
        KeyType::String
    } else {
        KeyType::Unknown
    }
}

/// The short badge shown beside a key of each type.
pub open spec fn key_type_label(t: KeyType) -> Seq<char> {
    match t {
        KeyType::String => "STR"@,
        KeyType::List => "LIST"@,
        KeyType::Hash => "HASH"@,
        KeyType::SetOf => "SET"@,
        KeyType::Zset => "ZSET"@,
        KeyType::Stream => "STRM"@,
        KeyType::Vectorset => "VEC"@,
        KeyType::Unknown => ""@,
    }
}

impl KeyType {
    /// Reads a TYPE reply.
    pub fn parse(s: &str) -> (r: KeyType)
        ensures
            r == key_type_of(s@),
    {
        if str_eq(s, "list") {
            KeyType::List
        } else if str_eq(s, "set") {
            KeyType::SetOf
        } else if str_eq(s, "zset") {
            KeyType::Zset
        } else if str_eq(s, "hash") {
            KeyType::Hash
        } else if str_eq(s, "stream") {
            KeyType::Stream
        } else if str_eq(s, "vectorset") {
            KeyType::Vectorset
        } else if str_eq(s, "string") {
            KeyType::String
        } else {
            KeyType::Unknown
        }
    }

    /// The short badge of this type; empty for `Unknown`.
    pub fn as_str(&self) -> (r: &'static str)
        ensures
            r@ == key_type_label(*self),
    {
        match self {
            KeyType::String => "STR",
            KeyType::List => "LIST",
            KeyType::Hash => "HASH",
            KeyType::SetOf => "SET",
            KeyType::Zset => "ZSET",
            KeyType::Stream => "STRM",
            KeyType::Vectorset => "VEC",
            KeyType::Unknown => "",
        }
    }
}

/// The keys discovered on one server, each with its resolved type, and a
/// generation number that changes whenever the set of keys changes.
pub struct KeyIndex {
    map: TextMap<KeyType>,
    generation: u64,
}

impl KeyIndex {
    /// Key name to type.
    pub closed spec fn view(&self) -> Map<Seq<char>, KeyType> {
        self.map.view()
    }

    /// The key names in the order they were found.
    pub closed spec fn names(&self) -> Seq<Seq<char>> {
        self.map.names()
    }

    pub closed spec fn spec_generation(&self) -> u64 {
        self.generation
    }

    pub closed spec fn wf(&self) -> bool {
        self.map.wf()
    }

    pub proof fn lemma_view(&self)
        requires
            self.wf(),
        ensures
            self.names().to_set() == self.view().dom(),
            self.names().len() == self.view().dom().len(),
            self.names().no_duplicates(),
            forall|k: Seq<char>| #[trigger] self.view().contains_key(k) <==> self.names().contains(k),
    {
        self.map.lemma_view();
    }

    pub fn new() -> (r: KeyIndex)
        ensures
            r.wf(),
            r.view() == Map::<Seq<char>, KeyType>::empty(),
            r.names() == Seq::<Seq<char>>::empty(),
    {
        KeyIndex { map: TextMap::new(), generation: 0 }
    }

    /// How many keys are known.
    pub fn len(&self) -> (r: usize)
        requires
            self.wf(),
        ensures
            r == self.view().dom().len(),
            r == self.names().len(),
    {
        self.map.len()
    }

    /// The generation number; it changes whenever a key is added or removed.
    pub fn generation(&self) -> (r: u64)
        ensures
            r == self.spec_generation(),
    {
        self.generation
    }

    fn bump(&mut self)
        ensures
            final(self).generation != old(self).generation,
            final(self).map == old(self).map,
    {
        if self.generation == u64::MAX {
            self.generation = 0;
        } else {
            self.generation = self.generation + 1;
        }
    }

    /// The type recorded for `key`, if the key is known.
    pub fn get(&self, key: &str) -> (r: Option<KeyType>)
        requires
            self.wf(),
        ensures
            r == (if self.view().contains_key(key@) {
                Some(self.view()[key@])
            } else {
                None
            }),
    {
        self.map.get(key)
    }

    /// Adds each name not yet known, with type `Unknown`; known keys keep
    /// their type. Returns how many keys were new. The generation changes
    /// exactly when some key was new.
    pub fn extend(&mut self, keys: Vec<String>) -> (added: usize)
        requires
            old(self).wf(),
        ensures
            final(self).wf(),
            forall|k: Seq<char>| #[trigger]
                final(self).view().contains_key(k) <==> (old(self).view().contains_key(k) || views(
                    keys@,
                ).contains(k)),
            forall|k: Seq<char>|
                old(self).view().contains_key(k) ==> #[trigger] final(self).view()[k] == old(
                    self,
                ).view()[k],
            forall|k: Seq<char>|
                final(self).view().contains_key(k) && !old(self).view().contains_key(k)
                    ==> #[trigger] final(self).view()[k] == KeyType::Unknown,
            final(self).view().dom().len() == old(self).view().dom().len() + added,
            (added == 0) == (final(self).view() == old(self).view()),
            (added == 0) == (final(self).spec_generation() == old(self).spec_generation()),
    {
        let ghost names = views(keys@);
        let ghost start = self.view();
        proof {
            self.lemma_view();
        }
        let mut added: usize = 0;
        let mut i: usize = 0;
        while i < keys.len()
            invariant
                i <= keys@.len(),
                names == views(keys@),
                self.wf(),
                self.generation == old(self).generation,
                start == old(self).view(),
                self.view().dom().len() == start.dom().len() + added,
                added <= i,
                added == 0 ==> self.view() == start,
                forall|k: Seq<char>| #[trigger]
                    self.view().contains_key(k) <==> (start.contains_key(k) || names.subrange(
                        0,
                        i as int,
                    ).contains(k)),
                forall|k: Seq<char>| start.contains_key(k) ==> #[trigger] self.view()[k] == start[k],
                forall|k: Seq<char>|
                    self.view().contains_key(k) && !start.contains_key(k) ==> #[trigger] self.view()[k]
                        == KeyType::Unknown,
            decreases keys@.len() - i,
        {
            proof {
                self.lemma_view();
            }
            if self.map.get(keys[i].as_str()).is_none() {
                self.map.insert(keys[i].clone(), KeyType::Unknown);
                added = added + 1;
                proof {
                    self.lemma_view();
                }
            }
            proof {
                assert(names.subrange(0, i + 1) =~= names.subrange(0, i as int).push(names[i as int]));
                assert(names[i as int] == keys@[i as int]@);
                assert forall|k: Seq<char>| #[trigger]
                    self.view().contains_key(k) <==> (start.contains_key(k) || names.subrange(
                        0,
                        i + 1,
                    ).contains(k)) by {
                    let lo = names.subrange(0, i as int);
                    let hi = names.subrange(0, i + 1);
                    if hi.contains(k) && k != names[i as int] {
                        let j = choose|j: int| 0 <= j < hi.len() && hi[j] == k;
                        assert(lo[j] == k);
                    }
                    if lo.contains(k) {
                        let j = choose|j: int| 0 <= j < lo.len() && lo[j] == k;
                        assert(hi[j] == k);
                    }
                    assert(hi[i as int] == names[i as int]);
                }
            }
            i = i + 1;
        }
        proof {
            assert(names.subrange(0, keys@.len() as int) =~= names);
            if added != 0 {
                assert(self.view().dom().len() != start.dom().len());
            }
        }
        if added != 0 {
            self.bump();
        }
        added
    }

    /// Records the type of `key` when the key is known; the set of keys is kept.
    pub fn set_type(&mut self, key: &str, t: KeyType)
        requires
            old(self).wf(),
        ensures
            final(self).wf(),
            final(self).view() == (if old(self).view().contains_key(key@) {
                old(self).view().insert(key@, t)
            } else {
                old(self).view()
            }),
            final(self).names() == old(self).names(),
            final(self).spec_generation() == old(self).spec_generation(),
    {
        if self.map.get(key).is_some() {
            self.map.insert(String::from_str(key), t);
        }
    }

    /// Forgets `key`. The generation changes when the key was known.
    pub fn remove(&mut self, key: &str)
        requires
            old(self).wf(),
        ensures
            final(self).wf(),
            final(self).view() == old(self).view().remove(key@),
            old(self).view().contains_key(key@) ==> final(self).spec_generation() != old(
                self,
            ).spec_generation(),
            !old(self).view().contains_key(key@) ==> final(self).spec_generation() == old(
                self,
            ).spec_generation(),
    {
        if self.map.get(key).is_some() {
            self.map.remove(key);
            self.bump();
        } else {
            assert(self.view().remove(key@) =~= self.view());
        }
    }

    /// Forgets every key. The generation changes.
    pub fn clear(&mut self)
        ensures
            final(self).wf(),
            final(self).view() == Map::<Seq<char>, KeyType>::empty(),
            final(self).names() == Seq::<Seq<char>>::empty(),
            final(self).spec_generation() != old(self).spec_generation(),
    {
        self.map = TextMap::new();
        self.bump();
    }

    /// Marks a change that observers must redraw, such as newly resolved
    /// types: the generation changes and the keys are kept.
    pub fn touch(&mut self)
        requires
            old(self).wf(),
        ensures
            final(self).wf(),
            final(self).view() == old(self).view(),
            final(self).names() == old(self).names(),
            final(self).spec_generation() != old(self).spec_generation(),
    {
        self.bump();
    }

    /// The names of all keys, in the order they were found.
    pub fn key_names(&self) -> (r: Vec<String>)
        requires
            self.wf(),
        ensures
            views(r@) == self.names(),
    {
        let n = self.map.len();
        let mut r: Vec<String> = Vec::new();
        let mut i: usize = 0;
        while i < n
            invariant
                self.wf(),
                n == self.names().len(),
                i <= n,
                r@.len() == i,
                forall|j: int| 0 <= j < i ==> #[trigger] r@[j]@ == self.names()[j],
            decreases n - i,
        {
            let (name, _) = self.map.entry(i);
            r.push(name.clone());
            i = i + 1;
        }
        assert(views(r@) =~= self.names());
        r
    }

    /// The key and type at position `i` of the discovery order.
    pub fn entry(&self, i: usize) -> (r: (&String, KeyType))
        requires
            self.wf(),
            i < self.names().len(),
        ensures
            r.0@ == self.names()[i as int],
            self.view().contains_key(r.0@),
            r.1 == self.view()[r.0@],
    {
        self.map.entry(i)
    }
}

} // verus!
