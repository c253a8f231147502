use vstd::prelude::*;
use vstd::string::StrSliceExecFns;
use vstd::string::StringExecFns;

use crate::text::{bytes_lt, lemma_lex_total, lemma_lex_transitive, lex_lt, views};
use vstd::utf8::encode_utf8;
use crate::textmap::TextMap;

verus! {

/// One node of the key tree: a path segment, the full path from the root
/// (segments joined by `:`), whether the full path is a key, and the parent
/// node (none for a top-level segment).
pub struct TreeNode {
    pub full_path: String,
    pub name: String,
    pub is_key: bool,
    pub parent: Option<usize>,
}

/// The full path of a node whose parent has path `parent` (if any).
pub open spec fn join_path(parent: Option<Seq<char>>, name: Seq<char>) -> Seq<char> {
    match parent {
        Some(p) => p + seq![':'] + name,
        None => name,
    }
}

/// Whether a text holds a `:`.
pub open spec fn has_colon(s: Seq<char>) -> bool {
    exists|t: int| 0 <= t < s.len() && s[t] == ':'
}

/// The full paths that a key brings into the tree: each of its prefixes that
/// ends just before a `:`, and the key itself.
pub open spec fn key_prefixes(k: Seq<char>) -> Set<Seq<char>> {
    Set::new(
        |p: Seq<char>|
            p == k || exists|i: int| 0 <= i < k.len() && k[i] == ':' && p == k.subrange(0, i),
    )
}

/// The full paths that a set of keys brings into the tree.
pub open spec fn prefixes_of_set(keys: Set<Seq<char>>) -> Set<Seq<char>> {
    Set::new(|p: Seq<char>| exists|k: Seq<char>| keys.contains(k) && #[trigger] key_prefixes(k).contains(p))
}

/// The tree of keys split on `:`, held as a list of nodes in which every
/// parent stands before its children, with an index from full path to node.
pub struct KeyTrie {
    nodes: Vec<TreeNode>,
    index: TextMap<usize>,
}

impl KeyTrie {
    pub closed spec fn node_seq(&self) -> Seq<TreeNode> {
        self.nodes@
    }

    /// The full paths of the nodes that are keys.
    pub closed spec fn key_set(&self) -> Set<Seq<char>> {
        Set::new(
            |p: Seq<char>|
                exists|j: int|
                    0 <= j < self.nodes@.len() && #[trigger] self.nodes@[j].full_path@ == p
                        && self.nodes@[j].is_key,
        )
    }

    /// The full paths of all nodes.
    pub closed spec fn path_set(&self) -> Set<Seq<char>> {
        Set::new(|p: Seq<char>| exists|j: int| 0 <= j < self.nodes@.len() && #[trigger] self.nodes@[j].full_path@ == p)
    }

    pub closed spec fn wf(&self) -> bool {
        &&& self.index.wf()
        &&& forall|j: int| 0 <= j < self.nodes@.len() ==> !has_colon(#[trigger] self.nodes@[j].name@)
        &&& forall|k: Seq<char>| #[trigger]
            self.index.view().contains_key(k) ==> self.index.view()[k] < self.nodes@.len()
                && self.nodes@[self.index.view()[k] as int].full_path@ == k
        &&& forall|j: int|
            0 <= j < self.nodes@.len() ==> self.index.view().contains_key(
                #[trigger] self.nodes@[j].full_path@,
            ) && self.index.view()[self.nodes@[j].full_path@] == j
        &&& forall|j: int|
            0 <= j < self.nodes@.len() ==> match (#[trigger] self.nodes@[j]).parent {
                Some(p) => p < j && self.nodes@[j].full_path@ == join_path(
                    Some(self.nodes@[p as int].full_path@),
                    self.nodes@[j].name@,
                ),
                None => self.nodes@[j].full_path@ == self.nodes@[j].name@,
            }
    }

    /// An empty tree.
    pub fn new() -> (r: KeyTrie)
        ensures
            r.wf(),
            r.key_set() == Set::<Seq<char>>::empty(),
            r.path_set() == Set::<Seq<char>>::empty(),
    {
        let r = KeyTrie { nodes: Vec::new(), index: TextMap::new() };
        assert(r.key_set() =~= Set::<Seq<char>>::empty());
        assert(r.path_set() =~= Set::<Seq<char>>::empty());
        r
    }

    /// The number of nodes.
    pub fn len(&self) -> (r: usize)
        ensures
            r == self.node_seq().len(),
    {
        self.nodes.len()
    }

    /// The node at `i`.
    pub fn node(&self, i: usize) -> (r: &TreeNode)
        requires
            i < self.node_seq().len(),
        ensures
            *r == self.node_seq()[i as int],
    {
        &self.nodes[i]
    }

    /// The node whose full path is `path`, added as a non-key node under
    /// `parent` with segment `name` when there is none.
    fn ensure_node(&mut self, path: String, name: String, parent: Option<usize>) -> (r: usize)
        requires
            old(self).wf(),
            match parent {
                Some(p) => p < old(self).nodes@.len() && path@ == join_path(
                    Some(old(self).nodes@[p as int].full_path@),
                    name@,
                ),
                None => path@ == name@,
            },
            !has_colon(name@),
        ensures
            final(self).wf(),
            final(self).path_set() == old(self).path_set().insert(path@),
            final(self).nodes@.len() == old(self).nodes@.len() || (final(self).nodes@.len()
                == old(self).nodes@.len() + 1 && r == old(self).nodes@.len()),
            r < final(self).nodes@.len(),
            final(self).nodes@[r as int].full_path@ == path@,
            old(self).nodes@.len() <= final(self).nodes@.len(),
            forall|j: int| 0 <= j < old(self).nodes@.len() ==> final(self).nodes@[j] == old(self).nodes@[j],
            forall|j: int|
                old(self).nodes@.len() <= j < final(self).nodes@.len() ==> !(
                #[trigger] final(self).nodes@[j]).is_key,
    {
        match self.index.get(path.as_str()) {
            Some(i) => {
                assert(self.path_set() =~= old(self).path_set().insert(path@));
                i
            },
            None => {
                let i = self.nodes.len();
                let ghost before = self.nodes@;
                let key = path.clone();
                self.nodes.push(TreeNode { full_path: path, name, is_key: false, parent });
                self.index.insert(key, i);
                proof {
                    assert forall|j: int| 0 <= j < self.nodes@.len() implies self.index.view().contains_key(
                        #[trigger] self.nodes@[j].full_path@,
                    ) && self.index.view()[self.nodes@[j].full_path@] == j by {
                        if j < i {
                            assert(self.nodes@[j] == before[j]);
                        }
                    }
                    assert forall|j: int|
                        0 <= j < self.nodes@.len() implies match (#[trigger] self.nodes@[j]).parent {
                        Some(p) => p < j && self.nodes@[j].full_path@ == join_path(
                            Some(self.nodes@[p as int].full_path@),
                            self.nodes@[j].name@,
                        ),
                        None => self.nodes@[j].full_path@ == self.nodes@[j].name@,
                    } by {
                        if j < i {
                            assert(self.nodes@[j] == before[j]);
                            match before[j].parent {
                                Some(p) => {
                                    assert(self.nodes@[p as int] == before[p as int]);
                                },
                                None => {},
                            }
                        } else {
                            match parent {
                                Some(p) => {
                                    assert(self.nodes@[p as int] == before[p as int]);
                                },
                                None => {},
                            }
                        }
                    }
                    assert forall|j: int| 0 <= j < self.nodes@.len() implies !has_colon(
                        #[trigger] self.nodes@[j].name@,
                    ) by {
                        if j < i {
                            assert(self.nodes@[j] == before[j]);
                        }
                    }
                    assert forall|q: Seq<char>|
                        #[trigger] self.path_set().contains(q) == old(self).path_set().insert(path@).contains(q) by {
                        if old(self).path_set().contains(q) {
                            let j = choose|j: int| 0 <= j < before.len() && #[trigger] before[j].full_path@ == q;
                            assert(self.nodes@[j] == before[j]);
                        }
                        if q == path@ {
                            assert(self.nodes@[i as int].full_path@ == q);
                        }
                        if self.path_set().contains(q) {
                            let j = choose|j: int| 0 <= j < self.nodes@.len() && #[trigger] self.nodes@[j].full_path@ == q;
                            if j < i {
                                assert(self.nodes@[j] == before[j]);
                            }
                        }
                    }
                    assert(self.path_set() =~= old(self).path_set().insert(path@));
                }
                i
            },
        }
    }

    /// Adds `key`: a node for each `:`-separated prefix, and the key's own
    /// node marked as a key.
    pub fn insert(&mut self, key: &str)
        requires
            old(self).wf(),
        ensures
            final(self).wf(),
            final(self).key_set() == old(self).key_set().insert(key@),
            final(self).path_set() == old(self).path_set() + key_prefixes(key@),
    {
        let ghost start = self.nodes@;
        let n = key.unicode_len();
        let mut parent: Option<usize> = None;
        let mut seg_start: usize = 0;
        let mut i: usize = 0;
        assert(self.path_set() =~= old(self).path_set() + Set::new(
            |p: Seq<char>| exists|t: int| 0 <= t < 0 && key@[t] == ':' && p == key@.subrange(0, t),
        ));
        while i < n
            invariant
                self.wf(),
                n == key@.len(),
                seg_start <= i <= n,
                forall|t: int| seg_start <= t < i ==> key@[t] != ':',
                self.path_set() == old(self).path_set() + Set::new(
                    |p: Seq<char>| exists|t: int| 0 <= t < i && key@[t] == ':' && p == key@.subrange(0, t),
                ),
                start == old(self).nodes@,
                start.len() <= self.nodes@.len(),
                forall|j: int| 0 <= j < start.len() ==> self.nodes@[j] == start[j],
                forall|j: int| start.len() <= j < self.nodes@.len() ==> !(#[trigger] self.nodes@[j]).is_key,
                match parent {
                    Some(p) => p < self.nodes@.len() && seg_start >= 1 && self.nodes@[p as int].full_path@
                        == key@.subrange(0, seg_start - 1) && key@[seg_start - 1] == ':',
                    None => seg_start == 0,
                },
            decreases n - i,
        {
            if key.get_char(i) == ':' {
                let path = String::from_str(key.substring_char(0, i));
                let name = String::from_str(key.substring_char(seg_start, i));
                proof {
                    match parent {
                        Some(p) => {
                            assert(key@.subrange(0, i as int) =~= key@.subrange(0, seg_start - 1)
                                + seq![':'] + key@.subrange(seg_start as int, i as int));
                        },
                        None => {
                            assert(key@.subrange(0, i as int) =~= key@.subrange(seg_start as int, i as int));
                        },
                    }
                }
                proof {
                    if has_colon(name@) {
                        let t = choose|t: int| 0 <= t < name@.len() && name@[t] == ':';
                        assert(key@[seg_start + t] == ':');
                    }
                }
                let node = self.ensure_node(path, name, parent);
                parent = Some(node);
                seg_start = i + 1;
                proof {
                    let lo = Set::new(
                        |p: Seq<char>| exists|t: int| 0 <= t < i && key@[t] == ':' && p == key@.subrange(0, t),
                    );
                    let hi = Set::new(
                        |p: Seq<char>| exists|t: int| 0 <= t < i + 1 && key@[t] == ':' && p == key@.subrange(0, t),
                    );
                    assert forall|p: Seq<char>| hi.contains(p) == lo.insert(key@.subrange(0, i as int)).contains(p) by {
                        if hi.contains(p) {
                            let t = choose|t: int| 0 <= t < i + 1 && key@[t] == ':' && p == key@.subrange(0, t);
                            if t < i {
                                assert(lo.contains(p));
                            }
                        }
                        if lo.contains(p) {
                            let t = choose|t: int| 0 <= t < i && key@[t] == ':' && p == key@.subrange(0, t);
                            assert(hi.contains(p));
                        }
                        if p == key@.subrange(0, i as int) {
                            assert(key@[i as int] == ':');
                            assert(hi.contains(p));
                        }
                    }
                    assert(hi =~= lo.insert(key@.subrange(0, i as int)));
                    assert(self.path_set() =~= old(self).path_set() + hi);
                }
            } else {
                proof {
                    let lo = Set::new(
                        |p: Seq<char>| exists|t: int| 0 <= t < i && key@[t] == ':' && p == key@.subrange(0, t),
                    );
                    let hi = Set::new(
                        |p: Seq<char>| exists|t: int| 0 <= t < i + 1 && key@[t] == ':' && p == key@.subrange(0, t),
                    );
                    assert forall|p: Seq<char>| hi.contains(p) == lo.contains(p) by {
                        if hi.contains(p) {
                            let t = choose|t: int| 0 <= t < i + 1 && key@[t] == ':' && p == key@.subrange(0, t);
                            assert(t != i);
                        }
                    }
                    assert(hi =~= lo);
                }
            }
            i = i + 1;
        }
        let path = String::from_str(key);
        let name = String::from_str(key.substring_char(seg_start, n));
        proof {
            match parent {
                Some(p) => {
                    assert(key@ =~= key@.subrange(0, seg_start - 1) + seq![':'] + key@.subrange(
                        seg_start as int,
                        n as int,
                    ));
                },
                None => {
                    assert(key@ =~= key@.subrange(seg_start as int, n as int));
                },
            }
        }
        let ghost mid = self.nodes@;
        proof {
            if has_colon(name@) {
                let t = choose|t: int| 0 <= t < name@.len() && name@[t] == ':';
                assert(key@[seg_start + t] == ':');
            }
            let lo = Set::new(
                |p: Seq<char>| exists|t: int| 0 <= t < n && key@[t] == ':' && p == key@.subrange(0, t),
            );
            assert(lo.insert(key@) =~= key_prefixes(key@));
        }
        let node = self.ensure_node(path, name, parent);
        let ghost before = self.nodes@;
        let ghost ps_before = self.path_set();
        proof {
            let pre = Set::new(
                |p: Seq<char>| exists|t: int| 0 <= t < n && key@[t] == ':' && p == key@.subrange(0, t),
            );
            assert(pre.insert(key@) =~= key_prefixes(key@));
            assert(ps_before =~= old(self).path_set() + key_prefixes(key@));
        }
        let old_node = &self.nodes[node];
        let marked = TreeNode {
            full_path: old_node.full_path.clone(),
            name: old_node.name.clone(),
            is_key: true,
            parent: old_node.parent,
        };
        self.nodes.set(node, marked);
        proof {
            assert forall|j: int| 0 <= j < self.nodes@.len() implies !has_colon(#[trigger] self.nodes@[j].name@) by {
                assert(self.nodes@[j].name@ == before[j].name@);
            }
            assert forall|q: Seq<char>| #[trigger] self.path_set().contains(q) == old(self).path_set().union(
                key_prefixes(key@),
            ).contains(q) by {
                let pre = Set::new(
                    |p: Seq<char>| exists|t: int| 0 <= t < n && key@[t] == ':' && p == key@.subrange(0, t),
                );
                assert(before.len() == self.nodes@.len());
                if self.path_set().contains(q) {
                    let j = choose|j: int| 0 <= j < self.nodes@.len() && #[trigger] self.nodes@[j].full_path@ == q;
                    assert(before[j].full_path@ == q);
                    assert(ps_before.contains(q));
                }
                if ps_before.contains(q) {
                    let j = choose|j: int| 0 <= j < before.len() && #[trigger] before[j].full_path@ == q;
                    assert(self.nodes@[j].full_path@ == q);
                }
            }
            assert(self.path_set() =~= old(self).path_set() + key_prefixes(key@));
            assert forall|j: int| 0 <= j < self.nodes@.len() implies self.index.view().contains_key(
                #[trigger] self.nodes@[j].full_path@,
            ) && self.index.view()[self.nodes@[j].full_path@] == j by {
                if j != node {
                    assert(self.nodes@[j] == before[j]);
                }
            }
            assert forall|j: int|
                0 <= j < self.nodes@.len() implies match (#[trigger] self.nodes@[j]).parent {
                Some(p) => p < j && self.nodes@[j].full_path@ == join_path(
                    Some(self.nodes@[p as int].full_path@),
                    self.nodes@[j].name@,
                ),
                None => self.nodes@[j].full_path@ == self.nodes@[j].name@,
            } by {
                let bj = before[j];
                if j != node {
                    assert(self.nodes@[j] == bj);
                }
                match bj.parent {
                    Some(p) => {
                        assert(self.nodes@[p as int].full_path@ == before[p as int].full_path@);
                    },
                    None => {},
                }
            }
            assert forall|p: Seq<char>|
                #[trigger] self.key_set().contains(p) == old(self).key_set().insert(key@).contains(p) by {
                if old(self).key_set().contains(p) {
                    let j = choose|j: int|
                        0 <= j < start.len() && #[trigger] start[j].full_path@ == p && start[j].is_key;
                    assert(self.nodes@[j].full_path@ == p && self.nodes@[j].is_key);
                }
                if p == key@ {
                    assert(self.nodes@[node as int].full_path@ == p && self.nodes@[node as int].is_key);
                }
                if self.key_set().contains(p) {
                    let j = choose|j: int|
                        0 <= j < self.nodes@.len() && #[trigger] self.nodes@[j].full_path@ == p
                            && self.nodes@[j].is_key;
                    if j != node {
                        assert(self.nodes@[j] == before[j]);
                        if j < start.len() {
                            assert(start[j].full_path@ == p && start[j].is_key);
                        }
                    }
                }
            }
            assert(self.key_set() =~= old(self).key_set().insert(key@));
        }
    }

    /// The tree of `keys`: its keys are exactly the given ones.
    pub fn from_keys(keys: &Vec<String>) -> (r: KeyTrie)
        ensures
            r.wf(),
            r.key_set() == views(keys@).to_set(),
            r.path_set() == prefixes_of_set(views(keys@).to_set()),
    {
        let mut t = KeyTrie::new();
        let mut i: usize = 0;
        assert(prefixes_of_set(views(keys@.subrange(0, 0)).to_set()) =~= Set::<Seq<char>>::empty());
        while i < keys.len()
            invariant
                i <= keys@.len(),
                t.wf(),
                t.key_set() == views(keys@.subrange(0, i as int)).to_set(),
                t.path_set() == prefixes_of_set(views(keys@.subrange(0, i as int)).to_set()),
            decreases keys@.len() - i,
        {
            t.insert(keys[i].as_str());
            assert(views(keys@.subrange(0, i + 1)) =~= views(keys@.subrange(0, i as int)).push(
                keys@[i as int]@,
            ));
            proof {
                let k = keys@[i as int]@;
                let lo = views(keys@.subrange(0, i as int)).to_set();
                views(keys@.subrange(0, i as int)).lemma_push_to_set_commute(k);
                let hi = lo.insert(k);
                assert forall|p: Seq<char>| #[trigger] prefixes_of_set(hi).contains(p) == (
                prefixes_of_set(lo) + key_prefixes(k)).contains(p) by {
                    if prefixes_of_set(hi).contains(p) {
                        let k2 = choose|k2: Seq<char>| hi.contains(k2) && #[trigger] key_prefixes(k2).contains(p);
                        if k2 != k {
                            assert(lo.contains(k2));
                        }
                    }
                    if prefixes_of_set(lo).contains(p) {
                        let k2 = choose|k2: Seq<char>| lo.contains(k2) && #[trigger] key_prefixes(k2).contains(p);
                        assert(hi.contains(k2));
                    }
                    if key_prefixes(k).contains(p) {
                        assert(hi.contains(k));
                    }
                }
                assert(prefixes_of_set(hi) =~= prefixes_of_set(lo) + key_prefixes(k));
            }
            i = i + 1;
        }
        assert(keys@.subrange(0, i as int) =~= keys@);
        t
    }

    /// The full path of node `i`, rebuilt by joining the segments on the way
    /// from the root with `:`.
    pub fn path_of(&self, i: usize) -> (r: String)
        requires
            self.wf(),
            i < self.node_seq().len(),
        ensures
            r@ == self.node_seq()[i as int].full_path@,
        decreases i,
    {
        proof {
            reveal_strlit(":");
        }
        let node = &self.nodes[i];
        match node.parent {
            Some(p) => {
                let mut r = self.path_of(p);
                r.append(":");
                r.append(node.name.as_str());
                r
            },
            None => String::from_str(node.name.as_str()),
        }
    }

    /// The keys of the tree, each rebuilt from its segments, in node order.
    pub fn flatten(&self) -> (r: Vec<String>)
        requires
            self.wf(),
        ensures
            views(r@).to_set() == self.key_set(),
    {
        let mut r: Vec<String> = Vec::new();
        let mut i: usize = 0;
        while i < self.nodes.len()
            invariant
                self.wf(),
                i <= self.nodes@.len(),
                forall|p: Seq<char>|
                    #[trigger] views(r@).contains(p) <==> exists|j: int|
                        0 <= j < i && #[trigger] self.nodes@[j].full_path@ == p && self.nodes@[j].is_key,
            decreases self.nodes@.len() - i,
        {
            if self.nodes[i].is_key {
                let ghost before = views(r@);
                let p = self.path_of(i);
                r.push(p);
                proof {
                    assert(views(r@) =~= before.push(self.nodes@[i as int].full_path@));
                    assert forall|q: Seq<char>|
                        #[trigger] views(r@).contains(q) <==> exists|j: int|
                            0 <= j < i + 1 && #[trigger] self.nodes@[j].full_path@ == q
                                && self.nodes@[j].is_key by {
                        if views(r@).contains(q) && q != self.nodes@[i as int].full_path@ {
                            let t = choose|t: int| 0 <= t < views(r@).len() && views(r@)[t] == q;
                            assert(before[t] == q);
                        }
                        if before.contains(q) {
                            let t = choose|t: int| 0 <= t < before.len() && before[t] == q;
                            assert(views(r@)[t] == q);
                        }
                        assert(views(r@)[before.len() as int] == self.nodes@[i as int].full_path@);
                    }
                }
            }
            i = i + 1;
        }
        assert(views(r@).to_set() =~= self.key_set());
        r
    }
}

/// Display order of two siblings, each given by whether it has children and
/// the bytes of its full path: directories before leaves, then by path.
pub open spec fn shown_before(dir_a: bool, path_a: Seq<u8>, dir_b: bool, path_b: Seq<u8>) -> bool {
    (dir_a && !dir_b) || (dir_a == dir_b && lex_lt(path_a, path_b))
}

proof fn lemma_shown_before_transitive(
    da: bool,
    pa: Seq<u8>,
    db: bool,
    pb: Seq<u8>,
    dc: bool,
    pc: Seq<u8>,
)
    requires
        shown_before(da, pa, db, pb),
        shown_before(db, pb, dc, pc),
    ensures
        shown_before(da, pa, dc, pc),
{
    if da == db && db == dc {
        lemma_lex_transitive(pa, pb, pc);
    }
}

proof fn lemma_shown_before_total(da: bool, pa: Seq<u8>, db: bool, pb: Seq<u8>)
    requires
        pa != pb,
    ensures
        shown_before(da, pa, db, pb) || shown_before(db, pb, da, pa),
{
    lemma_lex_total(pa, pb);
}

impl KeyTrie {
    /// The bytes of the full path of node `j`.
    pub closed spec fn path_bytes(&self, j: int) -> Seq<u8> {
        encode_utf8(self.nodes@[j].full_path@)
    }

    /// Node `j` has at least one child.
    pub closed spec fn has_children(&self, j: int) -> bool {
        exists|c: int| 0 <= c < self.nodes@.len() && #[trigger] self.nodes@[c].parent == Some(j as usize)
    }

    /// Sibling `a` is shown before sibling `b`.
    pub open spec fn before_in_display(&self, a: int, b: int) -> bool {
        shown_before(self.has_children(a), self.path_bytes(a), self.has_children(b), self.path_bytes(b))
    }

    /// Which nodes have children.
    fn directory_flags(&self) -> (r: Vec<bool>)
        ensures
            r@.len() == self.nodes@.len(),
            forall|j: int| 0 <= j < r@.len() ==> #[trigger] r@[j] == self.has_children(j),
    {
        let n = self.nodes.len();
        let mut r: Vec<bool> = Vec::new();
        let mut j: usize = 0;
        while j < n
            invariant
                n == self.nodes@.len(),
                j <= n,
                r@.len() == j,
                forall|t: int| 0 <= t < j ==> !#[trigger] r@[t],
            decreases n - j,
        {
            r.push(false);
            j = j + 1;
        }
        let mut c: usize = 0;
        while c < n
            invariant
                n == self.nodes@.len(),
                c <= n,
                r@.len() == n,
                forall|t: int|
                    0 <= t < n ==> (#[trigger] r@[t] <==> exists|d: int|
                        0 <= d < c && #[trigger] self.nodes@[d].parent == Some(t as usize)),
            decreases n - c,
        {
            let ghost before = r@;
            match self.nodes[c].parent {
                Some(p) => {
                    if p < n {
                        r.set(p, true);
                    }
                },
                None => {},
            }
            proof {
                assert forall|t: int|
                    0 <= t < n implies (#[trigger] r@[t] <==> exists|d: int|
                        0 <= d < c + 1 && #[trigger] self.nodes@[d].parent == Some(t as usize)) by {
                    if self.nodes@[c as int].parent == Some(t as usize) {
                        assert(r@[t]);
                    } else {
                        assert(r@[t] == before[t]);
                        if exists|d: int| 0 <= d < c + 1 && #[trigger] self.nodes@[d].parent == Some(t as usize) {
                            let d = choose|d: int| 0 <= d < c + 1 && #[trigger] self.nodes@[d].parent == Some(t as usize);
                            assert(d != c);
                        }
                    }
                }
            }
            c = c + 1;
        }
        proof {
            assert forall|j: int| 0 <= j < r@.len() implies #[trigger] r@[j] == self.has_children(j) by {
                if r@[j] {
                    let d = choose|d: int| 0 <= d < n && #[trigger] self.nodes@[d].parent == Some(j as usize);
                    assert(self.nodes@[d].parent == Some(j as usize));
                }
                if self.has_children(j) {
                    let d = choose|d: int| 0 <= d < self.nodes@.len() && #[trigger] self.nodes@[d].parent == Some(j as usize);
                    assert(0 <= d < n && self.nodes@[d].parent == Some(j as usize));
                }
            }
        }
        r
    }

    /// Whether a node with directory flag `xd` and path bytes `xb` is shown
    /// before its sibling `y`.
    fn shown_before_node(&self, dirs: &Vec<bool>, xd: bool, xb: &[u8], y: usize) -> (r: bool)
        requires
            dirs@.len() == self.nodes@.len(),
            forall|t: int| 0 <= t < dirs@.len() ==> #[trigger] dirs@[t] == self.has_children(t),
            y < self.nodes@.len(),
        ensures
            r == shown_before(xd, xb@, self.has_children(y as int), self.path_bytes(y as int)),
    {
        let yd = dirs[y];
        let yb = self.nodes[y].full_path.as_str().as_bytes();
        (xd && !yd) || (xd == yd && bytes_lt(xb, yb))
    }

    /// The children of `parent` (the top level for `None`) in display order:
    /// nodes with children first, then by full path in byte order.
    pub fn children_in_display_order(&self, parent: Option<usize>) -> (r: Vec<usize>)
        requires
            self.wf(),
        ensures
            forall|x: usize|
                #[trigger] r@.contains(x) <==> (x < self.node_seq().len() && self.node_seq()[x as int].parent
                    == parent),
            r@.no_duplicates(),
            forall|i: int, k: int|
                0 <= i < k < r@.len() ==> self.before_in_display(#[trigger] r@[i] as int, #[trigger] r@[k] as int),
    {
        let dirs = self.directory_flags();
        let n = self.nodes.len();
        let mut r: Vec<usize> = Vec::new();
        let mut j: usize = 0;
        while j < n
            invariant
                self.wf(),
                n == self.nodes@.len(),
                dirs@.len() == n,
                forall|t: int| 0 <= t < n ==> #[trigger] dirs@[t] == self.has_children(t),
                j <= n,
                forall|x: usize|
                    #[trigger] r@.contains(x) <==> (x < j && self.nodes@[x as int].parent == parent),
                r@.no_duplicates(),
                forall|i: int, k: int|
                    0 <= i < k < r@.len() ==> self.before_in_display(#[trigger] r@[i] as int, #[trigger] r@[k] as int),
            decreases n - j,
        {
            if self.nodes[j].parent == parent {
                let xb = self.nodes[j].full_path.as_str().as_bytes();
                let xd = dirs[j];
                let mut pos: usize = 0;
                proof {
                    assert forall|q: int| 0 <= q < r@.len() implies #[trigger] r@[q] < j by {
                        assert(r@.contains(r@[q]));
                    }
                }
                while pos < r.len() && !self.shown_before_node(&dirs, xd, xb, r[pos])
                    invariant
                        self.wf(),
                        n == self.nodes@.len(),
                        dirs@.len() == n,
                        forall|t: int| 0 <= t < n ==> #[trigger] dirs@[t] == self.has_children(t),
                        j < n,
                        xb@ == self.path_bytes(j as int),
                        xd == self.has_children(j as int),
                        pos <= r@.len(),
                        forall|x: usize| #[trigger] r@.contains(x) ==> x < j,
                        forall|q: int| 0 <= q < r@.len() ==> #[trigger] r@[q] < j,
                        forall|q: int| 0 <= q < pos ==> !self.before_in_display(j as int, #[trigger] r@[q] as int),
                    decreases r@.len() - pos,
                {
                    pos = pos + 1;
                }
                let ghost before = r@;
                r.insert(pos, j);
                proof {
                    assert forall|q: int| 0 <= q < pos implies self.before_in_display(#[trigger] before[q] as int, j as int) by {
                        let y = before[q] as int;
                        assert(before.contains(before[q]));
                        assert(y != j);
                        assert(self.index.view()[self.nodes@[y].full_path@] == y);
                        assert(self.nodes@[y].full_path@ != self.nodes@[j as int].full_path@);
                        vstd::utf8::encode_utf8_decode_utf8(self.nodes@[y].full_path@);
                        vstd::utf8::encode_utf8_decode_utf8(self.nodes@[j as int].full_path@);
                        lemma_shown_before_total(self.has_children(y), self.path_bytes(y), self.has_children(j as int), self.path_bytes(j as int));
                    }
                    if pos < before.len() {
                        assert(self.before_in_display(j as int, before[pos as int] as int));
                    }
                    assert forall|i: int, k: int|
                        0 <= i < k < r@.len() implies self.before_in_display(#[trigger] r@[i] as int, #[trigger] r@[k] as int) by {
                        if k < pos {
                            assert(r@[i] == before[i] && r@[k] == before[k]);
                        } else if k == pos {
                            assert(r@[i] == before[i]);
                        } else if i < pos {
                            assert(r@[i] == before[i] && r@[k] == before[k - 1]);
                            if k - 1 > pos {
                                lemma_shown_before_transitive(
                                    self.has_children(j as int), self.path_bytes(j as int),
                                    self.has_children(before[pos as int] as int), self.path_bytes(before[pos as int] as int),
                                    self.has_children(before[k - 1] as int), self.path_bytes(before[k - 1] as int),
                                );
                            }
                            lemma_shown_before_transitive(
                                self.has_children(before[i] as int), self.path_bytes(before[i] as int),
                                self.has_children(j as int), self.path_bytes(j as int),
                                self.has_children(before[k - 1] as int), self.path_bytes(before[k - 1] as int),
                            );
                        } else if i == pos {
                            assert(r@[k] == before[k - 1]);
                            if k - 1 > pos {
                                lemma_shown_before_transitive(
                                    self.has_children(j as int), self.path_bytes(j as int),
                                    self.has_children(before[pos as int] as int), self.path_bytes(before[pos as int] as int),
                                    self.has_children(before[k - 1] as int), self.path_bytes(before[k - 1] as int),
                                );
                            }
                        } else {
                            assert(r@[i] == before[i - 1] && r@[k] == before[k - 1]);
                        }
                    }
                    assert forall|x: usize|
                        #[trigger] r@.contains(x) <==> (x < j + 1 && self.nodes@[x as int].parent == parent) by {
                        if x == j {
                            assert(r@[pos as int] == j);
                        } else {
                            if before.contains(x) {
                                let q = choose|q: int| 0 <= q < before.len() && before[q] == x;
                                if q < pos {
                                    assert(r@[q] == x);
                                } else {
                                    assert(r@[q + 1] == x);
                                }
                            }
                            if r@.contains(x) {
                                let q = choose|q: int| 0 <= q < r@.len() && r@[q] == x;
                                if q < pos {
                                    assert(before[q] == x);
                                } else if q > pos {
                                    assert(before[q - 1] == x);
                                }
                            }
                        }
                    }
                    assert forall|a: int, b: int| 0 <= a < r@.len() && 0 <= b < r@.len() && a != b implies r@[a] != r@[b] by {
                        let a2 = if a < pos { a } else if a == pos { -1 } else { a - 1 };
                        let b2 = if b < pos { b } else if b == pos { -1 } else { b - 1 };
                        if a2 >= 0 && b2 >= 0 {
                            assert(r@[a] == before[a2] && r@[b] == before[b2]);
                        } else if a2 >= 0 {
                            assert(before.contains(before[a2]));
                        } else if b2 >= 0 {
                            assert(before.contains(before[b2]));
                        }
                    }
                }
            } else {
                proof {
                    assert forall|x: usize|
                        #[trigger] r@.contains(x) <==> (x < j + 1 && self.nodes@[x as int].parent == parent) by {}
                }
            }
            j = j + 1;
        }
        r
    }
}

impl KeyTrie {
    /// The parent relation follows from the paths alone: `c` is a child of
    /// `j` exactly when its path is `j`'s path, `:`, and a segment without
    /// `:`.
    pub proof fn lemma_parent_by_path(&self, c: int, j: int)
        requires
            self.wf(),
            0 <= c < self.node_seq().len(),
            0 <= j < self.node_seq().len(),
        ensures
            self.node_seq()[c].parent == Some(j as usize) <==> exists|y: Seq<char>|
                !has_colon(y) && self.node_seq()[c].full_path@ == #[trigger] join_path(
                    Some(self.node_seq()[j].full_path@),
                    y,
                ),
    {
        let pc = self.nodes@[c].full_path@;
        let pj = self.nodes@[j].full_path@;
        if self.nodes@[c].parent == Some(j as usize) {
            assert(!has_colon(self.nodes@[c].name@));
        }
        if exists|y: Seq<char>| !has_colon(y) && pc == #[trigger] join_path(Some(pj), y) {
            let y = choose|y: Seq<char>| !has_colon(y) && pc == #[trigger] join_path(Some(pj), y);
            assert(pc[pj.len() as int] == ':');
            match self.nodes@[c].parent {
                None => {
                    assert(has_colon(self.nodes@[c].name@));
                },
                Some(q) => {
                    let pq = self.nodes@[q as int].full_path@;
                    let nc = self.nodes@[c].name@;
                    assert(!has_colon(nc));
                    assert(pc[pq.len() as int] == ':');
                    let w1 = pq + seq![':'] + nc;
                    let w2 = pj + seq![':'] + y;
                    assert(pc == w1);
                    assert(pc == w2);
                    assert(w2.len() == pj.len() + 1 + y.len());
                    assert(w1.len() == pq.len() + 1 + nc.len());
                    if pq.len() < pj.len() {
                        let pre = pq + seq![':'];
                        assert(w1 == pre + nc);
                        assert(pj.len() >= pre.len());
                        assert((pre + nc)[pj.len() as int] == nc[pj.len() - pre.len()]);
                        assert(has_colon(nc));
                    } else if pj.len() < pq.len() {
                        assert(w2[pq.len() as int] == y[pq.len() - pj.len() - 1]);
                        assert(has_colon(y));
                    } else {
                        assert(pq =~= pc.subrange(0, pq.len() as int));
                        assert(pj =~= pc.subrange(0, pj.len() as int));
                        assert(self.index.view()[pq] == q);
                        assert(self.index.view()[pj] == j);
                    }
                },
            }
        }
    }

    /// A node is at the top level exactly when its path holds no `:`.
    pub proof fn lemma_top_level_by_path(&self, c: int)
        requires
            self.wf(),
            0 <= c < self.node_seq().len(),
        ensures
            self.node_seq()[c].parent is None <==> !has_colon(self.node_seq()[c].full_path@),
    {
        match self.nodes@[c].parent {
            None => {},
            Some(q) => {
                let pq = self.nodes@[q as int].full_path@;
                assert(self.nodes@[c].full_path@[pq.len() as int] == ':');
            },
        }
    }
}

/// Two trees built from lists that hold the same keys (in any order, with
/// any repetition) have the same node paths and the same keys; since the
/// parent relation follows from the paths, they show the same tree.
pub proof fn lemma_same_keys_same_tree(
    k1: Seq<String>,
    k2: Seq<String>,
    t1: KeyTrie,
    t2: KeyTrie,
)
    requires
        views(k1).to_set() == views(k2).to_set(),
        t1.key_set() == views(k1).to_set(),
        t1.path_set() == prefixes_of_set(views(k1).to_set()),
        t2.key_set() == views(k2).to_set(),
        t2.path_set() == prefixes_of_set(views(k2).to_set()),
    ensures
        t1.key_set() == t2.key_set(),
        t1.path_set() == t2.path_set(),
{
}

/// Building the tree from a list of keys and flattening it back gives the
/// same set of keys.
pub proof fn lemma_trie_round_trip(keys: Seq<String>, t: KeyTrie, flat: Seq<String>)
    requires
        t.key_set() == views(keys).to_set(),
        views(flat).to_set() == t.key_set(),
    ensures
        views(flat).to_set() == views(keys).to_set(),
{
}

} // verus!
