use vstd::prelude::*;
use vstd::string::StringExecFns;

use crate::config::{decimal_text, digit_char, push_decimal};
use crate::textmap::TextMap;

verus! {

/// The pool key of a server id and a logical database: the database number
/// in decimal, `:`, then the id.
pub open spec fn pool_key(id: Seq<char>, db: u64) -> Seq<char> {
    decimal_text(db as nat) + seq![':'] + id
}

pub fn make_pool_key(id: &str, db: u64) -> (r: String)
    ensures
        r@ == pool_key(id@, db),
{
    proof {
        reveal_strlit(":");
    }
    let mut r = String::new();
    push_decimal(&mut r, db);
    r.append(":");
    r.append(id);
    assert(r@ =~= pool_key(id@, db));
    r
}

proof fn lemma_decimal_text_digits(n: nat)
    ensures
        decimal_text(n).len() >= 1,
        n >= 10 ==> decimal_text(n).len() >= 2,
        forall|i: int| 0 <= i < decimal_text(n).len() ==> #[trigger] decimal_text(n)[i] != ':',
    decreases n,
{
    if n >= 10 {
        lemma_decimal_text_digits(n / 10);
        let p = decimal_text(n / 10);
        assert forall|i: int| 0 <= i < decimal_text(n).len() implies #[trigger] decimal_text(n)[i]
            != ':' by {
            if i < p.len() {
                assert(decimal_text(n)[i] == p[i]);
            }
        }
    }
}

proof fn lemma_decimal_text_injective(a: nat, b: nat)
    requires
        decimal_text(a) == decimal_text(b),
    ensures
        a == b,
    decreases a,
{
    lemma_decimal_text_digits(a);
    lemma_decimal_text_digits(b);
    let ta = decimal_text(a);
    let tb = decimal_text(b);
    if a >= 10 && b >= 10 {
        assert(ta.last() == digit_char(a % 10));
        assert(tb.last() == digit_char(b % 10));
        lemma_digit_char_injective(a % 10, b % 10);
        assert(ta.drop_last() =~= decimal_text(a / 10));
        assert(tb.drop_last() =~= decimal_text(b / 10));
        lemma_decimal_text_injective(a / 10, b / 10);
        assert(a == (a / 10) * 10 + a % 10);
        assert(b == (b / 10) * 10 + b % 10);
    } else if a < 10 && b < 10 {
        assert(ta[0] == digit_char(a));
        assert(tb[0] == digit_char(b));
        lemma_digit_char_injective(a, b);
    }
}

proof fn lemma_digit_char_injective(x: nat, y: nat)
    requires
        x < 10,
        y < 10,
        digit_char(x) == digit_char(y),
    ensures
        x == y,
{
}

/// Two different pairs of id and database never share a pool key.
pub proof fn lemma_pool_key_injective(id1: Seq<char>, db1: u64, id2: Seq<char>, db2: u64)
    requires
        pool_key(id1, db1) == pool_key(id2, db2),
    ensures
        id1 == id2,
        db1 == db2,
{
    let d1 = decimal_text(db1 as nat);
    let d2 = decimal_text(db2 as nat);
    let k = pool_key(id1, db1);
    lemma_decimal_text_digits(db1 as nat);
    lemma_decimal_text_digits(db2 as nat);
    if d1.len() < d2.len() {
        assert(k[d1.len() as int] == ':');
        assert(pool_key(id2, db2)[d1.len() as int] == d2[d1.len() as int]);
    } else if d2.len() < d1.len() {
        assert(pool_key(id2, db2)[d2.len() as int] == ':');
        assert(k[d2.len() as int] == d1[d2.len() as int]);
    } else {
        assert(d1 =~= k.subrange(0, d1.len() as int));
        assert(d2 =~= pool_key(id2, db2).subrange(0, d2.len() as int));
        lemma_decimal_text_injective(db1 as nat, db2 as nat);
        assert(id1 =~= k.subrange(d1.len() as int + 1, k.len() as int));
        assert(id2 =~= pool_key(id2, db2).subrange(d2.len() as int + 1, k.len() as int));
    }
}

/// The open transport handles, one per server id and logical database, each
/// named by a number that is never given out twice.
pub struct ConnectionPool {
    handles: TextMap<u64>,
    next_handle: u64,
}

impl ConnectionPool {
    /// Pool key to handle.
    pub closed spec fn view(&self) -> Map<Seq<char>, u64> {
        self.handles.view()
    }

    pub closed spec fn spec_next(&self) -> u64 {
        self.next_handle
    }

    /// Every handle is below the next one to give out, and no two keys share
    /// a handle.
    pub closed spec fn wf(&self) -> bool {
        &&& self.handles.wf()
        &&& forall|k: Seq<char>| #[trigger]
            self.handles.view().contains_key(k) ==> self.handles.view()[k] < self.next_handle
        &&& forall|a: Seq<char>, b: Seq<char>|
            #[trigger] self.handles.view().contains_key(a) && #[trigger] self.handles.view().contains_key(
                b,
            ) && a != b ==> self.handles.view()[a] != self.handles.view()[b]
    }

    /// No handle is held for two different pairs of server and database.
    pub proof fn lemma_not_shared(&self, id1: Seq<char>, db1: u64, id2: Seq<char>, db2: u64)
        requires
            self.wf(),
            self.view().contains_key(pool_key(id1, db1)),
            self.view().contains_key(pool_key(id2, db2)),
            id1 != id2 || db1 != db2,
        ensures
            self.view()[pool_key(id1, db1)] != self.view()[pool_key(id2, db2)],
    {
        if pool_key(id1, db1) == pool_key(id2, db2) {
            lemma_pool_key_injective(id1, db1, id2, db2);
        }
    }

    pub fn new() -> (r: ConnectionPool)
        ensures
            r.wf(),
            r.view() == Map::<Seq<char>, u64>::empty(),
    {
        ConnectionPool { handles: TextMap::new(), next_handle: 0 }
    }

    /// The handle held for server `id` and database `db`, if any.
    pub fn get(&self, id: &str, db: u64) -> (r: Option<u64>)
        requires
            self.wf(),
        ensures
            r == (if self.view().contains_key(pool_key(id@, db)) {
                Some(self.view()[pool_key(id@, db)])
            } else {
                None
            }),
    {
        let key = make_pool_key(id, db);
        self.handles.get(key.as_str())
    }

    /// Gives out a new handle for server `id` and database `db`, replacing any
    /// held for them; `None` once every handle number has been used.
    pub fn open(&mut self, id: &str, db: u64) -> (r: Option<u64>)
        requires
            old(self).wf(),
        ensures
            final(self).wf(),
            match r {
                Some(h) => {
                    &&& final(self).view() == old(self).view().insert(pool_key(id@, db), h)
                    &&& forall|k: Seq<char>| #[trigger]
                        old(self).view().contains_key(k) ==> old(self).view()[k] != h
                },
                None => final(self).view() == old(self).view() && old(self).spec_next() == u64::MAX,
            },
    {
        if self.next_handle == u64::MAX {
            return None;
        }
        let h = self.next_handle;
        let key = make_pool_key(id, db);
        let ghost before = self.handles.view();
        self.handles.insert(key, h);
        self.next_handle = h + 1;
        proof {
            let m = self.handles.view();
            assert forall|a: Seq<char>, b: Seq<char>|
                #[trigger] m.contains_key(a) && #[trigger] m.contains_key(b) && a != b implies m[a]
                != m[b] by {
                if a != pool_key(id@, db) && b != pool_key(id@, db) {
                    assert(before.contains_key(a) && before.contains_key(b));
                } else if a == pool_key(id@, db) {
                    assert(before.contains_key(b));
                } else {
                    assert(before.contains_key(a));
                }
            }
        }
        Some(h)
    }

    /// Drops the handle of server `id` and database `db` after a connection
    /// error; the next request opens a new one.
    pub fn invalidate(&mut self, id: &str, db: u64)
        requires
            old(self).wf(),
        ensures
            final(self).wf(),
            final(self).view() == old(self).view().remove(pool_key(id@, db)),
    {
        let key = make_pool_key(id, db);
        self.handles.remove(key.as_str());
    }
}

} // verus!
