use vstd::prelude::*;
use vstd::string::StrSliceExecFns;
use vstd::string::StringExecFns;

use crate::keys::{KeyIndex, KeyType};
use crate::text::{has_char_from, sort_texts, starts_with, str_eq, text_lt, views};

verus! {

/// Keys gathered per round of automatic continuation of a keyspace scan.
pub const SCAN_RESULT_STEP: usize = 1000;

/// Batch-size hint for a scan without keyword.
pub const SCAN_COUNT_PLAIN: u64 = 2000;

/// Batch-size hint for a scan with a keyword, whose matches are sparser.
pub const SCAN_COUNT_FILTERED: u64 = 10000;

/// Batch-size hint for the scan of one subtree.
pub const PREFIX_SCAN_COUNT: u64 = 10000;

/// Most scan calls made to expand one subtree.
pub const PREFIX_SCAN_MAX_ROUNDS: usize = 20;

/// Most keys whose type is asked for in one pass.
pub const TYPE_QUERY_MAX: usize = 1000;

/// Sum of the per-shard cursors.
pub open spec fn cursor_sum(c: Seq<u64>) -> int
    decreases c.len(),
{
    if c.len() == 0 {
        0
    } else {
        cursor_sum(c.drop_last()) + c.last()
    }
}

proof fn lemma_cursor_sum_zero(c: Seq<u64>)
    ensures
        (cursor_sum(c) == 0) <==> (forall|i: int| 0 <= i < c.len() ==> #[trigger] c[i] == 0),
    decreases c.len(),
{
    if c.len() > 0 {
        lemma_cursor_sum_nonneg(c.drop_last());
        lemma_cursor_sum_zero(c.drop_last());
        if cursor_sum(c) == 0 {
            assert forall|i: int| 0 <= i < c.len() implies #[trigger] c[i] == 0 by {
                if i < c.len() - 1 {
                    assert(c.drop_last()[i] == c[i]);
                }
            }
        }
        if forall|i: int| 0 <= i < c.len() ==> #[trigger] c[i] == 0 {
            assert forall|i: int| 0 <= i < c.drop_last().len() implies #[trigger] c.drop_last()[i]
                == 0 by {
                assert(c[i] == 0);
            }
            assert(c[c.len() - 1] == 0);
        }
    }
}

proof fn lemma_cursor_sum_nonneg(c: Seq<u64>)
    ensures
        cursor_sum(c) >= 0,
    decreases c.len(),
{
    if c.len() > 0 {
        lemma_cursor_sum_nonneg(c.drop_last());
    }
}

/// Whether every shard's cursor is back at zero, that is, the scan pass is complete.
pub fn cursors_done(c: &Vec<u64>) -> (r: bool)
    ensures
        r == (cursor_sum(c@) == 0),
{
    proof {
        lemma_cursor_sum_zero(c@);
    }
    let mut i: usize = 0;
    while i < c.len()
        invariant
            i <= c@.len(),
            forall|t: int| 0 <= t < i ==> #[trigger] c@[t] == 0,
        decreases c@.len() - i,
    {
        if c[i] != 0 {
            proof {
                assert(c@[i as int] != 0);
                lemma_cursor_sum_zero(c@);
            }
            return false;
        }
        i = i + 1;
    }
    true
}

/// The match pattern of a keyspace scan: `*keyword*`, or `*` without keyword.
pub open spec fn scan_pattern_of(keyword: Seq<char>) -> Seq<char> {
    if keyword.len() == 0 {
        seq!['*']
    } else {
        seq!['*'] + keyword + seq!['*']
    }
}

pub fn scan_pattern(keyword: &str) -> (r: String)
    ensures
        r@ == scan_pattern_of(keyword@),
{
    proof {
        reveal_strlit("*");
    }
    let mut r = String::from_str("*");
    if keyword.unicode_len() > 0 {
        r.append(keyword);
        r.append("*");
    }
    r
}

/// The batch-size hint of a keyspace scan.
pub open spec fn scan_count_of(keyword: Seq<char>) -> u64 {
    if keyword.len() == 0 {
        SCAN_COUNT_PLAIN
    } else {
        SCAN_COUNT_FILTERED
    }
}

pub fn scan_count(keyword: &str) -> (r: u64)
    ensures
        r == scan_count_of(keyword@),
{
    if keyword.unicode_len() == 0 {
        SCAN_COUNT_PLAIN
    } else {
        SCAN_COUNT_FILTERED
    }
}

/// How many keys a scan gathers before it yields, after `scan_times` explicit
/// continuations.
pub open spec fn scan_limit_of(scan_times: usize) -> int {
    (scan_times + 1) * SCAN_RESULT_STEP
}

/// `scan_limit_of`, saturated at the largest `usize`.
pub open spec fn scan_limit_sat(scan_times: usize) -> int {
    if scan_limit_of(scan_times) <= usize::MAX {
        scan_limit_of(scan_times)
    } else {
        usize::MAX as int
    }
}

pub fn scan_limit(scan_times: usize) -> (r: usize)
    ensures
        r == scan_limit_sat(scan_times),
{
    if scan_times >= usize::MAX / SCAN_RESULT_STEP {
        assert(scan_limit_of(scan_times) > usize::MAX) by (nonlinear_arith)
            requires
                scan_times >= usize::MAX / 1000,
                scan_limit_of(scan_times) == (scan_times + 1) * 1000,
        ;
        usize::MAX
    } else {
        assert((scan_times + 1) * 1000 <= usize::MAX) by (nonlinear_arith)
            requires
                scan_times < usize::MAX / 1000,
        ;
        (scan_times + 1) * SCAN_RESULT_STEP
    }
}

/// The match pattern of a subtree scan: the prefix followed by `*`.
pub fn prefix_pattern(prefix: &str) -> (r: String)
    ensures
        r@ == prefix@ + seq!['*'],
{
    proof {
        reveal_strlit("*");
    }
    let mut r = String::from_str(prefix);
    r.append("*");
    r
}

/// Whether a subtree scan goes on after the call numbered `round` (from 0)
/// returned `cursors`: it stops once every cursor is zero or after
/// `PREFIX_SCAN_MAX_ROUNDS` calls.
pub fn prefix_scan_continues(round: usize, cursors: &Vec<u64>) -> (r: bool)
    ensures
        r == (cursor_sum(cursors@) != 0 && round + 1 < PREFIX_SCAN_MAX_ROUNDS),
{
    !cursors_done(cursors) && round < PREFIX_SCAN_MAX_ROUNDS - 1
}

/// The cursors that an optional vector holds.
pub open spec fn cursor_view(c: Option<Vec<u64>>) -> Option<Seq<u64>> {
    match c {
        Some(v) => Some(v@),
        None => None,
    }
}

/// One scan call to make: the cursors to resume from (none on the first
/// call), the match pattern and the batch-size hint.
pub struct ScanRequest {
    pub cursors: Option<Vec<u64>>,
    pub pattern: String,
    pub count: u64,
}

/// What a scan batch leads to.
#[derive(Debug, Clone, Copy, PartialEq, Eq, Structural)]
pub enum ScanStep {
    /// The batch belongs to another server or keyword and was dropped.
    Stale,
    /// Issue the next scan call at once.
    Continue,
    /// The loop stops here; resolve the types of new keys next.
    Finished,
}

/// What expanding a subtree of the key tree asks for.
#[derive(Debug, Clone, Copy, PartialEq, Eq, Structural)]
pub enum PrefixPlan {
    /// The subtree was expanded before.
    Skip,
    /// The whole keyspace is known; only resolve types under the prefix.
    FillTypes,
    /// Scan the keys under the prefix.
    Scan,
}

/// Keys under `prefix` that are one level below it: the rest of the name
/// holds no `:`.
pub open spec fn is_direct_child(prefix: Seq<char>, k: Seq<char>) -> bool {
    &&& prefix.len() <= k.len()
    &&& k.subrange(0, prefix.len() as int) == prefix
    &&& !(exists|i: int| prefix.len() <= i < k.len() && k[i] == ':')
}

/// Keys whose type is still to be asked for under `prefix`.
pub open spec fn type_pending(m: Map<Seq<char>, KeyType>, prefix: Seq<char>) -> spec_fn(Seq<char>) -> bool {
    |k: Seq<char>| m[k] == KeyType::Unknown && is_direct_child(prefix, k)
}

/// Applies the TYPE replies `ts` to the keys `ks`, pair by pair; names that
/// are not known are skipped.
pub open spec fn apply_types(
    m: Map<Seq<char>, KeyType>,
    ks: Seq<Seq<char>>,
    ts: Seq<Seq<char>>,
) -> Map<Seq<char>, KeyType>
    decreases ks.len(),
{
    if ks.len() == 0 || ts.len() == 0 {
        m
    } else {
        let n = if ks.len() < ts.len() {
            ks.len()
        } else {
            ts.len()
        };
        let prev = apply_types(m, ks.subrange(0, n - 1), ts.subrange(0, n - 1));
        let k = ks[n - 1];
        if prev.contains_key(k) {
            prev.insert(k, crate::keys::key_type_of(ts[n - 1]))
        } else {
            prev
        }
    }
}

/// The scan state of one selected server: the keys found so far, the cursor
/// of each shard, the keyword, the number of explicit continuations, the
/// subtrees already expanded, and whether the pass is complete.
pub struct ScanState {
    pub server: String,
    pub keyword: String,
    pub cursors: Option<Vec<u64>>,
    pub scanning: bool,
    pub scan_completed: bool,
    pub scan_times: usize,
    pub loaded_prefixes: Vec<String>,
    pub keys: KeyIndex,
}

impl ScanState {
    pub open spec fn wf(&self) -> bool {
        self.keys.wf()
    }

    /// A state with no server selected.
    pub fn new() -> (r: ScanState)
        ensures
            r.wf(),
            r.server@.len() == 0,
            r.keyword@.len() == 0,
            r.cursors is None,
            !r.scanning,
            !r.scan_completed,
            r.scan_times == 0,
            r.loaded_prefixes@.len() == 0,
            r.keys.view() == Map::<Seq<char>, KeyType>::empty(),
    {
        ScanState {
            server: String::new(),
            keyword: String::new(),
            cursors: None,
            scanning: false,
            scan_completed: false,
            scan_times: 0,
            loaded_prefixes: Vec::new(),
            keys: KeyIndex::new(),
        }
    }

    /// Clears all scan progress: keyword, cursors, keys, counters and
    /// expanded subtrees. The server stays selected.
    pub fn reset_scan(&mut self)
        ensures
            final(self).wf(),
            final(self).server == old(self).server,
            final(self).keyword@.len() == 0,
            final(self).cursors is None,
            !final(self).scanning,
            !final(self).scan_completed,
            final(self).scan_times == 0,
            final(self).loaded_prefixes@.len() == 0,
            final(self).keys.view() == Map::<Seq<char>, KeyType>::empty(),
            final(self).keys.spec_generation() != old(self).keys.spec_generation(),
    {
        self.keyword = String::new();
        self.cursors = None;
        self.keys.clear();
        self.scanning = false;
        self.scan_completed = false;
        self.scan_times = 0;
        self.loaded_prefixes = Vec::new();
    }

    /// Selects `server`. A different server clears all scan state and, when
    /// it is not empty, starts a scan without keyword; returns whether a
    /// scan starts. Selecting the current server again changes nothing.
    pub fn select(&mut self, server: String) -> (started: bool)
        ensures
            old(self).server@ == server@ ==> *final(self) == *old(self) && !started,
            old(self).server@ != server@ ==> {
                &&& final(self).wf()
                &&& final(self).server@ == server@
                &&& final(self).keyword@.len() == 0
                &&& final(self).cursors is None
                &&& !final(self).scan_completed
                &&& final(self).scan_times == 0
                &&& final(self).loaded_prefixes@.len() == 0
                &&& final(self).keys.view() == Map::<Seq<char>, KeyType>::empty()
                &&& started == (server@.len() > 0)
                &&& final(self).scanning == started
            },
    {
        if str_eq(self.server.as_str(), server.as_str()) {
            return false;
        }
        self.reset_scan();
        let started = server.unicode_len() > 0;
        self.server = server;
        self.scanning = started;
        started
    }

    /// Starts a new scan for `keyword`: all previous progress is dropped.
    pub fn start_scan(&mut self, keyword: String)
        ensures
            final(self).wf(),
            final(self).server == old(self).server,
            final(self).keyword@ == keyword@,
            final(self).cursors is None,
            final(self).scanning,
            !final(self).scan_completed,
            final(self).scan_times == 0,
            final(self).loaded_prefixes@.len() == 0,
            final(self).keys.view() == Map::<Seq<char>, KeyType>::empty(),
    {
        self.reset_scan();
        self.scanning = true;
        self.keyword = keyword;
    }

    /// The next scan call: resume from the stored cursors, or start afresh.
    pub fn scan_request(&self) -> (r: ScanRequest)
        ensures
            cursor_view(r.cursors) == cursor_view(self.cursors),
            r.pattern@ == scan_pattern_of(self.keyword@),
            r.count == scan_count_of(self.keyword@),
    {
        let cursors = match &self.cursors {
            Some(c) => Some(c.clone()),
            None => None,
        };
        ScanRequest {
            cursors,
            pattern: scan_pattern(self.keyword.as_str()),
            count: scan_count(self.keyword.as_str()),
        }
    }

    /// Applies the reply of one scan call made for `server` and `keyword`;
    /// `None` is a failed call. A reply whose cursors all read zero completes
    /// the pass; a failure clears the cursors, which ends the loop. The loop
    /// goes on while cursors remain and fewer keys than the current limit are
    /// known.
    pub fn apply_scan_batch(
        &mut self,
        server: &str,
        keyword: &str,
        batch: Option<(Vec<u64>, Vec<String>)>,
    ) -> (step: ScanStep)
        requires
            old(self).wf(),
        ensures
            final(self).wf(),
            (old(self).server@ != server@ || old(self).keyword@ != keyword@) ==> step
                == ScanStep::Stale && *final(self) == *old(self),
            (old(self).server@ == server@ && old(self).keyword@ == keyword@) ==> {
                &&& step != ScanStep::Stale
                &&& final(self).server == old(self).server
                &&& final(self).keyword == old(self).keyword
                &&& final(self).scan_times == old(self).scan_times
                &&& final(self).loaded_prefixes == old(self).loaded_prefixes
                &&& match batch {
                    Some((c, ks)) => {
                        &&& (cursor_sum(c@) == 0) ==> final(self).scan_completed
                            && final(self).cursors is None
                        &&& (cursor_sum(c@) != 0) ==> final(self).scan_completed
                            == old(self).scan_completed && final(self).cursors == Some(c)
                        &&& forall|k: Seq<char>| #[trigger]
                            final(self).keys.view().contains_key(k) <==> (old(
                                self,
                            ).keys.view().contains_key(k) || views(ks@).contains(k))
                    },
                    None => {
                        &&& final(self).cursors is None
                        &&& final(self).scan_completed == old(self).scan_completed
                        &&& final(self).keys.view() == old(self).keys.view()
                    },
                }
                &&& (step == ScanStep::Continue) == (final(self).cursors is Some
                    && final(self).keys.view().dom().len() < scan_limit_sat(old(self).scan_times))
                &&& step == ScanStep::Continue ==> final(self).scanning == old(self).scanning
                &&& step == ScanStep::Finished ==> !final(self).scanning
                &&& (batch is Some && cursor_sum((batch->0).0@) == 0) ==> final(self).scan_completed
                    && step == ScanStep::Finished
            },
    {
        if !str_eq(self.server.as_str(), server) || !str_eq(self.keyword.as_str(), keyword) {
            return ScanStep::Stale;
        }
        match batch {
            Some((c, ks)) => {
                if cursors_done(&c) {
                    self.scan_completed = true;
                    self.cursors = None;
                } else {
                    self.cursors = Some(c);
                }
                self.keys.extend(ks);
            },
            None => {
                self.cursors = None;
            },
        }
        let limit = scan_limit(self.scan_times);
        if self.cursors.is_some() && self.keys.len() < limit {
            ScanStep::Continue
        } else {
            self.scanning = false;
            ScanStep::Finished
        }
    }

    /// Asks for more keys after the loop yielded. Returns whether a scan call
    /// is to be made; after a complete pass nothing changes.
    pub fn scan_next(&mut self) -> (go: bool)
        ensures
            go == !old(self).scan_completed,
            old(self).scan_completed ==> *final(self) == *old(self),
            !old(self).scan_completed ==> final(self).scan_times == (if old(self).scan_times
                < usize::MAX {
                old(self).scan_times + 1
            } else {
                old(self).scan_times as int
            }) && final(self).keys == old(self).keys && final(self).cursors == old(self).cursors
                && final(self).keyword == old(self).keyword && final(self).server == old(
                self,
            ).server && !final(self).scan_completed,
    {
        if self.scan_completed {
            return false;
        }
        if self.scan_times < usize::MAX {
            self.scan_times = self.scan_times + 1;
        }
        true
    }

    /// Whether `prefix` was expanded before.
    pub fn prefix_loaded(&self, prefix: &str) -> (r: bool)
        ensures
            r == views(self.loaded_prefixes@).contains(prefix@),
    {
        let mut i: usize = 0;
        while i < self.loaded_prefixes.len()
            invariant
                i <= self.loaded_prefixes@.len(),
                forall|t: int| 0 <= t < i ==> #[trigger] self.loaded_prefixes@[t]@ != prefix@,
            decreases self.loaded_prefixes@.len() - i,
        {
            if str_eq(self.loaded_prefixes[i].as_str(), prefix) {
                assert(views(self.loaded_prefixes@)[i as int] == prefix@);
                return true;
            }
            i = i + 1;
        }
        proof {
            if views(self.loaded_prefixes@).contains(prefix@) {
                let t = choose|t: int|
                    0 <= t < self.loaded_prefixes@.len() && #[trigger] views(self.loaded_prefixes@)[t] == prefix@;
                assert(self.loaded_prefixes@[t]@ == prefix@);
            }
        }
        false
    }

    /// What expanding the subtree `prefix` asks for.
    pub fn prefix_plan(&self, prefix: &str) -> (r: PrefixPlan)
        ensures
            r == (if views(self.loaded_prefixes@).contains(prefix@) {
                PrefixPlan::Skip
            } else if self.scan_completed {
                PrefixPlan::FillTypes
            } else {
                PrefixPlan::Scan
            }),
    {
        if self.prefix_loaded(prefix) {
            PrefixPlan::Skip
        } else if self.scan_completed {
            PrefixPlan::FillTypes
        } else {
            PrefixPlan::Scan
        }
    }

    /// Records the keys found under `prefix`; `None` is a failed scan, after
    /// which the subtree may be expanded again.
    pub fn apply_prefix_scan(&mut self, prefix: String, found: Option<Vec<String>>)
        requires
            old(self).wf(),
        ensures
            final(self).wf(),
            final(self).server == old(self).server,
            final(self).keyword == old(self).keyword,
            final(self).cursors == old(self).cursors,
            final(self).scan_completed == old(self).scan_completed,
            match found {
                Some(ks) => {
                    &&& final(self).loaded_prefixes@ == old(self).loaded_prefixes@.push(prefix)
                    &&& forall|k: Seq<char>| #[trigger]
                        final(self).keys.view().contains_key(k) <==> (old(
                            self,
                        ).keys.view().contains_key(k) || views(ks@).contains(k))
                },
                None => *final(self) == *old(self),
            },
    {
        if let Some(ks) = found {
            self.loaded_prefixes.push(prefix);
            self.keys.extend(ks);
        }
    }

    /// The keys under `prefix` whose type is still unknown, one level deep,
    /// in discovery order.
    fn pending_keys(&self, prefix: &str) -> (r: Vec<String>)
        requires
            self.wf(),
        ensures
            views(r@) == self.keys.names().filter(type_pending(self.keys.view(), prefix@)),
            views(r@).no_duplicates(),
    {
        let ghost pred = type_pending(self.keys.view(), prefix@);
        let ghost names = self.keys.names();
        proof {
            self.keys.lemma_view();
        }
        let n = self.keys.len();
        let plen = prefix.unicode_len();
        let mut r: Vec<String> = Vec::new();
        let mut i: usize = 0;
        while i < n
            invariant
                self.wf(),
                n == names.len(),
                names == self.keys.names(),
                names.no_duplicates(),
                pred == type_pending(self.keys.view(), prefix@),
                plen == prefix@.len(),
                i <= n,
                views(r@) == names.subrange(0, i as int).filter(pred),
                views(r@).no_duplicates(),
            decreases n - i,
        {
            let (name, t) = self.keys.entry(i);
            let ghost before = r@;
            let mut pick = false;
            if t == KeyType::Unknown && starts_with(name.as_str(), prefix) {
                let colon = has_char_from(name.as_str(), ':', plen);
                pick = !colon;
            }
            proof {
                assert(name@ == names[i as int]);
                assert(pred(names[i as int]) == (self.keys.view()[names[i as int]] == KeyType::Unknown
                    && is_direct_child(prefix@, names[i as int])));
                assert(pick == pred(names[i as int]));
                reveal(Seq::filter);
                assert(names.subrange(0, i + 1).drop_last() =~= names.subrange(0, i as int));
                assert(names.subrange(0, i + 1).last() == names[i as int]);
            }
            if pick {
                r.push(name.clone());
                proof {
                    assert(views(r@) =~= views(before).push(names[i as int]));
                    if views(before).contains(names[i as int]) {
                        names.subrange(0, i as int).lemma_filter_contains_rev(pred, names[i as int]);
                        let t = choose|t: int| 0 <= t < i && names.subrange(0, i as int)[t] == names[i as int];
                        assert(names[t] == names[i as int]);
                    }
                    assert forall|a: int, b: int|
                        0 <= a < views(r@).len() && 0 <= b < views(r@).len() && a != b implies views(r@)[a]
                        != views(r@)[b] by {
                        if a < views(before).len() && b < views(before).len() {
                            assert(views(r@)[a] == views(before)[a] && views(r@)[b] == views(before)[b]);
                        } else if a < views(before).len() {
                            assert(views(before).contains(views(r@)[a]));
                        } else {
                            assert(views(before).contains(views(r@)[b]));
                        }
                    }
                }
            }
            i = i + 1;
        }
        assert(names.subrange(0, n as int) =~= names);
        r
    }

    /// The keys whose type is to be asked for under `prefix`: among the keys
    /// one level below it whose type is still unknown, the `TYPE_QUERY_MAX`
    /// smallest in byte order (all of them when there are fewer), ascending.
    pub fn keys_to_resolve(&self, prefix: &str) -> (r: Vec<String>)
        requires
            self.wf(),
        ensures
            ({
                let p = self.keys.names().filter(type_pending(self.keys.view(), prefix@));
                &&& r@.len() == (if p.len() < TYPE_QUERY_MAX {
                    p.len()
                } else {
                    TYPE_QUERY_MAX as nat
                })
                &&& forall|i: int| 0 <= i < r@.len() ==> p.contains(#[trigger] views(r@)[i])
                &&& forall|i: int, j: int|
                    0 <= i < j < r@.len() ==> text_lt(#[trigger] views(r@)[i], #[trigger] views(r@)[j])
                &&& forall|k: Seq<char>, i: int|
                    #[trigger] p.contains(k) && !views(r@).contains(k) && 0 <= i < r@.len() ==> text_lt(
                        #[trigger] views(r@)[i],
                        k,
                    )
            }),
    {
        let pending = self.pending_keys(prefix);
        let sorted = sort_texts(&pending);
        let m = if sorted.len() < TYPE_QUERY_MAX {
            sorted.len()
        } else {
            TYPE_QUERY_MAX
        };
        let mut r: Vec<String> = Vec::new();
        let mut i: usize = 0;
        while i < m
            invariant
                m <= sorted@.len(),
                views(r@).len() == r@.len(),
                i <= m,
                r@.len() == i,
                forall|t: int| 0 <= t < i ==> #[trigger] views(r@)[t] == views(sorted@)[t],
            decreases m - i,
        {
            let ghost before = r@;
            r.push(sorted[i].clone());
            proof {
                assert forall|t: int| 0 <= t < i + 1 implies #[trigger] views(r@)[t] == views(sorted@)[t] by {
                    if t < i {
                        assert(r@[t] == before[t]);
                        assert(views(before)[t] == views(sorted@)[t]);
                    } else {
                        assert(r@[t]@ == sorted@[t]@);
                    }
                }
            }
            i = i + 1;
        }
        proof {
            let p = self.keys.names().filter(type_pending(self.keys.view(), prefix@));
            assert(views(pending@) == p);
            assert forall|t: int| 0 <= t < r@.len() implies p.contains(#[trigger] views(r@)[t]) by {
                assert(views(sorted@).contains(views(sorted@)[t]));
            }
            assert forall|k: Seq<char>, t: int|
                #[trigger] p.contains(k) && !views(r@).contains(k) && 0 <= t < r@.len() implies text_lt(
                #[trigger] views(r@)[t],
                k,
            ) by {
                assert(views(sorted@).contains(k));
                let idx = choose|idx: int| 0 <= idx < views(sorted@).len() && views(sorted@)[idx] == k;
                if idx < m {
                    assert(views(r@)[idx] == k);
                }
                assert(views(r@)[t] == views(sorted@)[t]);
            }
        }
        r
    }

    /// Records the TYPE replies `types` for `keys`, pair by pair; unknown names
    /// are skipped. The generation changes so that observers redraw.
    pub fn apply_key_types(&mut self, keys: &Vec<String>, types: &Vec<String>)
        requires
            old(self).wf(),
        ensures
            final(self).wf(),
            final(self).keys.view() == apply_types(
                old(self).keys.view(),
                views(keys@),
                views(types@),
            ),
            final(self).keys.names() == old(self).keys.names(),
            final(self).keys.spec_generation() != old(self).keys.spec_generation(),
            final(self).server == old(self).server,
            final(self).keyword == old(self).keyword,
            final(self).cursors == old(self).cursors,
            final(self).scan_completed == old(self).scan_completed,
    {
        let ghost start = self.keys.view();
        let ghost ks = views(keys@);
        let ghost ts = views(types@);
        let n = if keys.len() < types.len() {
            keys.len()
        } else {
            types.len()
        };
        let mut i: usize = 0;
        while i < n
            invariant
                self.wf(),
                n <= keys@.len(),
                n <= types@.len(),
                n == keys@.len() || n == types@.len(),
                i <= n,
                ks == views(keys@),
                ts == views(types@),
                self.keys.view() == apply_types(
                    start,
                    ks.subrange(0, i as int),
                    ts.subrange(0, i as int),
                ),
                self.keys.names() == old(self).keys.names(),
                self.keys.spec_generation() == old(self).keys.spec_generation(),
                self.server == old(self).server,
                self.keyword == old(self).keyword,
                self.cursors == old(self).cursors,
                self.scan_completed == old(self).scan_completed,
            decreases n - i,
        {
            let t = KeyType::parse(types[i].as_str());
            self.keys.set_type(keys[i].as_str(), t);
            proof {
                let ks1 = ks.subrange(0, i + 1);
                let ts1 = ts.subrange(0, i + 1);
                assert(ks1.subrange(0, i as int) =~= ks.subrange(0, i as int));
                assert(ts1.subrange(0, i as int) =~= ts.subrange(0, i as int));
                assert(ks1[i as int] == keys@[i as int]@);
                assert(ts1[i as int] == types@[i as int]@);
            }
            i = i + 1;
        }
        proof {
            if keys@.len() <= types@.len() {
                assert(ks.subrange(0, n as int) =~= ks);
                lemma_apply_types_trim(start, ks, ts);
            } else {
                assert(ts.subrange(0, n as int) =~= ts);
                lemma_apply_types_trim(start, ks, ts);
            }
        }
        self.keys.touch();
    }
}

/// Only the pairs that both sequences hold count.
proof fn lemma_apply_types_trim(m: Map<Seq<char>, KeyType>, ks: Seq<Seq<char>>, ts: Seq<Seq<char>>)
    ensures
        ({
            let n = if ks.len() < ts.len() {
                ks.len()
            } else {
                ts.len()
            };
            apply_types(m, ks, ts) == apply_types(
                m,
                ks.subrange(0, n as int),
                ts.subrange(0, n as int),
            )
        }),
{
    let n = if ks.len() < ts.len() {
        ks.len()
    } else {
        ts.len()
    };
    let a = ks.subrange(0, n as int);
    let b = ts.subrange(0, n as int);
    if n > 0 {
        assert(a.subrange(0, n - 1) =~= ks.subrange(0, n - 1));
        assert(b.subrange(0, n - 1) =~= ts.subrange(0, n - 1));
    }
}

} // verus!
