use vstd::prelude::*;
use vstd::string::StrSliceExecFns;
use vstd::string::StringExecFns;

use crate::config::{first_of, lemma_first_of};
use crate::keys::KeyType;
use crate::scan::scan_pattern;
use crate::text::{contains_ignore_case, fast_contains_ignore_case, str_eq, views};

verus! {

/// Entries asked for by a first load or a page of an unfiltered value.
pub const PAGE_SIZE: usize = 100;

/// Batch-size hint of a filtered cursor scan.
pub const FILTERED_SCAN_COUNT: u64 = 1000;

/// A filtered load goes on by itself until the buffer holds this many entries.
pub const MIN_FILTERED_ROWS: usize = 50;

/// `size + n`, held at the largest `usize`.
pub open spec fn add_sat(size: usize, n: usize) -> usize {
    if size + n <= usize::MAX {
        (size + n) as usize
    } else {
        usize::MAX
    }
}

/// `size - n`, held at zero.
pub open spec fn sub_sat(size: usize, n: usize) -> usize {
    if size >= n {
        (size - n) as usize
    } else {
        0
    }
}

/// The keyword of a filter: `None` when absent or empty.
pub open spec fn keyword_view(k: Option<String>) -> Option<Seq<char>> {
    match k {
        Some(s) => if s@.len() > 0 {
            Some(s@)
        } else {
            None
        },
        None => None,
    }
}

fn keyword_of(k: &Option<String>) -> (r: Option<&String>)
    ensures
        match r {
            Some(s) => keyword_view(*k) == Some(s@),
            None => keyword_view(*k) is None,
        },
{
    match k {
        Some(s) => if s.unicode_len() > 0 {
            Some(s)
        } else {
            None
        },
        None => None,
    }
}

/// The arguments of one cursor scan over the entries of a value.
pub struct ScanRequestArgs {
    pub cursor: u64,
    pub pattern: String,
    pub count: u64,
}

/// The match pattern of a cursor scan over entries: `*keyword*` or `*`.
pub open spec fn entry_pattern_of(k: Option<Seq<char>>) -> Seq<char> {
    match k {
        Some(s) => seq!['*'] + s + seq!['*'],
        None => seq!['*'],
    }
}

/// The batch-size hint of a cursor scan over entries.
pub open spec fn entry_count_of(k: Option<Seq<char>>) -> u64 {
    match k {
        Some(_) => FILTERED_SCAN_COUNT,
        None => PAGE_SIZE as u64,
    }
}

fn entry_scan_request(cursor: u64, keyword: &Option<String>) -> (r: ScanRequestArgs)
    ensures
        r.cursor == cursor,
        r.pattern@ == entry_pattern_of(keyword_view(*keyword)),
        r.count == entry_count_of(keyword_view(*keyword)),
{
    match keyword_of(keyword) {
        Some(k) => ScanRequestArgs { cursor, pattern: scan_pattern(k.as_str()), count: FILTERED_SCAN_COUNT },
        None => {
            proof {
                reveal_strlit("");
            }
            ScanRequestArgs { cursor, pattern: scan_pattern(""), count: PAGE_SIZE as u64 }
        },
    }
}

// ---------------------------------------------------------------- lists

/// A list value: its length in the store and the entries loaded so far,
/// from the head, in order.
pub struct ListValue {
    pub size: usize,
    pub values: Vec<String>,
    pub keyword: Option<String>,
}

/// The inclusive index range of a list page: `(start, stop)`.
pub struct ListRange {
    pub start: usize,
    pub stop: usize,
}

impl ListValue {
    /// The state after the first load: the length reported by LLEN and the
    /// first page.
    pub fn first_load(size: usize, values: Vec<String>) -> (r: ListValue)
        ensures
            r.size == size,
            r.values@ == values@,
            r.keyword is None,
    {
        ListValue { size, values, keyword: None }
    }

    /// The range to read for the first page.
    pub fn first_range() -> (r: ListRange)
        ensures
            r.start == 0,
            r.stop == PAGE_SIZE - 1,
    {
        ListRange { start: 0, stop: PAGE_SIZE - 1 }
    }

    /// Every entry is loaded: the buffer holds as many entries as the store
    /// reported.
    pub fn is_done(&self) -> (r: bool)
        ensures
            r == (self.values@.len() == self.size),
    {
        self.values.len() == self.size
    }

    /// The next page to read, or `None` when every entry is loaded.
    pub fn next_range(&self) -> (r: Option<ListRange>)
        ensures
            match r {
                Some(g) => self.values@.len() < self.size && g.start == self.values@.len() && g.stop
                    == add_sat(g.start, (PAGE_SIZE - 1) as usize),
                None => self.values@.len() >= self.size,
            },
    {
        let offset = self.values.len();
        if offset >= self.size {
            None
        } else {
            let stop = if offset <= usize::MAX - (PAGE_SIZE - 1) {
                offset + (PAGE_SIZE - 1)
            } else {
                usize::MAX
            };
            Some(ListRange { start: offset, stop })
        }
    }

    /// Appends a page read at the end of the buffer.
    pub fn append_page(&mut self, page: Vec<String>)
        ensures
            final(self).values@ == old(self).values@ + page@,
            final(self).size == old(self).size,
            final(self).keyword == old(self).keyword,
    {
        let mut page = page;
        self.values.append(&mut page);
    }

    /// The positions of the loaded entries that contain `keyword_lower`,
    /// ignoring case, in increasing order.
    pub fn visible_indexes(&self, keyword_lower: &str) -> (r: Vec<usize>)
        ensures
            forall|i: int| 0 <= i < r@.len() ==> (#[trigger] r@[i]) < self.values@.len(),
            forall|i: int, j: int| 0 <= i < j < r@.len() ==> r@[i] < r@[j],
            forall|k: int|
                0 <= k < self.values@.len() ==> (r@.contains(k as usize)
                    <==> contains_ignore_case(#[trigger] self.values@[k]@, keyword_lower@)),
    {
        let mut r: Vec<usize> = Vec::new();
        let mut i: usize = 0;
        while i < self.values.len()
            invariant
                i <= self.values@.len(),
                forall|t: int| 0 <= t < r@.len() ==> (#[trigger] r@[t]) < i,
                forall|a: int, b: int| 0 <= a < b < r@.len() ==> r@[a] < r@[b],
                forall|k: int|
                    0 <= k < i ==> (r@.contains(k as usize) <==> contains_ignore_case(
                        #[trigger] self.values@[k]@,
                        keyword_lower@,
                    )),
            decreases self.values@.len() - i,
        {
            let ghost before = r@;
            if fast_contains_ignore_case(self.values[i].as_str(), keyword_lower) {
                r.push(i);
                proof {
                    assert forall|k: int|
                        0 <= k < i + 1 implies (r@.contains(k as usize) <==> contains_ignore_case(
                        #[trigger] self.values@[k]@,
                        keyword_lower@,
                    )) by {
                        if k < i {
                            if before.contains(k as usize) {
                                let t = choose|t: int| 0 <= t < before.len() && before[t] == k as usize;
                                assert(r@[t] == k as usize);
                            }
                            if r@.contains(k as usize) {
                                let t = choose|t: int| 0 <= t < r@.len() && r@[t] == k as usize;
                                if t == before.len() {
                                    assert(false);
                                }
                                assert(before[t] == k as usize);
                            }
                        } else {
                            assert(r@[before.len() as int] == i);
                        }
                    }
                }
            } else {
                proof {
                    assert(!r@.contains(i));
                }
            }
            i = i + 1;
        }
        r
    }
}

/// The buffer position of row `row` of a list view: through the filtered
/// positions when a filter is shown (a row past them stands for itself),
/// else the row itself.
pub open spec fn real_index_of(visible: Option<Seq<usize>>, row: usize) -> usize {
    match visible {
        Some(v) => if row < v.len() {
            v[row as int]
        } else {
            row
        },
        None => row,
    }
}

pub fn real_index(visible: Option<&Vec<usize>>, row: usize) -> (r: usize)
    ensures
        r == real_index_of(
            match visible {
                Some(v) => Some(v@),
                None => None,
            },
            row,
        ),
{
    match visible {
        Some(v) => if row < v.len() {
            v[row]
        } else {
            row
        },
        None => row,
    }
}

// ---------------------------------------------------------------- cursor pages

/// The outcome of applying a cursor page: the new cursor, whether the scan
/// is exhausted, and whether a filtered load must fetch the next page at once.
pub open spec fn page_done(old_done: bool, cursor: u64) -> bool {
    old_done || cursor == 0
}

/// A filtered load goes on by itself while the scan is not exhausted and
/// fewer than `MIN_FILTERED_ROWS` entries are shown.
pub open spec fn needs_more(done: bool, len: nat) -> bool {
    !done && len < MIN_FILTERED_ROWS
}

// ---------------------------------------------------------------- hashes

/// The texts of the field/value pairs of a hash buffer.
pub open spec fn pair_views(v: Seq<(String, String)>) -> Seq<(Seq<char>, Seq<char>)> {
    v.map_values(|p: (String, String)| (p.0@, p.1@))
}

/// A hash value: the field count reported by the store, the scan cursor, the
/// loaded field/value pairs, whether the scan is exhausted and the filter.
pub struct HashValue {
    pub size: usize,
    pub cursor: u64,
    pub values: Vec<(String, String)>,
    pub done: bool,
    pub keyword: Option<String>,
}

impl HashValue {
    /// The state after the first load: the count reported by HLEN and the
    /// first page of an unfiltered scan from cursor 0.
    pub fn first_load(size: usize, cursor: u64, values: Vec<(String, String)>) -> (r: HashValue)
        ensures
            r.size == size,
            r.cursor == cursor,
            r.values@ == values@,
            r.done == (cursor == 0),
            r.keyword is None,
    {
        HashValue { size, cursor, values, done: cursor == 0, keyword: None }
    }

    /// A fresh state that filters on `keyword`: the buffer is emptied and the
    /// scan starts again from cursor 0; the count is kept.
    pub fn with_filter(&self, keyword: String) -> (r: HashValue)
        ensures
            r.size == self.size,
            r.cursor == 0,
            r.values@.len() == 0,
            !r.done,
            r.keyword == Some(keyword),
    {
        HashValue { size: self.size, cursor: 0, values: Vec::new(), done: false, keyword: Some(keyword) }
    }

    /// The next HSCAN call: from the stored cursor, with the filter's pattern
    /// and a larger batch hint when filtering.
    pub fn scan_request(&self) -> (r: ScanRequestArgs)
        ensures
            r.cursor == self.cursor,
            r.pattern@ == entry_pattern_of(keyword_view(self.keyword)),
            r.count == entry_count_of(keyword_view(self.keyword)),
    {
        entry_scan_request(self.cursor, &self.keyword)
    }

    /// Applies one HSCAN page; returns whether the next page is to be
    /// fetched at once.
    pub fn apply_page(&mut self, cursor: u64, page: Vec<(String, String)>) -> (more: bool)
        ensures
            final(self).cursor == cursor,
            final(self).done == page_done(old(self).done, cursor),
            final(self).values@ == old(self).values@ + page@,
            final(self).size == old(self).size,
            final(self).keyword == old(self).keyword,
            more == needs_more(final(self).done, final(self).values@.len()),
    {
        self.cursor = cursor;
        if cursor == 0 {
            self.done = true;
        }
        let mut page = page;
        self.values.append(&mut page);
        !self.done && self.values.len() < MIN_FILTERED_ROWS
    }

    /// Applies the reply of HSET for `field`: `added` is 1 for a new field and
    /// 0 for an update. The count grows by `added`; a loaded pair for the
    /// field takes the new value in place.
    pub fn apply_set(&mut self, field: &str, value: &str, added: usize)
        ensures
            final(self).size == add_sat(old(self).size, added),
            final(self).values@.len() == old(self).values@.len(),
            forall|i: int|
                0 <= i < old(self).values@.len() ==> #[trigger] pair_views(final(self).values@)[i]
                    == (if i == first_match(pair_views(old(self).values@), field@) {
                    (field@, value@)
                } else {
                    pair_views(old(self).values@)[i]
                }),
            final(self).cursor == old(self).cursor,
            final(self).done == old(self).done,
            final(self).keyword == old(self).keyword,
    {
        self.size = if added <= usize::MAX - self.size {
            self.size + added
        } else {
            usize::MAX
        };
        let ghost start = pair_views(self.values@);
        let mut i: usize = 0;
        while i < self.values.len()
            invariant
                i <= self.values@.len(),
                pair_views(self.values@) == start,
                start == pair_views(old(self).values@),
                self.values@.len() == old(self).values@.len(),
                self.size == add_sat(old(self).size, added),
                self.cursor == old(self).cursor,
                self.done == old(self).done,
                self.keyword == old(self).keyword,
                forall|t: int| 0 <= t < i ==> #[trigger] start[t].0 != field@,
            decreases self.values@.len() - i,
        {
            if str_eq(self.values[i].0.as_str(), field) {
                let f = self.values[i].0.clone();
                self.values.set(i, (f, String::from_str(value)));
                proof {
                    lemma_first_match(start, field@, i as int);
                    assert forall|t: int| 0 <= t < start.len() implies #[trigger] pair_views(self.values@)[t]
                        == (if t == i { (field@, value@) } else { start[t] }) by {}
                }
                return;
            }
            i = i + 1;
        }
        proof {
            lemma_no_match(start, field@);
        }
    }

    /// Applies the reply of HDEL for `field`: `removed` is how many fields the
    /// store removed. When it is 0 nothing changes; else the field leaves the
    /// buffer and the count drops by `removed`.
    pub fn apply_remove(&mut self, field: &str, removed: usize)
        ensures
            removed == 0 ==> *final(self) == *old(self),
            removed != 0 ==> {
                &&& final(self).size == sub_sat(old(self).size, removed)
                &&& pair_views(final(self).values@) == pair_views(old(self).values@).filter(
                    |p: (Seq<char>, Seq<char>)| p.0 != field@,
                )
                &&& final(self).cursor == old(self).cursor
                &&& final(self).done == old(self).done
                &&& final(self).keyword == old(self).keyword
            },
    {
        if removed == 0 {
            return;
        }
        let ghost start = pair_views(self.values@);
        let ghost keep = |p: (Seq<char>, Seq<char>)| p.0 != field@;
        let mut kept: Vec<(String, String)> = Vec::new();
        let mut i: usize = 0;
        while i < self.values.len()
            invariant
                i <= self.values@.len(),
                start == pair_views(self.values@),
                keep == (|p: (Seq<char>, Seq<char>)| p.0 != field@),
                pair_views(kept@) == start.subrange(0, i as int).filter(keep),
            decreases self.values@.len() - i,
        {
            proof {
                reveal(Seq::filter);
                assert(start.subrange(0, i + 1).drop_last() =~= start.subrange(0, i as int));
            }
            if !str_eq(self.values[i].0.as_str(), field) {
                let ghost before = kept@;
                kept.push((self.values[i].0.clone(), self.values[i].1.clone()));
                assert(pair_views(kept@) =~= pair_views(before).push(start[i as int]));
            }
            i = i + 1;
        }
        assert(start.subrange(0, i as int) =~= start);
        self.values = kept;
        self.size = if self.size >= removed {
            self.size - removed
        } else {
            0
        };
    }
}

/// The position of the first pair whose field is `f`, or the length when
/// there is none.
pub open spec fn first_match(s: Seq<(Seq<char>, Seq<char>)>, f: Seq<char>) -> int
    decreases s.len(),
{
    if s.len() == 0 {
        0
    } else if s[0].0 == f {
        0
    } else {
        1 + first_match(s.drop_first(), f)
    }
}

proof fn lemma_first_match(s: Seq<(Seq<char>, Seq<char>)>, f: Seq<char>, i: int)
    requires
        0 <= i < s.len(),
        s[i].0 == f,
        forall|t: int| 0 <= t < i ==> #[trigger] s[t].0 != f,
    ensures
        first_match(s, f) == i,
    decreases i,
{
    if i > 0 {
        assert forall|t: int| 0 <= t < i - 1 implies #[trigger] s.drop_first()[t].0 != f by {
            assert(s[t + 1].0 != f);
        }
        lemma_first_match(s.drop_first(), f, i - 1);
    }
}

proof fn lemma_no_match(s: Seq<(Seq<char>, Seq<char>)>, f: Seq<char>)
    requires
        forall|t: int| 0 <= t < s.len() ==> #[trigger] s[t].0 != f,
    ensures
        first_match(s, f) == s.len(),
    decreases s.len(),
{
    if s.len() > 0 {
        assert forall|t: int| 0 <= t < s.drop_first().len() implies #[trigger] s.drop_first()[t].0 != f by {
            assert(s[t + 1].0 != f);
        }
        lemma_no_match(s.drop_first(), f);
    }
}

// ---------------------------------------------------------------- sets

/// A set value: the member count reported by the store, the scan cursor, the
/// loaded members, whether the scan is exhausted and the filter.
pub struct SetValue {
    pub size: usize,
    pub cursor: u64,
    pub values: Vec<String>,
    pub done: bool,
    pub keyword: Option<String>,
}

impl SetValue {
    /// The state after the first load: the count reported by SCARD and the
    /// first page of an unfiltered scan from cursor 0.
    pub fn first_load(size: usize, cursor: u64, values: Vec<String>) -> (r: SetValue)
        ensures
            r.size == size,
            r.cursor == cursor,
            r.values@ == values@,
            r.done == (cursor == 0),
            r.keyword is None,
    {
        SetValue { size, cursor, values, done: cursor == 0, keyword: None }
    }

    /// A fresh state that filters on `keyword`; the count is kept.
    pub fn with_filter(&self, keyword: String) -> (r: SetValue)
        ensures
            r.size == self.size,
            r.cursor == 0,
            r.values@.len() == 0,
            !r.done,
            r.keyword == Some(keyword),
    {
        SetValue { size: self.size, cursor: 0, values: Vec::new(), done: false, keyword: Some(keyword) }
    }

    /// The next SSCAN call.
    pub fn scan_request(&self) -> (r: ScanRequestArgs)
        ensures
            r.cursor == self.cursor,
            r.pattern@ == entry_pattern_of(keyword_view(self.keyword)),
            r.count == entry_count_of(keyword_view(self.keyword)),
    {
        entry_scan_request(self.cursor, &self.keyword)
    }

    /// Applies one SSCAN page; returns whether a filtered load fetches the
    /// next page at once.
    pub fn apply_page(&mut self, cursor: u64, page: Vec<String>) -> (more: bool)
        ensures
            final(self).cursor == cursor,
            final(self).done == page_done(old(self).done, cursor),
            final(self).values@ == old(self).values@ + page@,
            final(self).size == old(self).size,
            final(self).keyword == old(self).keyword,
            more == (keyword_view(old(self).keyword) is Some && needs_more(
                final(self).done,
                final(self).values@.len(),
            )),
    {
        self.cursor = cursor;
        if cursor == 0 {
            self.done = true;
        }
        let mut page = page;
        self.values.append(&mut page);
        keyword_of(&self.keyword).is_some() && !self.done && self.values.len() < MIN_FILTERED_ROWS
    }

    /// Applies the reply of SADD for `member`: `added` is how many members
    /// were new. A member that existed (`added == 0`) changes nothing; a new
    /// one is appended and counted.
    pub fn apply_add(&mut self, member: String, added: usize)
        ensures
            added == 0 ==> *final(self) == *old(self),
            added != 0 ==> {
                &&& final(self).size == add_sat(old(self).size, added)
                &&& final(self).values@ == old(self).values@.push(member)
                &&& final(self).cursor == old(self).cursor
                &&& final(self).done == old(self).done
                &&& final(self).keyword == old(self).keyword
            },
    {
        if added == 0 {
            return;
        }
        self.size = if added <= usize::MAX - self.size {
            self.size + added
        } else {
            usize::MAX
        };
        self.values.push(member);
    }

    /// Applies the reply of SREM for `member`: `removed` is how many members
    /// the store removed. When it is 0 nothing changes; else the member leaves
    /// the buffer and the count drops by `removed`.
    pub fn apply_remove(&mut self, member: &str, removed: usize)
        ensures
            removed == 0 ==> *final(self) == *old(self),
            removed != 0 ==> {
                &&& final(self).size == sub_sat(old(self).size, removed)
                &&& views(final(self).values@) == views(old(self).values@).filter(
                    |m: Seq<char>| m != member@,
                )
                &&& final(self).cursor == old(self).cursor
                &&& final(self).done == old(self).done
                &&& final(self).keyword == old(self).keyword
            },
    {
        if removed == 0 {
            return;
        }
        let ghost start = views(self.values@);
        let ghost keep = |m: Seq<char>| m != member@;
        let mut kept: Vec<String> = Vec::new();
        let mut i: usize = 0;
        while i < self.values.len()
            invariant
                i <= self.values@.len(),
                start == views(self.values@),
                keep == (|m: Seq<char>| m != member@),
                views(kept@) == start.subrange(0, i as int).filter(keep),
            decreases self.values@.len() - i,
        {
            proof {
                reveal(Seq::filter);
                assert(start.subrange(0, i + 1).drop_last() =~= start.subrange(0, i as int));
            }
            if !str_eq(self.values[i].as_str(), member) {
                let ghost before = kept@;
                kept.push(self.values[i].clone());
                assert(views(kept@) =~= views(before).push(start[i as int]));
            }
            i = i + 1;
        }
        assert(start.subrange(0, i as int) =~= start);
        self.values = kept;
        self.size = if self.size >= removed {
            self.size - removed
        } else {
            0
        };
    }
}

// ---------------------------------------------------------------- sorted sets

/// The order in which a sorted set is shown.
#[derive(Debug, Clone, Copy, PartialEq, Eq, Structural)]
pub enum SortOrder {
    Asc,
    Desc,
}

/// `a` comes strictly before `b` in `order`.
pub open spec fn before(order: SortOrder, a: u64, b: u64) -> bool {
    match order {
        SortOrder::Asc => a < b,
        SortOrder::Desc => a > b,
    }
}

/// The scores of a buffer follow `order` (equal scores may stand in any order).
pub open spec fn sorted_by(order: SortOrder, s: Seq<u64>) -> bool {
    forall|i: int, j: int| 0 <= i < j < s.len() ==> !before(order, #[trigger] s[j], #[trigger] s[i])
}

/// The scores of a sorted-set buffer.
pub open spec fn scores(v: Seq<(String, u64)>) -> Seq<u64> {
    v.map_values(|p: (String, u64)| p.1)
}

/// The members of a sorted-set buffer.
pub open spec fn members(v: Seq<(String, u64)>) -> Seq<Seq<char>> {
    v.map_values(|p: (String, u64)| p.0@)
}

/// The position where a new member with `score` goes: after every entry that
/// comes strictly before it.
pub open spec fn insert_position(order: SortOrder, s: Seq<u64>, score: u64) -> int
    decreases s.len(),
{
    if s.len() == 0 {
        0
    } else if before(order, s[0], score) {
        1 + insert_position(order, s.drop_first(), score)
    } else {
        0
    }
}

/// What a sorted-set page call is.
pub enum ZsetRequest {
    /// ZRANGE / ZREVRANGE by rank, both ends included.
    Range { start: usize, stop: usize },
    /// ZSCAN with a match pattern.
    Scan(ScanRequestArgs),
}

/// A sorted-set value: the count reported by the store, the scan cursor used
/// while filtering, the loaded members with their scores, whether the load
/// is exhausted, the filter and the order shown. A score is held as a 64-bit
/// key whose unsigned order is the order of the scores.
pub struct ZsetValue {
    pub size: usize,
    pub cursor: u64,
    pub values: Vec<(String, u64)>,
    pub done: bool,
    pub keyword: Option<String>,
    pub sort_order: SortOrder,
}

impl ZsetValue {
    /// The state after the first load: the count reported by ZCARD and the
    /// first page by rank.
    pub fn first_load(size: usize, values: Vec<(String, u64)>, sort_order: SortOrder) -> (r: ZsetValue)
        ensures
            r.size == size,
            r.cursor == 0,
            r.values@ == values@,
            !r.done,
            r.keyword is None,
            r.sort_order == sort_order,
    {
        ZsetValue { size, cursor: 0, values, done: false, keyword: None, sort_order }
    }

    /// Every member is loaded, or the filtered scan is exhausted.
    pub fn is_done(&self) -> (r: bool)
        ensures
            r == (self.values@.len() == self.size || self.done),
    {
        self.values.len() == self.size || self.done
    }

    /// A fresh state that filters on `keyword` (an empty keyword clears the
    /// filter); the count and the order are kept.
    pub fn with_filter(&self, keyword: String) -> (r: ZsetValue)
        ensures
            r.size == self.size,
            r.cursor == 0,
            r.values@.len() == 0,
            !r.done,
            r.keyword == (if keyword@.len() == 0 {
                None
            } else {
                Some(keyword)
            }),
            r.sort_order == self.sort_order,
    {
        let k = if keyword.unicode_len() == 0 {
            None
        } else {
            Some(keyword)
        };
        ZsetValue { size: self.size, cursor: 0, values: Vec::new(), done: false, keyword: k, sort_order: self.sort_order }
    }

    /// The next page: the following ranks when unfiltered, else a ZSCAN from
    /// the stored cursor.
    pub fn next_request(&self) -> (r: ZsetRequest)
        ensures
            match r {
                ZsetRequest::Range { start, stop } => keyword_view(self.keyword) is None && start
                    == self.values@.len() && stop == add_sat(start, (PAGE_SIZE - 1) as usize),
                ZsetRequest::Scan(a) => keyword_view(self.keyword) is Some && a.cursor == self.cursor
                    && a.pattern@ == entry_pattern_of(keyword_view(self.keyword)) && a.count
                    == FILTERED_SCAN_COUNT,
            },
    {
        match keyword_of(&self.keyword) {
            None => {
                let start = self.values.len();
                let stop = if start <= usize::MAX - (PAGE_SIZE - 1) {
                    start + (PAGE_SIZE - 1)
                } else {
                    usize::MAX
                };
                ZsetRequest::Range { start, stop }
            },
            Some(_) => ZsetRequest::Scan(entry_scan_request(self.cursor, &self.keyword)),
        }
    }

    /// Applies one page. A page by rank only appends; a filtered page also
    /// moves the cursor, and the load goes on by itself while fewer than
    /// `MIN_FILTERED_ROWS` members are shown and the scan is not exhausted.
    pub fn apply_page(&mut self, cursor: u64, page: Vec<(String, u64)>) -> (more: bool)
        ensures
            final(self).values@ == old(self).values@ + page@,
            final(self).size == old(self).size,
            final(self).keyword == old(self).keyword,
            final(self).sort_order == old(self).sort_order,
            keyword_view(old(self).keyword) is None ==> final(self).cursor == old(self).cursor
                && final(self).done == old(self).done && !more,
            keyword_view(old(self).keyword) is Some ==> final(self).cursor == cursor
                && final(self).done == page_done(old(self).done, cursor) && more == needs_more(
                final(self).done,
                final(self).values@.len(),
            ),
    {
        let mut page = page;
        self.values.append(&mut page);
        if keyword_of(&self.keyword).is_none() {
            return false;
        }
        self.cursor = cursor;
        if cursor == 0 {
            self.done = true;
        }
        !self.done && self.values.len() < MIN_FILTERED_ROWS
    }

    /// Applies the reply of ZADD for `member` with `score`: `added` is how
    /// many members were new, and the count grows by it. A loaded member
    /// takes the new score in place. A new member, when no filter is active,
    /// is inserted where its score belongs unless that is past the end of the
    /// loaded buffer (it then arrives with a later page). Returns whether it
    /// was inserted.
    pub fn apply_add(&mut self, member: String, score: u64, added: usize) -> (inserted: bool)
        ensures
            final(self).size == add_sat(old(self).size, added),
            final(self).keyword == old(self).keyword,
            final(self).sort_order == old(self).sort_order,
            final(self).cursor == old(self).cursor,
            final(self).done == old(self).done,
            members(old(self).values@).contains(member@) ==> {
                let i = first_of(members(old(self).values@), member@);
                &&& !inserted
                &&& final(self).values@.len() == old(self).values@.len()
                &&& members(final(self).values@) == members(old(self).values@)
                &&& scores(final(self).values@) == scores(old(self).values@).update(i, score)
            },
            !members(old(self).values@).contains(member@) ==> {
                let p = insert_position(old(self).sort_order, scores(old(self).values@), score);
                &&& inserted == (keyword_view(old(self).keyword) is None && p < old(
                    self,
                ).values@.len())
                &&& inserted ==> final(self).values@ == old(self).values@.insert(p, (member, score))
                &&& !inserted ==> final(self).values@ == old(self).values@
                &&& sorted_by(old(self).sort_order, scores(old(self).values@)) ==> sorted_by(
                    old(self).sort_order,
                    scores(final(self).values@),
                )
            },
            members(old(self).values@).no_duplicates() ==> members(final(self).values@).no_duplicates(),
    {
        self.size = if added <= usize::MAX - self.size {
            self.size + added
        } else {
            usize::MAX
        };
        let ghost start = self.values@;
        let n = self.values.len();
        let mut i: usize = 0;
        while i < n
            invariant
                n == self.values@.len(),
                self.values@ == start,
                start == old(self).values@,
                self.size == add_sat(old(self).size, added),
                self.keyword == old(self).keyword,
                self.sort_order == old(self).sort_order,
                self.cursor == old(self).cursor,
                self.done == old(self).done,
                i <= n,
                forall|t: int| 0 <= t < i ==> #[trigger] members(start)[t] != member@,
            decreases n - i,
        {
            if str_eq(self.values[i].0.as_str(), member.as_str()) {
                let m = self.values[i].0.clone();
                self.values.set(i, (m, score));
                proof {
                    assert(members(start)[i as int] == member@);
                    lemma_first_of(members(start), member@, i as int);
                    assert(members(self.values@) =~= members(start));
                    assert(scores(self.values@) =~= scores(start).update(i as int, score));
                }
                return false;
            }
            i = i + 1;
        }
        proof {
            if members(start).contains(member@) {
                let t = choose|t: int| 0 <= t < members(start).len() && members(start)[t] == member@;
                assert(members(start)[t] != member@);
            }
        }
        if keyword_of(&self.keyword).is_some() {
            return false;
        }
        let p = self.position_for(score);
        if p == n {
            return false;
        }
        proof {
            if sorted_by(self.sort_order, scores(start)) {
                lemma_insert_keeps_order(self.sort_order, start, member, score);
            }
        }
        let ghost mv = member@;
        self.values.insert(p, (member, score));
        proof {
            let m0 = members(start);
            let m1 = members(self.values@);
            assert(m1 =~= m0.insert(p as int, mv));
            if m0.no_duplicates() {
                assert forall|a: int, b: int| 0 <= a < m1.len() && 0 <= b < m1.len() && a != b implies m1[a] != m1[b] by {
                    let a2 = if a < p { a } else { a - 1 };
                    let b2 = if b < p { b } else { b - 1 };
                    if a != p && b != p {
                        assert(m1[a] == m0[a2] && m1[b] == m0[b2]);
                    } else if a == p {
                        assert(m1[b] == m0[b2]);
                        assert(m0[b2] != mv);
                    } else {
                        assert(m1[a] == m0[a2]);
                        assert(m0[a2] != mv);
                    }
                }
            }
        }
        true
    }

    /// Where a new member with `score` goes in the loaded buffer.
    fn position_for(&self, score: u64) -> (p: usize)
        ensures
            p == insert_position(self.sort_order, scores(self.values@), score),
            p <= self.values@.len(),
    {
        let ghost s = scores(self.values@);
        assert(s.subrange(0, s.len() as int) =~= s);
        let mut i: usize = 0;
        while i < self.values.len()
            invariant
                s == scores(self.values@),
                i <= s.len(),
                insert_position(self.sort_order, s, score) == i + insert_position(
                    self.sort_order,
                    s.subrange(i as int, s.len() as int),
                    score,
                ),
            decreases s.len() - i,
        {
            let v = self.values[i].1;
            let goes_before = match self.sort_order {
                SortOrder::Asc => v < score,
                SortOrder::Desc => v > score,
            };
            let ghost rest = s.subrange(i as int, s.len() as int);
            assert(rest[0] == v);
            if !goes_before {
                return i;
            }
            assert(rest.drop_first() =~= s.subrange(i + 1, s.len() as int));
            i = i + 1;
        }
        i
    }

    /// Applies the reply of ZREM for `member`: `removed` is how many members
    /// the store removed. When it is 0 nothing changes; else the member leaves
    /// the buffer and the count drops by `removed`.
    pub fn apply_remove(&mut self, member: &str, removed: usize)
        ensures
            removed == 0 ==> *final(self) == *old(self),
            removed != 0 ==> {
                &&& final(self).size == sub_sat(old(self).size, removed)
                &&& final(self).values@ == old(self).values@.filter(
                    |p: (String, u64)| p.0@ != member@,
                )
                &&& final(self).cursor == old(self).cursor
                &&& final(self).done == old(self).done
                &&& final(self).keyword == old(self).keyword
                &&& final(self).sort_order == old(self).sort_order
            },
    {
        if removed == 0 {
            return;
        }
        let ghost start = self.values@;
        let ghost keep = |p: (String, u64)| p.0@ != member@;
        let mut kept: Vec<(String, u64)> = Vec::new();
        let mut i: usize = 0;
        while i < self.values.len()
            invariant
                i <= self.values@.len(),
                start == self.values@,
                keep == (|p: (String, u64)| p.0@ != member@),
                kept@ == start.subrange(0, i as int).filter(keep),
            decreases self.values@.len() - i,
        {
            proof {
                reveal(Seq::filter);
                assert(start.subrange(0, i + 1).drop_last() =~= start.subrange(0, i as int));
            }
            if !str_eq(self.values[i].0.as_str(), member) {
                let m = self.values[i].0.clone();
                let ghost before = kept@;
                kept.push((m, self.values[i].1));
                assert(kept@ =~= before.push(start[i as int])) by {
                    assert(kept@[before.len() as int].0 == start[i as int].0);
                }
            }
            i = i + 1;
        }
        assert(start.subrange(0, i as int) =~= start);
        self.values = kept;
        self.size = if self.size >= removed {
            self.size - removed
        } else {
            0
        };
    }
}

proof fn lemma_insert_position(order: SortOrder, s: Seq<u64>, score: u64)
    ensures
        0 <= insert_position(order, s, score) <= s.len(),
        forall|k: int|
            0 <= k < insert_position(order, s, score) ==> before(order, #[trigger] s[k], score),
        insert_position(order, s, score) < s.len() ==> !before(
            order,
            s[insert_position(order, s, score)],
            score,
        ),
    decreases s.len(),
{
    if s.len() > 0 && before(order, s[0], score) {
        let r = s.drop_first();
        lemma_insert_position(order, r, score);
        assert forall|k: int| 0 <= k < insert_position(order, s, score) implies before(
            order,
            #[trigger] s[k],
            score,
        ) by {
            if k > 0 {
                assert(s[k] == r[k - 1]);
            }
        }
    }
}

/// Inserting a new member where its score belongs keeps a sorted buffer
/// sorted, in either order.
pub proof fn lemma_insert_keeps_order(order: SortOrder, v: Seq<(String, u64)>, member: String, score: u64)
    requires
        sorted_by(order, scores(v)),
    ensures
        sorted_by(
            order,
            scores(v.insert(insert_position(order, scores(v), score), (member, score))),
        ),
{
    let s = scores(v);
    let p = insert_position(order, s, score);
    lemma_insert_position(order, s, score);
    let t = scores(v.insert(p, (member, score)));
    assert(t =~= s.insert(p, score));
    assert forall|i: int, j: int| 0 <= i < j < t.len() implies !before(
        order,
        #[trigger] t[j],
        #[trigger] t[i],
    ) by {
        if j < p {
            assert(t[i] == s[i] && t[j] == s[j]);
        } else if j == p {
            assert(t[i] == s[i] && t[j] == score);
        } else if i < p {
            assert(t[i] == s[i] && t[j] == s[j - 1]);
            assert(!before(order, s[j - 1], s[p]) || j - 1 == p);
            assert(before(order, s[i], score));
            assert(!before(order, s[p], score));
        } else if i == p {
            assert(t[i] == score && t[j] == s[j - 1]);
            assert(!before(order, s[j - 1], s[p]) || j - 1 == p);
        } else {
            assert(t[i] == s[i - 1] && t[j] == s[j - 1]);
        }
    }
}

// ---------------------------------------------------------------- the value of a key

/// The expiry time of a key from its TTL reply at `now`: `Some(0)` for a key
/// without expiry (-1), `now + ttl` for a live TTL (held at the largest
/// `u64`), `None` for a missing key (-2) or any other negative reply.
pub open spec fn expire_at_of(ttl: i64, now: u64) -> Option<u64> {
    if ttl == -1 {
        Some(0u64)
    } else if ttl >= 0 {
        Some(if now + ttl <= u64::MAX {
            (now + ttl) as u64
        } else {
            u64::MAX
        })
    } else {
        None
    }
}

pub fn expire_at_from_ttl(ttl: i64, now: u64) -> (r: Option<u64>)
    ensures
        r == expire_at_of(ttl, now),
{
    if ttl == -1 {
        Some(0)
    } else if ttl >= 0 {
        let t = ttl as u64;
        Some(
            if t <= u64::MAX - now {
                now + t
            } else {
                u64::MAX
            },
        )
    } else {
        None
    }
}

/// Seconds left before expiry at `now`: -1 for a key without expiry, 0 once
/// expired, held at the largest `i64`.
pub open spec fn ttl_left_of(expire_at: u64, now: u64) -> i64 {
    if expire_at == 0 {
        -1i64
    } else if expire_at <= now {
        0i64
    } else if expire_at - now <= i64::MAX {
        (expire_at - now) as i64
    } else {
        i64::MAX
    }
}

pub fn ttl_left(expire_at: u64, now: u64) -> (r: i64)
    ensures
        r == ttl_left_of(expire_at, now),
{
    if expire_at == 0 {
        -1
    } else if expire_at <= now {
        0
    } else {
        let d = expire_at - now;
        if d <= i64::MAX as u64 {
            d as i64
        } else {
            i64::MAX
        }
    }
}

/// The loaded content of a key, one variant per supported type.
pub enum ValueData {
    Text(String),
    List(ListValue),
    Hash(HashValue),
    Members(SetValue),
    Zset(ZsetValue),
}

/// Why a key cannot be opened.
#[derive(Debug, Clone, Copy, PartialEq, Eq, Structural)]
pub enum ValueError {
    /// The key's type has no loader.
    Unsupported,
}

/// The loaders there are, one per supported key type.
#[derive(Debug, Clone, Copy, PartialEq, Eq, Structural)]
pub enum Loader {
    Text,
    List,
    Hash,
    Members,
    Zset,
}

/// The loader of a key type; other types abort the opening of the key.
pub open spec fn loader_of(t: KeyType) -> Result<Loader, ValueError> {
    match t {
        KeyType::String => Ok(Loader::Text),
        KeyType::List => Ok(Loader::List),
        KeyType::Hash => Ok(Loader::Hash),
        KeyType::SetOf => Ok(Loader::Members),
        KeyType::Zset => Ok(Loader::Zset),
        _ => Err(ValueError::Unsupported),
    }
}

pub fn loader_for(t: KeyType) -> (r: Result<Loader, ValueError>)
    ensures
        r == loader_of(t),
{
    match t {
        KeyType::String => Ok(Loader::Text),
        KeyType::List => Ok(Loader::List),
        KeyType::Hash => Ok(Loader::Hash),
        KeyType::SetOf => Ok(Loader::Members),
        KeyType::Zset => Ok(Loader::Zset),
        _ => Err(ValueError::Unsupported),
    }
}

/// The value of the selected key: its type, what is loaded, its expiry time
/// (0 for none) and, for text, its length in bytes.
pub struct RedisValue {
    pub key_type: KeyType,
    pub data: Option<ValueData>,
    pub expire_at: Option<u64>,
    pub size: usize,
}

impl RedisValue {
    pub fn key_type(&self) -> (r: KeyType)
        ensures
            r == self.key_type,
    {
        self.key_type
    }

    pub fn size(&self) -> (r: usize)
        ensures
            r == self.size,
    {
        self.size
    }

    /// The loaded list, when the value is one.
    pub fn list_value(&self) -> (r: Option<&ListValue>)
        ensures
            match self.data {
                Some(ValueData::List(l)) => r == Some(&l),
                _ => r is None,
            },
    {
        match &self.data {
            Some(ValueData::List(l)) => Some(l),
            _ => None,
        }
    }

    /// The text, when the value is one.
    pub fn string_value(&self) -> (r: Option<&String>)
        ensures
            match self.data {
                Some(ValueData::Text(t)) => r == Some(&t),
                _ => r is None,
            },
    {
        match &self.data {
            Some(ValueData::Text(t)) => Some(t),
            _ => None,
        }
    }

    /// Seconds left before expiry at `now`, when known.
    pub fn ttl(&self, now: u64) -> (r: Option<i64>)
        ensures
            r == match self.expire_at {
                Some(e) => Some(ttl_left_of(e, now)),
                None => None,
            },
    {
        match self.expire_at {
            Some(e) => Some(ttl_left(e, now)),
            None => None,
        }
    }

    /// After a successful SET: the text and its byte length take the new value.
    pub fn apply_saved(&mut self, value: String)
        ensures
            final(self).size == vstd::utf8::encode_utf8(value@).len() as usize,
            final(self).data == Some(ValueData::Text(value)),
            final(self).key_type == old(self).key_type,
            final(self).expire_at == old(self).expire_at,
    {
        self.size = value.as_str().len();
        self.data = Some(ValueData::Text(value));
    }
}

/// The key shown in the editor and its loaded value. A load answers for the
/// key it was started for; an answer for a key no longer selected is
/// dropped.
pub struct ValueSlot {
    pub key: Option<String>,
    pub value: Option<RedisValue>,
}

pub open spec fn key_view(k: Option<String>) -> Seq<char> {
    match k {
        Some(s) => s@,
        None => Seq::empty(),
    }
}

impl ValueSlot {
    pub fn new() -> (r: ValueSlot)
        ensures
            r.key is None,
            r.value is None,
    {
        ValueSlot { key: None, value: None }
    }

    /// Selects `key`; returns whether a load is to be started: only for a
    /// different, non-empty key. Selecting the current key changes nothing.
    pub fn select_key(&mut self, key: String) -> (load: bool)
        ensures
            key_view(old(self).key) == key@ ==> *final(self) == *old(self) && !load,
            key_view(old(self).key) != key@ ==> final(self).key == Some(key) && final(self).value
                == old(self).value && load == (key@.len() > 0),
    {
        let same = match &self.key {
            Some(k) => crate::text::str_eq(k.as_str(), key.as_str()),
            None => key.unicode_len() == 0,
        };
        if same {
            assert(key_view(self.key) =~= key@);
            return false;
        }
        let load = key.unicode_len() > 0;
        self.key = Some(key);
        load
    }

    /// Applies the outcome of a load started for `key` (`None` when it
    /// failed). Returns whether it was applied: only while `key` is still
    /// selected.
    pub fn apply_loaded(&mut self, key: &str, loaded: Option<RedisValue>) -> (applied: bool)
        ensures
            applied == (old(self).key is Some && key_view(old(self).key) == key@),
            applied ==> final(self).value == loaded && final(self).key == old(self).key,
            !applied ==> *final(self) == *old(self),
    {
        let current = match &self.key {
            Some(k) => crate::text::str_eq(k.as_str(), key),
            None => false,
        };
        if current {
            self.value = loaded;
        }
        current
    }

    /// After the selected key was deleted: nothing is selected.
    pub fn clear(&mut self)
        ensures
            final(self).key is None,
            final(self).value is None,
    {
        self.key = None;
        self.value = None;
    }
}

} // verus!
