use vstd::prelude::*;
use vstd::string::StrSliceExecFns;
use vstd::utf8::{encode_utf8, is_ascii_chars};

verus! {

/// The texts that a list of strings holds.
pub open spec fn views(v: Seq<String>) -> Seq<Seq<char>> {
    v.map_values(|s: String| s@)
}

/// ASCII lower-casing of one byte; other bytes are kept.
pub open spec fn ascii_lower(b: u8) -> u8 {
    if 65 <= b && b <= 90 {
        (b + 32) as u8
    } else {
        b
    }
}

/// The window of `h` that starts at `i` equals `n`, ignoring ASCII case.
pub open spec fn window_matches(h: Seq<u8>, n: Seq<u8>, i: int) -> bool {
    forall|j: int| 0 <= j < n.len() ==> ascii_lower(#[trigger] h[i + j]) == ascii_lower(n[j])
}

/// `n` occurs in `h` ignoring ASCII case.
pub open spec fn contains_ignore_ascii_case(h: Seq<u8>, n: Seq<u8>) -> bool {
    exists|i: int| 0 <= i <= h.len() - n.len() && #[trigger] window_matches(h, n, i)
}

/// `n` occurs in `h` as a contiguous run.
pub open spec fn seq_contains(h: Seq<char>, n: Seq<char>) -> bool {
    exists|i: int| 0 <= i <= h.len() - n.len() && #[trigger] h.subrange(i, i + n.len()) == n
}

/// The lower-case form of a text, as `str::to_lowercase` computes it.
pub uninterp spec fn lower_of(s: Seq<char>) -> Seq<char>;

/// Whether the text `haystack` contains `needle_lower`, which the caller has
/// already lower-cased: a needle longer in bytes (as `str::len` counts them)
/// never matches, ASCII text is compared byte by byte ignoring case, other
/// text is lower-cased first.
pub open spec fn contains_ignore_case(haystack: Seq<char>, needle_lower: Seq<char>) -> bool {
    let hb = encode_utf8(haystack);
    let nb = encode_utf8(needle_lower);
    if (nb.len() as usize) > (hb.len() as usize) {
        false
    } else if is_ascii_chars(haystack) {
        contains_ignore_ascii_case(hb, nb)
    } else {
        seq_contains(lower_of(haystack), needle_lower)
    }
}

/// Relies on str::to_lowercase, whose result depends on the characters alone.
#[verifier::external_body]
fn to_lower(s: &str) -> (r: String)
    ensures
        r@ == lower_of(s@),
{
    s.to_lowercase()
}

fn byte_lower(b: u8) -> (r: u8)
    ensures
        r == ascii_lower(b),
{
    if 65 <= b && b <= 90 {
        b + 32
    } else {
        b
    }
}

/// Whether the bytes of `needle` occur in `haystack`, ignoring ASCII case.
pub fn bytes_contain_ignore_ascii_case(haystack: &[u8], needle: &[u8]) -> (r: bool)
    ensures
        r == contains_ignore_ascii_case(haystack@, needle@),
{
    let hl = haystack.len();
    let nl = needle.len();
    if nl > hl {
        assert forall|i: int| 0 <= i <= haystack@.len() - needle@.len() implies !#[trigger] window_matches(
            haystack@,
            needle@,
            i,
        ) by {}
        return false;
    }
    let mut i: usize = 0;
    while i <= hl - nl
        invariant
            nl <= hl,
            hl == haystack@.len(),
            nl == needle@.len(),
            i <= hl - nl + 1,
            forall|k: int| 0 <= k < i ==> !#[trigger] window_matches(haystack@, needle@, k),
        decreases hl - nl + 1 - i,
    {
        let mut j: usize = 0;
        let mut same = true;
        while j < nl
            invariant
                nl <= hl,
                i <= hl - nl,
                hl == haystack@.len(),
                nl == needle@.len(),
                j <= nl,
                same == (forall|t: int|
                    0 <= t < j ==> ascii_lower(#[trigger] haystack@[i + t]) == ascii_lower(
                        needle@[t],
                    )),
            decreases nl - j,
        {
            if byte_lower(haystack[i + j]) != byte_lower(needle[j]) {
                same = false;
            }
            j = j + 1;
        }
        if same {
            assert(window_matches(haystack@, needle@, i as int));
            return true;
        }
        i = i + 1;
    }
    false
}

/// Whether `needle` occurs in `haystack` as a contiguous run of characters.
pub fn contains_chars(haystack: &str, needle: &str) -> (r: bool)
    ensures
        r == seq_contains(haystack@, needle@),
{
    let hl = haystack.unicode_len();
    let nl = needle.unicode_len();
    if nl > hl {
        return false;
    }
    let mut i: usize = 0;
    while i <= hl - nl
        invariant
            nl <= hl,
            hl == haystack@.len(),
            nl == needle@.len(),
            i <= hl - nl + 1,
            forall|k: int| 0 <= k < i ==> #[trigger] haystack@.subrange(k, k + nl) != needle@,
        decreases hl - nl + 1 - i,
    {
        let mut j: usize = 0;
        let mut same = true;
        while j < nl
            invariant
                nl <= hl,
                i <= hl - nl,
                hl == haystack@.len(),
                nl == needle@.len(),
                j <= nl,
                same == (forall|t: int| 0 <= t < j ==> haystack@[i + t] == needle@[t]),
            decreases nl - j,
        {
            if haystack.get_char(i + j) != needle.get_char(j) {
                same = false;
            }
            j = j + 1;
        }
        if same {
            assert(haystack@.subrange(i as int, i + nl) =~= needle@);
            return true;
        }
        assert(haystack@.subrange(i as int, i + nl) != needle@) by {
            if haystack@.subrange(i as int, i + nl) == needle@ {
                assert forall|t: int| 0 <= t < nl implies haystack@[i + t] == needle@[t] by {
                    assert(haystack@.subrange(i as int, i + nl)[t] == haystack@[i + t]);
                }
            }
        }
        i = i + 1;
    }
    false
}

/// Whether two texts hold the same characters.
pub fn str_eq(a: &str, b: &str) -> (r: bool)
    ensures
        r == (a@ == b@),
{
    let n = a.unicode_len();
    if n != b.unicode_len() {
        return false;
    }
    let mut i: usize = 0;
    while i < n
        invariant
            n == a@.len(),
            n == b@.len(),
            i <= n,
            forall|t: int| 0 <= t < i ==> a@[t] == b@[t],
        decreases n - i,
    {
        if a.get_char(i) != b.get_char(i) {
            return false;
        }
        i = i + 1;
    }
    assert(a@ =~= b@);
    true
}

/// Whether `s` begins with `prefix`.
pub fn starts_with(s: &str, prefix: &str) -> (r: bool)
    ensures
        r == (prefix@.len() <= s@.len() && s@.subrange(0, prefix@.len() as int) == prefix@),
{
    let n = s.unicode_len();
    let m = prefix.unicode_len();
    if m > n {
        return false;
    }
    let mut i: usize = 0;
    while i < m
        invariant
            m <= n,
            n == s@.len(),
            m == prefix@.len(),
            i <= m,
            forall|t: int| 0 <= t < i ==> s@[t] == prefix@[t],
        decreases m - i,
    {
        if s.get_char(i) != prefix.get_char(i) {
            assert(s@.subrange(0, m as int)[i as int] != prefix@[i as int]);
            return false;
        }
        i = i + 1;
    }
    assert(s@.subrange(0, m as int) =~= prefix@);
    true
}

/// Whether `c` occurs in `s` at a position at or after `from`.
pub fn has_char_from(s: &str, c: char, from: usize) -> (r: bool)
    ensures
        r == (exists|i: int| from <= i < s@.len() && s@[i] == c),
{
    let n = s.unicode_len();
    let mut i: usize = from;
    while i < n
        invariant
            n == s@.len(),
            from <= i,
            forall|t: int| from <= t < i ==> s@[t] != c,
        decreases n - i,
    {
        if s.get_char(i) == c {
            assert(from <= i && s@[i as int] == c);
            return true;
        }
        i = i + 1;
    }
    false
}

/// Case-insensitive containment for filtering displayed values: `needle_lower`
/// is expected in lower case already.
pub fn fast_contains_ignore_case(haystack: &str, needle_lower: &str) -> (r: bool)
    ensures
        r == contains_ignore_case(haystack@, needle_lower@),
{
    if needle_lower.len() > haystack.len() {
        return false;
    }
    if haystack.is_ascii() {
        return bytes_contain_ignore_ascii_case(haystack.as_bytes(), needle_lower.as_bytes());
    }
    let lowered = to_lower(haystack);
    contains_chars(lowered.as_str(), needle_lower)
}

/// Strict lexicographic order of byte strings, the order of `str` comparison.
pub open spec fn lex_lt(a: Seq<u8>, b: Seq<u8>) -> bool
    decreases a.len(),
{
    if a.len() == 0 {
        b.len() > 0
    } else if b.len() == 0 {
        false
    } else if a[0] != b[0] {
        a[0] < b[0]
    } else {
        lex_lt(a.drop_first(), b.drop_first())
    }
}

pub proof fn lemma_lex_irreflexive(a: Seq<u8>)
    ensures
        !lex_lt(a, a),
    decreases a.len(),
{
    if a.len() > 0 {
        lemma_lex_irreflexive(a.drop_first());
    }
}

pub proof fn lemma_lex_total(a: Seq<u8>, b: Seq<u8>)
    ensures
        a == b || lex_lt(a, b) || lex_lt(b, a),
    decreases a.len(),
{
    if a.len() > 0 && b.len() > 0 && a[0] == b[0] {
        lemma_lex_total(a.drop_first(), b.drop_first());
        if a.drop_first() == b.drop_first() {
            assert(a =~= seq![a[0]] + a.drop_first());
            assert(b =~= seq![b[0]] + b.drop_first());
        }
    } else if a.len() == 0 && b.len() == 0 {
        assert(a =~= b);
    }
}

pub proof fn lemma_lex_asymmetric(a: Seq<u8>, b: Seq<u8>)
    ensures
        !(lex_lt(a, b) && lex_lt(b, a)),
    decreases a.len(),
{
    if a.len() > 0 && b.len() > 0 && a[0] == b[0] {
        lemma_lex_asymmetric(a.drop_first(), b.drop_first());
    }
}

pub proof fn lemma_lex_transitive(a: Seq<u8>, b: Seq<u8>, c: Seq<u8>)
    requires
        lex_lt(a, b),
        lex_lt(b, c),
    ensures
        lex_lt(a, c),
    decreases a.len(),
{
    if a.len() > 0 && b.len() > 0 && c.len() > 0 && a[0] == b[0] && b[0] == c[0] {
        lemma_lex_transitive(a.drop_first(), b.drop_first(), c.drop_first());
    }
}

/// Whether `a` sorts strictly before `b` by bytes.
pub fn bytes_lt(a: &[u8], b: &[u8]) -> (r: bool)
    ensures
        r == lex_lt(a@, b@),
{
    let mut i: usize = 0;
    assert(a@.subrange(0, a@.len() as int) =~= a@);
    assert(b@.subrange(0, b@.len() as int) =~= b@);
    while i < a.len() && i < b.len() && a[i] == b[i]
        invariant
            i <= a@.len(),
            i <= b@.len(),
            lex_lt(a@, b@) == lex_lt(a@.subrange(i as int, a@.len() as int), b@.subrange(i as int, b@.len() as int)),
        decreases a@.len() - i,
    {
        proof {
            let sa = a@.subrange(i as int, a@.len() as int);
            let sb = b@.subrange(i as int, b@.len() as int);
            assert(sa.drop_first() =~= a@.subrange(i + 1, a@.len() as int));
            assert(sb.drop_first() =~= b@.subrange(i + 1, b@.len() as int));
        }
        i = i + 1;
    }
    proof {
        let sa = a@.subrange(i as int, a@.len() as int);
        let sb = b@.subrange(i as int, b@.len() as int);
        if i < a@.len() && i < b@.len() {
            assert(sa[0] == a@[i as int] && sb[0] == b@[i as int]);
        }
    }
    if i == a.len() {
        i < b.len()
    } else if i == b.len() {
        false
    } else {
        a[i] < b[i]
    }
}

/// `a` sorts strictly before `b` by the bytes of their UTF-8 forms, the
/// order of `String` comparison.
pub open spec fn text_lt(a: Seq<char>, b: Seq<char>) -> bool {
    lex_lt(encode_utf8(a), encode_utf8(b))
}

/// Sorts distinct texts into strictly ascending byte order.
pub fn sort_texts(v: &Vec<String>) -> (r: Vec<String>)
    requires
        views(v@).no_duplicates(),
    ensures
        r@.len() == v@.len(),
        forall|x: Seq<char>| #[trigger] views(r@).contains(x) <==> views(v@).contains(x),
        forall|i: int, j: int|
            0 <= i < j < r@.len() ==> text_lt(#[trigger] views(r@)[i], #[trigger] views(r@)[j]),
{
    let mut r: Vec<String> = Vec::new();
    let mut i: usize = 0;
    while i < v.len()
        invariant
            i <= v@.len(),
            views(v@).no_duplicates(),
            r@.len() == i,
            forall|x: Seq<char>|
                #[trigger] views(r@).contains(x) <==> views(v@).subrange(0, i as int).contains(x),
            forall|a: int, b: int|
                0 <= a < b < r@.len() ==> text_lt(#[trigger] views(r@)[a], #[trigger] views(r@)[b]),
        decreases v@.len() - i,
    {
        let xb = v[i].as_str().as_bytes();
        let ghost x = v@[i as int]@;
        let mut pos: usize = 0;
        while pos < r.len() && bytes_lt(r[pos].as_str().as_bytes(), xb)
            invariant
                pos <= r@.len(),
                xb@ == encode_utf8(x),
                forall|q: int| 0 <= q < pos ==> text_lt(#[trigger] views(r@)[q], x),
            decreases r@.len() - pos,
        {
            pos = pos + 1;
        }
        let ghost before = views(r@);
        proof {
            assert(views(v@)[i as int] == x);
            if before.contains(x) {
                let q = choose|q: int| 0 <= q < before.len() && before[q] == x;
                assert(views(v@).subrange(0, i as int).contains(x));
                let t = choose|t: int| 0 <= t < i && views(v@).subrange(0, i as int)[t] == x;
                assert(views(v@)[t] == views(v@)[i as int]);
            }
        }
        r.insert(pos, v[i].clone());
        proof {
            assert(views(r@) =~= before.insert(pos as int, x));
            if pos < before.len() {
                let y = before[pos as int];
                assert(before.contains(y));
                assert(y != x);
                vstd::utf8::encode_utf8_decode_utf8(x);
                vstd::utf8::encode_utf8_decode_utf8(y);
                lemma_lex_total(encode_utf8(x), encode_utf8(y));
                assert(text_lt(x, y));
            }
            assert forall|a: int, b: int|
                0 <= a < b < r@.len() implies text_lt(#[trigger] views(r@)[a], #[trigger] views(r@)[b]) by {
                if b < pos {
                    assert(views(r@)[a] == before[a] && views(r@)[b] == before[b]);
                } else if b == pos {
                    assert(views(r@)[a] == before[a]);
                } else if a < pos {
                    assert(views(r@)[a] == before[a] && views(r@)[b] == before[b - 1]);
                    if b - 1 > pos {
                        lemma_lex_transitive(encode_utf8(x), encode_utf8(before[pos as int]), encode_utf8(before[b - 1]));
                    }
                    lemma_lex_transitive(encode_utf8(before[a]), encode_utf8(x), encode_utf8(before[b - 1]));
                } else if a == pos {
                    assert(views(r@)[b] == before[b - 1]);
                    if b - 1 > pos {
                        lemma_lex_transitive(encode_utf8(x), encode_utf8(before[pos as int]), encode_utf8(before[b - 1]));
                    }
                } else {
                    assert(views(r@)[a] == before[a - 1] && views(r@)[b] == before[b - 1]);
                }
            }
            assert(views(v@).subrange(0, i + 1) =~= views(v@).subrange(0, i as int).push(x));
            assert forall|y: Seq<char>|
                #[trigger] views(r@).contains(y) <==> views(v@).subrange(0, i + 1).contains(y) by {
                let lo = views(v@).subrange(0, i as int);
                let hi = views(v@).subrange(0, i + 1);
                if hi.contains(y) && y != x {
                    let j = choose|j: int| 0 <= j < hi.len() && hi[j] == y;
                    assert(lo[j] == y);
                }
                if lo.contains(y) {
                    let j = choose|j: int| 0 <= j < lo.len() && lo[j] == y;
                    assert(hi[j] == y);
                }
                assert(hi[i as int] == x);
                if views(r@).contains(y) && y != x {
                    let j = choose|j: int| 0 <= j < views(r@).len() && views(r@)[j] == y;
                    if j < pos {
                        assert(before[j] == y);
                    } else {
                        assert(before[j - 1] == y);
                    }
                }
                if before.contains(y) {
                    let j = choose|j: int| 0 <= j < before.len() && before[j] == y;
                    if j < pos {
                        assert(views(r@)[j] == y);
                    } else {
                        assert(views(r@)[j + 1] == y);
                    }
                }
                if y == x {
                    assert(views(r@)[pos as int] == x);
                }
            }
        }
        i = i + 1;
    }
    assert(views(v@).subrange(0, v@.len() as int) =~= views(v@));
    r
}

} // verus!
