use vstd::prelude::*;
use vstd::string::StrSliceExecFns;
use vstd::string::StringExecFns;

use crate::text::str_eq;

verus! {

/// How the key filter of a server matches by default.
#[derive(Debug, Clone, Copy, PartialEq, Eq, Structural)]
pub enum QueryMode {
    All,
    Prefix,
    Exact,
}

/// The symbol shown for each query mode.
pub open spec fn query_mode_symbol(m: QueryMode) -> Seq<char> {
    match m {
        QueryMode::Prefix => "^"@,
        QueryMode::Exact => "="@,
        QueryMode::All => "*"@,
    }
}

/// The query mode a symbol names; anything else is `All`.
pub open spec fn query_mode_of(s: Seq<char>) -> QueryMode {
    if s == "^"@ {
        QueryMode::Prefix
    } else if s == "="@ {
        QueryMode::Exact
    } else {
        QueryMode::All
    }
}

impl QueryMode {
    pub fn as_str(&self) -> (r: &'static str)
        ensures
            r@ == query_mode_symbol(*self),
    {
        match self {
            QueryMode::Prefix => "^",
            QueryMode::Exact => "=",
            QueryMode::All => "*",
        }
    }

    pub fn parse(s: &str) -> (r: QueryMode)
        ensures
            r == query_mode_of(s@),
    {
        if str_eq(s, "^") {
            QueryMode::Prefix
        } else if str_eq(s, "=") {
            QueryMode::Exact
        } else {
            QueryMode::All
        }
    }
}

/// The page the application window shows.
#[derive(Debug, Clone, Copy, PartialEq, Eq, Structural)]
pub enum Route {
    Home,
    Editor,
}

/// Moves `current` to `target`; returns whether the page changed, so that
/// observers redraw only then.
pub fn go_to(current: &mut Route, target: Route) -> (changed: bool)
    ensures
        *final(current) == target,
        changed == (*old(current) != target),
{
    if *current != target {
        *current = target;
        true
    } else {
        false
    }
}

/// The decimal digit character of `d` (0 to 9).
pub open spec fn digit_char(d: nat) -> char {
    if d == 0 {
        '0'
    } else if d == 1 {
        '1'
    } else if d == 2 {
        '2'
    } else if d == 3 {
        '3'
    } else if d == 4 {
        '4'
    } else if d == 5 {
        '5'
    } else if d == 6 {
        '6'
    } else if d == 7 {
        '7'
    } else if d == 8 {
        '8'
    } else {
        '9'
    }
}

/// The decimal text of `n`, without leading zeros.
pub open spec fn decimal_text(n: nat) -> Seq<char>
    decreases n,
{
    if n < 10 {
        seq![digit_char(n)]
    } else {
        decimal_text(n / 10) + seq![digit_char(n % 10)]
    }
}

fn digit_str(d: u64) -> (r: &'static str)
    requires
        d < 10,
    ensures
        r@ == seq![digit_char(d as nat)],
{
    proof {
        reveal_strlit("0");
        reveal_strlit("1");
        reveal_strlit("2");
        reveal_strlit("3");
        reveal_strlit("4");
        reveal_strlit("5");
        reveal_strlit("6");
        reveal_strlit("7");
        reveal_strlit("8");
        reveal_strlit("9");
    }
    if d == 0 {
        "0"
    } else if d == 1 {
        "1"
    } else if d == 2 {
        "2"
    } else if d == 3 {
        "3"
    } else if d == 4 {
        "4"
    } else if d == 5 {
        "5"
    } else if d == 6 {
        "6"
    } else if d == 7 {
        "7"
    } else if d == 8 {
        "8"
    } else {
        "9"
    }
}

/// Appends the decimal text of `n` to `out`.
pub fn push_decimal(out: &mut String, n: u64)
    ensures
        final(out)@ == old(out)@ + decimal_text(n as nat),
    decreases n,
{
    if n >= 10 {
        push_decimal(out, n / 10);
    }
    out.append(digit_str(n % 10));
    proof {
        if n >= 10 {
            assert(old(out)@ + decimal_text(n as nat) =~= old(out)@ + decimal_text((n / 10) as nat)
                + seq![digit_char((n % 10) as nat)]);
        }
    }
}

/// The decimal text of `n`.
pub fn decimal_string(n: u64) -> (r: String)
    ensures
        r@ == decimal_text(n as nat),
{
    let mut r = String::new();
    push_decimal(&mut r, n);
    assert(r@ =~= decimal_text(n as nat));
    r
}

/// Characters that stand for themselves in the user and password of a URL.
pub open spec fn is_unreserved(c: char) -> bool {
    ('a' <= c && c <= 'z') || ('A' <= c && c <= 'Z') || ('0' <= c && c <= '9') || c == '-' || c
        == '.' || c == '_' || c == '~'
}

/// The upper-case hexadecimal digit of `d` (0 to 15).
pub open spec fn hex_char(d: nat) -> char {
    if d < 10 {
        digit_char(d)
    } else if d == 10 {
        'A'
    } else if d == 11 {
        'B'
    } else if d == 12 {
        'C'
    } else if d == 13 {
        'D'
    } else if d == 14 {
        'E'
    } else {
        'F'
    }
}

/// `%XX` for each byte.
pub open spec fn percent_bytes(b: Seq<u8>) -> Seq<char>
    decreases b.len(),
{
    if b.len() == 0 {
        Seq::empty()
    } else {
        percent_bytes(b.drop_last()) + seq![
            '%',
            hex_char((b.last() / 16) as nat),
            hex_char((b.last() % 16) as nat),
        ]
    }
}

/// Percent-encoding of a text: unreserved characters are kept, every other
/// character is written as `%XX` for each byte of its UTF-8 form.
pub open spec fn percent_encode(s: Seq<char>) -> Seq<char>
    decreases s.len(),
{
    if s.len() == 0 {
        Seq::empty()
    } else {
        let c = s.last();
        percent_encode(s.drop_last()) + (if is_unreserved(c) {
            seq![c]
        } else {
            percent_bytes(vstd::utf8::encode_utf8(seq![c]))
        })
    }
}

fn hex_str(d: u8) -> (r: &'static str)
    requires
        d < 16,
    ensures
        r@ == seq![hex_char(d as nat)],
{
    proof {
        reveal_strlit("A");
        reveal_strlit("B");
        reveal_strlit("C");
        reveal_strlit("D");
        reveal_strlit("E");
        reveal_strlit("F");
    }
    if d < 10 {
        digit_str(d as u64)
    } else if d == 10 {
        "A"
    } else if d == 11 {
        "B"
    } else if d == 12 {
        "C"
    } else if d == 13 {
        "D"
    } else if d == 14 {
        "E"
    } else {
        "F"
    }
}

/// Appends the percent-encoding of `s` to `out`.
pub fn push_percent_encoded(out: &mut String, s: &str)
    ensures
        final(out)@ == old(out)@ + percent_encode(s@),
{
    proof {
        reveal_strlit("%");
    }
    let n = s.unicode_len();
    let mut i: usize = 0;
    while i < n
        invariant
            n == s@.len(),
            i <= n,
            out@ == old(out)@ + percent_encode(s@.subrange(0, i as int)),
        decreases n - i,
    {
        let c = s.get_char(i);
        let one = s.substring_char(i, i + 1);
        let ghost before = out@;
        assert(one@ =~= seq![c]);
        if ('a' <= c && c <= 'z') || ('A' <= c && c <= 'Z') || ('0' <= c && c <= '9') || c == '-'
            || c == '.' || c == '_' || c == '~' {
            out.append(one);
        } else {
            let bytes = one.as_bytes();
            let mut j: usize = 0;
            while j < bytes.len()
                invariant
                    j <= bytes@.len(),
                    bytes@ == vstd::utf8::encode_utf8(seq![c]),
                    out@ == before + percent_bytes(bytes@.subrange(0, j as int)),
                decreases bytes@.len() - j,
            {
                let b = bytes[j];
                proof {
                    reveal_strlit("%");
                }
                out.append("%");
                out.append(hex_str(b / 16));
                out.append(hex_str(b % 16));
                proof {
                    let p = bytes@.subrange(0, j + 1);
                    assert(p.drop_last() =~= bytes@.subrange(0, j as int));
                    assert(p.last() == b);
                    assert(out@ =~= before + percent_bytes(p));
                }
                j = j + 1;
            }
            assert(bytes@.subrange(0, j as int) =~= bytes@);
        }
        proof {
            let p = s@.subrange(0, i + 1);
            assert(p.drop_last() =~= s@.subrange(0, i as int));
            assert(p.last() == c);
            assert(out@ =~= old(out)@ + percent_encode(p));
        }
        i = i + 1;
    }
    assert(s@.subrange(0, n as int) =~= s@);
}

/// The stored description of one server: where it is, how to log in, an
/// optional SSH tunnel, and display settings.
#[derive(Debug, Clone)]
pub struct RedisServer {
    pub id: String,
    pub name: String,
    pub host: String,
    pub port: u16,
    pub username: Option<String>,
    pub password: Option<String>,
    pub tls: bool,
    pub master_name: Option<String>,
    pub description: Option<String>,
    pub updated_at: Option<String>,
    pub query_mode: Option<String>,
    pub soft_wrap: Option<bool>,
    pub ssh_addr: Option<String>,
    pub ssh_username: Option<String>,
    pub ssh_key: Option<String>,
    pub ssh_password: Option<String>,
}

/// The connection URL of a server: `redis://` or, with TLS, `rediss://`;
/// then, with a password, the percent-encoded user (empty without one), `:`,
/// the percent-encoded password and `@`; then `host:port`.
pub open spec fn connection_url_of(
    tls: bool,
    username: Option<Seq<char>>,
    password: Option<Seq<char>>,
    host: Seq<char>,
    port: u16,
) -> Seq<char> {
    (if tls {
        "rediss://"@
    } else {
        "redis://"@
    }) + match password {
        Some(p) => percent_encode(
            match username {
                Some(u) => u,
                None => Seq::empty(),
            },
        ) + seq![':'] + percent_encode(p) + seq!['@'],
        None => Seq::empty(),
    } + host + seq![':'] + decimal_text(port as nat)
}

pub open spec fn opt_view(o: Option<String>) -> Option<Seq<char>> {
    match o {
        Some(s) => Some(s@),
        None => None,
    }
}

impl RedisServer {
    /// The connection URL of this server.
    pub fn get_connection_url(&self) -> (r: String)
        ensures
            r@ == connection_url_of(
                self.tls,
                opt_view(self.username),
                opt_view(self.password),
                self.host@,
                self.port,
            ),
    {
        proof {
            reveal_strlit("rediss://");
            reveal_strlit("redis://");
            reveal_strlit(":");
            reveal_strlit("@");
        }
        let mut r = if self.tls {
            String::from_str("rediss://")
        } else {
            String::from_str("redis://")
        };
        let ghost scheme = r@;
        match &self.password {
            Some(p) => {
                match &self.username {
                    Some(u) => push_percent_encoded(&mut r, u.as_str()),
                    None => {
                        proof {
                            assert(percent_encode(Seq::<char>::empty()) =~= Seq::<char>::empty());
                        }
                    },
                }
                r.append(":");
                push_percent_encoded(&mut r, p.as_str());
                r.append("@");
            },
            None => {},
        }
        r.append(self.host.as_str());
        r.append(":");
        push_decimal(&mut r, self.port as u64);
        proof {
            match opt_view(self.password) {
                Some(pv) => {
                    let u = match opt_view(self.username) {
                        Some(u) => u,
                        None => Seq::empty(),
                    };
                    assert(r@ =~= scheme + (percent_encode(u) + seq![':'] + percent_encode(pv)
                        + seq!['@']) + self.host@ + seq![':'] + decimal_text(self.port as nat));
                },
                None => {
                    assert(r@ =~= scheme + Seq::<char>::empty() + self.host@ + seq![':']
                        + decimal_text(self.port as nat));
                },
            }
        }
        r
    }
}

/// The ids of a list of servers.
pub open spec fn server_ids(v: Seq<RedisServer>) -> Seq<Seq<char>> {
    v.map_values(|s: RedisServer| s.id@)
}

/// The names of a list of servers.
pub open spec fn server_names(v: Seq<RedisServer>) -> Seq<Seq<char>> {
    v.map_values(|s: RedisServer| s.name@)
}

/// The position of the first occurrence of `x`, or the length when absent.
pub open spec fn first_of(s: Seq<Seq<char>>, x: Seq<char>) -> int
    decreases s.len(),
{
    if s.len() == 0 {
        0
    } else if s[0] == x {
        0
    } else {
        1 + first_of(s.drop_first(), x)
    }
}

pub proof fn lemma_first_of(s: Seq<Seq<char>>, x: Seq<char>, i: int)
    requires
        0 <= i <= s.len(),
        i < s.len() ==> s[i] == x,
        forall|t: int| 0 <= t < i ==> #[trigger] s[t] != x,
    ensures
        first_of(s, x) == i,
    decreases i,
{
    if i > 0 {
        assert forall|t: int| 0 <= t < i - 1 implies #[trigger] s.drop_first()[t] != x by {
            assert(s[t + 1] != x);
        }
        lemma_first_of(s.drop_first(), x, i - 1);
    }
}

/// Why a server cannot be looked up.
#[derive(Debug, Clone, Copy, PartialEq, Eq, Structural)]
pub enum ConfigError {
    /// No server has the id asked for.
    NotFound,
}

/// The first server whose id is `id`.
pub fn get_config<'a>(servers: &'a Vec<RedisServer>, id: &str) -> (r: Result<&'a RedisServer, ConfigError>)
    ensures
        match r {
            Ok(s) => first_of(server_ids(servers@), id@) < servers@.len() && *s == servers@[first_of(
                server_ids(servers@),
                id@,
            )],
            Err(e) => e == ConfigError::NotFound && !server_ids(servers@).contains(id@),
        },
{
    let mut i: usize = 0;
    while i < servers.len()
        invariant
            i <= servers@.len(),
            forall|t: int| 0 <= t < i ==> #[trigger] server_ids(servers@)[t] != id@,
        decreases servers@.len() - i,
    {
        if str_eq(servers[i].id.as_str(), id) {
            proof {
                lemma_first_of(server_ids(servers@), id@, i as int);
            }
            return Ok(&servers[i]);
        }
        i = i + 1;
    }
    proof {
        if server_ids(servers@).contains(id@) {
            let t = choose|t: int| 0 <= t < server_ids(servers@).len() && server_ids(servers@)[t] == id@;
            assert(server_ids(servers@)[t] != id@);
        }
    }
    Err(ConfigError::NotFound)
}

/// Replaces the first server named like `server`, or appends it when no
/// server has that name.
pub fn update_or_insert_server(servers: &mut Vec<RedisServer>, server: RedisServer)
    ensures
        ({
            let p = first_of(server_names(old(servers)@), server.name@);
            if p < old(servers)@.len() {
                final(servers)@ == old(servers)@.update(p, server)
            } else {
                final(servers)@ == old(servers)@.push(server)
            }
        }),
{
    let mut i: usize = 0;
    while i < servers.len()
        invariant
            servers@ == old(servers)@,
            i <= servers@.len(),
            forall|t: int| 0 <= t < i ==> #[trigger] server_names(servers@)[t] != server.name@,
        decreases servers@.len() - i,
    {
        if str_eq(servers[i].name.as_str(), server.name.as_str()) {
            proof {
                lemma_first_of(server_names(servers@), server.name@, i as int);
            }
            servers.set(i, server);
            return;
        }
        i = i + 1;
    }
    proof {
        lemma_first_of(server_names(servers@), server.name@, i as int);
    }
    servers.push(server);
}

/// Drops every server named `name`; the others keep their order.
pub fn remove_server(servers: &mut Vec<RedisServer>, name: &str)
    ensures
        final(servers)@ == old(servers)@.filter(|s: RedisServer| s.name@ != name@),
{
    let ghost orig = servers@;
    let ghost keep = |s: RedisServer| s.name@ != name@;
    let mut i: usize = servers.len();
    assert(orig.subrange(0, i as int) =~= orig);
    assert(orig.subrange(i as int, orig.len() as int) =~= Seq::<RedisServer>::empty());
    proof {
        reveal(Seq::filter);
        assert(Seq::<RedisServer>::empty().filter(keep) =~= Seq::<RedisServer>::empty());
    }
    while i > 0
        invariant
            i <= orig.len(),
            keep == (|s: RedisServer| s.name@ != name@),
            servers@ == orig.subrange(0, i as int) + orig.subrange(i as int, orig.len() as int).filter(keep),
        decreases i,
    {
        let ghost rest = orig.subrange(i as int, orig.len() as int);
        let ghost next_rest = orig.subrange(i - 1, orig.len() as int);
        assert(next_rest =~= seq![orig[i - 1]] + rest);
        proof {
            rest.lemma_filter_prepend(orig[i - 1], keep);
        }
        assert(servers@[i - 1] == orig[i - 1]);
        if str_eq(servers[i - 1].name.as_str(), name) {
            servers.remove(i - 1);
            assert(servers@ =~= orig.subrange(0, i - 1) + next_rest.filter(keep));
        } else {
            assert(servers@ =~= orig.subrange(0, i - 1) + next_rest.filter(keep));
        }
        i = i - 1;
    }
    assert(orig.subrange(0, 0) + orig.subrange(0, orig.len() as int).filter(keep) =~= orig.filter(keep));
}

/// The key count shown in the status bar: `scanned/total` once the total
/// is known, else `--`.
pub open spec fn size_text(dbsize: Option<u64>, scan_count: usize) -> Seq<char> {
    match dbsize {
        Some(d) => decimal_text(scan_count as nat) + seq!['/'] + decimal_text(d as nat),
        None => "--"@,
    }
}

pub fn format_size(dbsize: Option<u64>, scan_count: usize) -> (r: String)
    ensures
        r@ == size_text(dbsize, scan_count),
{
    proof {
        reveal_strlit("/");
    }
    match dbsize {
        Some(d) => {
            let mut r = String::new();
            push_decimal(&mut r, scan_count as u64);
            r.append("/");
            push_decimal(&mut r, d);
            assert(r@ =~= size_text(dbsize, scan_count));
            r
        },
        None => String::from_str("--"),
    }
}

/// The node count shown for a cluster: `masters / replicas (vVERSION)`.
pub open spec fn nodes_text(masters: usize, replicas: usize, version: Seq<char>) -> Seq<char> {
    decimal_text(masters as nat) + " / "@ + decimal_text(replicas as nat) + " (v"@ + version + ")"@
}

pub fn format_nodes(masters: usize, replicas: usize, version: &str) -> (r: String)
    ensures
        r@ == nodes_text(masters, replicas, version@),
{
    let mut r = String::new();
    push_decimal(&mut r, masters as u64);
    r.append(" / ");
    push_decimal(&mut r, replicas as u64);
    r.append(" (v");
    r.append(version);
    r.append(")");
    assert(r@ =~= nodes_text(masters, replicas, version@));
    r
}

} // verus!
