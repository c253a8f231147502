use vstd::prelude::*;
use vstd::string::StrSliceExecFns;
use vstd::string::StringExecFns;

use crate::text::{contains_chars, seq_contains};
use crate::textmap::TextMap;
use crate::validate::{decimal_value, is_unsigned_literal, literal_digits, parse_unsigned};

verus! {

/// Idle time after which a cached SSH session is dropped, in seconds.
pub const SESSION_TTL_SECS: u64 = 300;

/// Port of an SSH address that names none, or names one that does not parse.
pub const DEFAULT_SSH_PORT: u16 = 22;

/// The cache key of a session: `user@address`.
pub open spec fn session_key_of(user: Seq<char>, addr: Seq<char>) -> Seq<char> {
    user + seq!['@'] + addr
}

pub fn session_key(user: &str, addr: &str) -> (r: String)
    ensures
        r@ == session_key_of(user@, addr@),
{
    proof {
        reveal_strlit("@");
    }
    let mut r = String::from_str(user);
    r.append("@");
    r.append(addr);
    r
}

/// The position of the first `:` of `s`, or its length when it has none.
pub open spec fn first_colon(s: Seq<char>) -> int
    decreases s.len(),
{
    if s.len() == 0 {
        0
    } else if s[0] == ':' {
        0
    } else {
        1 + first_colon(s.drop_first())
    }
}

proof fn lemma_first_colon(s: Seq<char>, i: int)
    requires
        0 <= i <= s.len(),
        i < s.len() ==> s[i] == ':',
        forall|t: int| 0 <= t < i ==> #[trigger] s[t] != ':',
    ensures
        first_colon(s) == i,
    decreases i,
{
    if i > 0 {
        assert forall|t: int| 0 <= t < i - 1 implies #[trigger] s.drop_first()[t] != ':' by {
            assert(s[t + 1] != ':');
        }
        lemma_first_colon(s.drop_first(), i - 1);
    }
}

/// Host and port of an SSH server.
pub struct SshAddress {
    pub host: String,
    pub port: u16,
}

/// The port that the text after the first `:` names, or the default.
pub open spec fn port_of(s: Seq<char>) -> u16 {
    if is_unsigned_literal(s, 65535) {
        decimal_value(literal_digits(s)) as u16
    } else {
        DEFAULT_SSH_PORT
    }
}

/// Splits `host:port` at the first `:`; without a `:` the whole text is the
/// host. A port that does not parse as a `u16` falls back to the default.
pub fn parse_ssh_addr(addr: &str) -> (r: SshAddress)
    ensures
        ({
            let p = first_colon(addr@);
            &&& r.host@ == addr@.subrange(0, p)
            &&& r.port == (if p < addr@.len() {
                port_of(addr@.subrange(p + 1, addr@.len() as int))
            } else {
                DEFAULT_SSH_PORT
            })
        }),
{
    let n = addr.unicode_len();
    let mut i: usize = 0;
    while i < n && addr.get_char(i) != ':'
        invariant
            n == addr@.len(),
            i <= n,
            forall|t: int| 0 <= t < i ==> #[trigger] addr@[t] != ':',
        decreases n - i,
    {
        i = i + 1;
    }
    proof {
        lemma_first_colon(addr@, i as int);
    }
    let host = String::from_str(addr.substring_char(0, i));
    if i == n {
        return SshAddress { host, port: DEFAULT_SSH_PORT };
    }
    let port = match parse_unsigned(addr.substring_char(i + 1, n), 65535) {
        Some(v) => v as u16,
        None => DEFAULT_SSH_PORT,
    };
    SshAddress { host, port }
}

/// Whether the server's host key is accepted: always when no known-hosts
/// text could be read, else only when the key's text occurs in it.
pub fn host_key_accepted(known_hosts: Option<&str>, key_text: &str) -> (r: bool)
    ensures
        r == match known_hosts {
            None => true,
            Some(t) => seq_contains(t@, key_text@),
        },
{
    match known_hosts {
        None => true,
        Some(t) => contains_chars(t, key_text),
    }
}

/// A way to authenticate an SSH session.
#[derive(Debug, Clone, Copy, PartialEq, Eq, Structural)]
pub enum AuthMethod {
    PublicKey,
    Agent,
    Password,
}

/// Why no SSH session can be opened as configured.
#[derive(Debug, Clone, Copy, PartialEq, Eq, Structural)]
pub enum SshConfigError {
    /// No key, no agent and no password.
    NoCredentials,
    /// The agent offered no identity, or every attempt ended in an error.
    AgentFailed,
}

/// The methods to try, in order, until one succeeds: the configured key,
/// then the agent where there is one, then the password.
pub open spec fn auth_plan_of(key: Seq<char>, password: Seq<char>, agent: bool) -> Seq<AuthMethod> {
    (if key.len() > 0 {
        seq![AuthMethod::PublicKey]
    } else {
        Seq::empty()
    }) + (if agent {
        seq![AuthMethod::Agent]
    } else {
        Seq::empty()
    }) + (if password.len() > 0 {
        seq![AuthMethod::Password]
    } else {
        Seq::empty()
    })
}

pub fn auth_plan(key: &str, password: &str, agent: bool) -> (r: Result<Vec<AuthMethod>, SshConfigError>)
    ensures
        match r {
            Ok(v) => v@ == auth_plan_of(key@, password@, agent) && v@.len() > 0,
            Err(e) => e == SshConfigError::NoCredentials && auth_plan_of(key@, password@, agent).len()
                == 0,
        },
{
    let mut v: Vec<AuthMethod> = Vec::new();
    if key.unicode_len() > 0 {
        v.push(AuthMethod::PublicKey);
    }
    if agent {
        v.push(AuthMethod::Agent);
    }
    if password.unicode_len() > 0 {
        v.push(AuthMethod::Password);
    }
    assert(v@ =~= auth_plan_of(key@, password@, agent));
    if v.len() == 0 {
        Err(SshConfigError::NoCredentials)
    } else {
        Ok(v)
    }
}

/// The reply to one agent identity.
#[derive(Debug, Clone, Copy, PartialEq, Eq, Structural)]
pub enum AgentReply {
    Success,
    Failure,
    Error,
}

/// Whether the signature hash must be negotiated before trying an identity:
/// once, for the first RSA identity.
pub fn needs_hash_negotiation(already_negotiated: bool, is_rsa: bool) -> (r: bool)
    ensures
        r == (!already_negotiated && is_rsa),
{
    !already_negotiated && is_rsa
}

/// What trying the agent's identities in turn comes to: the first success
/// wins; else a failure reply is reported as a failed authentication; with
/// only errors, or no identity, the agent failed.
pub fn agent_outcome(replies: &Vec<AgentReply>) -> (r: Result<bool, SshConfigError>)
    ensures
        replies@.contains(AgentReply::Success) ==> r == Ok::<bool, SshConfigError>(true),
        !replies@.contains(AgentReply::Success) && replies@.contains(AgentReply::Failure) ==> r == Ok::<
            bool,
            SshConfigError,
        >(false),
        !replies@.contains(AgentReply::Success) && !replies@.contains(AgentReply::Failure) ==> r == Err::<
            bool,
            SshConfigError,
        >(SshConfigError::AgentFailed),
{
    let mut failed = false;
    let mut i: usize = 0;
    while i < replies.len()
        invariant
            i <= replies@.len(),
            forall|t: int| 0 <= t < i ==> #[trigger] replies@[t] != AgentReply::Success,
            failed == exists|t: int| 0 <= t < i && #[trigger] replies@[t] == AgentReply::Failure,
        decreases replies@.len() - i,
    {
        match replies[i] {
            AgentReply::Success => {
                assert(replies@[i as int] == AgentReply::Success);
                return Ok(true);
            },
            AgentReply::Failure => {
                failed = true;
                assert(replies@[i as int] == AgentReply::Failure);
            },
            AgentReply::Error => {},
        }
        i = i + 1;
    }
    proof {
        if replies@.contains(AgentReply::Failure) {
            let t = choose|t: int| 0 <= t < replies@.len() && replies@[t] == AgentReply::Failure;
            assert(replies@[t] == AgentReply::Failure);
        }
        if failed {
            let t = choose|t: int| 0 <= t < i && #[trigger] replies@[t] == AgentReply::Failure;
            assert(replies@[t] == AgentReply::Failure);
        }
    }
    if failed {
        Ok(false)
    } else {
        Err(SshConfigError::AgentFailed)
    }
}

/// An entry has been idle for the whole time to live. A clock that went
/// back counts as no idle time.
pub open spec fn expired(last_used: u64, now: u64, ttl: u64) -> bool {
    now >= last_used && now - last_used >= ttl
}

/// What a tunnel request does first.
#[derive(Debug, Clone, Copy, PartialEq, Eq, Structural)]
pub enum SessionStep {
    /// Probe the cached session with this handle for liveness.
    Probe(u64),
    /// Negotiate and authenticate a new session.
    Handshake,
}

/// The first step of a request for `key` at `now` against the cache `m`
/// (handle and last use per key).
pub open spec fn begin_step(m: Map<Seq<char>, (u64, u64)>, key: Seq<char>, now: u64, ttl: u64) -> SessionStep {
    if m.contains_key(key) && !expired(m[key].1, now, ttl) {
        SessionStep::Probe(m[key].0)
    } else {
        SessionStep::Handshake
    }
}

/// The number of handshakes a request makes, given whether a probe of the
/// cached session succeeds.
pub open spec fn handshakes(m: Map<Seq<char>, (u64, u64)>, key: Seq<char>, now: u64, ttl: u64, alive: bool) -> nat {
    match begin_step(m, key, now, ttl) {
        SessionStep::Probe(_) => if alive {
            0
        } else {
            1
        },
        SessionStep::Handshake => 1,
    }
}

/// The cache after a request for `key` at `now` that ended with session
/// `handle`: a reused session is kept with its last use moved to `now`; a new one
/// replaces whatever was held.
pub open spec fn after_request(
    m: Map<Seq<char>, (u64, u64)>,
    key: Seq<char>,
    now: u64,
    ttl: u64,
    alive: bool,
    new_handle: u64,
) -> Map<Seq<char>, (u64, u64)> {
    if handshakes(m, key, now, ttl, alive) == 0 {
        m.insert(key, (m[key].0, now))
    } else {
        m.insert(key, (new_handle, now))
    }
}

/// Two requests in a row for the same `user@address`: when the session of
/// the first is still alive at the second, within the time to live, the
/// second makes no handshake; when it is dead, the second makes exactly one
/// and its new session replaces the cached one.
pub proof fn lemma_session_reuse(
    m: Map<Seq<char>, (u64, u64)>,
    key: Seq<char>,
    first: u64,
    second: u64,
    ttl: u64,
    alive_first: bool,
    alive_second: bool,
    handle_first: u64,
    handle_second: u64,
)
    requires
        first <= second,
        second - first < ttl,
        handshakes(m, key, first, ttl, alive_first) == 1,
    ensures
        ({
            let m1 = after_request(m, key, first, ttl, alive_first, handle_first);
            &&& begin_step(m1, key, second, ttl) == SessionStep::Probe(handle_first)
            &&& alive_second ==> handshakes(m1, key, second, ttl, alive_second) == 0
            &&& !alive_second ==> handshakes(m1, key, second, ttl, alive_second) == 1
            &&& !alive_second ==> after_request(
                m1,
                key,
                second,
                ttl,
                alive_second,
                handle_second,
            )[key] == (handle_second, second)
        }),
{
}

/// The SSH sessions kept for reuse, by `user@address`: a handle for each
/// and the time of its last use.
pub struct SessionCache {
    sessions: TextMap<(u64, u64)>,
    ttl: u64,
    next_handle: u64,
}

impl SessionCache {
    pub closed spec fn view(&self) -> Map<Seq<char>, (u64, u64)> {
        self.sessions.view()
    }

    pub closed spec fn spec_ttl(&self) -> u64 {
        self.ttl
    }

    /// The next handle number to give out.
    pub closed spec fn spec_next(&self) -> u64 {
        self.next_handle
    }

    /// Every cached handle is below the next one to give out.
    pub closed spec fn wf(&self) -> bool {
        &&& self.sessions.wf()
        &&& forall|k: Seq<char>| #[trigger]
            self.sessions.view().contains_key(k) ==> self.sessions.view()[k].0 < self.next_handle
    }

    /// An empty cache whose entries live `ttl` seconds after their last use.
    pub fn new(ttl: u64) -> (r: SessionCache)
        ensures
            r.wf(),
            r.view() == Map::<Seq<char>, (u64, u64)>::empty(),
            r.spec_ttl() == ttl,
    {
        SessionCache { sessions: TextMap::new(), ttl, next_handle: 0 }
    }

    /// The first step of a request for `key` at `now`. An expired entry is
    /// dropped on the way.
    pub fn begin(&mut self, key: &str, now: u64) -> (r: SessionStep)
        requires
            old(self).wf(),
        ensures
            final(self).wf(),
            final(self).spec_ttl() == old(self).spec_ttl(),
            r == begin_step(old(self).view(), key@, now, old(self).spec_ttl()),
            r is Probe ==> final(self).view() == old(self).view(),
            r is Handshake ==> final(self).view() == old(self).view().remove(key@),
    {
        match self.sessions.get(key) {
            Some((handle, last)) => {
                if now >= last && now - last >= self.ttl {
                    self.sessions.remove(key);
                    SessionStep::Handshake
                } else {
                    SessionStep::Probe(handle)
                }
            },
            None => {
                proof {
                    assert(self.view().remove(key@) =~= self.view());
                }
                SessionStep::Handshake
            },
        }
    }

    /// Records the outcome of the liveness probe of the session cached for
    /// `key`: a live one is reused and its last use moves to `now`; a dead one
    /// is dropped, and a handshake follows. Returns whether it is reused.
    pub fn finish_probe(&mut self, key: &str, alive: bool, now: u64) -> (reused: bool)
        requires
            old(self).wf(),
        ensures
            final(self).wf(),
            final(self).spec_ttl() == old(self).spec_ttl(),
            reused == (alive && old(self).view().contains_key(key@)),
            reused ==> final(self).view() == old(self).view().insert(
                key@,
                (old(self).view()[key@].0, now),
            ),
            !reused ==> final(self).view() == old(self).view().remove(key@),
    {
        match self.sessions.get(key) {
            Some((handle, _)) => {
                if alive {
                    self.sessions.insert(String::from_str(key), (handle, now));
                    true
                } else {
                    self.sessions.remove(key);
                    false
                }
            },
            None => {
                proof {
                    assert(self.view().remove(key@) =~= self.view());
                }
                false
            },
        }
    }

    /// Caches a session negotiated for `key` at `now`, replacing any session
    /// held for it, and returns the handle number that names it: one never
    /// given out before, so it differs from every cached handle. `None` once
    /// every number has been used.
    pub fn store(&mut self, key: String, now: u64) -> (r: Option<u64>)
        requires
            old(self).wf(),
        ensures
            final(self).wf(),
            final(self).spec_ttl() == old(self).spec_ttl(),
            match r {
                Some(h) => {
                    &&& final(self).view() == old(self).view().insert(key@, (h, now))
                    &&& forall|k: Seq<char>| #[trigger]
                        old(self).view().contains_key(k) ==> old(self).view()[k].0 != h
                },
                None => final(self).view() == old(self).view() && old(self).spec_next() == u64::MAX,
            },
    {
        if self.next_handle == u64::MAX {
            return None;
        }
        let h = self.next_handle;
        self.sessions.insert(key, (h, now));
        self.next_handle = h + 1;
        Some(h)
    }

    /// Whether some cached entry names the session `handle`.
    pub fn holds_handle(&self, handle: u64) -> (r: bool)
        requires
            self.wf(),
        ensures
            r == exists|k: Seq<char>| #[trigger] self.view().contains_key(k) && self.view()[k].0 == handle,
    {
        proof {
            self.sessions.lemma_view();
        }
        let n = self.sessions.len();
        let mut i: usize = 0;
        while i < n
            invariant
                self.wf(),
                n == self.sessions.names().len(),
                forall|k: Seq<char>| #[trigger]
                    self.sessions.view().contains_key(k) <==> self.sessions.names().contains(k),
                i <= n,
                forall|t: int| 0 <= t < i ==> self.sessions.view()[#[trigger] self.sessions.names()[t]].0 != handle,
            decreases n - i,
        {
            let (name, v) = self.sessions.entry(i);
            if v.0 == handle {
                assert(self.view().contains_key(name@));
                return true;
            }
            i = i + 1;
        }
        proof {
            if exists|k: Seq<char>| #[trigger] self.view().contains_key(k) && self.view()[k].0 == handle {
                let k = choose|k: Seq<char>| #[trigger] self.view().contains_key(k) && self.view()[k].0 == handle;
                assert(self.sessions.names().contains(k));
                let t = choose|t: int| 0 <= t < n && self.sessions.names()[t] == k;
                assert(self.sessions.view()[self.sessions.names()[t]].0 != handle);
            }
        }
        false
    }

    /// Drops every session idle for the whole time to live at `now`; returns
    /// how many were dropped and how many remain.
    pub fn clear_expired(&mut self, now: u64) -> (r: (usize, usize))
        requires
            old(self).wf(),
        ensures
            final(self).wf(),
            final(self).spec_ttl() == old(self).spec_ttl(),
            forall|k: Seq<char>| #[trigger]
                final(self).view().contains_key(k) <==> (old(self).view().contains_key(k) && !expired(
                    old(self).view()[k].1,
                    now,
                    old(self).spec_ttl(),
                )),
            forall|k: Seq<char>| #[trigger]
                final(self).view().contains_key(k) ==> final(self).view()[k] == old(self).view()[k],
            r.1 == final(self).view().dom().len(),
            r.0 + r.1 == old(self).view().dom().len(),
    {
        let ghost start = self.sessions.view();
        let ghost names = self.sessions.names();
        proof {
            self.sessions.lemma_view();
        }
        let n = self.sessions.len();
        let mut kept: TextMap<(u64, u64)> = TextMap::new();
        let mut i: usize = 0;
        while i < n
            invariant
                self.sessions.wf(),
                kept.wf(),
                self.sessions.view() == start,
                self.sessions.names() == names,
                names.no_duplicates(),
                n == names.len(),
                forall|k: Seq<char>| #[trigger] start.contains_key(k) <==> names.contains(k),
                i <= n,
                forall|k: Seq<char>| #[trigger]
                    kept.view().contains_key(k) <==> (names.subrange(0, i as int).contains(k)
                        && !expired(start[k].1, now, self.ttl)),
                forall|k: Seq<char>| #[trigger] kept.view().contains_key(k) ==> kept.view()[k] == start[k],
                forall|k: Seq<char>| #[trigger]
                    start.contains_key(k) ==> start[k].0 < self.next_handle,
            decreases n - i,
        {
            let (name, v) = self.sessions.entry(i);
            if !(now >= v.1 && now - v.1 >= self.ttl) {
                kept.insert(name.clone(), v);
            }
            proof {
                assert(names.subrange(0, i + 1) =~= names.subrange(0, i as int).push(names[i as int]));
                assert forall|k: Seq<char>| #[trigger]
                    kept.view().contains_key(k) <==> (names.subrange(0, i + 1).contains(k) && !expired(
                        start[k].1,
                        now,
                        self.ttl,
                    )) by {
                    let lo = names.subrange(0, i as int);
                    let hi = names.subrange(0, i + 1);
                    if hi.contains(k) && k != names[i as int] {
                        let j = choose|j: int| 0 <= j < hi.len() && hi[j] == k;
                        assert(lo[j] == k);
                    }
                    if lo.contains(k) {
                        let j = choose|j: int| 0 <= j < lo.len() && lo[j] == k;
                        assert(hi[j] == k);
                    }
                    assert(hi[i as int] == names[i as int]);
                }
            }
            i = i + 1;
        }
        proof {
            assert(names.subrange(0, n as int) =~= names);
            kept.lemma_view();
            assert(kept.view().dom() =~= start.dom().filter(
                |k: Seq<char>| !expired(start[k].1, now, self.ttl),
            ));
            assert(kept.view().dom().subset_of(start.dom()));
            vstd::set_lib::lemma_len_subset(kept.view().dom(), start.dom());
        }
        let remaining = kept.len();
        self.sessions = kept;
        (n - remaining, remaining)
    }
}

/// The client side of one SSH connection: the server it talks to, and its
/// host-key policy.
pub struct ClientHandler {
    pub host: String,
    pub port: u16,
}

impl ClientHandler {
    /// Whether the server's host key, in its text form, is accepted against
    /// the known-hosts text (none when there is no such file).
    pub fn check_server_key(&self, known_hosts: Option<&str>, key_text: &str) -> (r: bool)
        ensures
            r == match known_hosts {
                None => true,
                Some(t) => seq_contains(t@, key_text@),
            },
    {
        host_key_accepted(known_hosts, key_text)
    }
}

/// The periodic sweep of the session cache: drops the sessions idle for the
/// whole time to live at `now`; returns how many were dropped and how many
/// remain.
pub fn clear_expired_ssh_sessions(cache: &mut SessionCache, now: u64) -> (r: (usize, usize))
    requires
        old(cache).wf(),
    ensures
        final(cache).wf(),
        final(cache).spec_ttl() == old(cache).spec_ttl(),
        forall|k: Seq<char>| #[trigger]
            final(cache).view().contains_key(k) <==> (old(cache).view().contains_key(k) && !expired(
                old(cache).view()[k].1,
                now,
                old(cache).spec_ttl(),
            )),
        forall|k: Seq<char>| #[trigger]
            final(cache).view().contains_key(k) ==> final(cache).view()[k] == old(cache).view()[k],
        r.1 == final(cache).view().dom().len(),
        r.0 + r.1 == old(cache).view().dom().len(),
{
    cache.clear_expired(now)
}

} // verus!
