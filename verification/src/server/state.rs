//! Server-wide and per-connection state.

use dashmap::DashMap;
use vstd::prelude::*;
use vstd::set_lib::{
    lemma_int_range, lemma_len_subset, lemma_set_subset_finite, set_int_range,
};

use crate::clock::{is_reading, system_millis, Clock};
use crate::proto::crypto::{self, fresh, hex_spec, AUTH_WINDOW};
use crate::proto::mux::OpenError;
use crate::server::dns::DnsCache;
use crate::server::limit::UnauthGate;
use crate::tables::{sids, sids_contains, sids_insert, sids_new, sids_remove};
use crate::text;

verus! {

/// Upper bound for the replay-nonce cache; expired entries are purged on every
/// addition (instead of clearing the whole table, which would open a replay
/// window for captured auth frames).
pub const NONCE_CAP: usize = 50_000;

// ---------------------------------------------------------------------------
// Time
// ---------------------------------------------------------------------------
/// A reading of the system clock as a count of 64 bits; 0 before the epoch.
pub open spec fn millis_spec(reading: Option<u128>) -> i64 {
    match reading {
        Some(m) => m as i64,
        None => 0,
    }
}

/// Milliseconds since the Unix epoch for a reading of the system clock.
pub fn millis_of(reading: Option<u128>) -> (r: i64)
    ensures
        r == millis_spec(reading),
{
    match reading {
        Some(m) => #[verifier::truncate] (m as i64),
        None => 0,
    }
}

/// Milliseconds since the Unix epoch by the system clock; 0 before it.
pub fn now_millis() -> (r: i64)
    ensures
        exists|m: Option<u128>| r == #[trigger] millis_spec(m),
{
    let m = system_millis();
    millis_of(m)
}

/// Milliseconds from `last` to `now`, as far as 63 bits count them. A clock
/// that was set back reads as no time at all.
pub open spec fn idle_spec(now: i64, last: i64) -> u64 {
    if now < last {
        0
    } else if now - last > i64::MAX {
        i64::MAX as u64
    } else {
        (now - last) as u64
    }
}

pub fn idle_millis(now: i64, last: i64) -> (r: u64)
    ensures
        r == idle_spec(now, last),
{
    let wide: i128 = now as i128 - last as i128;
    if wide < 0 {
        0
    } else if wide > 0x7fff_ffff_ffff_ffff {
        0x7fff_ffff_ffff_ffff
    } else {
        wide as u64
    }
}

/// The idle time grows with the clock, millisecond by millisecond, from the last
/// activity on, where it is nothing; it is nothing too while the clock stands
/// before that.
pub proof fn law_idle_time_counts_milliseconds(now: i64, last: i64)
    ensures
        last <= now && now - last <= i64::MAX ==> last + idle_spec(now, last) == now,
        now <= last ==> idle_spec(now, last) == 0,
        now - last > i64::MAX ==> idle_spec(now, last) == 0x7fff_ffff_ffff_ffff,
{
}

/// A reading of the system clock is taken over as it is, and counts from the
/// epoch where there is none.
pub proof fn law_readings_are_milliseconds(m: u128)
    requires
        m <= i64::MAX,
    ensures
        millis_spec(Some(m)) == m,
        millis_spec(None) == 0,
{
}

/// `idle` milliseconds are more than `factor` times `secs` seconds.
pub open spec fn longer_than(idle: u64, secs: u64, factor: nat) -> bool {
    idle > secs * 1000 * factor
}

// ---------------------------------------------------------------------------
// Sessions of one connection
// ---------------------------------------------------------------------------
/// Liveness of a registered session.
#[derive(Clone, Copy, Debug, PartialEq, Eq, Structural)]
pub struct SessionHandle {
    pub last_active: i64,
}

impl SessionHandle {
    pub fn started(now: i64) -> (r: Self)
        ensures
            r.last_active == now,
    {
        SessionHandle { last_active: now }
    }

    pub fn touch(&mut self, now: i64)
        ensures
            final(self).last_active == now,
    {
        self.last_active = now;
    }

    pub fn idle_for(&self, now: i64) -> (r: u64)
        ensures
            r == idle_spec(now, self.last_active),
    {
        idle_millis(now, self.last_active)
    }
}

/// The registered sessions of a connection.
pub uninterp spec fn session_table(m: DashMap<u32, SessionHandle>) -> Map<u32, SessionHandle>;

/// `DashMap::new`: no entry.
#[verifier::external_body]
fn sessions_new() -> (r: DashMap<u32, SessionHandle>)
    ensures
        session_table(r).dom() == Set::<u32>::empty(),
{
    DashMap::new()
}

/// `DashMap::get`: the handle under the id, when there is one.
#[verifier::external_body]
fn sessions_get(m: &DashMap<u32, SessionHandle>, sid: u32) -> (r: Option<SessionHandle>)
    ensures
        r == if session_table(*m).contains_key(sid) {
            Some(session_table(*m)[sid])
        } else {
            None
        },
{
    m.get(&sid).map(|e| *e.value())
}

/// `DashMap::insert`: the handle stands under the id afterwards, and the other
/// entries stay.
#[verifier::external_body]
fn sessions_insert(m: &mut DashMap<u32, SessionHandle>, sid: u32, h: SessionHandle)
    ensures
        session_table(*final(m)) == session_table(*old(m)).insert(sid, h),
{
    m.insert(sid, h);
}

/// `DashMap::remove`: there is no entry under the id afterwards, and the other
/// entries stay; the result says whether there was one.
#[verifier::external_body]
fn sessions_remove(m: &mut DashMap<u32, SessionHandle>, sid: u32) -> (r: bool)
    ensures
        r == session_table(*old(m)).contains_key(sid),
        session_table(*final(m)) == session_table(*old(m)).remove(sid),
{
    m.remove(&sid).is_some()
}

/// `DashMap::len`: the number of entries.
#[verifier::external_body]
fn sessions_len(m: &DashMap<u32, SessionHandle>) -> (r: usize)
    ensures
        r == session_table(*m).dom().len(),
{
    m.len()
}

/// `DashMap::iter`: every id once, in no particular order.
#[verifier::external_body]
fn sessions_sids(m: &DashMap<u32, SessionHandle>) -> (r: Vec<u32>)
    ensures
        r@.no_duplicates(),
        forall|s: u32| #[trigger] r@.contains(s) <==> session_table(*m).contains_key(s),
{
    m.iter().map(|e| *e.key()).collect()
}

/// The content of a connection's state.
#[verifier::ext_equal]
pub ghost struct ConnView {
    pub id: u64,
    pub uid: Seq<char>,
    pub sessions: Map<u32, SessionHandle>,
    pub tcp: Set<u32>,
    pub udp: Set<u32>,
    pub max_per_conn: nat,
    pub last_active: i64,
    pub cancelled: bool,
}

/// A session is registered now.
pub open spec fn registered(c: ConnView, sid: u32, now: i64) -> ConnView {
    ConnView {
        sessions: c.sessions.insert(sid, SessionHandle { last_active: now }),
        last_active: now,
        ..c
    }
}

/// A session and its routes are gone.
pub open spec fn dropped(c: ConnView, sid: u32) -> ConnView {
    ConnView {
        sessions: c.sessions.remove(sid),
        tcp: c.tcp.remove(sid),
        udp: c.udp.remove(sid),
        ..c
    }
}

/// The connection, and the session when it is registered, were active now.
pub open spec fn touched(c: ConnView, sid: u32, now: i64) -> ConnView {
    ConnView {
        sessions: if c.sessions.contains_key(sid) {
            c.sessions.insert(sid, SessionHandle { last_active: now })
        } else {
            c.sessions
        },
        last_active: now,
        ..c
    }
}

/// A request to register a session: its handle, and the connection after it. An
/// id that is taken keeps its handle; the request still counts as activity.
pub open spec fn registration(c: ConnView, sid: u32, now: i64) -> (Option<SessionHandle>, ConnView) {
    if c.sessions.contains_key(sid) {
        (None, ConnView { last_active: now, ..c })
    } else {
        (Some(SessionHandle { last_active: now }), registered(c, sid, now))
    }
}

/// A request to drop a session: whether it was registered, and the connection
/// after it.
pub open spec fn removal(c: ConnView, sid: u32) -> (bool, ConnView) {
    (c.sessions.contains_key(sid), dropped(c, sid))
}

/// How many sessions are registered.
pub open spec fn session_number(c: ConnView) -> nat {
    c.sessions.dom().len()
}

/// Every set of session ids is finite.
proof fn lemma_sids_finite(s: Set<u32>)
    ensures
        s.finite(),
{
    let all = set_int_range(0, 0x1_0000_0000);
    let id = |i: int| i as u32;
    lemma_int_range(0, 0x1_0000_0000);
    all.lemma_map_finite(id);
    assert forall|x: u32| s.contains(x) implies all.map(id).contains(x) by {
        assert(all.contains(x as int));
        assert(id(x as int) == x);
    }
    lemma_set_subset_finite(all.map(id), s);
}

/// A registered session is counted once and stays registered until it is
/// dropped: a second registration is refused, the first removal finds the
/// session and gives the old number back, the second finds nothing.
pub proof fn law_registered_until_dropped(c: ConnView, sid: u32, now: i64, later: i64)
    requires
        !c.sessions.contains_key(sid),
    ensures
        ({
            let (first, a) = registration(c, sid, now);
            let (second, b) = registration(a, sid, later);
            let (found, d) = removal(b, sid);
            let (again, e) = removal(d, sid);
            &&& first == Some(SessionHandle { last_active: now })
            &&& a.sessions == c.sessions.insert(sid, SessionHandle { last_active: now })
            &&& session_number(a) == session_number(c) + 1
            &&& second is None
            &&& b.sessions == a.sessions
            &&& found
            &&& d.sessions == c.sessions
            &&& session_number(d) == session_number(c)
            &&& !again
            &&& e == d
        }),
{
    lemma_sids_finite(c.sessions.dom());
    let (_, a) = registration(c, sid, now);
    let (_, b) = registration(a, sid, later);
    let (_, d) = removal(b, sid);
    let (_, e) = removal(d, sid);
    assert(a.sessions.dom() =~= c.sessions.dom().insert(sid));
    assert(d.sessions =~= c.sessions);
    assert(e.sessions =~= d.sessions);
    assert(e.tcp =~= d.tcp);
    assert(e.udp =~= d.udp);
}

/// Noting activity makes the session's last activity that time, and the
/// connection's; no other session, no route and nothing else of the connection
/// changes.
pub proof fn law_touch_notes_activity(c: ConnView, sid: u32, now: i64, other: u32)
    ensures
        ({
            let d = touched(c, sid, now);
            &&& c.sessions.contains_key(sid) ==> d.sessions.contains_key(sid)
                && d.sessions[sid].last_active == now
            &&& d.last_active == now
            &&& d.sessions.contains_key(other) == c.sessions.contains_key(other)
            &&& other != sid && c.sessions.contains_key(other) ==> d.sessions[other]
                == c.sessions[other]
            &&& d.tcp == c.tcp && d.udp == c.udp && d.id == c.id && d.uid == c.uid
            &&& d.max_per_conn == c.max_per_conn && d.cancelled == c.cancelled
        }),
{
}

/// Registering adds one session, active now, and nothing else; dropping takes
/// one session and its routes away, and nothing else.
pub proof fn law_registering_and_dropping_concern_one_session(
    c: ConnView,
    sid: u32,
    now: i64,
    other: u32,
)
    ensures
        ({
            let a = registered(c, sid, now);
            &&& a.sessions.contains_key(sid) && a.sessions[sid].last_active == now
            &&& a.last_active == now
            &&& other != sid ==> a.sessions.contains_key(other) == c.sessions.contains_key(other)
            &&& other != sid && c.sessions.contains_key(other) ==> a.sessions[other]
                == c.sessions[other]
            &&& a.tcp == c.tcp && a.udp == c.udp && a.id == c.id && a.uid == c.uid
            &&& a.max_per_conn == c.max_per_conn && a.cancelled == c.cancelled
        }),
        ({
            let d = dropped(c, sid);
            &&& !d.sessions.contains_key(sid) && !d.tcp.contains(sid) && !d.udp.contains(sid)
            &&& other != sid ==> d.sessions.contains_key(other) == c.sessions.contains_key(other)
                && d.tcp.contains(other) == c.tcp.contains(other) && d.udp.contains(other)
                == c.udp.contains(other)
            &&& other != sid && c.sessions.contains_key(other) ==> d.sessions[other]
                == c.sessions[other]
            &&& d.last_active == c.last_active && d.id == c.id && d.uid == c.uid
            &&& d.max_per_conn == c.max_per_conn && d.cancelled == c.cancelled
        }),
{
}

/// State for one authenticated remote connection (one user session).
pub struct ConnState {
    pub id: u64,
    pub uid: String,
    pub sessions: DashMap<u32, SessionHandle>,
    /// TCP sessions whose data is routed to a target.
    pub tcp_routes: DashMap<u32, ()>,
    /// UDP sessions with a relay.
    pub udp_routes: DashMap<u32, ()>,
    pub max_per_conn: usize,
    /// Connection-level liveness (any register/touch refreshes it). Keepalive
    /// Pings deliberately do NOT count: idle connections with no sessions are
    /// reaped regardless.
    pub last_active: i64,
    pub cancelled: bool,
}

impl ConnState {
    pub open spec fn view(self) -> ConnView {
        ConnView {
            id: self.id,
            uid: self.uid@,
            sessions: session_table(self.sessions),
            tcp: sids(self.tcp_routes),
            udp: sids(self.udp_routes),
            max_per_conn: self.max_per_conn as nat,
            last_active: self.last_active,
            cancelled: self.cancelled,
        }
    }

    /// A connection without sessions.
    pub fn new(id: u64, uid: String, max_per_conn: usize, now: i64) -> (r: Self)
        ensures
            r.view() == (ConnView {
                id,
                uid: uid@,
                sessions: Map::<u32, SessionHandle>::empty(),
                tcp: Set::<u32>::empty(),
                udp: Set::<u32>::empty(),
                max_per_conn: max_per_conn as nat,
                last_active: now,
                cancelled: false,
            }),
    {
        let sessions = sessions_new();
        assert(session_table(sessions) =~= Map::<u32, SessionHandle>::empty());
        ConnState {
            id,
            uid,
            sessions,
            tcp_routes: sids_new(),
            udp_routes: sids_new(),
            max_per_conn,
            last_active: now,
            cancelled: false,
        }
    }

    /// Register a session under an id that is not taken.
    pub fn register(&mut self, sid: u32, now: i64)
        requires
            !old(self).view().sessions.contains_key(sid),
        ensures
            final(self).view() == registered(old(self).view(), sid, now),
            session_number(final(self).view()) == session_number(old(self).view()) + 1,
    {
        let _ = self.try_register_with(sid, now);
    }

    /// Register a session handle for `sid`. Returns `None` when the sid is
    /// already taken, so callers can release any quota they acquired instead
    /// of silently overwriting (and leaking) the existing handle.
    ///
    /// TCP and UDP sessions both go through this one namespace, so a UDP
    /// associate can never clobber a TCP session's handle.
    pub fn try_register_with(&mut self, sid: u32, now: i64) -> (r: Option<SessionHandle>)
        ensures
            (r, final(self).view()) == registration(old(self).view(), sid, now),
            session_number(final(self).view()) == session_number(old(self).view()) + if r is Some {
                1nat
            } else {
                0
            },
    {
        proof {
            let s = self.view().sessions;
            lemma_sids_finite(s.dom());
            let t = s.insert(sid, SessionHandle { last_active: now });
            assert(t.dom() =~= s.dom().insert(sid));
        }
        self.last_active = now;
        match sessions_get(&self.sessions, sid) {
            Some(_) => None,
            None => {
                let h = SessionHandle::started(now);
                sessions_insert(&mut self.sessions, sid, h);
                Some(h)
            },
        }
    }

    /// Tear down a session. Returns true when a registered session handle was
    /// removed — exactly once per acquired global quota, so callers can
    /// release the quota precisely on `true`.
    pub fn drop_session(&mut self, sid: u32) -> (r: bool)
        ensures
            (r, final(self).view()) == removal(old(self).view(), sid),
            session_number(final(self).view()) == session_number(old(self).view()) - if r {
                1int
            } else {
                0
            },
    {
        proof {
            let s = self.view().sessions;
            lemma_sids_finite(s.dom());
            assert(s.remove(sid).dom() =~= s.dom().remove(sid));
        }
        sids_remove(&mut self.tcp_routes, sid);
        sids_remove(&mut self.udp_routes, sid);
        sessions_remove(&mut self.sessions, sid)
    }

    pub fn touch(&mut self, sid: u32, now: i64)
        ensures
            final(self).view() == touched(old(self).view(), sid, now),
    {
        self.last_active = now;
        if let Some(h) = sessions_get(&self.sessions, sid) {
            let mut h = h;
            h.touch(now);
            sessions_insert(&mut self.sessions, sid, h);
        }
    }

    /// Connection-level idle time in milliseconds (any register/touch resets
    /// it).
    pub fn idle_for(&self, now: i64) -> (r: u64)
        ensures
            r == idle_spec(now, self.view().last_active),
    {
        idle_millis(now, self.last_active)
    }

    pub fn session_count(&self) -> (r: usize)
        ensures
            r == self.view().sessions.dom().len(),
            r == 0 <==> self.view().sessions.dom() == Set::<u32>::empty(),
    {
        proof {
            let s = self.view().sessions.dom();
            lemma_sids_finite(s);
            if s.len() == 0 {
                s.lemma_len0_is_empty();
            }
        }
        sessions_len(&self.sessions)
    }

    /// Route the data of a TCP session to its target.
    pub fn add_tcp_route(&mut self, sid: u32)
        ensures
            final(self).view() == (ConnView {
                tcp: old(self).view().tcp.insert(sid),
                ..old(self).view()
            }),
    {
        sids_insert(&mut self.tcp_routes, sid);
    }

    /// Give a UDP session a relay.
    pub fn add_udp_route(&mut self, sid: u32)
        ensures
            final(self).view() == (ConnView {
                udp: old(self).view().udp.insert(sid),
                ..old(self).view()
            }),
    {
        sids_insert(&mut self.udp_routes, sid);
    }

    /// The sessions idle for longer than `idle_secs`.
    pub fn expired(&self, idle_secs: u64, now: i64) -> (r: Vec<u32>)
        ensures
            r@.no_duplicates(),
            forall|s: u32| #[trigger]
                r@.contains(s) <==> session_expired(self.view(), s, idle_secs, now),
    {
        let all = sessions_sids(&self.sessions);
        let mut out: Vec<u32> = Vec::new();
        let mut i: usize = 0;
        while i < all.len()
            invariant
                i <= all.len(),
                all@.no_duplicates(),
                forall|s: u32| #[trigger]
                    all@.contains(s) <==> self.view().sessions.contains_key(s),
                out@.no_duplicates(),
                forall|s: u32| #[trigger]
                    out@.contains(s) <==> all@.take(i as int).contains(s) && session_expired(
                        self.view(),
                        s,
                        idle_secs,
                        now,
                    ),
            decreases all.len() - i,
        {
            let sid = all[i];
            let ghost before = out@;
            assert(all@.contains(sid));
            assert(all@.take(i + 1) =~= all@.take(i as int).push(sid));
            assert(!all@.take(i as int).contains(sid));
            if let Some(h) = sessions_get(&self.sessions, sid) {
                if h.idle_for(now) as u128 > idle_secs as u128 * 1000 {
                    assert(!before.contains(sid));
                    out.push(sid);
                    assert(session_expired(self.view(), sid, idle_secs, now));
                }
            }
            proof {
                let wanted = session_expired(self.view(), sid, idle_secs, now);
                assert forall|s: u32| #[trigger]
                    out@.contains(s) <==> all@.take(i + 1).contains(s) && session_expired(
                        self.view(),
                        s,
                        idle_secs,
                        now,
                    ) by {
                    lemma_push_contains(all@.take(i as int), sid, s);
                    if wanted {
                        lemma_push_contains(before, sid, s);
                    }
                }
            }
            i += 1;
        }
        assert(all@.take(i as int) =~= all@);
        out
    }
}

proof fn lemma_push_contains<T>(s: Seq<T>, a: T, x: T)
    ensures
        s.push(a).contains(x) <==> s.contains(x) || x == a,
{
    let t = s.push(a);
    if s.contains(x) {
        let i = choose|i: int| 0 <= i < s.len() && s[i] == x;
        assert(t[i] == x);
    }
    if x == a {
        assert(t[s.len() as int] == x);
    }
    if t.contains(x) && x != a {
        let i = choose|i: int| 0 <= i < t.len() && t[i] == x;
        assert(s[i] == x);
    }
}

/// A registered session is idle for longer than `idle_secs`.
pub open spec fn session_expired(c: ConnView, sid: u32, idle_secs: u64, now: i64) -> bool {
    c.sessions.contains_key(sid) && longer_than(
        idle_spec(now, c.sessions[sid].last_active),
        idle_secs,
        1,
    )
}

// ---------------------------------------------------------------------------
// Replay cache
// ---------------------------------------------------------------------------
/// The authentication material seen so far, with its time.
pub uninterp spec fn nonce_table(m: DashMap<String, u64>) -> Map<Seq<char>, u64>;

/// `DashMap::new`: no entry.
#[verifier::external_body]
pub(crate) fn nonces_new() -> (r: DashMap<String, u64>)
    ensures
        nonce_table(r).dom() == Set::<Seq<char>>::empty(),
{
    DashMap::new()
}

/// `DashMap::contains_key`: whether there is an entry under the text.
#[verifier::external_body]
fn nonces_contains(m: &DashMap<String, u64>, key: &str) -> (r: bool)
    ensures
        r == nonce_table(*m).contains_key(key@),
{
    m.contains_key(key)
}

/// `DashMap::insert`: the time stands under the text afterwards, and the other
/// entries stay.
#[verifier::external_body]
fn nonces_insert(m: &mut DashMap<String, u64>, key: String, ts: u64)
    ensures
        nonce_table(*final(m)) == nonce_table(*old(m)).insert(key@, ts),
{
    m.insert(key, ts);
}

/// `DashMap::retain`: the entries later than `cutoff` stay, the others go.
#[verifier::external_body]
fn nonces_retain(m: &mut DashMap<String, u64>, cutoff: u64)
    ensures
        nonce_table(*final(m)) == purged(nonce_table(*old(m)), cutoff),
{
    m.retain(|_, ts| is_later(*ts, cutoff))
}

/// `DashMap::len`: the number of entries.
#[verifier::external_body]
fn nonces_len(m: &DashMap<String, u64>) -> (r: usize)
    ensures
        r == nonce_table(*m).dom().len(),
{
    m.len()
}

fn is_later(ts: u64, cutoff: u64) -> (r: bool)
    ensures
        r == (ts > cutoff),
{
    ts > cutoff
}

/// The entries later than `cutoff`.
pub open spec fn purged(m: Map<Seq<char>, u64>, cutoff: u64) -> Map<Seq<char>, u64> {
    Map::new(|k: Seq<char>| m.contains_key(k) && m[k] > cutoff, |k: Seq<char>| m[k])
}

/// Material of this age or older is no longer kept: twice the time window.
pub open spec fn nonce_cutoff(now: u64) -> u64 {
    if now < 2 * AUTH_WINDOW {
        0
    } else {
        (now - 2 * AUTH_WINDOW) as u64
    }
}

/// The text under which a nonce is remembered.
pub open spec fn nonce_key(uid: Seq<char>, nonce: Seq<u8>, ts: u64) -> Seq<char> {
    uid + "|"@ + text::decimal(ts as nat) + "|"@ + hex_spec(nonce)
}

/// One check of a nonce at `now`: whether it is accepted, and the cache after.
/// Known material is refused; otherwise the cache is purged and, unless it is
/// full, the material is remembered.
pub open spec fn nonce_step(m: Map<Seq<char>, u64>, key: Seq<char>, ts: u64, now: u64) -> (
    bool,
    Map<Seq<char>, u64>,
) {
    let p = purged(m, nonce_cutoff(now));
    if m.contains_key(key) {
        (false, m)
    } else if p.dom().len() >= NONCE_CAP {
        (false, p)
    } else {
        (true, p.insert(key, ts))
    }
}

/// What a check decides. Material that the cache knows is refused. Anything
/// else is accepted, and remembered under its time, exactly when fewer than
/// 50000 entries are younger than two minutes; those entries stay, and older
/// ones go.
pub proof fn law_new_nonce_is_accepted(
    m: Map<Seq<char>, u64>,
    key: Seq<char>,
    ts: u64,
    now: u64,
    other: Seq<char>,
)
    requires
        m.dom().finite(),
    ensures
        ({
            let (ok, after) = nonce_step(m, key, ts, now);
            let young = m.dom().filter(|k: Seq<char>| m[k] > 0 && m[k] + 120 > now);
            &&& m.contains_key(key) ==> !ok && after == m
            &&& !m.contains_key(key) ==> (ok <==> young.len() < 50_000)
            &&& !m.contains_key(key) && m.dom().len() < 50_000 ==> ok
            &&& ok ==> after.contains_key(key) && after[key] == ts
            &&& !m.contains_key(key) && other != key ==> (after.contains_key(other)
                <==> m.contains_key(other) && m[other] > 0 && m[other] + 120 > now)
            &&& after.contains_key(other) && other != key ==> after[other] == m[other]
        }),
{
    let p = purged(m, nonce_cutoff(now));
    let young = m.dom().filter(|k: Seq<char>| m[k] > 0 && m[k] + 120 > now);
    assert(p.dom() =~= young);
    assert(young.subset_of(m.dom()));
    lemma_len_subset(young, m.dom());
}

/// Several logins of one user at one time are all accepted: a different nonce is
/// different material, whatever was accepted just before.
pub proof fn law_next_login_is_accepted(
    m: Map<Seq<char>, u64>,
    uid: Seq<char>,
    first: Seq<u8>,
    second: Seq<u8>,
    ts: u64,
    now: u64,
)
    requires
        m.dom().finite(),
        m.dom().len() < 49_999,
        first != second,
        !m.contains_key(nonce_key(uid, first, ts)),
        !m.contains_key(nonce_key(uid, second, ts)),
    ensures
        ({
            let (ok, after) = nonce_step(m, nonce_key(uid, first, ts), ts, now);
            ok && nonce_step(after, nonce_key(uid, second, ts), ts, now).0
        }),
{
    let k1 = nonce_key(uid, first, ts);
    let k2 = nonce_key(uid, second, ts);
    if k1 == k2 {
        law_nonce_key_injective(uid, first, ts, uid, second, ts);
    }
    law_new_nonce_is_accepted(m, k1, ts, now, k2);
    let after = nonce_step(m, k1, ts, now).1;
    let p = purged(m, nonce_cutoff(now));
    assert(p.dom().subset_of(m.dom()));
    lemma_len_subset(p.dom(), m.dom());
    assert(after.dom() =~= p.dom().insert(k1));
    law_new_nonce_is_accepted(after, k2, ts, now, k1);
}

/// The replay cache never holds more than its upper bound.
pub proof fn law_nonce_cache_is_bounded(
    m: Map<Seq<char>, u64>,
    key: Seq<char>,
    ts: u64,
    now: u64,
)
    requires
        m.dom().finite(),
        m.dom().len() <= NONCE_CAP,
    ensures
        nonce_step(m, key, ts, now).1.dom().finite(),
        nonce_step(m, key, ts, now).1.dom().len() <= NONCE_CAP,
{
    let p = purged(m, nonce_cutoff(now));
    assert(p.dom().subset_of(m.dom()));
    lemma_len_subset(p.dom(), m.dom());
    assert(p.insert(key, ts).dom() =~= p.dom().insert(key));
}

/// A nonce is remembered under its own user, time and bytes: two nonces share
/// an entry only when all three agree.
pub proof fn law_nonce_key_injective(
    uid1: Seq<char>,
    nonce1: Seq<u8>,
    ts1: u64,
    uid2: Seq<char>,
    nonce2: Seq<u8>,
    ts2: u64,
)
    requires
        nonce_key(uid1, nonce1, ts1) == nonce_key(uid2, nonce2, ts2),
    ensures
        uid1 == uid2,
        nonce1 == nonce2,
        ts1 == ts2,
{
    let a1 = uid1 + "|"@ + text::decimal(ts1 as nat);
    let a2 = uid2 + "|"@ + text::decimal(ts2 as nat);
    lemma_hex_has_no_bar(nonce1);
    lemma_hex_has_no_bar(nonce2);
    lemma_last_part(a1, hex_spec(nonce1));
    lemma_last_part(a2, hex_spec(nonce2));
    lemma_decimal_has_no_bar(ts1);
    lemma_decimal_has_no_bar(ts2);
    lemma_last_part(uid1, text::decimal(ts1 as nat));
    lemma_last_part(uid2, text::decimal(ts2 as nat));
    crypto::law_hex_roundtrip(nonce1);
    crypto::law_hex_roundtrip(nonce2);
    text::lemma_decimal(ts1 as nat);
    text::lemma_decimal(ts2 as nat);
}

proof fn lemma_hex_has_no_bar(b: Seq<u8>)
    ensures
        !hex_spec(b).contains('|'),
{
    crypto::law_hex_roundtrip(b);
    assert(crypto::all_hex(hex_spec(b)));
    assert forall|i: int| 0 <= i < hex_spec(b).len() implies hex_spec(b)[i] != '|' by {
        assert(crypto::hex_value(hex_spec(b)[i]) is Some);
    }
}

proof fn lemma_decimal_has_no_bar(n: u64)
    ensures
        !text::decimal(n as nat).contains('|'),
{
    text::lemma_decimal(n as nat);
    let d = text::decimal(n as nat);
    assert forall|i: int| 0 <= i < d.len() implies d[i] != '|' by {
        assert(text::is_digit(d[i]));
    }
}

/// Where the last bar of `a|b` stands, and what lies on its two sides.
proof fn lemma_last_part(a: Seq<char>, b: Seq<char>)
    requires
        !b.contains('|'),
    ensures
        text::rfind(a + "|"@ + b, '|') == a.len(),
        (a + "|"@ + b).take(a.len() as int) == a,
        (a + "|"@ + b).skip(a.len() as int + 1) == b,
{
    reveal_strlit("|");
    let s = a + "|"@ + b;
    let n = a.len() as int;
    assert(s[n] == '|');
    assert forall|j: int| n < j < s.len() implies s[j] != '|' by {
        assert(s[j] == b[j - n - 1]);
        assert(b.contains(b[j - n - 1]));
    }
    text::lemma_rfind_is(s, '|', n);
    assert(s.take(n) =~= a);
    assert(s.skip(n + 1) =~= b);
}

/// The same authentication material is accepted at most once while it is
/// fresh: in a run of checks under a clock that does not go back, when the
/// `i`-th check accepted a nonce and a later one is of the same nonce and its
/// time is still within the window, the later one is refused. (Material dated
/// at the epoch itself is not kept in the first two minutes after it.)
pub proof fn law_nonce_accepted_once(
    m: Seq<Map<Seq<char>, u64>>,
    keys: Seq<Seq<char>>,
    ts: Seq<u64>,
    now: Seq<u64>,
    ok: Seq<bool>,
    i: int,
    j: int,
)
    requires
        m.len() == keys.len() + 1,
        ts.len() == keys.len(),
        now.len() == keys.len(),
        ok.len() == keys.len(),
        forall|k: int|
            0 <= k < keys.len() ==> (ok[k], m[k + 1]) == nonce_step(
                #[trigger] m[k],
                keys[k],
                ts[k],
                now[k],
            ),
        forall|a: int, b: int| 0 <= a <= b < now.len() ==> now[a] <= now[b],
        0 <= i < j < keys.len(),
        keys[i] == keys[j],
        ts[i] == ts[j],
        ts[i] > 0,
        ok[i],
        fresh(now[j], ts[j], AUTH_WINDOW),
    ensures
        !ok[j],
{
    assert((ok[i], m[i + 1]) == nonce_step(m[i], keys[i], ts[i], now[i]));
    lemma_nonce_stays(m, keys, ts, now, ok, keys[i], ts[i], i + 1, j);
    assert((ok[j], m[j + 1]) == nonce_step(m[j], keys[j], ts[j], now[j]));
}

proof fn lemma_nonce_stays(
    m: Seq<Map<Seq<char>, u64>>,
    keys: Seq<Seq<char>>,
    ts: Seq<u64>,
    now: Seq<u64>,
    ok: Seq<bool>,
    key: Seq<char>,
    t: u64,
    from: int,
    to: int,
)
    requires
        m.len() == keys.len() + 1,
        ts.len() == keys.len(),
        now.len() == keys.len(),
        ok.len() == keys.len(),
        forall|k: int|
            0 <= k < keys.len() ==> (ok[k], m[k + 1]) == nonce_step(
                #[trigger] m[k],
                keys[k],
                ts[k],
                now[k],
            ),
        forall|a: int, b: int| 0 <= a <= b < now.len() ==> now[a] <= now[b],
        0 <= from <= to < keys.len(),
        m[from].contains_key(key),
        m[from][key] == t,
        t > 0,
        fresh(now[to], t, AUTH_WINDOW),
    ensures
        m[to].contains_key(key),
    decreases to - from,
{
    if from < to {
        assert((ok[from], m[from + 1]) == nonce_step(m[from], keys[from], ts[from], now[from]));
        assert(now[from] <= now[to]);
        assert(t > nonce_cutoff(now[from]));
        lemma_nonce_stays(m, keys, ts, now, ok, key, t, from + 1, to);
    }
}

// ---------------------------------------------------------------------------
// Connections
// ---------------------------------------------------------------------------
/// The connections, by their number.
pub uninterp spec fn conn_table(m: DashMap<u64, ConnState>) -> Map<u64, ConnState>;

/// `DashMap::new`: no entry.
#[verifier::external_body]
pub(crate) fn conns_new() -> (r: DashMap<u64, ConnState>)
    ensures
        conn_table(r).dom() == Set::<u64>::empty(),
{
    DashMap::new()
}

/// `DashMap::remove`: the entry under the number is taken out, and the other
/// entries stay.
#[verifier::external_body]
fn conns_take(m: &mut DashMap<u64, ConnState>, id: u64) -> (r: Option<ConnState>)
    ensures
        r == if conn_table(*old(m)).contains_key(id) {
            Some(conn_table(*old(m))[id])
        } else {
            None
        },
        conn_table(*final(m)) == conn_table(*old(m)).remove(id),
{
    m.remove(&id).map(|e| e.1)
}

/// `DashMap::insert`: the connection stands under the number afterwards, and
/// the other entries stay.
#[verifier::external_body]
fn conns_put(m: &mut DashMap<u64, ConnState>, id: u64, c: ConnState)
    ensures
        conn_table(*final(m)) == conn_table(*old(m)).insert(id, c),
{
    m.insert(id, c);
}

/// `DashMap::len`: the number of entries.
#[verifier::external_body]
fn conns_len(m: &DashMap<u64, ConnState>) -> (r: usize)
    ensures
        r == conn_table(*m).dom().len(),
{
    m.len()
}

/// `DashMap::iter`: every number once, in no particular order.
#[verifier::external_body]
fn conns_ids(m: &DashMap<u64, ConnState>) -> (r: Vec<u64>)
    ensures
        r@.no_duplicates(),
        forall|i: u64| #[trigger] r@.contains(i) <==> conn_table(*m).contains_key(i),
{
    m.iter().map(|e| *e.key()).collect()
}

/// The sessions that run, as pairs of connection and session id.
pub open spec fn live(t: Map<u64, ConnView>) -> Set<(u64, u32)> {
    Set::new(|p: (u64, u32)| t.contains_key(p.0) && t[p.0].sessions.contains_key(p.1))
}

/// Several sessions and their routes are gone.
pub open spec fn dropped_all(c: ConnView, gone: Set<u32>) -> ConnView {
    ConnView {
        sessions: c.sessions.remove_keys(gone),
        tcp: c.tcp.difference(gone),
        udp: c.udp.difference(gone),
        ..c
    }
}

/// The sessions idle for longer than `idle_secs`.
pub open spec fn expired_sids(c: ConnView, idle_secs: u64, now: i64) -> Set<u32> {
    Set::new(|s: u32| session_expired(c, s, idle_secs, now))
}

/// A connection after its idle sessions were closed.
pub open spec fn reaped(c: ConnView, idle_secs: u64, now: i64) -> ConnView {
    dropped_all(c, expired_sids(c, idle_secs, now))
}

/// A connection with no session left and no activity for three times the
/// session idle time.
pub open spec fn conn_dead(c: ConnView, idle_secs: u64, now: i64) -> bool {
    c.sessions.dom() == Set::<u32>::empty() && longer_than(
        idle_spec(now, c.last_active),
        idle_secs,
        3,
    )
}

/// The connections after reaping.
pub open spec fn reaped_table(t: Map<u64, ConnView>, idle_secs: u64, now: i64) -> Map<
    u64,
    ConnView,
> {
    Map::new(
        |id: u64| t.contains_key(id) && !conn_dead(reaped(t[id], idle_secs, now), idle_secs, now),
        |id: u64| reaped(t[id], idle_secs, now),
    )
}

/// The connections that were not cancelled.
pub open spec fn swept_table(t: Map<u64, ConnView>) -> Map<u64, ConnView> {
    Map::new(|id: u64| t.contains_key(id) && !t[id].cancelled, |id: u64| t[id])
}

/// Whether a TCP session may start: its id must be free and neither the
/// connection nor the server may be full.
pub open spec fn admission(
    t: Map<u64, ConnView>,
    active: nat,
    max_sessions: nat,
    conn: u64,
    sid: u32,
) -> Result<(), OpenError> {
    if !t.contains_key(conn) || t[conn].sessions.contains_key(sid) {
        Err(OpenError::Denied)
    } else if t[conn].sessions.dom().len() >= t[conn].max_per_conn || active >= max_sessions {
        Err(OpenError::Limit)
    } else {
        Ok(())
    }
}

/// Whether a UDP session may start: it must have no relay yet, neither the
/// connection nor the server may be full, and its id must be free.
pub open spec fn udp_admission(
    t: Map<u64, ConnView>,
    active: nat,
    max_sessions: nat,
    conn: u64,
    sid: u32,
) -> Result<(), OpenError> {
    if !t.contains_key(conn) || t[conn].udp.contains(sid) {
        Err(OpenError::Denied)
    } else if t[conn].sessions.dom().len() >= t[conn].max_per_conn || active >= max_sessions {
        Err(OpenError::Limit)
    } else if t[conn].sessions.contains_key(sid) {
        Err(OpenError::Denied)
    } else {
        Ok(())
    }
}

/// A session starts whenever there is room: on a connection that is known, under
/// an id that is free, while neither the connection nor the server carries as
/// many sessions as it may. The refusal names the cap exactly when one is
/// reached for a free id.
pub proof fn law_session_starts_where_there_is_room(
    t: Map<u64, ConnView>,
    active: nat,
    max_sessions: nat,
    conn: u64,
    sid: u32,
)
    ensures
        ({
            let room = session_number(t[conn]) < t[conn].max_per_conn && active < max_sessions;
            let r = admission(t, active, max_sessions, conn, sid);
            let u = udp_admission(t, active, max_sessions, conn, sid);
            let id_free = !t[conn].sessions.contains_key(sid);
            let no_relay = !t[conn].udp.contains(sid);
            &&& r is Ok <==> t.contains_key(conn) && id_free && room
            &&& r == Err::<(), OpenError>(OpenError::Limit) <==> t.contains_key(conn) && id_free
                && !room
            &&& r is Ok || r == Err::<(), OpenError>(OpenError::Limit) || r == Err::<
                (),
                OpenError,
            >(OpenError::Denied)
            &&& u is Ok <==> t.contains_key(conn) && no_relay && id_free && room
            &&& u == Err::<(), OpenError>(OpenError::Limit) <==> t.contains_key(conn) && no_relay
                && !room
            &&& u is Ok || u == Err::<(), OpenError>(OpenError::Limit) || u == Err::<
                (),
                OpenError,
            >(OpenError::Denied)
            &&& no_relay ==> (u is Ok <==> r is Ok)
        }),
{
}

/// There is room for a UDP session, but a TCP session has its id.
pub open spec fn udp_id_taken(
    t: Map<u64, ConnView>,
    active: nat,
    max_sessions: nat,
    conn: u64,
    sid: u32,
) -> bool {
    &&& t.contains_key(conn)
    &&& !t[conn].udp.contains(sid)
    &&& t[conn].sessions.dom().len() < t[conn].max_per_conn
    &&& active < max_sessions
    &&& t[conn].sessions.contains_key(sid)
}

proof fn lemma_live_added(t: Map<u64, ConnView>, id: u64, sid: u32, c: ConnView)
    requires
        t.contains_key(id),
        c.sessions.dom() == t[id].sessions.dom().insert(sid),
    ensures
        live(t.insert(id, c)) == live(t).insert((id, sid)),
{
    assert forall|p: (u64, u32)| #[trigger] live(t.insert(id, c)).contains(p) <==> live(t).insert(
        (id, sid),
    ).contains(p) by {
        if p.0 == id {
            assert(c.sessions.contains_key(p.1) <==> c.sessions.dom().contains(p.1));
        }
    }
    assert(live(t.insert(id, c)) =~= live(t).insert((id, sid)));
}

proof fn lemma_live_removed(t: Map<u64, ConnView>, id: u64, sid: u32, c: ConnView)
    requires
        t.contains_key(id),
        c.sessions.dom() == t[id].sessions.dom().remove(sid),
    ensures
        live(t.insert(id, c)) == live(t).remove((id, sid)),
{
    assert forall|p: (u64, u32)| #[trigger] live(t.insert(id, c)).contains(p) <==> live(t).remove(
        (id, sid),
    ).contains(p) by {
        if p.0 == id {
            assert(c.sessions.contains_key(p.1) <==> c.sessions.dom().contains(p.1));
        }
    }
    assert(live(t.insert(id, c)) =~= live(t).remove((id, sid)));
}

proof fn lemma_live_same(t: Map<u64, ConnView>, id: u64, c: ConnView)
    requires
        t.contains_key(id),
        c.sessions.dom() == t[id].sessions.dom(),
    ensures
        live(t.insert(id, c)) == live(t),
{
    assert forall|p: (u64, u32)| #[trigger] live(t.insert(id, c)).contains(p) <==> live(t).contains(
        p,
    ) by {
        if p.0 == id {
            assert(c.sessions.contains_key(p.1) <==> c.sessions.dom().contains(p.1));
        }
    }
    assert(live(t.insert(id, c)) =~= live(t));
}

proof fn lemma_live_without_empty(t: Map<u64, ConnView>, id: u64)
    requires
        t.contains_key(id) ==> t[id].sessions.dom() == Set::<u32>::empty(),
    ensures
        live(t.remove(id)) == live(t),
{
    assert forall|p: (u64, u32)| #[trigger] live(t.remove(id)).contains(p) <==> live(t).contains(
        p,
    ) by {
        if p.0 == id && t.contains_key(id) {
            assert(!t[id].sessions.dom().contains(p.1));
        }
    }
    assert(live(t.remove(id)) =~= live(t));
}

proof fn lemma_drop_one_more(c: ConnView, gone: Set<u32>, sid: u32)
    ensures
        dropped(dropped_all(c, gone), sid) == dropped_all(c, gone.insert(sid)),
{
    let a = dropped(dropped_all(c, gone), sid);
    let b = dropped_all(c, gone.insert(sid));
    assert(a.sessions =~= b.sessions);
    assert(a.tcp =~= b.tcp);
    assert(a.udp =~= b.udp);
}

/// What happened to the state of the server in one step of the reaper.
#[derive(Debug)]
pub struct ReapReport {
    /// Sessions that were closed, as pairs of connection and session id.
    pub sessions: Vec<(u64, u32)>,
    /// Connections that were removed.
    pub conns: Vec<u64>,
}

/// Global server state.
pub struct ServerState {
    /// The key of every user; no user occurs twice.
    pub static_keys: Vec<(String, [u8; 32])>,
    pub conns: DashMap<u64, ConnState>,
    /// Number of the next connection.
    pub conn_seq: u64,
    pub active_sessions: u64,
    pub max_sessions: usize,
    pub rate_mbps: u64,
    /// Seconds after which an idle session is closed.
    pub idle_secs: u64,
    pub allow_private_targets: bool,
    /// Cap on concurrent connections that have not completed in-band AUTH yet.
    pub unauth: UnauthGate,
    /// Replay-nonce cache; the value is the auth timestamp used for expiry.
    pub seen_nonces: DashMap<String, u64>,
    pub path: String,
    /// The largest frame payload this server takes.
    pub max_plaintext: u32,
    /// Answers of the resolver for UDP targets.
    pub dns: DnsCache,
}

/// The settings, the users, the limiter and the two caches are the same.
pub open spec fn same_rest(a: ServerState, b: ServerState) -> bool {
    &&& a.static_keys == b.static_keys
    &&& a.max_sessions == b.max_sessions
    &&& a.rate_mbps == b.rate_mbps
    &&& a.idle_secs == b.idle_secs
    &&& a.allow_private_targets == b.allow_private_targets
    &&& a.unauth == b.unauth
    &&& a.seen_nonces == b.seen_nonces
    &&& a.path == b.path
    &&& a.max_plaintext == b.max_plaintext
    &&& a.dns == b.dns
}

impl ServerState {
    /// The connections.
    pub open spec fn table(self) -> Map<u64, ConnView> {
        conn_table(self.conns).map_values(|c: ConnState| c.view())
    }

    /// The quota counts exactly the sessions that run, within the cap, and
    /// connections are numbered below the next number.
    pub open spec fn quota_ok(self) -> bool {
        &&& live(self.table()).finite()
        &&& self.active_sessions == live(self.table()).len()
        &&& self.active_sessions <= self.max_sessions
        &&& forall|id: u64| #[trigger] self.table().contains_key(id) ==> id < self.conn_seq
    }

    /// Take a slot of the global session quota, unless all are taken.
    pub fn try_acquire_session(&mut self) -> (r: bool)
        ensures
            r == (old(self).active_sessions < old(self).max_sessions),
            *final(self) == (ServerState {
                active_sessions: if r {
                    (old(self).active_sessions + 1) as u64
                } else {
                    old(self).active_sessions
                },
                ..*old(self)
            }),
    {
        if self.active_sessions >= self.max_sessions as u64 {
            return false;
        }
        self.active_sessions = self.active_sessions + 1;
        true
    }

    /// Give a slot of the global session quota back. There must be one to give
    /// back.
    pub fn release_session(&mut self)
        requires
            old(self).active_sessions > 0,
        ensures
            *final(self) == (ServerState {
                active_sessions: (old(self).active_sessions - 1) as u64,
                ..*old(self)
            }),
    {
        self.active_sessions = self.active_sessions - 1;
    }

    /// Check authentication material at `now` and remember it.
    pub fn check_and_remember_nonce_at(&mut self, uid: &str, nonce: &[u8], ts: u64, now: u64) -> (r:
        bool)
        ensures
            (r, nonce_table(final(self).seen_nonces)) == nonce_step(
                nonce_table(old(self).seen_nonces),
                nonce_key(uid@, nonce@, ts),
                ts,
                now,
            ),
            *final(self) == (ServerState {
                seen_nonces: final(self).seen_nonces,
                ..*old(self)
            }),
    {
        let mut key = text::own(uid);
        key.append("|");
        text::push_decimal(&mut key, ts);
        key.append("|");
        key.append(crypto::hex(nonce).as_str());
        if nonces_contains(&self.seen_nonces, key.as_str()) {
            return false;
        }
        let cutoff: u64 = if now < 2 * AUTH_WINDOW {
            0
        } else {
            now - 2 * AUTH_WINDOW
        };
        nonces_retain(&mut self.seen_nonces, cutoff);
        if nonces_len(&self.seen_nonces) >= NONCE_CAP {
            return false;
        }
        nonces_insert(&mut self.seen_nonces, key, ts);
        true
    }

    /// Check authentication material and remember it.
    pub fn check_and_remember_nonce(
        &mut self,
        uid: &str,
        nonce: &[u8],
        ts: u64,
        clock: &Clock,
    ) -> (r: bool)
        ensures
            exists|now: u64|
                is_reading(*clock, now) && (r, nonce_table(final(self).seen_nonces)) == #[trigger] nonce_step(
                    nonce_table(old(self).seen_nonces),
                    nonce_key(uid@, nonce@, ts),
                    ts,
                    now,
                ),
            *final(self) == (ServerState {
                seen_nonces: final(self).seen_nonces,
                ..*old(self)
            }),
    {
        let now = crypto::now_unix(clock);
        self.check_and_remember_nonce_at(uid, nonce, ts, now)
    }

    /// The number of remembered nonces.
    pub fn nonce_count(&self) -> (r: usize)
        ensures
            r == nonce_table(self.seen_nonces).dom().len(),
    {
        nonces_len(&self.seen_nonces)
    }

    /// How many connections there are.
    pub fn conn_count(&self) -> (r: usize)
        ensures
            r == self.table().dom().len(),
    {
        assert(self.table().dom() =~= conn_table(self.conns).dom());
        conns_len(&self.conns)
    }

    /// Add a connection; its number is the result.
    pub fn open_conn(&mut self, uid: String, max_per_conn: usize, now: i64) -> (r: u64)
        requires
            old(self).quota_ok(),
            old(self).conn_seq < u64::MAX,
        ensures
            final(self).quota_ok(),
            r == old(self).conn_seq,
            final(self).conn_seq == old(self).conn_seq + 1,
            !old(self).table().contains_key(r),
            final(self).table() == old(self).table().insert(
                r,
                (ConnView {
                    id: r,
                    uid: uid@,
                    sessions: Map::<u32, SessionHandle>::empty(),
                    tcp: Set::<u32>::empty(),
                    udp: Set::<u32>::empty(),
                    max_per_conn: max_per_conn as nat,
                    last_active: now,
                    cancelled: false,
                }),
            ),
            final(self).active_sessions == old(self).active_sessions,
            same_rest(*old(self), *final(self)),
    {
        let id = self.conn_seq;
        let c = ConnState::new(id, uid, max_per_conn, now);
        let ghost v = c.view();
        let ghost t = self.table();
        conns_put(&mut self.conns, id, c);
        self.conn_seq = id + 1;
        proof {
            assert(self.table() =~= t.insert(id, v));
            assert(t.remove(id) =~= t);
            lemma_live_without_empty(t.insert(id, v), id);
            assert(t.insert(id, v).remove(id) =~= t);
        }
        id
    }

    /// Start a TCP session: its id is registered and one slot of the quota
    /// taken, or nothing changes.
    pub fn start_session(&mut self, conn: u64, sid: u32, now: i64) -> (r: Result<(), OpenError>)
        requires
            old(self).quota_ok(),
        ensures
            final(self).quota_ok(),
            r == admission(
                old(self).table(),
                old(self).active_sessions as nat,
                old(self).max_sessions as nat,
                conn,
                sid,
            ),
            final(self).table() == if r is Ok {
                old(self).table().insert(conn, registered(old(self).table()[conn], sid, now))
            } else {
                old(self).table()
            },
            final(self).active_sessions == old(self).active_sessions + if r is Ok {
                1int
            } else {
                0
            },
            final(self).conn_seq == old(self).conn_seq,
            same_rest(*old(self), *final(self)),
    {
        let ghost t = self.table();
        let mut c = match conns_take(&mut self.conns, conn) {
            Some(c) => c,
            None => {
                assert(self.table() =~= t);
                return Err(OpenError::Denied);
            },
        };
        let ghost v = c.view();
        let r: Result<(), OpenError> = if sessions_get(&c.sessions, sid).is_some() {
            Err(OpenError::Denied)
        } else if c.session_count() >= c.max_per_conn {
            Err(OpenError::Limit)
        } else if !self.try_acquire_session() {
            Err(OpenError::Limit)
        } else {
            c.register(sid, now);
            Ok(())
        };
        let ghost w = c.view();
        conns_put(&mut self.conns, conn, c);
        proof {
            assert(self.table() =~= t.insert(conn, w));
            if r is Ok {
                assert(w.sessions.dom() =~= t[conn].sessions.dom().insert(sid));
                lemma_live_added(t, conn, sid, w);
                assert(!live(t).contains((conn, sid)));
            } else {
                assert(t.insert(conn, w) =~= t);
            }
        }
        r
    }

    /// Start a UDP session: its id is registered, it gets a relay and one slot
    /// of the quota is taken. Otherwise no session changes; an id that turns
    /// out to be taken at the end counts as activity.
    pub fn start_udp(&mut self, conn: u64, sid: u32, now: i64) -> (r: Result<(), OpenError>)
        requires
            old(self).quota_ok(),
        ensures
            final(self).quota_ok(),
            r == udp_admission(
                old(self).table(),
                old(self).active_sessions as nat,
                old(self).max_sessions as nat,
                conn,
                sid,
            ),
            final(self).table() == if r is Ok {
                old(self).table().insert(
                    conn,
                    (ConnView {
                        udp: old(self).table()[conn].udp.insert(sid),
                        ..registered(old(self).table()[conn], sid, now)
                    }),
                )
            } else if udp_id_taken(
                old(self).table(),
                old(self).active_sessions as nat,
                old(self).max_sessions as nat,
                conn,
                sid,
            ) {
                old(self).table().insert(
                    conn,
                    (ConnView { last_active: now, ..old(self).table()[conn] }),
                )
            } else {
                old(self).table()
            },
            final(self).active_sessions == old(self).active_sessions + if r is Ok {
                1int
            } else {
                0
            },
            final(self).conn_seq == old(self).conn_seq,
            same_rest(*old(self), *final(self)),
    {
        let ghost t = self.table();
        let mut c = match conns_take(&mut self.conns, conn) {
            Some(c) => c,
            None => {
                assert(self.table() =~= t);
                return Err(OpenError::Denied);
            },
        };
        let ghost v = c.view();
        let r: Result<(), OpenError> = if sids_contains(&c.udp_routes, sid) {
            Err(OpenError::Denied)
        } else if c.session_count() >= c.max_per_conn {
            Err(OpenError::Limit)
        } else if !self.try_acquire_session() {
            Err(OpenError::Limit)
        } else {
            match c.try_register_with(sid, now) {
                Some(_) => {
                    c.add_udp_route(sid);
                    Ok(())
                },
                None => {
                    self.release_session();
                    Err(OpenError::Denied)
                },
            }
        };
        let ghost w = c.view();
        conns_put(&mut self.conns, conn, c);
        proof {
            assert(self.table() =~= t.insert(conn, w));
            if r is Ok {
                assert(w.sessions.dom() =~= t[conn].sessions.dom().insert(sid));
                lemma_live_added(t, conn, sid, w);
                assert(!live(t).contains((conn, sid)));
            } else {
                lemma_live_same(t, conn, w);
                if w == v {
                    assert(t.insert(conn, w) =~= t);
                }
            }
        }
        r
    }

    /// End a session. The quota is given back exactly when a registered
    /// session was removed: a late or repeated end changes nothing.
    pub fn end_session(&mut self, conn: u64, sid: u32) -> (r: bool)
        requires
            old(self).quota_ok(),
        ensures
            final(self).quota_ok(),
            r == live(old(self).table()).contains((conn, sid)),
            final(self).table() == if old(self).table().contains_key(conn) {
                old(self).table().insert(conn, dropped(old(self).table()[conn], sid))
            } else {
                old(self).table()
            },
            final(self).active_sessions == old(self).active_sessions - if r {
                1int
            } else {
                0
            },
            final(self).conn_seq == old(self).conn_seq,
            same_rest(*old(self), *final(self)),
    {
        let ghost t = self.table();
        let mut c = match conns_take(&mut self.conns, conn) {
            Some(c) => c,
            None => {
                assert(self.table() =~= t);
                return false;
            },
        };
        let r = c.drop_session(sid);
        let ghost w = c.view();
        conns_put(&mut self.conns, conn, c);
        proof {
            assert(self.table() =~= t.insert(conn, w));
            assert(w.sessions.dom() =~= t[conn].sessions.dom().remove(sid));
            lemma_live_removed(t, conn, sid, w);
        }
        if r {
            assert(live(t).contains((conn, sid)));
            self.release_session();
        } else {
            assert(live(t).remove((conn, sid)) =~= live(t));
        }
        r
    }

    /// Note activity of a session.
    pub fn touch(&mut self, conn: u64, sid: u32, now: i64)
        requires
            old(self).quota_ok(),
        ensures
            final(self).quota_ok(),
            final(self).table() == if old(self).table().contains_key(conn) {
                old(self).table().insert(conn, touched(old(self).table()[conn], sid, now))
            } else {
                old(self).table()
            },
            final(self).active_sessions == old(self).active_sessions,
            final(self).conn_seq == old(self).conn_seq,
            same_rest(*old(self), *final(self)),
    {
        let ghost t = self.table();
        if let Some(taken) = conns_take(&mut self.conns, conn) {
            let mut c = taken;
            c.touch(sid, now);
            let ghost w = c.view();
            conns_put(&mut self.conns, conn, c);
            proof {
                assert(self.table() =~= t.insert(conn, w));
                assert(w.sessions.dom() =~= t[conn].sessions.dom());
                lemma_live_same(t, conn, w);
            }
        } else {
            assert(self.table() =~= t);
        }
    }
}

impl ServerState {
    /// The idle sessions of one connection.
    fn expired_of(&mut self, id: u64, now: i64) -> (r: Vec<u32>)
        requires
            old(self).quota_ok(),
            old(self).table().contains_key(id),
        ensures
            final(self).quota_ok(),
            final(self).table() == old(self).table(),
            final(self).active_sessions == old(self).active_sessions,
            final(self).conn_seq == old(self).conn_seq,
            same_rest(*old(self), *final(self)),
            r@.no_duplicates(),
            forall|s: u32| #[trigger]
                r@.contains(s) <==> session_expired(
                    old(self).table()[id],
                    s,
                    old(self).idle_secs,
                    now,
                ),
    {
        let ghost t = self.table();
        match conns_take(&mut self.conns, id) {
            Some(c) => {
                let r = c.expired(self.idle_secs, now);
                conns_put(&mut self.conns, id, c);
                assert(self.table() =~= t);
                r
            },
            None => {
                assert(false);
                Vec::new()
            },
        }
    }

    /// Remove a connection when it has no session and was idle for long.
    fn remove_if_dead(&mut self, id: u64, now: i64) -> (r: bool)
        requires
            old(self).quota_ok(),
            old(self).table().contains_key(id),
        ensures
            final(self).quota_ok(),
            r == conn_dead(old(self).table()[id], old(self).idle_secs, now),
            final(self).table() == if r {
                old(self).table().remove(id)
            } else {
                old(self).table()
            },
            final(self).active_sessions == old(self).active_sessions,
            final(self).conn_seq == old(self).conn_seq,
            same_rest(*old(self), *final(self)),
    {
        let ghost t = self.table();
        match conns_take(&mut self.conns, id) {
            Some(c) => {
                if c.session_count() == 0 && c.idle_for(now) as u128 > self.idle_secs as u128
                    * 3000 {
                    proof {
                        assert(self.table() =~= t.remove(id));
                        lemma_live_without_empty(t, id);
                    }
                    true
                } else {
                    proof {
                        if c.view().sessions.dom() == Set::<u32>::empty() {
                            assert(c.view().sessions.dom().len() == 0);
                        }
                    }
                    conns_put(&mut self.conns, id, c);
                    assert(self.table() =~= t);
                    false
                }
            },
            None => {
                assert(false);
                false
            },
        }
    }
}

proof fn lemma_to_set_push<T>(s: Seq<T>, i: int)
    requires
        0 <= i < s.len(),
    ensures
        s.take(i + 1).to_set() == s.take(i).to_set().insert(s[i]),
{
    assert(s.take(i + 1) =~= s.take(i).push(s[i]));
    assert forall|x: T| #[trigger] s.take(i + 1).to_set().contains(x) <==> s.take(
        i,
    ).to_set().insert(s[i]).contains(x) by {
        lemma_push_contains(s.take(i), s[i], x);
    }
    assert(s.take(i + 1).to_set() =~= s.take(i).to_set().insert(s[i]));
}

impl ServerState {
    /// End the given sessions of a connection.
    fn end_all(&mut self, id: u64, gone: &Vec<u32>)
        requires
            old(self).quota_ok(),
            old(self).table().contains_key(id),
        ensures
            final(self).quota_ok(),
            final(self).table() == old(self).table().insert(
                id,
                dropped_all(old(self).table()[id], gone@.to_set()),
            ),
            final(self).conn_seq == old(self).conn_seq,
            same_rest(*old(self), *final(self)),
    {
        let ghost t = self.table();
        let ghost c = t[id];
        proof {
            assert(gone@.take(0).to_set() =~= Set::<u32>::empty());
            assert(dropped_all(c, Set::<u32>::empty()) =~= c);
            assert(t.insert(id, c) =~= t);
        }
        let mut i: usize = 0;
        while i < gone.len()
            invariant
                i <= gone.len(),
                self.quota_ok(),
                t.contains_key(id),
                c == t[id],
                self.table() == t.insert(id, dropped_all(c, gone@.take(i as int).to_set())),
                self.conn_seq == old(self).conn_seq,
                same_rest(*old(self), *self),
            decreases gone.len() - i,
        {
            let sid = gone[i];
            let _ = self.end_session(id, sid);
            proof {
                lemma_drop_one_more(c, gone@.take(i as int).to_set(), sid);
                lemma_to_set_push(gone@, i as int);
                assert(self.table() =~= t.insert(
                    id,
                    dropped_all(c, gone@.take(i + 1).to_set()),
                ));
            }
            i += 1;
        }
        assert(gone@.take(i as int) =~= gone@);
    }

    /// Remove a connection and end all its sessions; the result names them.
    pub fn close_conn(&mut self, id: u64) -> (r: Vec<u32>)
        requires
            old(self).quota_ok(),
        ensures
            final(self).quota_ok(),
            final(self).table() == old(self).table().remove(id),
            final(self).conn_seq == old(self).conn_seq,
            same_rest(*old(self), *final(self)),
            forall|s: u32| #[trigger]
                r@.contains(s) <==> live(old(self).table()).contains((id, s)),
    {
        let ghost t = self.table();
        let gone = match conns_take(&mut self.conns, id) {
            Some(c) => {
                let gone = sessions_sids(&c.sessions);
                conns_put(&mut self.conns, id, c);
                assert(self.table() =~= t);
                gone
            },
            None => {
                assert(self.table() =~= t);
                assert(t.remove(id) =~= t);
                return Vec::new();
            },
        };
        self.end_all(id, &gone);
        let ghost u = self.table();
        let _ = conns_take(&mut self.conns, id);
        proof {
            assert(self.table() =~= u.remove(id));
            assert(u.remove(id) =~= t.remove(id));
            assert(u[id].sessions.dom() =~= Set::<u32>::empty()) by {
                assert forall|s: u32| !u[id].sessions.dom().contains(s) by {
                    if t[id].sessions.contains_key(s) {
                        assert(gone@.contains(s));
                        assert(gone@.to_set().contains(s));
                    }
                }
            }
            lemma_live_without_empty(u, id);
        }
        gone
    }

    /// Close sessions idle longer than the configured timeout. Ending a
    /// registered session also gives its slot of the global quota back. A
    /// connection that then has no session, and saw no data for three times as
    /// long, is removed too. The result names what was closed.
    pub fn reap_idle(&mut self, now: i64) -> (r: ReapReport)
        requires
            old(self).quota_ok(),
        ensures
            final(self).quota_ok(),
            final(self).table() == reaped_table(old(self).table(), old(self).idle_secs, now),
            final(self).conn_seq == old(self).conn_seq,
            same_rest(*old(self), *final(self)),
            forall|p: (u64, u32)| #[trigger]
                r.sessions@.contains(p) <==> old(self).table().contains_key(p.0)
                    && session_expired(old(self).table()[p.0], p.1, old(self).idle_secs, now),
            forall|id: u64| #[trigger]
                r.conns@.contains(id) <==> old(self).table().contains_key(id) && conn_dead(
                    reaped(old(self).table()[id], old(self).idle_secs, now),
                    old(self).idle_secs,
                    now,
                ),
    {
        let ghost t = self.table();
        let ghost idle = self.idle_secs;
        let ids = conns_ids(&self.conns);
        let mut report = ReapReport { sessions: Vec::new(), conns: Vec::new() };
        let mut i: usize = 0;
        proof {
            assert forall|id: u64| #[trigger] ids@.contains(id) <==> t.contains_key(id) by {}
            assert(ids@.take(0).to_set() =~= Set::<u64>::empty());
            assert(self.table() =~= partly_reaped(t, Set::<u64>::empty(), idle, now));
        }
        while i < ids.len()
            invariant
                i <= ids.len(),
                idle == self.idle_secs,
                idle == old(self).idle_secs,
                ids@.no_duplicates(),
                forall|id: u64| #[trigger] ids@.contains(id) <==> t.contains_key(id),
                self.quota_ok(),
                self.table() == partly_reaped(t, ids@.take(i as int).to_set(), idle, now),
                self.conn_seq == old(self).conn_seq,
                same_rest(*old(self), *self),
                forall|p: (u64, u32)| #[trigger]
                    report.sessions@.contains(p) <==> ids@.take(i as int).contains(p.0)
                        && session_expired(t[p.0], p.1, idle, now),
                forall|id: u64| #[trigger]
                    report.conns@.contains(id) <==> ids@.take(i as int).contains(id) && conn_dead(
                        reaped(t[id], idle, now),
                        idle,
                        now,
                    ),
            decreases ids.len() - i,
        {
            let id = ids[i];
            let ghost done = ids@.take(i as int);
            let ghost sessions0 = report.sessions@;
            let ghost conns0 = report.conns@;
            let ghost before = self.table();
            proof {
                assert(ids@.contains(id));
                assert(!done.contains(id));
                assert(before.contains_key(id) && before[id] == t[id]);
            }
            let gone = self.expired_of(id, now);
            self.end_all(id, &gone);
            proof {
                assert(gone@.to_set() =~= expired_sids(t[id], idle, now)) by {
                    assert forall|s: u32| #[trigger] gone@.to_set().contains(s) <==> expired_sids(
                        t[id],
                        idle,
                        now,
                    ).contains(s) by {
                        assert(gone@.contains(s) <==> session_expired(t[id], s, idle, now));
                    }
                }
                assert(self.table() =~= before.insert(id, reaped(t[id], idle, now)));
            }
            note_sessions(&mut report.sessions, id, &gone);
            let dead = self.remove_if_dead(id, now);
            if dead {
                report.conns.push(id);
            }
            proof {
                lemma_to_set_push(ids@, i as int);
                let next = ids@.take(i + 1);
                assert(next =~= done.push(id));
                assert(self.table() =~= partly_reaped(t, next.to_set(), idle, now)) by {
                    assert forall|x: u64| next.to_set().contains(x) <==> (done.to_set().contains(x)
                        || x == id) by {}
                }
                assert forall|p: (u64, u32)| #[trigger]
                    report.sessions@.contains(p) <==> next.contains(p.0) && session_expired(
                        t[p.0],
                        p.1,
                        idle,
                        now,
                    ) by {
                    lemma_push_contains(done, id, p.0);
                    assert(report.sessions@.contains(p) <==> sessions0.contains(p) || (p.0 == id
                        && gone@.contains(p.1)));
                }
                assert forall|x: u64| #[trigger]
                    report.conns@.contains(x) <==> next.contains(x) && conn_dead(
                        reaped(t[x], idle, now),
                        idle,
                        now,
                    ) by {
                    lemma_push_contains(done, id, x);
                    if dead {
                        lemma_push_contains(conns0, id, x);
                    }
                }
            }
            i += 1;
        }
        proof {
            assert(ids@.take(i as int) =~= ids@);
            assert(self.table() =~= reaped_table(t, idle, now)) by {
                assert forall|x: u64| ids@.to_set().contains(x) <==> t.contains_key(x) by {
                    assert(ids@.contains(x) <==> t.contains_key(x));
                }
            }
        }
        report
    }
}

/// The connections when only those in `done` were looked at.
spec fn partly_reaped(t: Map<u64, ConnView>, done: Set<u64>, idle: u64, now: i64) -> Map<
    u64,
    ConnView,
> {
    Map::new(
        |id: u64|
            t.contains_key(id) && !(done.contains(id) && conn_dead(
                reaped(t[id], idle, now),
                idle,
                now,
            )),
        |id: u64|
            if done.contains(id) {
                reaped(t[id], idle, now)
            } else {
                t[id]
            },
    )
}

/// Note the closed sessions of a connection.
fn note_sessions(out: &mut Vec<(u64, u32)>, id: u64, gone: &Vec<u32>)
    ensures
        forall|p: (u64, u32)| #[trigger]
            final(out)@.contains(p) <==> old(out)@.contains(p) || (p.0 == id && gone@.contains(
                p.1,
            )),
{
    let mut i: usize = 0;
    while i < gone.len()
        invariant
            i <= gone.len(),
            forall|p: (u64, u32)| #[trigger]
                out@.contains(p) <==> old(out)@.contains(p) || (p.0 == id && gone@.take(
                    i as int,
                ).contains(p.1)),
        decreases gone.len() - i,
    {
        let ghost before = out@;
        out.push((id, gone[i]));
        proof {
            assert(gone@.take(i + 1) =~= gone@.take(i as int).push(gone@[i as int]));
            assert forall|p: (u64, u32)| #[trigger]
                out@.contains(p) <==> old(out)@.contains(p) || (p.0 == id && gone@.take(
                    i + 1,
                ).contains(p.1)) by {
                lemma_push_contains(before, (id, gone@[i as int]), p);
                lemma_push_contains(gone@.take(i as int), gone@[i as int], p.1);
            }
        }
        i += 1;
    }
    assert(gone@.take(i as int) =~= gone@);
}

impl ServerState {
    /// Mark a connection as over; the next sweep removes it.
    pub fn cancel_conn(&mut self, id: u64)
        requires
            old(self).quota_ok(),
        ensures
            final(self).quota_ok(),
            final(self).table() == if old(self).table().contains_key(id) {
                old(self).table().insert(
                    id,
                    (ConnView { cancelled: true, ..old(self).table()[id] }),
                )
            } else {
                old(self).table()
            },
            final(self).active_sessions == old(self).active_sessions,
            final(self).conn_seq == old(self).conn_seq,
            same_rest(*old(self), *final(self)),
    {
        let ghost t = self.table();
        if let Some(taken) = conns_take(&mut self.conns, id) {
            let mut c = taken;
            c.cancelled = true;
            let ghost w = c.view();
            conns_put(&mut self.conns, id, c);
            proof {
                assert(self.table() =~= t.insert(id, w));
                lemma_live_same(t, id, w);
            }
        } else {
            assert(self.table() =~= t);
        }
    }

    /// Whether a connection was cancelled.
    fn is_cancelled(&mut self, id: u64) -> (r: bool)
        requires
            old(self).quota_ok(),
            old(self).table().contains_key(id),
        ensures
            final(self).quota_ok(),
            r == old(self).table()[id].cancelled,
            final(self).table() == old(self).table(),
            final(self).active_sessions == old(self).active_sessions,
            final(self).conn_seq == old(self).conn_seq,
            same_rest(*old(self), *final(self)),
    {
        let ghost t = self.table();
        match conns_take(&mut self.conns, id) {
            Some(c) => {
                let r = c.cancelled;
                conns_put(&mut self.conns, id, c);
                assert(self.table() =~= t);
                r
            },
            None => {
                assert(false);
                false
            },
        }
    }

    /// Drop the connections that were cancelled, with their sessions and the
    /// slots these held. The result names the sessions.
    pub fn sweep_conns(&mut self) -> (r: Vec<(u64, u32)>)
        requires
            old(self).quota_ok(),
        ensures
            final(self).quota_ok(),
            final(self).table() == swept_table(old(self).table()),
            final(self).conn_seq == old(self).conn_seq,
            same_rest(*old(self), *final(self)),
            forall|p: (u64, u32)| #[trigger]
                r@.contains(p) <==> live(old(self).table()).contains(p) && old(
                    self).table()[p.0].cancelled,
    {
        let ghost t = self.table();
        let ids = conns_ids(&self.conns);
        let mut out: Vec<(u64, u32)> = Vec::new();
        let mut i: usize = 0;
        proof {
            assert forall|id: u64| #[trigger] ids@.contains(id) <==> t.contains_key(id) by {}
            assert(ids@.take(0).to_set() =~= Set::<u64>::empty());
            assert(self.table() =~= partly_swept(t, Set::<u64>::empty()));
        }
        while i < ids.len()
            invariant
                i <= ids.len(),
                ids@.no_duplicates(),
                forall|id: u64| #[trigger] ids@.contains(id) <==> t.contains_key(id),
                self.quota_ok(),
                self.table() == partly_swept(t, ids@.take(i as int).to_set()),
                self.conn_seq == old(self).conn_seq,
                same_rest(*old(self), *self),
                forall|p: (u64, u32)| #[trigger]
                    out@.contains(p) <==> ids@.take(i as int).contains(p.0) && live(t).contains(p)
                        && t[p.0].cancelled,
            decreases ids.len() - i,
        {
            let id = ids[i];
            let ghost done = ids@.take(i as int);
            let ghost out0 = out@;
            let ghost before = self.table();
            proof {
                assert(ids@.contains(id));
                assert(!done.contains(id));
                assert(before.contains_key(id) && before[id] == t[id]);
            }
            let over = self.is_cancelled(id);
            if over {
                let gone = self.close_conn(id);
                note_sessions(&mut out, id, &gone);
                proof {
                    assert forall|s: u32| #[trigger] gone@.contains(s) <==> live(t).contains(
                        (id, s),
                    ) by {
                        assert(live(before).contains((id, s)) <==> live(t).contains((id, s)));
                    }
                }
            }
            proof {
                lemma_to_set_push(ids@, i as int);
                let next = ids@.take(i + 1);
                assert(next =~= done.push(id));
                assert(self.table() =~= partly_swept(t, next.to_set()));
                assert forall|p: (u64, u32)| #[trigger]
                    out@.contains(p) <==> next.contains(p.0) && live(t).contains(p)
                        && t[p.0].cancelled by {
                    lemma_push_contains(done, id, p.0);
                    if over {
                        assert(out@.contains(p) <==> out0.contains(p) || (p.0 == id && live(
                            t,
                        ).contains((id, p.1))));
                        if p.0 == id {
                            assert(p == (id, p.1));
                        }
                    }
                }
            }
            i += 1;
        }
        proof {
            assert(ids@.take(i as int) =~= ids@);
            assert(self.table() =~= swept_table(t)) by {
                assert forall|x: u64| ids@.to_set().contains(x) <==> t.contains_key(x) by {
                    assert(ids@.contains(x) <==> t.contains_key(x));
                }
            }
        }
        out
    }
}

/// The connections when only those in `done` were looked at.
spec fn partly_swept(t: Map<u64, ConnView>, done: Set<u64>) -> Map<u64, ConnView> {
    Map::new(
        |id: u64| t.contains_key(id) && !(done.contains(id) && t[id].cancelled),
        |id: u64| t[id],
    )
}

/// A session that was started and ended leaves the quota as it was: the
/// running sessions are the same as before.
pub proof fn law_session_end_undoes_start(t: Map<u64, ConnView>, conn: u64, sid: u32, now: i64)
    requires
        t.contains_key(conn),
        !t[conn].sessions.contains_key(sid),
    ensures
        ({
            let started = t.insert(conn, registered(t[conn], sid, now));
            let ended = started.insert(conn, dropped(started[conn], sid));
            live(ended) == live(t) && live(started).contains((conn, sid))
        }),
{
    let started = t.insert(conn, registered(t[conn], sid, now));
    let ended = started.insert(conn, dropped(started[conn], sid));
    assert(started[conn].sessions.dom() =~= t[conn].sessions.dom().insert(sid));
    lemma_live_added(t, conn, sid, started[conn]);
    assert(ended[conn].sessions.dom() =~= started[conn].sessions.dom().remove(sid));
    lemma_live_removed(started, conn, sid, ended[conn]);
    assert(!live(t).contains((conn, sid)));
    assert(live(t).insert((conn, sid)).remove((conn, sid)) =~= live(t));
}

/// Ending a session twice ends it once: the second end finds nothing.
pub proof fn law_second_end_finds_nothing(c: ConnView, sid: u32)
    ensures
        !dropped(c, sid).sessions.contains_key(sid),
        dropped(dropped(c, sid), sid) == dropped(c, sid),
{
    let a = dropped(c, sid);
    let b = dropped(a, sid);
    assert(a.sessions =~= b.sessions);
    assert(a.tcp =~= b.tcp);
    assert(a.udp =~= b.udp);
}

/// Activity keeps a session alive: one that was touched at `now` runs on after
/// a reaping at any later time within the idle time, and so does its
/// connection.
pub proof fn law_active_session_is_not_reaped(
    t: Map<u64, ConnView>,
    conn: u64,
    sid: u32,
    now: i64,
    idle_secs: u64,
    later: i64,
)
    requires
        live(t).contains((conn, sid)),
        now <= later,
        later - now <= idle_secs * 1000,
    ensures
        live(
            reaped_table(t.insert(conn, touched(t[conn], sid, now)), idle_secs, later),
        ).contains((conn, sid)),
{
    let u = t.insert(conn, touched(t[conn], sid, now));
    law_touch_notes_activity(t[conn], sid, now, sid);
    assert(live(u).contains((conn, sid)));
    law_reaping_spares_active_sessions(u, conn, sid, idle_secs, later);
}

/// A session that starts runs on likewise.
pub proof fn law_new_session_is_not_reaped(
    t: Map<u64, ConnView>,
    conn: u64,
    sid: u32,
    now: i64,
    idle_secs: u64,
    later: i64,
)
    requires
        t.contains_key(conn),
        now <= later,
        later - now <= idle_secs * 1000,
    ensures
        live(
            reaped_table(t.insert(conn, registered(t[conn], sid, now)), idle_secs, later),
        ).contains((conn, sid)),
{
    let u = t.insert(conn, registered(t[conn], sid, now));
    assert(live(u).contains((conn, sid)));
    law_reaping_spares_active_sessions(u, conn, sid, idle_secs, later);
}

/// What a reaping leaves, by the times of the last activity: a session stays
/// exactly when it was active within the idle time, as it was and with its
/// routes; a connection stays exactly when a session of it does, or when it was
/// itself active within three times the idle time.
pub proof fn law_reaping_goes_by_the_idle_time(
    t: Map<u64, ConnView>,
    conn: u64,
    sid: u32,
    idle_secs: u64,
    now: i64,
)
    requires
        t.contains_key(conn),
        now - t[conn].last_active <= i64::MAX,
        forall|s: u32| #[trigger]
            t[conn].sessions.contains_key(s) ==> now - t[conn].sessions[s].last_active <= i64::MAX,
    ensures
        ({
            let after = reaped_table(t, idle_secs, now);
            let c = t[conn];
            let stays = c.sessions.contains_key(sid) && now - c.sessions[sid].last_active
                <= idle_secs * 1000;
            let gone = c.sessions.contains_key(sid) && !stays;
            &&& live(after).contains((conn, sid)) <==> stays
            &&& stays ==> after[conn].sessions[sid] == c.sessions[sid]
            &&& after.contains_key(conn) <==> now - c.last_active <= 3000 * idle_secs || exists|
                s: u32,
            |
                #![trigger c.sessions.contains_key(s)]
                c.sessions.contains_key(s) && now - c.sessions[s].last_active <= idle_secs * 1000
            &&& after.contains_key(conn) ==> (after[conn].tcp.contains(sid) <==> c.tcp.contains(sid)
                && !gone) && (after[conn].udp.contains(sid) <==> c.udp.contains(sid) && !gone)
                && after[conn].last_active == c.last_active && after[conn].uid == c.uid
                && after[conn].id == c.id && after[conn].max_per_conn == c.max_per_conn
                && after[conn].cancelled == c.cancelled
        }),
{
    let c = t[conn];
    let d = reaped(c, idle_secs, now);
    let after = reaped_table(t, idle_secs, now);
    assert forall|s: u32| #[trigger] d.sessions.contains_key(s) <==> c.sessions.contains_key(s)
        && now - c.sessions[s].last_active <= idle_secs * 1000 by {
        assert(d.sessions.dom().contains(s) <==> d.sessions.contains_key(s));
    }
    if d.sessions.dom() == Set::<u32>::empty() {
        assert forall|s: u32| #[trigger] c.sessions.contains_key(s) implies now
            - c.sessions[s].last_active > idle_secs * 1000 by {
            assert(!d.sessions.dom().contains(s));
            assert(!d.sessions.contains_key(s));
        }
    } else {
        let s = choose|s: u32| d.sessions.dom().contains(s);
        if !d.sessions.dom().contains(s) {
            assert(d.sessions.dom() =~= Set::<u32>::empty());
        }
        assert(d.sessions.contains_key(s));
        assert(c.sessions.contains_key(s));
    }
    assert(d.sessions.contains_key(sid) <==> d.sessions.dom().contains(sid));
    if d.sessions.contains_key(sid) {
        assert(d.sessions.dom().contains(sid));
    }
}

/// Connections that nobody cancelled survive a sweep as they are; the others go.
pub proof fn law_sweeping_takes_cancelled_connections(t: Map<u64, ConnView>, id: u64)
    ensures
        swept_table(t).contains_key(id) <==> t.contains_key(id) && !t[id].cancelled,
        swept_table(t).contains_key(id) ==> swept_table(t)[id] == t[id],
{
}

/// Reaping takes idle sessions only: a session active within the idle time
/// stays, and so does its connection.
pub proof fn law_reaping_spares_active_sessions(
    t: Map<u64, ConnView>,
    conn: u64,
    sid: u32,
    idle_secs: u64,
    now: i64,
)
    requires
        live(t).contains((conn, sid)),
        !session_expired(t[conn], sid, idle_secs, now),
    ensures
        live(reaped_table(t, idle_secs, now)).contains((conn, sid)),
        reaped_table(t, idle_secs, now)[conn].sessions[sid] == t[conn].sessions[sid],
{
    let c = reaped(t[conn], idle_secs, now);
    assert(c.sessions.contains_key(sid));
    assert(c.sessions.dom().contains(sid));
}

impl ServerState {
    /// Which routes a session has: to a TCP target, to a UDP relay.
    pub fn routes(&mut self, conn: u64, sid: u32) -> (r: (bool, bool))
        requires
            old(self).quota_ok(),
        ensures
            final(self).quota_ok(),
            r.0 == (old(self).table().contains_key(conn) && old(self).table()[conn].tcp.contains(
                sid,
            )),
            r.1 == (old(self).table().contains_key(conn) && old(self).table()[conn].udp.contains(
                sid,
            )),
            final(self).table() == old(self).table(),
            final(self).active_sessions == old(self).active_sessions,
            final(self).conn_seq == old(self).conn_seq,
            same_rest(*old(self), *final(self)),
    {
        let ghost t = self.table();
        match conns_take(&mut self.conns, conn) {
            Some(c) => {
                let r = (sids_contains(&c.tcp_routes, sid), sids_contains(&c.udp_routes, sid));
                conns_put(&mut self.conns, conn, c);
                assert(self.table() =~= t);
                r
            },
            None => {
                assert(self.table() =~= t);
                (false, false)
            },
        }
    }

    /// Route the data of a TCP session to its target.
    pub fn add_tcp_route(&mut self, conn: u64, sid: u32)
        requires
            old(self).quota_ok(),
        ensures
            final(self).quota_ok(),
            final(self).table() == if old(self).table().contains_key(conn) {
                old(self).table().insert(
                    conn,
                    (ConnView {
                        tcp: old(self).table()[conn].tcp.insert(sid),
                        ..old(self).table()[conn]
                    }),
                )
            } else {
                old(self).table()
            },
            final(self).active_sessions == old(self).active_sessions,
            final(self).conn_seq == old(self).conn_seq,
            same_rest(*old(self), *final(self)),
    {
        let ghost t = self.table();
        if let Some(taken) = conns_take(&mut self.conns, conn) {
            let mut c = taken;
            c.add_tcp_route(sid);
            let ghost w = c.view();
            conns_put(&mut self.conns, conn, c);
            proof {
                assert(self.table() =~= t.insert(conn, w));
                lemma_live_same(t, conn, w);
            }
        } else {
            assert(self.table() =~= t);
        }
    }
}

/// `b` is what a check of some nonce at `now`, or no check at all, makes of
/// the cache `a`.
pub open spec fn cache_step(a: Map<Seq<char>, u64>, now: u64, b: Map<Seq<char>, u64>) -> bool {
    b == a || exists|key: Seq<char>, ts: u64| b == (#[trigger] nonce_step(a, key, ts, now)).1
}

/// What the cache holds stays in it while it is fresh.
pub proof fn lemma_cached_while_fresh(
    m: Seq<Map<Seq<char>, u64>>,
    now: Seq<u64>,
    key: Seq<char>,
    t: u64,
    from: int,
    to: int,
)
    requires
        m.len() == now.len() + 1,
        forall|k: int| 0 <= k < now.len() ==> cache_step(#[trigger] m[k], now[k], m[k + 1]),
        forall|a: int, b: int| 0 <= a <= b < now.len() ==> now[a] <= now[b],
        0 <= from <= to < now.len(),
        m[from].contains_key(key),
        m[from][key] == t,
        t > 0,
        fresh(now[to], t, AUTH_WINDOW),
    ensures
        m[to].contains_key(key),
    decreases to - from,
{
    if from < to {
        assert(cache_step(m[from], now[from], m[from + 1]));
        assert(now[from] <= now[to]);
        assert(t > nonce_cutoff(now[from]));
        if m[from + 1] != m[from] {
            let (k2, t2) = choose|k2: Seq<char>, t2: u64|
                m[from + 1] == (#[trigger] nonce_step(m[from], k2, t2, now[from])).1;
            assert(m[from + 1] == nonce_step(m[from], k2, t2, now[from]).1);
        }
        lemma_cached_while_fresh(m, now, key, t, from + 1, to);
    }
}

/// An association is refused over its id only where there would be room for it.
pub proof fn law_associations_with_a_used_id(
    t: Map<u64, ConnView>,
    active: nat,
    max_sessions: nat,
    conn: u64,
    sid: u32,
)
    ensures
        udp_id_taken(t, active, max_sessions, conn, sid) ==> t.contains_key(conn)
            && t[conn].sessions.contains_key(sid) && !t[conn].udp.contains(sid) && active
            < max_sessions && t[conn].sessions.dom().len() < t[conn].max_per_conn,
        t.contains_key(conn) && t[conn].sessions.contains_key(sid) && !t[conn].udp.contains(sid)
            && active < max_sessions && t[conn].sessions.dom().len() < t[conn].max_per_conn
            ==> udp_id_taken(t, active, max_sessions, conn, sid),
{
}

/// What changes of sessions and connections leave alone.
pub proof fn law_what_sessions_leave_alone(a: ServerState, b: ServerState)
    ensures
        same_rest(a, a),
        same_rest(a, b) ==> {
            &&& a.static_keys == b.static_keys && a.max_sessions == b.max_sessions
            &&& a.rate_mbps == b.rate_mbps && a.idle_secs == b.idle_secs
            &&& a.allow_private_targets == b.allow_private_targets && a.unauth == b.unauth
            &&& a.seen_nonces == b.seen_nonces && a.path == b.path
            &&& a.max_plaintext == b.max_plaintext && a.dns == b.dns
        },
{
}

} // verus!
