//! Server side: who may connect, which sessions run, and when they end.

use vstd::prelude::*;

use crate::clock::{is_reading, Clock};
use crate::config::ServerConfig;
use crate::net::Ip;
use crate::proto::crypto::{
    self, auth_accepted, auth_decoding, auth_mac_spec, bearer_text, bearer_uid_spec,
    bearer_verdict, fresh, law_bearer_roundtrip, open_spec, static_key_spec, AuthFields,
    AuthPayload, FrameCipher, AUTH_WINDOW, MAC_LEN, SALT_LEN,
};
use crate::proto::frame::{Frame, FrameFields, PROTO_VERSION};
use crate::server::dns::{DnsCache, DnsView};
use crate::server::limit::UnauthGate;
use crate::server::state::{
    cache_step, conns_new, lemma_cached_while_fresh, live, nonce_key, nonce_step, nonce_table,
    nonces_new, ConnView, ServerState,
};
use crate::text;

pub mod dns;
pub mod fallback;
pub mod hub;
pub mod limit;
pub mod state;
pub mod wt;

verus! {

// ---------------------------------------------------------------------------
// Users
// ---------------------------------------------------------------------------
/// The users and their keys.
pub open spec fn key_views(v: Seq<(String, [u8; 32])>) -> Seq<(Seq<char>, Seq<u8>)> {
    v.map_values(|p: (String, [u8; 32])| (p.0@, p.1@))
}

/// The key of a user.
pub open spec fn key_of(keys: Seq<(Seq<char>, Seq<u8>)>, uid: Seq<char>) -> Option<Seq<u8>>
    decreases keys.len(),
{
    if keys.len() == 0 {
        None
    } else if keys[0].0 == uid {
        Some(keys[0].1)
    } else {
        key_of(keys.drop_first(), uid)
    }
}

/// No user occurs twice.
pub open spec fn users_distinct(keys: Seq<(Seq<char>, Seq<u8>)>) -> bool {
    forall|i: int, j: int| 0 <= i < j < keys.len() ==> keys[i].0 != keys[j].0
}

/// The users of a configuration.
pub open spec fn user_views(v: Seq<(String, String)>) -> Seq<(Seq<char>, Seq<char>)> {
    v.map_values(|p: (String, String)| (p.0@, p.1@))
}

/// The password of a user: the last one given counts.
pub open spec fn password_of(users: Seq<(Seq<char>, Seq<char>)>, uid: Seq<char>) -> Option<
    Seq<char>,
>
    decreases users.len(),
{
    if users.len() == 0 {
        None
    } else if users.last().0 == uid {
        Some(users.last().1)
    } else {
        password_of(users.drop_last(), uid)
    }
}

proof fn lemma_key_of_is(keys: Seq<(Seq<char>, Seq<u8>)>, i: int)
    requires
        0 <= i < keys.len(),
        forall|j: int| 0 <= j < i ==> (#[trigger] keys[j]).0 != keys[i].0,
    ensures
        key_of(keys, keys[i].0) == Some(keys[i].1),
    decreases keys.len(),
{
    if i > 0 {
        assert(keys[0].0 != keys[i].0);
        let t = keys.drop_first();
        assert(t[i - 1] == keys[i]);
        assert forall|j: int| 0 <= j < i - 1 implies (#[trigger] t[j]).0 != t[i - 1].0 by {
            assert(t[j] == keys[j + 1]);
        }
        lemma_key_of_is(t, i - 1);
    }
}

proof fn lemma_key_of_none(keys: Seq<(Seq<char>, Seq<u8>)>, uid: Seq<char>)
    requires
        forall|j: int| 0 <= j < keys.len() ==> (#[trigger] keys[j]).0 != uid,
    ensures
        key_of(keys, uid) is None,
    decreases keys.len(),
{
    if keys.len() > 0 {
        let t = keys.drop_first();
        assert forall|j: int| 0 <= j < t.len() implies (#[trigger] t[j]).0 != uid by {
            assert(t[j] == keys[j + 1]);
        }
        lemma_key_of_none(t, uid);
    }
}

/// Position of a user.
fn find_user(keys: &Vec<(String, [u8; 32])>, uid: &str) -> (r: Option<usize>)
    ensures
        match r {
            Some(i) => i < keys.len() && keys@[i as int].0@ == uid@ && forall|j: int|
                0 <= j < i ==> (#[trigger] keys@[j]).0@ != uid@,
            None => forall|j: int| 0 <= j < keys.len() ==> (#[trigger] keys@[j]).0@ != uid@,
        },
        key_of(key_views(keys@), uid@) == match r {
            Some(i) => Some(keys@[i as int].1@),
            None => None,
        },
{
    let mut i: usize = 0;
    while i < keys.len()
        invariant
            i <= keys.len(),
            forall|j: int| 0 <= j < i ==> (#[trigger] keys@[j]).0@ != uid@,
        decreases keys.len() - i,
    {
        if text::same_text(keys[i].0.as_str(), uid) {
            proof {
                let k = key_views(keys@);
                assert forall|j: int| 0 <= j < i implies (#[trigger] k[j]).0 != k[i as int].0 by {
                    assert(k[j].0 == keys@[j].0@);
                }
                lemma_key_of_is(k, i as int);
            }
            return Some(i);
        }
        i += 1;
    }
    proof {
        let k = key_views(keys@);
        assert forall|j: int| 0 <= j < k.len() implies (#[trigger] k[j]).0 != uid@ by {
            assert(k[j].0 == keys@[j].0@);
        }
        lemma_key_of_none(k, uid@);
    }
    None
}

/// The key of every user, derived from the password that was given last.
fn derive_keys(users: &Vec<(String, String)>) -> (r: Vec<(String, [u8; 32])>)
    ensures
        users_distinct(key_views(r@)),
        forall|uid: Seq<char>| #[trigger]
            key_of(key_views(r@), uid) == match password_of(user_views(users@), uid) {
                Some(p) => Some(static_key_spec(p, uid)),
                None => None,
            },
{
    let mut keys: Vec<(String, [u8; 32])> = Vec::new();
    let mut i: usize = 0;
    while i < users.len()
        invariant
            i <= users.len(),
            users_distinct(key_views(keys@)),
            forall|uid: Seq<char>| #[trigger]
                key_of(key_views(keys@), uid) == match password_of(
                    user_views(users@).take(i as int),
                    uid,
                ) {
                    Some(p) => Some(static_key_spec(p, uid)),
                    None => None,
                },
        decreases users.len() - i,
    {
        let uid = users[i].0.clone();
        let key = crypto::derive_static_key(users[i].1.as_str(), uid.as_str());
        let ghost before = key_views(keys@);
        let ghost u = uid@;
        let at = find_user(&keys, uid.as_str());
        match at {
            Some(j) => {
                keys.set(j, (uid, key));
            },
            None => {
                keys.push((uid, key));
            },
        }
        proof {
            let after = key_views(keys@);
            let t = user_views(users@).take(i + 1);
            assert(t.drop_last() =~= user_views(users@).take(i as int));
            assert(t.last() == (users@[i as int].0@, users@[i as int].1@));
            match at {
                Some(j) => {
                    assert(after =~= before.update(j as int, (u, key@)));
                    lemma_key_replaced(before, j as int, u, key@);
                },
                None => {
                    assert(after =~= before.push((u, key@)));
                    lemma_key_added(before, u, key@);
                },
            }
        }
        i += 1;
    }
    assert(user_views(users@).take(i as int) =~= user_views(users@));
    keys
}

proof fn lemma_key_replaced(k: Seq<(Seq<char>, Seq<u8>)>, j: int, u: Seq<char>, key: Seq<u8>)
    requires
        users_distinct(k),
        0 <= j < k.len(),
        k[j].0 == u,
    ensures
        users_distinct(k.update(j, (u, key))),
        forall|uid: Seq<char>| #[trigger]
            key_of(k.update(j, (u, key)), uid) == if uid == u {
                Some(key)
            } else {
                key_of(k, uid)
            },
{
    let n = k.update(j, (u, key));
    assert forall|uid: Seq<char>| #[trigger] key_of(n, uid) == if uid == u {
        Some(key)
    } else {
        key_of(k, uid)
    } by {
        if exists|i: int| 0 <= i < k.len() && k[i].0 == uid {
            let i = choose|i: int| 0 <= i < k.len() && k[i].0 == uid;
            assert(n[i].0 == uid);
            lemma_key_of_is(n, i);
            lemma_key_of_is(k, i);
        } else {
            assert forall|i: int| 0 <= i < n.len() implies (#[trigger] n[i]).0 != uid by {
                assert(n[i].0 == k[i].0);
            }
            lemma_key_of_none(n, uid);
            lemma_key_of_none(k, uid);
        }
    }
}

proof fn lemma_key_added(k: Seq<(Seq<char>, Seq<u8>)>, u: Seq<char>, key: Seq<u8>)
    requires
        users_distinct(k),
        forall|i: int| 0 <= i < k.len() ==> (#[trigger] k[i]).0 != u,
    ensures
        users_distinct(k.push((u, key))),
        forall|uid: Seq<char>| #[trigger]
            key_of(k.push((u, key)), uid) == if uid == u {
                Some(key)
            } else {
                key_of(k, uid)
            },
{
    let n = k.push((u, key));
    assert forall|uid: Seq<char>| #[trigger] key_of(n, uid) == if uid == u {
        Some(key)
    } else {
        key_of(k, uid)
    } by {
        if uid == u {
            assert(n[k.len() as int] == (u, key));
            lemma_key_of_is(n, k.len() as int);
        } else if exists|i: int| 0 <= i < k.len() && k[i].0 == uid {
            let i = choose|i: int| 0 <= i < k.len() && k[i].0 == uid;
            assert(n[i] == k[i]);
            lemma_key_of_is(n, i);
            lemma_key_of_is(k, i);
        } else {
            assert forall|i: int| 0 <= i < n.len() implies (#[trigger] n[i]).0 != uid by {
                if i < k.len() {
                    assert(n[i] == k[i]);
                }
            }
            lemma_key_of_none(n, uid);
            lemma_key_of_none(k, uid);
        }
    }
}

/// Slots that one source address gets of the limiter for unauthenticated
/// connections: an eighth of all, at least 2 and at most 64.
pub open spec fn per_ip_cap(max_unauth: u64) -> nat {
    if max_unauth / 8 < 2 {
        2
    } else if max_unauth / 8 > 64 {
        64
    } else {
        (max_unauth / 8) as nat
    }
}

/// Build the shared server state.
pub fn build_state(cfg: &ServerConfig) -> (r: ServerState)
    ensures
        r.quota_ok(),
        r.table() == Map::<u64, ConnView>::empty(),
        r.active_sessions == 0,
        r.conn_seq == 1,
        users_distinct(key_views(r.static_keys@)),
        forall|uid: Seq<char>| #[trigger]
            key_of(key_views(r.static_keys@), uid) == match password_of(
                user_views(cfg.users@),
                uid,
            ) {
                Some(p) => Some(static_key_spec(p, uid)),
                None => None,
            },
        nonce_table(r.seen_nonces).dom() == Set::<Seq<char>>::empty(),
        r.max_sessions == cfg.max_sessions,
        r.rate_mbps == cfg.rate_mbps,
        r.idle_secs == cfg.idle_secs,
        r.allow_private_targets == cfg.allow_private_targets,
        limit::gate_ok(r.unauth.view()),
        r.unauth.view().global == 0,
        r.unauth.view().per_ip == Map::<(bool, u128), u64>::empty(),
        r.unauth.view().max_global == if cfg.max_unauth < 1 {
            1
        } else {
            cfg.max_unauth as nat
        },
        r.unauth.view().max_per_ip == per_ip_cap(cfg.max_unauth),
        r.path@ == cfg.path@,
        r.max_plaintext == cfg.max_plaintext,
        r.dns@ == (DnsView {
            answers: Map::<Seq<char>, (Ip, u64)>::empty(),
            ttl: cfg.udp_dns_ttl,
        }),
{
    let eighth = cfg.max_unauth / 8;
    let per_ip: u64 = if eighth < 2 {
        2
    } else if eighth > 64 {
        64
    } else {
        eighth
    };
    let st = ServerState {
        static_keys: derive_keys(&cfg.users),
        conns: conns_new(),
        conn_seq: 1,
        active_sessions: 0,
        max_sessions: cfg.max_sessions,
        rate_mbps: cfg.rate_mbps,
        idle_secs: cfg.idle_secs,
        allow_private_targets: cfg.allow_private_targets,
        unauth: UnauthGate::new(cfg.max_unauth, per_ip),
        seen_nonces: nonces_new(),
        path: cfg.path.clone(),
        max_plaintext: cfg.max_plaintext,
        dns: DnsCache::new(cfg.udp_dns_ttl),
    };
    proof {
        assert(st.table() =~= Map::<u64, ConnView>::empty());
        assert(live(st.table()) =~= Set::<(u64, u32)>::empty());
    }
    st
}

// ---------------------------------------------------------------------------
// Bearer tokens
// ---------------------------------------------------------------------------
/// The token of an Authorization header.
pub open spec fn bearer_token(header: Seq<char>) -> Option<Seq<char>> {
    if text::starts_with(header, "Bearer "@) || text::starts_with(header, "bearer "@) {
        Some(header.skip(7))
    } else {
        None
    }
}

/// User, key, time and nonce of an Authorization header that verifies at
/// `now`.
pub open spec fn bearer_claims(
    keys: Seq<(Seq<char>, Seq<u8>)>,
    header: Option<Seq<char>>,
    now: u64,
) -> Option<(Seq<char>, Seq<u8>, u64, Seq<u8>)> {
    match header {
        None => None,
        Some(h) => match bearer_token(h) {
            None => None,
            Some(token) => match bearer_uid_spec(token) {
                None => None,
                Some(uid) => match key_of(keys, uid) {
                    None => None,
                    Some(key) => match bearer_verdict(token, key, uid, AUTH_WINDOW, now) {
                        None => None,
                        Some((ts, nonce)) => Some((uid, key, ts, nonce)),
                    },
                },
            },
        },
    }
}

pub open spec fn opt_text(s: Option<&str>) -> Option<Seq<char>> {
    match s {
        Some(t) => Some(t@),
        None => None,
    }
}

/// `b` is what one look at a bearer header at `now` can make of the state `a`,
/// with result `r`: a header that does not verify changes nothing; one that
/// does is checked against the replay cache and remembered there.
pub open spec fn bearer_step(
    a: ServerState,
    header: Option<Seq<char>>,
    now: u64,
    r: Option<(String, [u8; 32])>,
    b: ServerState,
) -> bool {
    &&& b == (ServerState { seen_nonces: b.seen_nonces, ..a })
    &&& match bearer_claims(key_views(a.static_keys@), header, now) {
        None => r is None && b == a,
        Some((uid, key, ts, nonce)) => {
            let (ok, m) = nonce_step(
                nonce_table(a.seen_nonces),
                nonce_key(uid, nonce, ts),
                ts,
                now,
            );
            &&& nonce_table(b.seen_nonces) == m
            &&& match r {
                Some((u, k)) => ok && u@ == uid && k@ == key,
                None => !ok,
            }
        },
    }
}

/// Verify the HTTP-level bearer header at `now`. Returns (uid, static key).
///
/// The token's (ts, nonce) pair is recorded in the server-wide nonce cache:
/// the same bearer is accepted exactly once, so a captured token cannot be
/// replayed within the timestamp window. The code is verified first, so
/// unauthenticated traffic cannot pollute the cache.
pub fn bearer_user_at(st: &mut ServerState, header: Option<&str>, now: u64) -> (r: Option<
    (String, [u8; 32]),
>)
    ensures
        bearer_step(*old(st), opt_text(header), now, r, *final(st)),
{
    let h = match header {
        Some(h) => h,
        None => {
            return None;
        },
    };
    let chars = text::chars_of(h);
    proof {
        reveal_strlit("Bearer ");
        reveal_strlit("bearer ");
    }
    if !text::starts_with_text(chars.as_slice(), "Bearer ") && !text::starts_with_text(
        chars.as_slice(),
        "bearer ",
    ) {
        return None;
    }
    let token = h.substring_char(7, chars.len());
    assert(token@ =~= h@.skip(7));
    let uid = match crypto::bearer_uid(token) {
        Some(u) => u,
        None => {
            return None;
        },
    };
    let key = match find_user(&st.static_keys, uid) {
        Some(i) => st.static_keys[i].1,
        None => {
            return None;
        },
    };
    match crypto::verify_bearer_parts_at(token, &key, uid, AUTH_WINDOW, now) {
        Some((ts, nonce)) => {
            if st.check_and_remember_nonce_at(uid, nonce.as_slice(), ts, now) {
                Some((text::own(uid), key))
            } else {
                None
            }
        },
        None => None,
    }
}

/// Verify the HTTP-level bearer header. Returns (uid, static key).
pub fn bearer_user(st: &mut ServerState, header: Option<&str>, clock: &Clock) -> (r: Option<
    (String, [u8; 32]),
>)
    ensures
        exists|now: u64|
            is_reading(*clock, now) && #[trigger] bearer_step(
                *old(st),
                opt_text(header),
                now,
                r,
                *final(st),
            ),
{
    let now = crypto::now_unix(clock);
    bearer_user_at(st, header, now)
}

/// Boolean variant used on the session-request path.
pub fn bearer_ok(st: &mut ServerState, header: Option<&str>, clock: &Clock) -> (r: bool)
    ensures
        exists|now: u64, u: Option<(String, [u8; 32])>|
            is_reading(*clock, now) && #[trigger] bearer_step(
                *old(st),
                opt_text(header),
                now,
                u,
                *final(st),
            ) && r == u is Some,
{
    let u = bearer_user(st, header, clock);
    u.is_some()
}

// ---------------------------------------------------------------------------
// In-band AUTH frame
// ---------------------------------------------------------------------------
/// Outcome of verifying the in-band AUTH frame (first frame of a channel).
pub enum AuthOutcome {
    /// Authenticated: uid, static key and decoded payload.
    Accepted(String, [u8; 32], AuthPayload),
    /// The payload authenticated under a known key, but advertises an
    /// incompatible protocol version. This is a configuration error, not an
    /// attacker — surface it explicitly instead of a generic decrypt failure.
    VersionMismatch { client: u8, server: u8 },
    /// Wrong key, malformed payload, expired timestamp or replay.
    Rejected,
}

/// What an AUTH frame is to one user.
pub ghost enum AuthTry {
    /// Not this user's frame, or not a good one.
    NotTheirs,
    /// This user's frame in another protocol version.
    OtherVersion(u8),
    /// This user's frame, verified.
    Theirs(AuthFields),
}

pub open spec fn auth_try(uid: Seq<char>, key: Seq<u8>, f: FrameFields, now: u64) -> AuthTry {
    match open_spec(key, f.counter, f.aad, f.payload) {
        Err(_) => AuthTry::NotTheirs,
        Ok(text) => match auth_decoding(text) {
            Err(_) => AuthTry::NotTheirs,
            Ok(a) => if a.uid != uid {
                AuthTry::NotTheirs
            } else if a.proto_version != PROTO_VERSION {
                AuthTry::OtherVersion(a.proto_version)
            } else if !auth_accepted(a, key, AUTH_WINDOW, now) {
                AuthTry::NotTheirs
            } else {
                AuthTry::Theirs(a)
            },
        },
    }
}

/// The first user whose frame it is.
pub open spec fn auth_scan(keys: Seq<(Seq<char>, Seq<u8>)>, f: FrameFields, now: u64) -> Option<int>
    decreases keys.len(),
{
    if keys.len() == 0 {
        None
    } else if !(auth_try(keys[0].0, keys[0].1, f, now) is NotTheirs) {
        Some(0)
    } else {
        match auth_scan(keys.drop_first(), f, now) {
            Some(i) => Some(i + 1),
            None => None,
        }
    }
}

proof fn lemma_auth_scan_is(keys: Seq<(Seq<char>, Seq<u8>)>, f: FrameFields, now: u64, i: int)
    requires
        0 <= i <= keys.len(),
        forall|j: int|
            0 <= j < i ==> auth_try((#[trigger] keys[j]).0, keys[j].1, f, now) is NotTheirs,
        i < keys.len() ==> !(auth_try(keys[i].0, keys[i].1, f, now) is NotTheirs),
    ensures
        auth_scan(keys, f, now) == if i < keys.len() {
            Some(i)
        } else {
            None
        },
    decreases keys.len(),
{
    if keys.len() > 0 && i > 0 {
        let t = keys.drop_first();
        assert(auth_try(keys[0].0, keys[0].1, f, now) is NotTheirs);
        assert forall|j: int| 0 <= j < i - 1 implies auth_try(
            (#[trigger] t[j]).0,
            t[j].1,
            f,
            now,
        ) is NotTheirs by {
            assert(t[j] == keys[j + 1]);
        }
        if i < keys.len() {
            assert(t[i - 1] == keys[i]);
        }
        lemma_auth_scan_is(t, f, now, i - 1);
    }
}

proof fn lemma_auth_scan_in_range(keys: Seq<(Seq<char>, Seq<u8>)>, f: FrameFields, now: u64)
    ensures
        auth_scan(keys, f, now) matches Some(i) ==> 0 <= i < keys.len(),
    decreases keys.len(),
{
    if keys.len() > 0 {
        lemma_auth_scan_in_range(keys.drop_first(), f, now);
    }
}

/// `b` is what one look at an AUTH frame at `now` can make of the state `a`,
/// with outcome `r`. Only a verified frame in the right version reaches the
/// replay cache.
pub open spec fn auth_step(
    a: ServerState,
    f: FrameFields,
    now: u64,
    r: AuthOutcome,
    b: ServerState,
) -> bool {
    let keys = key_views(a.static_keys@);
    &&& b == (ServerState { seen_nonces: b.seen_nonces, ..a })
    &&& match auth_scan(keys, f, now) {
        None => r is Rejected && b == a,
        Some(i) => match auth_try(keys[i].0, keys[i].1, f, now) {
            AuthTry::NotTheirs => false,
            AuthTry::OtherVersion(v) => b == a && r == (AuthOutcome::VersionMismatch {
                client: v,
                server: PROTO_VERSION,
            }),
            AuthTry::Theirs(p) => {
                let (ok, m) = nonce_step(
                    nonce_table(a.seen_nonces),
                    nonce_key(keys[i].0, p.nonce, p.ts),
                    p.ts,
                    now,
                );
                &&& nonce_table(b.seen_nonces) == m
                &&& match r {
                    AuthOutcome::Accepted(u, k, ap) => ok && u@ == keys[i].0 && k@ == keys[i].1
                        && ap.fields() == p,
                    AuthOutcome::Rejected => !ok,
                    _ => false,
                }
            },
        },
    }
}

/// Decrypt and verify the in-band AUTH frame at `now`. Runs the version check
/// before the replay cache so a version skew never consumes a nonce.
pub fn auth_from_frame_at(st: &mut ServerState, f: &Frame, now: u64) -> (r: AuthOutcome)
    ensures
        auth_step(*old(st), f.fields(), now, r, *final(st)),
{
    let ghost keys = key_views(st.static_keys@);
    let ghost ff = f.fields();
    let mut i: usize = 0;
    while i < st.static_keys.len()
        invariant
            i <= st.static_keys.len(),
            *st == *old(st),
            keys == key_views(st.static_keys@),
            ff == f.fields(),
            forall|j: int|
                0 <= j < i ==> auth_try((#[trigger] keys[j]).0, keys[j].1, ff, now) is NotTheirs,
        decreases st.static_keys.len() - i,
    {
        let key = st.static_keys[i].1;
        assert(keys[i as int] == (st.static_keys@[i as int].0@, key@));
        let cipher = FrameCipher::new(&key);
        if let Ok(plain) = cipher.open(f.counter, f.aad.as_slice(), f.payload.as_slice()) {
            if let Ok(ap) = AuthPayload::decode(plain.as_slice()) {
                if text::same_text(ap.uid.as_str(), st.static_keys[i].0.as_str()) {
                    if !ap.proto_version_compatible() {
                        proof {
                            lemma_auth_scan_is(keys, ff, now, i as int);
                        }
                        return AuthOutcome::VersionMismatch {
                            client: ap.proto_version,
                            server: PROTO_VERSION,
                        };
                    }
                    if ap.verify_at(&key, AUTH_WINDOW, now) {
                        proof {
                            lemma_auth_scan_is(keys, ff, now, i as int);
                        }
                        let uid = st.static_keys[i].0.clone();
                        if !st.check_and_remember_nonce_at(
                            uid.as_str(),
                            ap.nonce.as_slice(),
                            ap.ts,
                            now,
                        ) {
                            return AuthOutcome::Rejected;
                        }
                        return AuthOutcome::Accepted(uid, key, ap);
                    }
                }
            }
        }
        i += 1;
    }
    proof {
        lemma_auth_scan_is(keys, ff, now, i as int);
    }
    AuthOutcome::Rejected
}

/// Decrypt and verify the in-band AUTH frame.
pub fn auth_from_frame(st: &mut ServerState, f: &Frame, clock: &Clock) -> (r: AuthOutcome)
    ensures
        exists|now: u64|
            is_reading(*clock, now) && #[trigger] auth_step(
                *old(st),
                f.fields(),
                now,
                r,
                *final(st),
            ),
{
    let now = crypto::now_unix(clock);
    auth_from_frame_at(st, f, now)
}

/// A token that the user made is let in under that user while it is fresh,
/// unless it was seen before or the cache is full.
pub proof fn law_fresh_bearer_is_accepted(
    a: ServerState,
    uid: Seq<char>,
    ts: u64,
    nonce: Seq<u8>,
    now: u64,
    r: Option<(String, [u8; 32])>,
    b: ServerState,
)
    requires
        key_of(key_views(a.static_keys@), uid) is Some,
        uid.len() > 0,
        !uid.contains('.'),
        nonce.len() == SALT_LEN,
        fresh(now, ts, AUTH_WINDOW),
        ({
            let key = key_of(key_views(a.static_keys@), uid)->0;
            &&& auth_mac_spec(key, uid, ts, nonce).len() == MAC_LEN
            &&& bearer_step(a, Some("Bearer "@ + bearer_text(key, uid, ts, nonce)), now, r, b)
        }),
        nonce_step(nonce_table(a.seen_nonces), nonce_key(uid, nonce, ts), ts, now).0,
    ensures
        r matches Some((u, k)) && u@ == uid && Some(k@) == key_of(key_views(a.static_keys@), uid),
{
    let key = key_of(key_views(a.static_keys@), uid)->0;
    let token = bearer_text(key, uid, ts, nonce);
    let header = "Bearer "@ + token;
    reveal_strlit("Bearer ");
    reveal_strlit(".");
    assert(header.take(7) =~= "Bearer "@);
    assert(header.skip(7) =~= token);
    assert forall|j: int| 0 <= j < uid.len() implies token[j] != '.' by {
        assert(token[j] == uid[j]);
        assert(uid.contains(uid[j]));
    }
    assert(token[uid.len() as int] == '.');
    text::lemma_find_is(token, '.', uid.len() as int);
    assert(token.take(uid.len() as int) =~= uid);
    law_bearer_roundtrip(key, uid, ts, nonce, AUTH_WINDOW, now);
}

/// A bearer token is accepted at most once: in a run of looks at
/// authentication material under a clock that does not go back, once the
/// `i`-th look accepted a header, a later look at the same header is refused.
/// (A token dated at the epoch itself is not kept in the two minutes after
/// it.)
pub proof fn law_bearer_accepted_once(
    st: Seq<ServerState>,
    now: Seq<u64>,
    header: Seq<char>,
    i: int,
    ri: Option<(String, [u8; 32])>,
    j: int,
    rj: Option<(String, [u8; 32])>,
)
    requires
        st.len() == now.len() + 1,
        forall|k: int|
            0 <= k < now.len() ==> cache_step(
                nonce_table((#[trigger] st[k]).seen_nonces),
                now[k],
                nonce_table(st[k + 1].seen_nonces),
            ),
        forall|a: int, b: int| 0 <= a <= b < now.len() ==> now[a] <= now[b],
        0 <= i < j < now.len(),
        st[i].static_keys == st[j].static_keys,
        bearer_step(st[i], Some(header), now[i], ri, st[i + 1]),
        bearer_step(st[j], Some(header), now[j], rj, st[j + 1]),
        bearer_claims(key_views(st[i].static_keys@), Some(header), now[i]) matches Some(c) && c.2
            > 0,
        ri is Some,
    ensures
        rj is None,
{
    let m = st.map_values(|s: ServerState| nonce_table(s.seen_nonces));
    let keys = key_views(st[i].static_keys@);
    let c = bearer_claims(keys, Some(header), now[i])->0;
    let key = nonce_key(c.0, c.3, c.2);
    assert forall|k: int| 0 <= k < now.len() implies cache_step(
        #[trigger] m[k],
        now[k],
        m[k + 1],
    ) by {
        assert(m[k] == nonce_table(st[k].seen_nonces));
        assert(m[k + 1] == nonce_table(st[k + 1].seen_nonces));
    }
    if bearer_claims(keys, Some(header), now[j]) is Some {
        let d = bearer_claims(keys, Some(header), now[j])->0;
        assert(d == c);
        assert(m[i + 1].contains_key(key) && m[i + 1][key] == c.2);
        lemma_cached_while_fresh(m, now, key, c.2, i + 1, j);
        assert(m[j].contains_key(key));
    }
}

/// An AUTH frame is accepted at most once for a user, under the same
/// conditions.
pub proof fn law_auth_frame_accepted_once(
    st: Seq<ServerState>,
    now: Seq<u64>,
    f: FrameFields,
    i: int,
    ri: AuthOutcome,
    j: int,
    rj: AuthOutcome,
)
    requires
        st.len() == now.len() + 1,
        forall|k: int|
            0 <= k < now.len() ==> cache_step(
                nonce_table((#[trigger] st[k]).seen_nonces),
                now[k],
                nonce_table(st[k + 1].seen_nonces),
            ),
        forall|a: int, b: int| 0 <= a <= b < now.len() ==> now[a] <= now[b],
        0 <= i < j < now.len(),
        st[i].static_keys == st[j].static_keys,
        auth_step(st[i], f, now[i], ri, st[i + 1]),
        auth_step(st[j], f, now[j], rj, st[j + 1]),
        users_distinct(key_views(st[i].static_keys@)),
        ri matches AuthOutcome::Accepted(_, _, ap) && ap.ts > 0,
    ensures
        rj matches AuthOutcome::Accepted(u, _, _) ==> u@ != ri->Accepted_0@,
{
    let m = st.map_values(|s: ServerState| nonce_table(s.seen_nonces));
    let keys = key_views(st[i].static_keys@);
    let n = auth_scan(keys, f, now[i])->0;
    let p = auth_try(keys[n].0, keys[n].1, f, now[i])->Theirs_0;
    let key = nonce_key(keys[n].0, p.nonce, p.ts);
    assert forall|k: int| 0 <= k < now.len() implies cache_step(
        #[trigger] m[k],
        now[k],
        m[k + 1],
    ) by {
        assert(m[k] == nonce_table(st[k].seen_nonces));
        assert(m[k + 1] == nonce_table(st[k + 1].seen_nonces));
    }
    if rj is Accepted && rj->Accepted_0@ == ri->Accepted_0@ {
        lemma_auth_scan_in_range(keys, f, now[i]);
        lemma_auth_scan_in_range(keys, f, now[j]);
        let k = auth_scan(keys, f, now[j])->0;
        assert(keys[k].0 == keys[n].0);
        assert(k == n);
        let q = auth_try(keys[n].0, keys[n].1, f, now[j])->Theirs_0;
        assert(q == p);
        assert(m[i + 1].contains_key(key) && m[i + 1][key] == p.ts);
        lemma_cached_while_fresh(m, now, key, p.ts, i + 1, j);
        assert(m[j].contains_key(key));
    }
}

/// Every look at authentication material is one step of the replay cache, so
/// that looks of both kinds can stand in one run.
pub proof fn law_looks_are_cache_steps(
    a: ServerState,
    header: Option<Seq<char>>,
    f: FrameFields,
    now: u64,
    r: Option<(String, [u8; 32])>,
    o: AuthOutcome,
    b: ServerState,
)
    ensures
        bearer_step(a, header, now, r, b) ==> cache_step(
            nonce_table(a.seen_nonces),
            now,
            nonce_table(b.seen_nonces),
        ),
        auth_step(a, f, now, o, b) ==> cache_step(
            nonce_table(a.seen_nonces),
            now,
            nonce_table(b.seen_nonces),
        ),
{
    let m = nonce_table(a.seen_nonces);
    if bearer_step(a, header, now, r, b) {
        match bearer_claims(key_views(a.static_keys@), header, now) {
            None => {},
            Some((uid, key, ts, nonce)) => {
                assert(nonce_table(b.seen_nonces) == nonce_step(
                    m,
                    nonce_key(uid, nonce, ts),
                    ts,
                    now,
                ).1);
            },
        }
    }
    if auth_step(a, f, now, o, b) {
        let keys = key_views(a.static_keys@);
        match auth_scan(keys, f, now) {
            None => {},
            Some(i) => match auth_try(keys[i].0, keys[i].1, f, now) {
                AuthTry::Theirs(p) => {
                    assert(nonce_table(b.seen_nonces) == nonce_step(
                        m,
                        nonce_key(keys[i].0, p.nonce, p.ts),
                        p.ts,
                        now,
                    ).1);
                },
                _ => {},
            },
        }
    }
}

/// Where a user is configured twice the last password counts; who is not
/// configured has none.
pub proof fn law_last_password_counts(users: Seq<(Seq<char>, Seq<char>)>, uid: Seq<char>, i: int)
    ensures
        password_of(users, uid) is None <==> forall|j: int|
            0 <= j < users.len() ==> (#[trigger] users[j]).0 != uid,
        0 <= i < users.len() && users[i].0 == uid && (forall|j: int|
            i < j < users.len() ==> (#[trigger] users[j]).0 != uid) ==> password_of(users, uid)
            == Some(users[i].1),
    decreases users.len(),
{
    if users.len() > 0 {
        let d = users.drop_last();
        law_last_password_counts(d, uid, i);
        assert forall|j: int| 0 <= j < d.len() implies (#[trigger] d[j]) == users[j] by {}
        if password_of(users, uid) is None {
            assert forall|j: int| 0 <= j < users.len() implies (#[trigger] users[j]).0 != uid by {
                if j < d.len() {
                    assert(d[j] == users[j]);
                }
            }
        }
        if forall|j: int| 0 <= j < users.len() ==> (#[trigger] users[j]).0 != uid {
            assert(users[users.len() - 1].0 != uid);
            assert forall|j: int| 0 <= j < d.len() implies (#[trigger] d[j]).0 != uid by {
                assert(d[j] == users[j]);
            }
        }
        if 0 <= i < users.len() - 1 && users[i].0 == uid && (forall|j: int|
            i < j < users.len() ==> (#[trigger] users[j]).0 != uid) {
            assert(d[i] == users[i]);
            assert(users[users.len() - 1].0 != uid);
            assert forall|j: int| i < j < d.len() implies (#[trigger] d[j]).0 != uid by {
                assert(d[j] == users[j]);
            }
        }
    }
}

/// Each user is found with their own key, and nobody else is found.
pub proof fn law_keys_are_found_by_their_user(
    keys: Seq<(Seq<char>, Seq<u8>)>,
    uid: Seq<char>,
    i: int,
)
    ensures
        key_of(keys, uid) is None <==> forall|j: int|
            0 <= j < keys.len() ==> (#[trigger] keys[j]).0 != uid,
        0 <= i < keys.len() && (forall|j: int| 0 <= j < i ==> (#[trigger] keys[j]).0 != keys[i].0)
            ==> key_of(keys, keys[i].0) == Some(keys[i].1),
    decreases keys.len(),
{
    if keys.len() > 0 {
        let d = keys.drop_first();
        law_keys_are_found_by_their_user(d, uid, i - 1);
        if key_of(keys, uid) is None {
            assert forall|j: int| 0 <= j < keys.len() implies (#[trigger] keys[j]).0 != uid by {
                if j > 0 {
                    assert(d[j - 1] == keys[j]);
                }
            }
        }
        if forall|j: int| 0 <= j < keys.len() ==> (#[trigger] keys[j]).0 != uid {
            assert(keys[0].0 != uid);
            assert forall|j: int| 0 <= j < d.len() implies (#[trigger] d[j]).0 != uid by {
                assert(d[j] == keys[j + 1]);
            }
        }
        if 0 < i < keys.len() && (forall|j: int|
            0 <= j < i ==> (#[trigger] keys[j]).0 != keys[i].0) {
            assert(d[i - 1] == keys[i]);
            assert(keys[0].0 != keys[i].0);
            assert forall|j: int| 0 <= j < i - 1 implies (#[trigger] d[j]).0 != d[i - 1].0 by {
                assert(d[j] == keys[j + 1]);
            }
        }
    }
}

/// One address may hold an eighth of the unauthenticated connections, but at
/// least 2 and at most 64.
pub proof fn law_share_of_one_address(n: u64)
    ensures
        n < 16 ==> per_ip_cap(n) == 2,
        16 <= n < 520 ==> 8 * per_ip_cap(n) <= n < 8 * per_ip_cap(n) + 8,
        n >= 512 ==> per_ip_cap(n) == 64,
{
}

/// A bearer header is the word `Bearer`, written so or in small letters, a space
/// and the token; no other header holds a token.
pub proof fn law_bearer_headers(t: Seq<char>, h: Seq<char>)
    ensures
        bearer_token("Bearer "@ + t) == Some(t),
        bearer_token("bearer "@ + t) == Some(t),
        bearer_token(h) is Some ==> h == "Bearer "@ + bearer_token(h)->0 || h == "bearer "@
            + bearer_token(h)->0,
{
    reveal_strlit("Bearer ");
    reveal_strlit("bearer ");
    let a = "Bearer "@ + t;
    let b = "bearer "@ + t;
    assert(a.take(7) =~= "Bearer "@ && a.skip(7) =~= t);
    assert(b.take(7) =~= "bearer "@ && b.skip(7) =~= t);
    if bearer_token(h) is Some {
        assert(h.take(7) + h.skip(7) =~= h);
    }
}

/// Who shows a bearer token is taken for the user that the token names, under
/// the key of that user, and only within a minute of the token's time.
pub proof fn law_bearer_names_a_user(
    keys: Seq<(Seq<char>, Seq<u8>)>,
    header: Option<Seq<char>>,
    now: u64,
)
    ensures
        header is None ==> bearer_claims(keys, header, now) is None,
        bearer_claims(keys, header, now) matches Some((uid, key, ts, nonce)) ==> {
            &&& key_of(keys, uid) == Some(key)
            &&& header is Some && bearer_token(header->0) is Some
            &&& text::split(bearer_token(header->0)->0, '.')[0] == uid
            &&& crypto::unhex_spec(text::split(bearer_token(header->0)->0, '.')[3]) == Some(
                crypto::hmac32(key, crypto::mac_message(uid, ts, nonce)),
            )
            &&& ts <= now + 60 && now <= ts + 60
        },
{
    if bearer_claims(keys, header, now) is Some {
        let (uid, key, ts, nonce) = bearer_claims(keys, header, now)->0;
        crypto::law_good_tokens(bearer_token(header->0)->0, key, uid, now);
    }
}

/// An authentication frame is a user's where it opens under their key, names
/// them, speaks this version and was made within a minute with that key. One
/// that speaks another version is told so; anything else is not theirs.
pub proof fn law_whose_authentication_it_is(
    uid: Seq<char>,
    key: Seq<u8>,
    f: FrameFields,
    now: u64,
    a: AuthFields,
)
    ensures
        open_spec(key, f.counter, f.aad, f.payload) is Err ==> auth_try(uid, key, f, now)
            is NotTheirs,
        (open_spec(key, f.counter, f.aad, f.payload) matches Ok(plain) && auth_decoding(plain)
            is Err) ==> auth_try(uid, key, f, now) is NotTheirs,
        (open_spec(key, f.counter, f.aad, f.payload) matches Ok(plain) && auth_decoding(plain)
            is Ok && auth_decoding(plain)->Ok_0 == a) ==> {
            let t = auth_try(uid, key, f, now);
            &&& a.uid != uid ==> t is NotTheirs
            &&& a.uid == uid && a.proto_version != 1 ==> t == AuthTry::OtherVersion(a.proto_version)
            &&& a.uid == uid && a.proto_version == 1 ==> (t == AuthTry::Theirs(a) <==> a.ts <= now
                + 60 && now <= a.ts + 60 && a.mac == crypto::hmac32(
                key,
                crypto::mac_message(uid, a.ts, a.nonce),
            ))
            &&& a.uid == uid && a.proto_version == 1 && t != AuthTry::Theirs(a) ==> t is NotTheirs
        },
{
}

/// A user with a new token is let in as long as the cache of used material has
/// room for it.
pub proof fn law_new_bearer_is_accepted(
    a: ServerState,
    uid: Seq<char>,
    ts: u64,
    nonce: Seq<u8>,
    now: u64,
    r: Option<(String, [u8; 32])>,
    b: ServerState,
)
    requires
        key_of(key_views(a.static_keys@), uid) is Some,
        uid.len() > 0,
        !uid.contains('.'),
        nonce.len() == 16,
        ts <= now + 60 && now <= ts + 60,
        ({
            let key = key_of(key_views(a.static_keys@), uid)->0;
            &&& auth_mac_spec(key, uid, ts, nonce).len() == 32
            &&& bearer_step(a, Some("Bearer "@ + bearer_text(key, uid, ts, nonce)), now, r, b)
        }),
        !nonce_table(a.seen_nonces).contains_key(nonce_key(uid, nonce, ts)),
        nonce_table(a.seen_nonces).dom().finite(),
        nonce_table(a.seen_nonces).dom().len() < 50_000,
    ensures
        r matches Some((u, k)) && u@ == uid && Some(k@) == key_of(key_views(a.static_keys@), uid),
        nonce_table(b.seen_nonces).contains_key(nonce_key(uid, nonce, ts)),
{
    let m = nonce_table(a.seen_nonces);
    let k = nonce_key(uid, nonce, ts);
    crate::server::state::law_new_nonce_is_accepted(m, k, ts, now, k);
    law_fresh_bearer_is_accepted(a, uid, ts, nonce, now, r, b);
    let key = key_of(key_views(a.static_keys@), uid)->0;
    let h = "Bearer "@ + bearer_text(key, uid, ts, nonce);
    assert(bearer_claims(key_views(a.static_keys@), Some(h), now) is Some);
    lemma_claims_of_text(key_views(a.static_keys@), uid, ts, nonce, now);
}

proof fn lemma_claims_of_text(
    keys: Seq<(Seq<char>, Seq<u8>)>,
    uid: Seq<char>,
    ts: u64,
    nonce: Seq<u8>,
    now: u64,
)
    requires
        key_of(keys, uid) is Some,
        uid.len() > 0,
        !uid.contains('.'),
        nonce.len() == 16,
        fresh(now, ts, AUTH_WINDOW),
        auth_mac_spec(key_of(keys, uid)->0, uid, ts, nonce).len() == 32,
    ensures
        ({
            let key = key_of(keys, uid)->0;
            bearer_claims(keys, Some("Bearer "@ + bearer_text(key, uid, ts, nonce)), now) == Some(
                (uid, key, ts, nonce),
            )
        }),
{
    let key = key_of(keys, uid)->0;
    let token = bearer_text(key, uid, ts, nonce);
    law_bearer_headers(token, token);
    reveal_strlit(".");
    assert forall|j: int| 0 <= j < uid.len() implies token[j] != '.' by {
        assert(token[j] == uid[j]);
        assert(uid.contains(uid[j]));
    }
    assert(token[uid.len() as int] == '.');
    text::lemma_find_is(token, '.', uid.len() as int);
    assert(token.take(uid.len() as int) =~= uid);
    law_bearer_roundtrip(key, uid, ts, nonce, AUTH_WINDOW, now);
}

} // verus!
