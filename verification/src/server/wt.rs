//! WebTransport listener: who is let in, and what the session agrees on.

use vstd::prelude::*;

use crate::proto::crypto::{
    auth_encoding, derive_session_key, law_auth_payload_roundtrip, session_key_spec, AuthFields,
    AUTH_WINDOW,
};
use crate::proto::frame::{
    is_frame, negotiate, Frame, FrameFields, FrameType, HEADER_LEN, PROTO_VERSION,
};
use crate::proto::mux::OutFrame;
use crate::server::state::{
    nonce_key, nonce_step, nonce_table, same_rest, ConnView, ServerState, SessionHandle,
};
use crate::server::{
    auth_from_frame_at, auth_step, auth_try, bearer_step, bearer_user_at, key_views,
    lemma_auth_scan_is, AuthOutcome, AuthTry,
};
use crate::text;
use crate::wire;

verus! {

/// How long a new connection may take to authenticate, in seconds.
pub const AUTH_TIMEOUT_SECS: u64 = 10;

/// Sessions that one connection may carry.
pub const MAX_PER_CONN: usize = 64;

// ---------------------------------------------------------------------------
// Request headers
// ---------------------------------------------------------------------------
/// Names and values, as text.
pub open spec fn header_views(h: Seq<(String, String)>) -> Seq<(Seq<char>, Seq<char>)> {
    h.map_values(|p: (String, String)| (p.0@, p.1@))
}

/// The value of the first header with this name, whatever its case.
pub open spec fn header_of(h: Seq<(Seq<char>, Seq<char>)>, name: Seq<char>) -> Option<Seq<char>>
    decreases h.len(),
{
    if h.len() == 0 {
        None
    } else if text::same_ignoring_case(h[0].0, name) {
        Some(h[0].1)
    } else {
        header_of(h.drop_first(), name)
    }
}

pub fn header_value(headers: &Vec<(String, String)>, name: &str) -> (r: Option<String>)
    ensures
        header_of(header_views(headers@), name@) == match r {
            Some(v) => Some(v@),
            None => None,
        },
{
    let ghost all = header_views(headers@);
    let mut i: usize = 0;
    assert(all.skip(0) =~= all);
    while i < headers.len()
        invariant
            i <= headers.len(),
            all == header_views(headers@),
            header_of(all, name@) == header_of(all.skip(i as int), name@),
        decreases headers.len() - i,
    {
        let ghost rest = all.skip(i as int);
        assert(rest[0] == all[i as int]);
        assert(all[i as int] == (headers@[i as int].0@, headers@[i as int].1@));
        if text::equal_ignoring_case(text::chars_of(headers[i].0.as_str()).as_slice(), name) {
            return Some(text::own(headers[i].1.as_str()));
        }
        assert(rest.drop_first() =~= all.skip(i + 1));
        i += 1;
    }
    None
}

/// Whether a session request is let in, by the bearer token among its headers.
/// One that is not is answered like any unknown page.
pub fn request_ok(st: &mut ServerState, headers: &Vec<(String, String)>, now: u64) -> (r: bool)
    ensures
        exists|u: Option<(String, [u8; 32])>| #[trigger]
            bearer_step(
                *old(st),
                header_of(header_views(headers@), "authorization"@),
                now,
                u,
                *final(st),
            ) && r == (u is Some),
{
    let value = header_value(headers, "authorization");
    let u = match &value {
        Some(v) => bearer_user_at(st, Some(v.as_str()), now),
        None => bearer_user_at(st, None, now),
    };
    u.is_some()
}

// ---------------------------------------------------------------------------
// Handshake
// ---------------------------------------------------------------------------
/// An authenticated connection.
pub struct Established {
    /// Its number in the server's tables.
    pub conn: u64,
    pub uid: String,
    pub session_key: [u8; 32],
    /// The largest frame payload of the session.
    pub limit: usize,
}

/// What becomes of a new channel.
pub enum ConnStart {
    /// Close it without a word, as a probe would find it.
    Silent,
    /// Close it and log that the peer speaks another protocol version.
    VersionMismatch { client: u8, server: u8 },
    /// Go on with it.
    Established(Established),
}

/// A connection as it begins.
pub open spec fn new_conn(id: u64, uid: Seq<char>, now: i64) -> ConnView {
    ConnView {
        id,
        uid,
        sessions: Map::<u32, SessionHandle>::empty(),
        tcp: Set::<u32>::empty(),
        udp: Set::<u32>::empty(),
        max_per_conn: MAX_PER_CONN as nat,
        last_active: now,
        cancelled: false,
    }
}

/// `e` and `b` are what an accepted AUTH frame makes of the state `m`.
pub open spec fn is_established(
    m: ServerState,
    uid: Seq<char>,
    key: Seq<u8>,
    p: AuthFields,
    now: i64,
    e: Established,
    b: ServerState,
) -> bool {
    &&& e.uid@ == uid
    &&& e.session_key@ == session_key_spec(key, p.salt)
    &&& e.limit == if p.max_plaintext < m.max_plaintext {
        p.max_plaintext
    } else {
        m.max_plaintext
    }
    &&& e.conn == m.conn_seq
    &&& !m.table().contains_key(e.conn)
    &&& b.table() == m.table().insert(e.conn, new_conn(e.conn, uid, now))
    &&& b.conn_seq == m.conn_seq + 1
    &&& b.active_sessions == m.active_sessions
    &&& same_rest(m, b)
}

/// The first frame of a channel has arrived, or none did in time. Only an AUTH
/// frame that verifies opens a connection. `secs` is the time in seconds for
/// the authentication, `millis` that in milliseconds for the connection.
pub fn establish(st: &mut ServerState, first: Option<&Frame>, secs: u64, millis: i64) -> (r:
    ConnStart)
    requires
        old(st).quota_ok(),
        old(st).conn_seq < u64::MAX,
    ensures
        final(st).quota_ok(),
        match first {
            None => r is Silent && *final(st) == *old(st),
            Some(f) => if f.ftype != FrameType::Auth {
                r is Silent && *final(st) == *old(st)
            } else {
                exists|m: ServerState, o: AuthOutcome| #[trigger]
                    auth_step(*old(st), f.fields(), secs, o, m) && match o {
                        AuthOutcome::Rejected => r is Silent && *final(st) == m,
                        AuthOutcome::VersionMismatch { client, server } => *final(st) == m && r == (
                        ConnStart::VersionMismatch { client, server }),
                        AuthOutcome::Accepted(u, k, p) => r matches ConnStart::Established(e)
                            && is_established(m, u@, k@, p.fields(), millis, e, *final(st)),
                    }
            },
        },
{
    match first {
        None => ConnStart::Silent,
        Some(f) => {
            if f.ftype != FrameType::Auth {
                return ConnStart::Silent;
            }
            let o = auth_from_frame_at(st, f, secs);
            let ghost m = *st;
            proof {
                assert(auth_step(*old(st), f.fields(), secs, o, m));
                assert(m.table() == old(st).table());
            }
            match o {
                AuthOutcome::Rejected => ConnStart::Silent,
                AuthOutcome::VersionMismatch { client, server } => ConnStart::VersionMismatch {
                    client,
                    server,
                },
                AuthOutcome::Accepted(uid, key, ap) => {
                    let session_key = derive_session_key(&key, &ap.salt);
                    let limit = negotiate(ap.max_plaintext, st.max_plaintext);
                    let conn = st.open_conn(uid.clone(), MAX_PER_CONN, millis);
                    let e = Established { conn, uid, session_key, limit };
                    proof {
                        assert(is_established(m, uid@, key@, ap.fields(), millis, e, *st));
                    }
                    ConnStart::Established(e)
                },
            }
        },
    }
}

/// The frame that tells the client it is in: the negotiated limit, so that it
/// can size its encoders before it sends any data.
pub fn auth_ok(limit: usize) -> (r: OutFrame)
    requires
        limit <= u32::MAX,
    ensures
        r.is(FrameType::AuthOk, 0, 0, wire::le(limit as nat, 4)),
{
    let mut v: Vec<u8> = Vec::new();
    wire::push_le(&mut v, limit as u64, 4);
    assert(v@ =~= wire::le(limit as nat, 4));
    OutFrame::new(FrameType::AuthOk, 0, 0, v)
}

// ---------------------------------------------------------------------------
// Laws
// ---------------------------------------------------------------------------
/// The frame that a raw reader makes of an encoded AUTH frame: the payload is
/// still sealed.
pub open spec fn raw_auth_frame(counter: u64, w: Seq<u8>) -> FrameFields {
    FrameFields {
        ftype: FrameType::Auth,
        flags: 0,
        sid: 0,
        counter,
        aad: w.take(12),
        payload: w.skip(HEADER_LEN as int),
    }
}

/// A good AUTH payload of the user with this id and key, made at `ts`.
pub open spec fn good_auth(f: AuthFields, uid: Seq<char>, key: Seq<u8>, now: u64) -> bool {
    &&& f.uid == uid
    &&& f.proto_version == PROTO_VERSION
    &&& f.salt.len() == 16
    &&& f.nonce.len() == 16
    &&& f.mac.len() == 32
    &&& vstd::utf8::encode_utf8(uid).len() <= 255
    &&& crate::proto::crypto::auth_accepted(f, key, AUTH_WINDOW, now)
}

/// An AUTH frame that a client seals with its key, whatever padding it adds,
/// is that user's frame to the server.
pub proof fn law_sealed_auth_is_recognised(
    f: AuthFields,
    padding: Seq<u8>,
    uid: Seq<char>,
    key: Seq<u8>,
    counter: u64,
    w: Seq<u8>,
    now: u64,
)
    requires
        good_auth(f, uid, key, now),
        is_frame(key, FrameType::Auth, 0, 0, counter, auth_encoding(f) + padding, w),
    ensures
        auth_try(uid, key, raw_auth_frame(counter, w), now) == AuthTry::Theirs(f),
{
    let payload = auth_encoding(f) + padding;
    let h = crate::proto::frame::header_spec(
        FrameType::Auth,
        0,
        0,
        (payload.len() + crate::proto::crypto::TAG_LEN) as nat,
        counter,
    );
    wire::lemma_le_len(0, 2);
    wire::lemma_le_len(0, 4);
    wire::lemma_le_len((payload.len() + crate::proto::crypto::TAG_LEN) as nat, 4);
    wire::lemma_le_len(counter as nat, 8);
    assert(w.take(12) =~= h.take(12));
    assert(w.skip(HEADER_LEN as int) =~= crate::proto::crypto::seal_spec(
        key,
        counter,
        h.take(12),
        payload,
    ));
    law_auth_payload_roundtrip(f, padding);
}

/// The server lets such a client in, under its own id and with the payload it
/// sent, so that both ends derive the same session key: unless the frame was
/// seen before, or looks like a frame of a user listed earlier.
pub proof fn law_fresh_auth_is_accepted(
    a: ServerState,
    i: int,
    f: AuthFields,
    padding: Seq<u8>,
    counter: u64,
    w: Seq<u8>,
    now: u64,
    r: AuthOutcome,
    b: ServerState,
)
    requires
        0 <= i < a.static_keys@.len(),
        ({
            let keys = key_views(a.static_keys@);
            &&& good_auth(f, keys[i].0, keys[i].1, now)
            &&& is_frame(
                keys[i].1,
                FrameType::Auth,
                0,
                0,
                counter,
                auth_encoding(f) + padding,
                w,
            )
            &&& forall|j: int|
                0 <= j < i ==> auth_try(
                    (#[trigger] keys[j]).0,
                    keys[j].1,
                    raw_auth_frame(counter, w),
                    now,
                ) is NotTheirs
            &&& nonce_step(
                nonce_table(a.seen_nonces),
                nonce_key(keys[i].0, f.nonce, f.ts),
                f.ts,
                now,
            ).0
        }),
        auth_step(a, raw_auth_frame(counter, w), now, r, b),
    ensures
        r matches AuthOutcome::Accepted(u, k, p) && u@ == key_views(a.static_keys@)[i].0 && k@
            == key_views(a.static_keys@)[i].1 && p.fields() == f,
{
    let keys = key_views(a.static_keys@);
    law_sealed_auth_is_recognised(f, padding, keys[i].0, keys[i].1, counter, w, now);
    lemma_auth_scan_is(keys, raw_auth_frame(counter, w), now, i);
}

/// The number that an AuthOk payload carries is the one the server put there.
pub proof fn law_limit_echo_is_understood(limit: nat)
    requires
        limit <= u32::MAX,
    ensures
        wire::le(limit, 4).len() == 4,
        wire::le_value(wire::le(limit, 4)) == limit,
{
    wire::lemma_pow256();
    wire::lemma_le_roundtrip(limit, 4);
}

/// The first header of a name counts, whatever case the name is written in.
pub proof fn law_first_header_counts(h: Seq<(Seq<char>, Seq<char>)>, name: Seq<char>, i: int)
    ensures
        header_of(h, name) is None <==> forall|j: int|
            0 <= j < h.len() ==> !text::same_ignoring_case((#[trigger] h[j]).0, name),
        0 <= i < h.len() && text::same_ignoring_case(h[i].0, name) && (forall|j: int|
            0 <= j < i ==> !text::same_ignoring_case((#[trigger] h[j]).0, name)) ==> header_of(
            h,
            name,
        ) == Some(h[i].1),
    decreases h.len(),
{
    if h.len() > 0 {
        let d = h.drop_first();
        law_first_header_counts(d, name, i - 1);
        if header_of(h, name) is None {
            assert forall|j: int| 0 <= j < h.len() implies !text::same_ignoring_case(
                (#[trigger] h[j]).0,
                name,
            ) by {
                if j > 0 {
                    assert(d[j - 1] == h[j]);
                }
            }
        }
        if forall|j: int|
            0 <= j < h.len() ==> !text::same_ignoring_case((#[trigger] h[j]).0, name) {
            assert(!text::same_ignoring_case(h[0].0, name));
            assert forall|j: int| 0 <= j < d.len() implies !text::same_ignoring_case(
                (#[trigger] d[j]).0,
                name,
            ) by {
                assert(d[j] == h[j + 1]);
            }
        }
        if 0 < i < h.len() && text::same_ignoring_case(h[i].0, name) && (forall|j: int|
            0 <= j < i ==> !text::same_ignoring_case((#[trigger] h[j]).0, name)) {
            assert(d[i - 1] == h[i]);
            assert(!text::same_ignoring_case(h[0].0, name));
            assert forall|j: int| 0 <= j < i - 1 implies !text::same_ignoring_case(
                (#[trigger] d[j]).0,
                name,
            ) by {
                assert(d[j] == h[j + 1]);
            }
        }
    }
}

/// A connection that was let in carries nothing yet and may carry 64 sessions;
/// it has a number that no other connection has, the smaller of the two limits,
/// and a key that only this user's key and this login's salt make. The other
/// connections stay as they are.
pub proof fn law_new_connection(
    m: ServerState,
    uid: Seq<char>,
    key: Seq<u8>,
    p: AuthFields,
    now: i64,
    e: Established,
    b: ServerState,
    other: u64,
)
    requires
        is_established(m, uid, key, p, now, e, b),
    ensures
        b.table().contains_key(e.conn) && !m.table().contains_key(e.conn),
        ({
            let c = b.table()[e.conn];
            &&& c.id == e.conn && c.uid == uid
            &&& c.max_per_conn == 64
            &&& c.last_active == now
            &&& !c.cancelled
            &&& forall|sid: u32|
                !#[trigger] c.sessions.contains_key(sid) && !c.tcp.contains(sid) && !c.udp.contains(
                    sid,
                )
        }),
        other != e.conn ==> (b.table().contains_key(other) <==> m.table().contains_key(other)),
        other != e.conn && m.table().contains_key(other) ==> b.table()[other] == m.table()[other],
        b.conn_seq == m.conn_seq + 1 && e.conn == m.conn_seq,
        e.limit <= p.max_plaintext && e.limit <= m.max_plaintext,
        e.limit == p.max_plaintext || e.limit == m.max_plaintext,
        e.session_key@ == session_key_spec(key, p.salt),
        b.active_sessions == m.active_sessions,
{
}

/// A login with material that was not used is let in as long as the cache has
/// room for it.
pub proof fn law_new_auth_is_accepted(
    a: ServerState,
    i: int,
    f: AuthFields,
    padding: Seq<u8>,
    counter: u64,
    w: Seq<u8>,
    now: u64,
    r: AuthOutcome,
    b: ServerState,
)
    requires
        0 <= i < a.static_keys@.len(),
        ({
            let keys = key_views(a.static_keys@);
            &&& good_auth(f, keys[i].0, keys[i].1, now)
            &&& is_frame(
                keys[i].1,
                FrameType::Auth,
                0,
                0,
                counter,
                auth_encoding(f) + padding,
                w,
            )
            &&& forall|j: int|
                0 <= j < i ==> auth_try(
                    (#[trigger] keys[j]).0,
                    keys[j].1,
                    raw_auth_frame(counter, w),
                    now,
                ) is NotTheirs
            &&& !nonce_table(a.seen_nonces).contains_key(nonce_key(keys[i].0, f.nonce, f.ts))
        }),
        nonce_table(a.seen_nonces).dom().finite(),
        nonce_table(a.seen_nonces).dom().len() < 50_000,
        auth_step(a, raw_auth_frame(counter, w), now, r, b),
    ensures
        r matches AuthOutcome::Accepted(u, k, p) && u@ == key_views(a.static_keys@)[i].0 && k@
            == key_views(a.static_keys@)[i].1 && p.fields() == f,
{
    let k = nonce_key(key_views(a.static_keys@)[i].0, f.nonce, f.ts);
    crate::server::state::law_new_nonce_is_accepted(nonce_table(a.seen_nonces), k, f.ts, now, k);
    law_fresh_auth_is_accepted(a, i, f, padding, counter, w, now, r, b);
}

/// What a good login is: it names its user, speaks version 1, and its code was
/// made with the user's key within a minute.
pub proof fn law_good_logins(f: AuthFields, uid: Seq<char>, key: Seq<u8>, now: u64)
    ensures
        good_auth(f, uid, key, now) <==> f.uid == uid && f.proto_version == 1 && f.salt.len() == 16
            && f.nonce.len() == 16 && f.mac.len() == 32 && vstd::utf8::encode_utf8(uid).len() <= 255
            && f.ts <= now + 60 && now <= f.ts + 60 && f.mac == crate::proto::crypto::hmac32(
            key,
            crate::proto::crypto::mac_message(f.uid, f.ts, f.nonce),
        ),
{
}

/// A new connection may take ten seconds to authenticate.
pub proof fn law_time_to_authenticate()
    ensures
        AUTH_TIMEOUT_SECS == 10,
{
}

} // verus!
