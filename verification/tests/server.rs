//! Server: authentication, sessions, reaping, admission and targets.

use std::sync::Arc;

use newppp::client::handshake;
use newppp::clock::Clock;
use newppp::config::{CertSource, ServerConfig};
use newppp::net::Ip;
use newppp::proto::addr::UdpAddr;
use newppp::proto::crypto::{self, AuthPayload, CounterGen, FrameCipher};
use newppp::proto::frame::{
    encode_open, Frame, FrameDecoder, FrameEncoder, FrameType, FLAG_FIN, FLAG_RST, MAX_PLAINTEXT,
    PROTO_VERSION,
};
use newppp::proto::mux::OpenError;
use newppp::server::dns::{DnsCache, DEFAULT_TTL_SECS};
use newppp::server::hub::{
    close_tcp, dial_target, feed_tcp, handle_ctrl_frame, handle_datagram_frame, start_stream, stream_step, target_frame,
    udp_feed, udp_resolved, CtrlAction, FeedStep, StreamStart, StreamStep, UdpStep,
};
use newppp::server::limit::UnauthGate;
use newppp::server::state::{idle_millis, millis_of, now_millis, ConnState, ServerState};
use newppp::server::wt::{auth_ok, establish, header_value, request_ok, ConnStart, MAX_PER_CONN};
use newppp::server::{
    auth_from_frame, auth_from_frame_at, bearer_ok, bearer_user, bearer_user_at, build_state,
    AuthOutcome,
};

fn config(users: Vec<(String, String)>) -> ServerConfig {
    ServerConfig {
        listen: None,
        cert: CertSource::SelfSigned,
        fallback_listen: None,
        http_listen: None,
        acme_dir: None,
        path: "/api/ppp".into(),
        users,
        max_sessions: 10,
        rate_mbps: 0,
        idle_secs: 60,
        allow_private_targets: false,
        max_unauth: 128,
        recv_window: 1024,
        max_plaintext: MAX_PLAINTEXT as u32,
        udp_dns_ttl: DEFAULT_TTL_SECS * 1000,
        shutdown_grace: 10,
        health: None,
    }
}

fn test_state() -> ServerState {
    build_state(&config(vec![("alice".to_string(), "pw".to_string())]))
}

/// The same bearer token (same ts+nonce) must be accepted exactly once;
/// a replay within the timestamp window is rejected.
#[test]
fn bearer_replay_rejected_second_use() {
    let mut st = test_state();
    let key = crypto::derive_static_key("pw", "alice");
    let header = format!("Bearer {}", crypto::make_bearer(&key, "alice", &Clock::new()));
    assert!(bearer_user(&mut st, Some(header.as_str()), &Clock::new()).is_some());
    assert!(bearer_user(&mut st, Some(header.as_str()), &Clock::new()).is_none());
}

/// Fresh tokens (fresh nonce each mint) keep working normally.
#[test]
fn bearer_fresh_nonce_accepted_after_previous_use() {
    let mut st = test_state();
    let key = crypto::derive_static_key("pw", "alice");
    let h1 = format!("Bearer {}", crypto::make_bearer(&key, "alice", &Clock::new()));
    let h2 = format!("Bearer {}", crypto::make_bearer(&key, "alice", &Clock::new()));
    assert!(bearer_user(&mut st, Some(h1.as_str()), &Clock::new()).is_some());
    assert!(bearer_user(&mut st, Some(h2.as_str()), &Clock::new()).is_some());
}

/// Build the raw `Frame` carried by an AUTH payload sealed with `key`.
fn auth_frame(key: &[u8; 32], ap: &AuthPayload) -> Frame {
    let mut enc = FrameEncoder::new(Arc::new(FrameCipher::new(key)), CounterGen::stream());
    let wire = enc.encode(FrameType::Auth, 0, 0, &ap.encode()).unwrap();
    raw_frame(&wire)
}

fn raw_frame(wire: &[u8]) -> Frame {
    let mut dec = FrameDecoder::new(None, None);
    dec.set_raw(true);
    dec.feed(wire);
    dec.next_frame().unwrap().unwrap()
}

fn versioned_payload(key: &[u8; 32], version: u8) -> AuthPayload {
    let nonce = [7u8; 16];
    let ts = crypto::now_unix(&Clock::new());
    AuthPayload {
        proto_version: version,
        max_plaintext: MAX_PLAINTEXT as u32,
        salt: [3u8; 16],
        ts,
        nonce,
        uid: "alice".into(),
        mac: crypto::auth_mac(key, "alice", ts, &nonce),
    }
}

/// A correctly authenticated peer advertising a different protocol
/// version must be reported as a named mismatch, not silently rejected.
#[test]
fn auth_version_mismatch_is_explicit() {
    let mut st = test_state();
    let key = crypto::derive_static_key("pw", "alice");
    let ap = versioned_payload(&key, PROTO_VERSION.wrapping_add(1));
    match auth_from_frame(&mut st, &auth_frame(&key, &ap), &Clock::new()) {
        AuthOutcome::VersionMismatch { client, server } => {
            assert_eq!(client, PROTO_VERSION.wrapping_add(1));
            assert_eq!(server, PROTO_VERSION);
        }
        _ => panic!("expected VersionMismatch"),
    }
    // A mismatch must not consume the replay nonce.
    assert_eq!(st.seen_nonces.len(), 0);
}

/// Matching versions authenticate normally.
#[test]
fn auth_matching_version_succeeds() {
    let mut st = test_state();
    let key = crypto::derive_static_key("pw", "alice");
    let ap = versioned_payload(&key, PROTO_VERSION);
    assert!(matches!(
        auth_from_frame(&mut st, &auth_frame(&key, &ap), &Clock::new()),
        AuthOutcome::Accepted(..)
    ));
}

/// The nonce cache must not be polluted by traffic that fails MAC
/// verification (only verified tokens may record their nonce).
#[test]
fn bearer_bad_mac_does_not_pollute_nonce_cache() {
    let mut st = test_state();
    let key = crypto::derive_static_key("pw", "alice");
    let header = format!("Bearer {}", crypto::make_bearer(&key, "alice", &Clock::new()));
    // tamper with the MAC (last hex chunk)
    let mut tampered = header.clone();
    let last = tampered.len() - 1;
    tampered.replace_range(last.., if &tampered[last..] == "0" { "1" } else { "0" });
    assert!(bearer_user(&mut st, Some(tampered.as_str()), &Clock::new()).is_none());
    // nonce map untouched by the failed attempt
    assert_eq!(st.seen_nonces.len(), 0);
}

#[test]
fn auth_frames_are_accepted_once_and_only_while_fresh() {
    let mut st = test_state();
    let key = crypto::derive_static_key("pw", "alice");
    let mac = crypto::auth_mac(&key, "alice", 1000, &[7u8; 16]);
    let ap = AuthPayload { ts: 1000, mac, ..versioned_payload(&key, PROTO_VERSION) };
    let f = auth_frame(&key, &ap);
    assert!(matches!(auth_from_frame_at(&mut st, &f, 1061), AuthOutcome::Rejected));
    assert!(matches!(auth_from_frame_at(&mut st, &f, 1060), AuthOutcome::Accepted(..)));
    assert!(matches!(auth_from_frame_at(&mut st, &f, 1060), AuthOutcome::Rejected));
    let other = crypto::derive_static_key("pw", "mallory");
    assert!(matches!(
        auth_from_frame_at(&mut st, &auth_frame(&other, &ap), 1000),
        AuthOutcome::Rejected
    ));
}

#[test]
fn bearer_headers_are_checked_for_form() {
    let mut st = test_state();
    let key = crypto::derive_static_key("pw", "alice");
    let tok = crypto::make_bearer_at(&key, "alice", 1000, &[1u8; 16]);
    assert!(bearer_user_at(&mut st, None, 1000).is_none());
    assert!(bearer_user_at(&mut st, Some(tok.as_str()), 1000).is_none());
    assert!(!bearer_ok(&mut st, Some("Bearer nope"), &Clock::new()));
    let (uid, k) = bearer_user_at(&mut st, Some(format!("Bearer {tok}").as_str()), 1000).unwrap();
    assert_eq!((uid.as_str(), k), ("alice", key));
}

#[test]
fn a_client_handshake_opens_a_connection() {
    let mut st = test_state();
    let key = crypto::derive_static_key("pw", "alice");
    let max = MAX_PLAINTEXT as u32;
    let h = handshake::begin_at(&key, "alice", [1u8; 16], [2u8; 16], 5000, b"padding", true, max)
        .ok()
        .unwrap();
    let f = raw_frame(&h.auth_wire);
    match establish(&mut st, Some(&f), 5010, 77) {
        ConnStart::Established(e) => {
            assert_eq!((e.conn, e.uid.as_str(), e.limit), (1, "alice", MAX_PLAINTEXT));
            assert_eq!(e.session_key, h.session_key);
            let ok = auth_ok(e.limit);
            assert_eq!(ok.ftype, FrameType::AuthOk);
            let reply = frame(FrameType::AuthOk, 0, 0, &ok.payload);
            assert_eq!(handshake::auth_reply(Some(&reply)).ok(), Some(MAX_PLAINTEXT as u32));
        }
        _ => panic!("expected a connection"),
    }
    assert_eq!(st.conn_count(), 1);
    // the same frame again is a replay, and other frames open nothing
    assert!(matches!(establish(&mut st, Some(&f), 5010, 77), ConnStart::Silent));
    assert!(matches!(establish(&mut st, None, 5010, 77), ConnStart::Silent));
    let ping = frame(FrameType::Ping, 0, 0, &[]);
    assert!(matches!(establish(&mut st, Some(&ping), 5010, 77), ConnStart::Silent));
    assert_eq!(st.conn_count(), 1);
    assert!(handshake::auth_reply(Some(&ping)).is_err());
    assert!(handshake::auth_reply(None).is_err());
}

#[test]
fn fresh_handshakes_use_fresh_material() {
    let key = crypto::derive_static_key("pw", "alice");
    let (max, clock) = (MAX_PLAINTEXT as u32, Clock::new());
    let a = handshake::begin(&key, "alice", false, max, &clock).ok().unwrap();
    let b = handshake::begin(&key, "alice", false, max, &clock).ok().unwrap();
    assert_ne!(a.session_key, b.session_key);
    let mut st = test_state();
    assert!(matches!(
        auth_from_frame(&mut st, &raw_frame(&a.auth_wire), &Clock::new()),
        AuthOutcome::Accepted(..)
    ));
    assert!(handshake::begin(&key, &"x".repeat(20_000), false, max, &clock).is_err());
}

#[test]
fn version_mismatches_open_nothing() {
    let mut st = test_state();
    let key = crypto::derive_static_key("pw", "alice");
    let f = auth_frame(&key, &versioned_payload(&key, 9));
    assert!(matches!(
        establish(&mut st, Some(&f), crypto::now_unix(&Clock::new()), 0),
        ConnStart::VersionMismatch { client: 9, server: PROTO_VERSION }
    ));
    assert_eq!(st.conn_count(), 0);
}

#[test]
fn headers_are_found_whatever_their_case() {
    let h = vec![
        ("Host".to_string(), "x".to_string()),
        ("AUTHORIZATION".to_string(), "Bearer t".to_string()),
    ];
    assert_eq!(header_value(&h, "authorization").as_deref(), Some("Bearer t"));
    assert_eq!(header_value(&h, "accept"), None);
}

// ---- sessions ----

fn test_conn(id: u64) -> ConnState {
    ConnState::new(id, "u".into(), 8, now_millis())
}

#[test]
fn drop_session_reports_first_removal_only() {
    let mut conn = test_conn(1);
    conn.register(7, now_millis());
    assert!(conn.drop_session(7));
    assert!(!conn.drop_session(7));
}

/// Atomic registration must refuse a duplicate sid instead of overwriting
/// the existing handle (which would orphan its token and leak its quota).
#[test]
fn try_register_rejects_duplicate_sid() {
    let mut conn = test_conn(1);
    assert!(conn.try_register_with(7, now_millis()).is_some());
    assert!(conn.try_register_with(7, now_millis()).is_none());
    assert!(conn.drop_session(7));
}

/// A state with one connection, and its number.
fn with_conn(now: i64) -> (ServerState, u64) {
    let mut st = test_state();
    let id = st.open_conn("u".into(), 8, now);
    (st, id)
}

#[test]
fn reap_idle_releases_global_quota() {
    let now = now_millis();
    let (mut st, id) = with_conn(now - 120_000);
    st.start_session(id, 7, now - 120_000).unwrap();
    assert_eq!(st.active_sessions, 1);
    // the session was started beyond the idle timeout
    let report = st.reap_idle(now);
    assert_eq!(report.sessions, vec![(id, 7)]);
    assert!(!close_tcp(&mut st, id, 7));
    assert_eq!(st.active_sessions, 0);
}

/// Reaping an idle UDP session must also drop the relay route and cancel
/// the relay (unbinding the recv task), not just the session handle.
#[test]
fn reap_idle_cancels_udp_relay_route() {
    let now = now_millis();
    let (mut st, id) = with_conn(now - 120_000);
    st.start_udp(id, 9, now - 120_000).unwrap();
    assert_eq!(st.routes(id, 9), (false, true));
    let report = st.reap_idle(now);
    // what the report names is what the owner of the relay cancels
    assert_eq!(report.sessions, vec![(id, 9)]);
    assert_eq!(st.routes(id, 9), (false, false));
    assert_eq!(st.active_sessions, 0);
}

/// A connection with no sessions and no data activity beyond 3×idle is
/// cancelled and swept out of the connection table (keepalive pings do
/// not count as activity).
#[test]
fn reap_idle_cancels_long_idle_empty_conn() {
    let now = now_millis();
    let (mut st, id) = with_conn(now - 200_000);
    let report = st.reap_idle(now);
    assert_eq!(report.conns, vec![id]);
    assert_eq!(st.conn_count(), 0);
}

/// A connection with recent activity must never be conn-reaped, even
/// right after its sessions were individually reaped.
#[test]
fn reap_idle_keeps_active_conn() {
    let now = now_millis();
    let (mut st, id) = with_conn(now - 200_000);
    st.start_session(id, 5, now - 200_000).unwrap();
    st.touch(id, 5, now); // recent activity
    let report = st.reap_idle(now);
    assert_eq!(report.conns, Vec::<u64>::new());
    assert_eq!(st.conn_count(), 1);
}

#[test]
fn nonce_replay_rejected() {
    let mut st = test_state();
    assert!(st.check_and_remember_nonce("u", &[1u8; 16], 1000, &Clock::new()));
    assert!(!st.check_and_remember_nonce("u", &[1u8; 16], 1000, &Clock::new()));
}

#[test]
fn nonces_expire_with_their_window() {
    let mut st = test_state();
    assert!(st.check_and_remember_nonce_at("u", &[1u8; 16], 1000, 1000));
    assert!(st.check_and_remember_nonce_at("v", &[1u8; 16], 1000, 1000));
    assert_eq!(st.nonce_count(), 2);
    assert!(st.check_and_remember_nonce_at("u", &[2u8; 16], 2000, 2000));
    assert_eq!(st.nonce_count(), 1);
}

/// A duplicate Close frame (arriving after the session was already torn
/// down by a pump) must not decrement the global quota twice.
#[test]
fn close_tcp_releases_quota_exactly_once() {
    let (mut st, id) = with_conn(0);
    assert!(st.start_session(id, 1, 0).is_ok());
    assert!(close_tcp(&mut st, id, 1));
    assert_eq!(st.active_sessions, 0);
    // duplicate close on an already-removed session
    assert!(!close_tcp(&mut st, id, 1));
    assert_eq!(st.active_sessions, 0);
}

/// Opening with an already-registered sid is refused before any quota is
/// acquired; the counter must stay untouched.
#[test]
fn open_admit_denial_does_not_release_quota() {
    let (mut st, id) = with_conn(0);
    assert!(st.start_session(id, 1, 0).is_ok());
    assert_eq!(st.active_sessions, 1);
    // duplicate sid -> Denied, and no release
    assert_eq!(st.start_session(id, 1, 0), Err(OpenError::Denied));
    assert_eq!(st.active_sessions, 1);
}

#[test]
fn quotas_cap_sessions_per_connection_and_globally() {
    let (mut st, id) = with_conn(0);
    for sid in 1..=8 {
        assert_eq!(st.start_session(id, sid, 0), Ok(()));
    }
    assert_eq!(st.start_session(id, 9, 0), Err(OpenError::Limit));
    let second = st.open_conn("v".into(), 8, 0);
    assert_eq!(st.start_session(second, 1, 0), Ok(()));
    assert_eq!(st.start_session(second, 2, 0), Ok(()));
    assert_eq!(st.start_session(second, 3, 0), Err(OpenError::Limit));
    assert_eq!(st.active_sessions, 10);
    let mut gone = st.close_conn(id);
    gone.sort();
    assert_eq!(gone, (1..=8).collect::<Vec<u32>>());
    assert_eq!(st.active_sessions, 2);
    st.cancel_conn(second);
    assert_eq!(st.sweep_conns().len(), 2);
    assert_eq!((st.active_sessions, st.conn_count()), (0, 0));
}

#[test]
fn quota_slots_are_counted() {
    let mut st = test_state();
    for _ in 0..10 {
        assert!(st.try_acquire_session());
    }
    assert!(!st.try_acquire_session());
    st.release_session();
    assert!(st.try_acquire_session());
}

#[test]
fn idle_time_is_measured_in_milliseconds() {
    assert_eq!(millis_of(Some(1_700_000_000_123)), 1_700_000_000_123);
    assert_eq!(millis_of(None), 0);
    assert!(now_millis() > 1_600_000_000_000);
    assert_eq!(idle_millis(1500, 1000), 500);
    // a clock that was set back has not been idle
    assert_eq!(idle_millis(1000, 1500), 0);
    assert_eq!(idle_millis(i64::MAX, i64::MIN), i64::MAX as u64);
}

// ---- frames toward the target ----

fn frame(ftype: FrameType, flags: u16, sid: u32, payload: &[u8]) -> Frame {
    Frame { ftype, flags, sid, counter: 0, aad: [0u8; 12], payload: payload.to_vec() }
}

#[test]
fn data_goes_to_routes_and_aborts_end_sessions() {
    let (mut st, id) = with_conn(0);
    st.start_session(id, 1, 0).unwrap();
    assert_eq!(feed_tcp(&mut st, id, 1, false, 5), FeedStep::Unknown);
    st.add_tcp_route(id, 1);
    assert_eq!(feed_tcp(&mut st, id, 1, false, 5), FeedStep::Forward);
    assert_eq!(feed_tcp(&mut st, id, 1, true, 5), FeedStep::Ended(true));
    assert_eq!(feed_tcp(&mut st, id, 1, true, 5), FeedStep::Ended(false));
}

/// Whatever is done with it, what arrives for a session refreshes the
/// connection first.
#[test]
fn arriving_data_refreshes_the_connection() {
    let now = 10_000_000;
    let (mut st, id) = with_conn(0);
    assert_eq!(feed_tcp(&mut st, id, 1, true, now), FeedStep::Ended(false));
    assert_eq!(st.reap_idle(now + 1000).conns, Vec::<u64>::new());
    let (mut st, id) = with_conn(0);
    let dst = UdpAddr::V4([8, 8, 8, 8], 53);
    assert!(matches!(udp_feed(&mut st, id, 1, &dst, now, 0), UdpStep::Unknown));
    assert_eq!(st.reap_idle(now + 1000).conns, Vec::<u64>::new());
    let (mut st, id) = with_conn(0);
    assert_eq!(st.reap_idle(now + 1000).conns, vec![id]);
}

/// Sessions whose clock was set back are not reaped.
#[test]
fn a_clock_set_back_reaps_nothing() {
    let (mut st, id) = with_conn(1_000_000);
    st.start_session(id, 1, 1_000_000).unwrap();
    let report = st.reap_idle(999_999);
    assert!(report.sessions.is_empty() && report.conns.is_empty());
}

/// A name is looked up once; datagrams that follow use the answer until its
/// time is over. Private addresses get no datagrams, however they are named.
#[test]
fn datagrams_ask_the_resolver_cache_first() {
    let (mut st, id) = with_conn(0);
    let ttl = DEFAULT_TTL_SECS * 1000;
    let name = UdpAddr::Domain("dns.example".into(), 53);
    assert!(matches!(udp_feed(&mut st, id, 2, &name, 5, 0), UdpStep::Unknown));
    st.start_udp(id, 2, 0).unwrap();
    match udp_feed(&mut st, id, 2, &name, 5, 100) {
        UdpStep::Resolve(host, 53) => assert_eq!(host, "dns.example"),
        other => panic!("unexpected {other:?}"),
    }
    let ip = Ip::V4(0x0808_0404);
    assert!(matches!(udp_resolved(&mut st, "dns.example", 53, None, 100), UdpStep::Unresolved));
    assert!(matches!(udp_feed(&mut st, id, 2, &name, 5, 100), UdpStep::Resolve(..)));
    assert!(matches!(
        udp_resolved(&mut st, "dns.example", 53, Some(ip), 100),
        UdpStep::Send(a, 53) if a == ip
    ));
    udp_resolved(&mut st, "other.example", 53, Some(Ip::V4(0x0101_0101)), 200);
    assert!(matches!(
        udp_feed(&mut st, id, 2, &name, 5, 100 + ttl - 1),
        UdpStep::Send(a, 53) if a == ip
    ));
    assert!(matches!(udp_feed(&mut st, id, 2, &name, 5, 100 + ttl), UdpStep::Resolve(..)));

    let v6 = UdpAddr::V6([0x20, 1, 0x48, 0x60, 0, 0, 0, 0, 0, 0, 0, 0, 0, 0, 0x88, 0x88], 53);
    assert!(matches!(
        udp_feed(&mut st, id, 2, &v6, 5, 0),
        UdpStep::Send(Ip::V6(0x2001_4860_0000_0000_0000_0000_0000_8888), 53)
    ));
    let v4 = UdpAddr::V4([8, 8, 4, 4], 53);
    assert!(matches!(udp_feed(&mut st, id, 2, &v4, 5, 0), UdpStep::Send(a, 53) if a == ip));
    let private = UdpAddr::V4([10, 0, 0, 1], 53);
    assert!(matches!(udp_feed(&mut st, id, 2, &private, 5, 0), UdpStep::Denied));
    assert!(matches!(
        udp_resolved(&mut st, "in.example", 53, Some(Ip::V4(0x0a00_0001)), 0),
        UdpStep::Denied
    ));
    let inner = UdpAddr::Domain("in.example".into(), 53);
    assert!(matches!(udp_feed(&mut st, id, 2, &inner, 5, 1), UdpStep::Denied));
}

/// A session is counted once, cannot be registered twice and is dropped once.
#[test]
fn registered_sessions_are_counted() {
    let mut c = test_conn(1);
    let before = c.session_count();
    c.register(7, 10);
    assert_eq!(c.session_count(), before + 1);
    assert!(c.try_register_with(7, 11).is_none());
    assert_eq!(c.session_count(), before + 1);
    assert!(c.drop_session(7));
    assert!(!c.drop_session(7));
    assert_eq!(c.session_count(), before);
}

/// Both ends use the smaller of their frame limits.
#[test]
fn the_smaller_frame_limit_is_agreed_on() {
    let key = crypto::derive_static_key("pw", "alice");
    for (client, server, agreed) in [(65536, 32768, 32768), (16384, 32768, 16384), (1 << 20, 1 << 20, 1 << 20)] {
        let users = vec![("alice".to_string(), "pw".to_string())];
        let mut st = build_state(&ServerConfig { max_plaintext: server, ..config(users) });
        let h = handshake::begin_at(&key, "alice", [1u8; 16], [2u8; 16], 5000, b"", true, client)
            .ok()
            .unwrap();
        match establish(&mut st, Some(&raw_frame(&h.auth_wire)), 5000, 0) {
            ConnStart::Established(e) => {
                assert_eq!(e.limit, agreed as usize);
                let reply = frame(FrameType::AuthOk, 0, 0, &auth_ok(e.limit).payload);
                assert_eq!(handshake::auth_reply(Some(&reply)).ok(), Some(agreed));
            }
            _ => panic!("expected a connection"),
        }
    }
}

/// Tokens are judged by the calibrated clock, not by the system's alone.
#[test]
fn calibration_reaches_the_authentication() {
    let mut st = test_state();
    let key = crypto::derive_static_key("pw", "alice");
    let ahead = Clock { offset: 1000 };
    let header = format!("Bearer {}", crypto::make_bearer(&key, "alice", &ahead));
    assert!(bearer_user(&mut st, Some(header.as_str()), &Clock::new()).is_none());
    assert!(bearer_user(&mut st, Some(header.as_str()), &ahead).is_some());
    let h = handshake::begin(&key, "alice", false, MAX_PLAINTEXT as u32, &ahead).ok().unwrap();
    let f = raw_frame(&h.auth_wire);
    assert!(matches!(auth_from_frame(&mut st, &f, &Clock::new()), AuthOutcome::Rejected));
    assert!(matches!(auth_from_frame(&mut st, &f, &ahead), AuthOutcome::Accepted(..)));
}

#[test]
fn dedicated_streams_begin_with_an_open() {
    let (mut st, id) = with_conn(0);
    let open = frame(FrameType::Open, 0, 4, &encode_open("example.com", 443));
    match start_stream(&mut st, id, &open, 0) {
        StreamStart::Dial(4, host, 443) => assert_eq!(host, "example.com"),
        other => panic!("unexpected {other:?}"),
    }
    assert!(matches!(start_stream(&mut st, id, &open, 0), StreamStart::Silence));
    let bad = frame(FrameType::Open, 0, 5, &[]);
    assert!(matches!(
        start_stream(&mut st, id, &bad, 0),
        StreamStart::Refuse(5, OpenError::BadTarget)
    ));
    assert_eq!(st.active_sessions, 1);
    assert!(matches!(
        start_stream(&mut st, id, &frame(FrameType::Ping, 0, 6, &[]), 0),
        StreamStart::Silence
    ));
}

#[test]
fn stream_frames_are_forwarded_until_their_end() {
    assert!(matches!(
        stream_step(Some(frame(FrameType::Data, FLAG_FIN, 1, b"x"))),
        StreamStep::Write(d, true) if d == b"x"
    ));
    assert!(matches!(
        stream_step(Some(frame(FrameType::Close, FLAG_RST, 1, &[]))),
        StreamStep::Abort
    ));
    assert!(matches!(
        stream_step(Some(frame(FrameType::Close, FLAG_FIN, 1, &[]))),
        StreamStep::HalfClose
    ));
    assert!(matches!(stream_step(None), StreamStep::HalfClose));
    let (f, goes_on) = target_frame(3, Ok(b"abc".to_vec()));
    assert_eq!((f.ftype, f.sid, f.payload.as_slice()), (FrameType::Data, 3, &b"abc"[..]));
    assert!(goes_on);
    let (f, goes_on) = target_frame(3, Ok(vec![]));
    assert!(!goes_on && f.flags & FLAG_FIN != 0);
    let (f, goes_on) = target_frame(3, Err(()));
    assert!(!goes_on && f.ftype == FrameType::Close && f.flags == FLAG_RST);
    assert!(matches!(
        handle_ctrl_frame(frame(FrameType::Ping, 0, 0, &[])),
        CtrlAction::Pong
    ));
    assert!(matches!(
        handle_datagram_frame(frame(FrameType::Ping, 0, 0, &[])),
        CtrlAction::Nothing
    ));
}

#[test]
fn private_targets_are_not_dialed_by_default() {
    let public = Ip::V4(0x0808_0808);
    let loopback = Ip::V4(0x7f00_0001);
    let mapped = Ip::V6(0xffff_7f00_0001);
    let all = vec![loopback, mapped, public];
    assert_eq!(dial_target("h", &all, false).unwrap(), vec![public]);
    assert_eq!(dial_target("h", &all, true).unwrap(), all);
    assert_eq!(dial_target("h", &vec![loopback], false).unwrap_err(), OpenError::Denied);
    assert_eq!(dial_target("h", &vec![], false).unwrap_err(), OpenError::DialFailed);
    assert_eq!(dial_target("", &all, false).unwrap_err(), OpenError::BadTarget);
}

// ---- admission ----

#[test]
fn unauth_gate_enforces_per_ip_and_global_caps() {
    let mut gate = UnauthGate::new(3, 2);
    let a = Ip::V4(0x0a00_0001);
    let b = Ip::V4(0x0a00_0002);
    let g1 = gate.try_admit(Some(a)).expect("first");
    let g2 = gate.try_admit(Some(a)).expect("second");
    assert!(gate.try_admit(Some(a)).is_none(), "per-IP cap");
    assert_eq!(gate.pending(), 2);
    let g3 = gate.try_admit(Some(b)).expect("other ip");
    assert_eq!(gate.pending(), 3);
    assert!(gate.try_admit(Some(b)).is_none(), "global cap");
    // Releasing one connection frees exactly one slot.
    gate.release(g1);
    assert_eq!(gate.pending(), 2);
    let g4 = gate.try_admit(Some(b)).expect("slot freed");
    assert_eq!(gate.pending(), 3);
    gate.release(g2);
    gate.release(g3);
    gate.release(g4);
    assert_eq!(gate.pending(), 0);
}

#[test]
fn unauth_gate_global_only_for_cdn_peers() {
    let mut gate = UnauthGate::new(2, 1);
    let g1 = gate.try_admit(None).expect("first");
    let g2 = gate.try_admit(None).expect("second");
    assert!(gate.try_admit(None).is_none());
    gate.release(g1);
    assert!(gate.try_admit(Some(Ip::V4(0x0a00_0009))).is_some());
    gate.release(g2);
}

/// Authenticated traffic must be unaffected by the admission limiter: it only
/// counts slots explicitly taken from it.
#[test]
fn unauth_gate_does_not_touch_other_state() {
    let mut gate = UnauthGate::new(1, 1);
    let _held = gate.try_admit(None).unwrap();
    assert!(gate.try_admit(None).is_none());
    assert_eq!(gate.pending(), 1);
}

#[test]
fn admission_caps_follow_the_configuration() {
    let mut st = build_state(&ServerConfig { max_unauth: 32, ..config(vec![]) });
    let ip = Some(Ip::V4(0x0a00_0001));
    for _ in 0..4 {
        assert!(st.unauth.try_admit(ip).is_some());
    }
    assert!(st.unauth.try_admit(ip).is_none());
    assert_eq!(MAX_PER_CONN, 64);
}

/// A session request passes with a fresh token of a known user, once.
#[test]
fn session_requests_need_a_fresh_token() {
    let mut st = test_state();
    let key = crypto::derive_static_key("pw", "alice");
    let now = 1_700_000_000u64;
    let token = crypto::make_bearer_at(&key, "alice", now, &[5u8; 16]);
    let good = vec![
        ("user-agent".to_string(), "x".to_string()),
        ("Authorization".to_string(), format!("Bearer {token}")),
    ];
    assert!(!request_ok(&mut st, &vec![good[0].clone()], now));
    assert!(!request_ok(&mut st, &good, now + 61));
    assert!(request_ok(&mut st, &good, now + 60));
    assert!(!request_ok(&mut st, &good, now));
}

/// Answers of the resolver are used for an hour, each under its own name.
#[test]
fn resolver_answers_are_kept_for_their_time() {
    let ttl = DEFAULT_TTL_SECS * 1000;
    assert_eq!(ttl, 3_600_000);
    let mut c = DnsCache::new(ttl);
    assert_eq!(c.lookup("a.example", 0), None);
    c.store("a.example", Ip::V4(1), 1000);
    c.store("b.example", Ip::V4(2), 2000);
    assert_eq!(c.lookup("a.example", 1000 + ttl - 1), Some(Ip::V4(1)));
    assert_eq!(c.lookup("a.example", 1000 + ttl), None);
    assert_eq!(c.lookup("b.example", 1000 + ttl), Some(Ip::V4(2)));
    assert_eq!(c.lookup("A.example", 1000), None);
    c.store("a.example", Ip::V6(3), 5000);
    assert_eq!(c.lookup("a.example", 5000), Some(Ip::V6(3)));
    assert_eq!(c.lookup("b.example", 5000), Some(Ip::V4(2)));
    // without a time nothing is kept
    let mut c = DnsCache::new(0);
    c.store("a.example", Ip::V4(1), 1000);
    assert_eq!(c.lookup("a.example", 1000), None);
    assert_eq!(c.lookup("a.example", 999), None);
}
