//! Client: transport choice, the pool, the local proxies and TLS identity.

use newppp::client::ech::{EchError, HpkeX25519Sha256ChaCha20, ENC_LEN};
use newppp::client::fallback::{
    accepts_channel, after_attempt, needs_connect, post_headers, HttpOutbound, Retry,
};
use newppp::client::http_proxy::{
    find_double_crlf, head_step, parse_host_port, reply_error, HeadStep, ProxyError,
};
use newppp::client::masquerade::{can_mask, fallback_plan, pool_plan, url_host_and_port, UrlError};
use newppp::client::outbound::{
    error_tag, target_error, CircuitBreaker, ClientError, NextStep, Outbound, Path, TargetError,
};
use newppp::client::socks5::{
    bound_reply, client_endpoint, credentials, credentials_reply, failure_code, greeting,
    idle_left, method_reply, read_request, read_target, reply, Progress, SocksError, SocksRequest,
    TargetHost,
};
use newppp::client::tls::{trust, PinVerifier, Trust};
use newppp::client::wt::{
    acquire, add_conn, death_notice, heartbeat_interval, heartbeat_with, local_frame, maintain,
    open_outcome, open_request, session_step, source_cid_len, Backoff, Beat, PoolConn, SessionStep,
    WtAction, WtConn, BASE_BACKOFF, MAX_BACKOFF, MAX_PER_CONN, PONG_MISS_LIMIT,
};
use newppp::config::ClientConfig;
use newppp::net::Ip;
use newppp::proto::addr::UdpAddr;
use newppp::proto::frame::{Frame, FrameType, FLAG_FIN};
use newppp::proto::mux::{udp_payload, MuxClient, OpenError};
use newppp::quic_tune::gap_hint;
use sha2::Digest;

fn config(wt: Option<&str>, fb: Option<&str>) -> ClientConfig {
    ClientConfig {
        wt_url: wt.map(String::from),
        fb_url: fb.map(String::from),
        socks_bind: String::new(),
        http_bind: None,
        inbound_auth: None,
        conns: 1,
        uid: "u".into(),
        password: "pw".into(),
        skip_verify: true,
        sni: None,
        pin: None,
        recv_window: 2 * 1024 * 1024,
        max_plaintext: 16384,
        health: None,
    }
}

// ---- errors, breaker and transport choice ----

#[test]
fn target_errors_are_classified() {
    let e = ClientError::Target(TargetError(OpenError::DialFailed));
    assert_eq!(target_error(&e), Some(TargetError(OpenError::DialFailed)));
    assert!(!target_error(&e).expect("classified").fallback_worthwhile());

    let e = ClientError::Target(TargetError(OpenError::Limit));
    assert!(target_error(&e).expect("classified").fallback_worthwhile());

    // plain errors are transport-level and always fall back
    let e = ClientError::Transport("connection lost".into());
    assert_eq!(target_error(&e), None);
}

#[test]
fn refusals_have_tags_and_words() {
    let e = |o| ClientError::Target(TargetError(o));
    assert_eq!(error_tag(&e(OpenError::DialFailed)), "dial-failed");
    assert_eq!(error_tag(&e(OpenError::Denied)), "private-target-denied");
    assert_eq!(error_tag(&ClientError::Transport("x".into())), "transport");
    assert_eq!(TargetError(OpenError::BadTarget).message(), "target refused: invalid target");
}

#[test]
fn breaker_trips_after_threshold_and_recovers() {
    let mut cb = CircuitBreaker::new(3, 50);
    assert!(cb.can_try(0));
    cb.record_failure(0);
    cb.record_failure(0);
    assert!(cb.can_try(0)); // below threshold: still trying
    cb.record_failure(0);
    assert!(!cb.can_try(0)); // tripped

    // cooldown elapses -> half-open probe allowed
    assert!(cb.can_try(60));
    // probe fails -> immediate re-trip, no need for a full streak again
    cb.record_failure(60);
    assert!(!cb.can_try(60));

    // cooldown elapses -> probe succeeds -> breaker closed for good
    assert!(cb.can_try(120));
    cb.record_success();
    cb.record_failure(120);
    assert!(cb.can_try(120)); // single isolated failure never trips
}

#[test]
fn breaker_success_resets_streak() {
    let mut cb = CircuitBreaker::new(3, 60_000);
    cb.record_failure(0);
    cb.record_failure(0);
    cb.record_success(); // transport recovered
    cb.record_failure(0);
    cb.record_failure(0);
    assert!(cb.can_try(0)); // only 2 consecutive after the reset
}

#[test]
fn open_breaker_ignores_late_failures() {
    let mut cb = CircuitBreaker::new(1, 100);
    cb.record_failure(0);
    cb.record_failure(99);
    assert!(!cb.can_try(99));
    assert!(cb.can_try(100));
}

#[test]
fn transport_failures_fall_back_and_refusals_do_not() {
    let mut ob = Outbound::build(&config(Some("https://h"), Some("https://h/api"))).ok().unwrap();
    assert_eq!(ob.describe(), "WebTransport + fallback");
    let lost = ClientError::Transport("lost".into());
    let refused = ClientError::Target(TargetError(OpenError::DialFailed));
    let full = ClientError::Target(TargetError(OpenError::Limit));
    assert_eq!(ob.first_path(0), Path::Primary);
    assert_eq!(ob.primary_over(Some(&refused), 0), NextStep::Fail);
    assert_eq!(ob.primary_over(Some(&full), 0), NextStep::Fallback);
    assert_eq!(ob.primary_over(None, 0), NextStep::Done);
    for _ in 0..3 {
        assert_eq!(ob.first_path(0), Path::Primary);
        assert_eq!(ob.primary_over(Some(&lost), 0), NextStep::Fallback);
    }
    assert_eq!(ob.first_path(59_999), Path::Fallback);
    // one session probes, the others wait for its report
    assert_eq!(ob.first_path(60_000), Path::Primary);
    assert_eq!(ob.first_path(60_000), Path::Fallback);
    assert_eq!(ob.primary_over(Some(&lost), 61_000), NextStep::Fallback);
    assert_eq!(ob.first_path(120_999), Path::Fallback);
    assert_eq!(ob.first_path(121_000), Path::Primary);
    assert_eq!(ob.primary_over(None, 122_000), NextStep::Done);
    assert_eq!(ob.first_path(122_000), Path::Primary);
    assert_eq!(ob.first_path(122_000), Path::Primary);
}

/// A probe that never reports does not keep the primary path shut for good.
#[test]
fn a_lost_probe_is_replaced_after_another_cooldown() {
    let mut cb = CircuitBreaker::new(1, 100);
    assert!(cb.ask(0) && cb.ask(0));
    cb.record_failure(0);
    assert!(!cb.ask(99));
    assert!(cb.ask(150));
    assert!(!cb.ask(150) && !cb.can_try(249));
    assert!(cb.ask(250));
    cb.record_success();
    assert!(cb.ask(250) && cb.ask(250));
}

#[test]
fn single_transports_have_no_way_around() {
    let mut wt = Outbound::build(&config(Some("https://h"), None)).ok().unwrap();
    assert_eq!((wt.describe(), wt.first_path(0)), ("WebTransport", Path::Primary));
    let lost = ClientError::Transport("lost".into());
    assert_eq!(wt.primary_over(Some(&lost), 0), NextStep::Fail);
    let mut http = Outbound::build(&config(None, Some("wss://h/api"))).ok().unwrap();
    assert_eq!((http.describe(), http.first_path(0)), ("WebSocket fallback", Path::Fallback));
    let post = Outbound::build(&config(None, Some("https://h/api"))).ok().unwrap();
    assert_eq!(post.describe(), "HTTPS POST fallback");
    assert!(Outbound::build(&config(None, None)).is_err());
}

// ---- pool ----

#[test]
fn pooled_connections_use_distinguishable_source_cids() {
    assert_eq!(source_cid_len(1), 8);
    assert_eq!(source_cid_len(2), 8);
    assert_eq!(source_cid_len(8), 8);
}

#[test]
fn heartbeat_jitter_stays_in_band() {
    for _ in 0..1000 {
        let s = heartbeat_interval();
        assert!((24..=36).contains(&s), "jitter out of band: {s}s");
    }
}

/// The band must keep the Pong-judge budget healthy: 2 missed periods at
/// the worst-case interval still leaves ~72s before declaring the link
/// half-dead (well above any plausible one-off network stall).
#[test]
fn heartbeat_budget_covers_pong_miss_limit() {
    let worst = heartbeat_interval();
    let budget = worst * (PONG_MISS_LIMIT as u64 + 1);
    assert!(budget >= 60, "budget {budget:?}");
}

#[test]
fn heartbeat_periods_vary() {
    assert_eq!(heartbeat_with(-6), 24);
    assert_eq!(heartbeat_with(6), 36);
    let first = heartbeat_interval();
    assert!((0..500).any(|_| heartbeat_interval() != first));
}

#[test]
fn silent_links_are_given_up() {
    let mut c = WtConn::new(1);
    assert_eq!(c.heartbeat(), Beat::Ping);
    c.dispatch(frame(FrameType::Pong, 0, 0, &[]));
    assert_eq!(c.heartbeat(), Beat::Ping);
    assert_eq!(c.heartbeat(), Beat::Ping);
    assert_eq!(c.heartbeat(), Beat::Dead(2));
}

fn frame(ftype: FrameType, flags: u16, sid: u32, payload: &[u8]) -> Frame {
    Frame { ftype, flags, sid, counter: 0, aad: [0u8; 12], payload: payload.to_vec() }
}

#[test]
fn connection_slots_are_limited() {
    let mut c = WtConn::new(1);
    for _ in 0..MAX_PER_CONN {
        assert!(c.begin_session().is_ok());
    }
    let e = c.begin_session().unwrap_err();
    assert_eq!(target_error(&e), Some(TargetError(OpenError::Limit)));
    assert!(!c.open_failed(&e));
    c.end_session();
    assert!(c.begin_session().is_ok());
    assert!(c.open_failed(&ClientError::Transport("reset".into())));
    assert!(!c.alive);
    assert_eq!(target_error(&c.begin_session().unwrap_err()), None);
    assert!(c.begin_udp().is_err());
}

#[test]
fn associations_are_answered_and_expire_with_the_connection() {
    let mut c = WtConn::new(5);
    let f = c.begin_udp().ok().unwrap();
    assert_eq!((f.ftype, f.sid), (FrameType::UdpAssociate, 5));
    assert!(matches!(
        c.dispatch(frame(FrameType::OpenErr, 0, 5, &[4])),
        WtAction::UdpDone(5, Err(OpenError::Denied))
    ));
    assert!(matches!(c.dispatch(frame(FrameType::UdpOk, 0, 5, &[])), WtAction::Nothing));
    let f = c.begin_udp().ok().unwrap();
    assert!(matches!(
        c.dispatch(frame(FrameType::UdpOk, 0, f.sid, &[])),
        WtAction::UdpDone(6, Ok(()))
    ));
    c.udp_opened(6);
    let src = UdpAddr::Domain("dns".into(), 53);
    match c.dispatch(frame(FrameType::UdpData, 0, 6, &udp_payload(&src, b"q"))) {
        WtAction::DeliverUdp(6, a, d) => assert_eq!((a, d.as_slice()), (src, &b"q"[..])),
        other => panic!("unexpected {other:?}"),
    }
    c.next_sid = 6;
    assert_eq!(c.alloc_sid(), 7);
    assert!(c.expire());
    assert!(!c.expire());
    assert!(c.udp.is_empty() && c.pending_udp.is_empty());
    c.abandon_udp(1);
    c.end_udp(1);
}

#[test]
fn deaths_come_with_tuning_hints() {
    assert_eq!(gap_hint("timed out"), "");
    assert!(gap_hint("closed: too many gaps in stream buffer").contains("--recv-window"));
    assert!(death_notice("too many gaps").starts_with("wt connection dead: too many gaps"));
    assert_eq!(death_notice("idle"), "wt connection dead: idle");
}

#[test]
fn session_frames_of_the_client() {
    let f = open_request(3, "h", 80, b"pad");
    assert_eq!((f.ftype, f.sid, f.payload.as_slice()), (FrameType::Open, 3, &[1, 0, b'h', 80, 0, b'p', b'a', b'd'][..]));
    assert!(open_outcome(3, Some(&frame(FrameType::OpenOk, 0, 3, &[]))).is_ok());
    let e = open_outcome(3, Some(&frame(FrameType::OpenErr, 0, 3, &[1]))).unwrap_err();
    assert_eq!(target_error(&e), Some(TargetError(OpenError::DialFailed)));
    assert_eq!(target_error(&open_outcome(3, None).unwrap_err()), None);
    assert!(open_outcome(3, Some(&frame(FrameType::OpenOk, 0, 4, &[]))).is_err());
    assert!(matches!(
        session_step(frame(FrameType::Data, FLAG_FIN, 3, b"x")),
        SessionStep::Deliver(d, true) if d == b"x"
    ));
    assert!(matches!(session_step(frame(FrameType::Close, 0, 3, &[])), SessionStep::End));
    assert!(matches!(session_step(frame(FrameType::Ping, 0, 3, &[])), SessionStep::Ignore));
    assert_eq!(local_frame(3, Some(b"up".to_vec())).payload, b"up");
    assert_eq!(local_frame(3, None).flags, FLAG_FIN);
}

fn pool(sessions: &[(bool, usize)]) -> Vec<PoolConn> {
    sessions
        .iter()
        .enumerate()
        .map(|(i, (alive, n))| PoolConn { id: i as u64, alive: *alive, sessions: *n })
        .collect()
}

#[test]
fn the_least_loaded_connection_is_acquired() {
    assert_eq!(acquire(&pool(&[(true, 3), (true, 1), (true, 1)])), Some(1));
    assert_eq!(acquire(&pool(&[(false, 0), (true, MAX_PER_CONN)])), None);
    assert_eq!(acquire(&pool(&[])), None);
}

#[test]
fn maintenance_drops_the_dead_and_retires_the_idle() {
    let mut p = pool(&[(true, 2), (false, 1), (true, 0), (true, 1), (true, 0)]);
    assert_eq!(maintain(&mut p, 1), vec![2, 4]);
    assert_eq!(p.iter().map(|c| c.id).collect::<Vec<_>>(), vec![0, 3]);
    add_conn(&mut p, PoolConn { id: 9, alive: true, sessions: 0 });
    assert_eq!(p.len(), 3);
    assert_eq!(maintain(&mut p, 3), Vec::<u64>::new());
}

#[test]
fn refills_back_off() {
    let mut b = Backoff::new(0);
    assert_eq!(b.plan(1, 3, 0), 2);
    let mut delays = vec![];
    for _ in 0..7 {
        b.dialed(false, 0);
        delays.push(b.delay / 1000);
    }
    assert_eq!(delays, vec![20, 40, 80, 160, 300, 300, 300]);
    assert_eq!(b.plan(1, 3, MAX_BACKOFF - 1), 0);
    assert_eq!(b.plan(1, 3, MAX_BACKOFF), 2);
    b.dialed(true, 5);
    assert_eq!((b.delay, b.next_attempt), (BASE_BACKOFF, 5));
    b.dialed(false, 5);
    assert_eq!(b.plan(3, 3, 6), 0);
    assert_eq!((b.delay, b.next_attempt), (BASE_BACKOFF, 6));
}

// ---- URLs ----

#[test]
fn urls_are_split_and_rewritten() {
    assert_eq!(url_host_and_port("https://h.example:8443/x").unwrap(), ("h.example".to_string(), 8443));
    assert_eq!(url_host_and_port("https://h.example/x").unwrap(), ("h.example".to_string(), 443));
    assert_eq!(url_host_and_port("not a url").unwrap_err(), UrlError::BadUrl);
    assert_eq!(url_host_and_port("data:text").unwrap_err(), UrlError::NoHost);

    let sni = Some("cdn.example".to_string());
    let p = pool_plan("https://real.example:8443/p", &sni).unwrap();
    assert_eq!(p.url, "https://cdn.example/p");
    assert_eq!(p.server, Some(("real.example".to_string(), 8443)));
    let p = fallback_plan("https://real.example:8443/p", &sni).unwrap();
    assert_eq!(p.url, "https://cdn.example:8443/p");
    assert_eq!(p.server, Some(("real.example".to_string(), 8443)));
    let p = pool_plan("https://real.example", &None).unwrap();
    assert_eq!((p.url.as_str(), p.server), ("https://real.example", None));
    let bad = Some("bad host".to_string());
    assert_eq!(fallback_plan("https://h", &bad).unwrap_err(), UrlError::BadSni);
    assert_eq!(fallback_plan("data:text", &sni).unwrap_err(), UrlError::BadSni);
    assert_eq!(pool_plan("data:text", &sni).unwrap_err(), UrlError::NoHost);
    assert_eq!(pool_plan("::", &sni).unwrap_err(), UrlError::BadUrl);
}

// ---- fallback channel ----

#[test]
fn the_fallback_knows_its_transport_and_key() {
    let h = HttpOutbound::new(&config(None, None), "wss://h/api").unwrap();
    assert_eq!((h.ws, h.describe(), h.uid.as_str()), (true, "WebSocket fallback", "u"));
    assert_eq!(h.static_key, newppp::proto::crypto::derive_static_key("pw", "u"));
    let h = HttpOutbound::new(&config(None, None), "https://h/api").unwrap();
    assert_eq!((h.ws, h.describe()), (false, "HTTPS POST fallback"));
    let mut c = config(None, None);
    c.sni = Some("x".into());
    assert_eq!(HttpOutbound::new(&c, "nope").err(), Some(UrlError::BadUrl));
}

#[test]
fn dead_channels_are_replaced() {
    assert!(needs_connect(None));
    let mut m = MuxClient::new(1);
    assert!(!needs_connect(Some(&m)));
    m.teardown_all();
    assert!(needs_connect(Some(&m)));
    assert_eq!(after_attempt(false, true), Retry::Done);
    assert_eq!(after_attempt(true, false), Retry::Fail);
    assert_eq!(after_attempt(true, true), Retry::Reconnect);
}

#[test]
fn disguise_pages_are_no_channel() {
    assert!(accepts_channel(200, "application/octet-stream"));
    assert!(accepts_channel(204, ""));
    assert!(!accepts_channel(200, "Text/HTML; charset=utf-8"));
    assert!(!accepts_channel(404, "application/octet-stream"));
    assert!(!accepts_channel(302, ""));
    let h = post_headers("tok");
    assert_eq!(h[0], ("authorization".to_string(), "Bearer tok".to_string()));
    assert_eq!(h.len(), 5);
}

// ---- HTTP proxy ----

#[test]
fn host_port() {
    assert_eq!(
        parse_host_port("example.com:8080", 80).unwrap(),
        ("example.com".into(), 8080)
    );
    assert_eq!(
        parse_host_port("example.com", 443).unwrap(),
        ("example.com".into(), 443)
    );
    assert_eq!(
        parse_host_port("[::1]:9090", 80).unwrap(),
        ("::1".into(), 9090)
    );
    assert_eq!(
        parse_host_port("[2001:db8::1]", 443).unwrap(),
        ("2001:db8::1".into(), 443)
    );
}

#[test]
fn host_port_faults() {
    assert_eq!(parse_host_port("  ", 80).unwrap_err(), ProxyError::EmptyTarget);
    assert_eq!(parse_host_port("[::1", 80).unwrap_err(), ProxyError::BadIpv6Target);
    assert_eq!(parse_host_port("h:99999", 80).unwrap_err(), ProxyError::BadPort);
    assert_eq!(parse_host_port("::1", 80).unwrap(), ("::1".into(), 80));
    assert_eq!(ProxyError::EmptyTarget.message(), "empty target");
}

#[test]
fn request_heads_are_answered() {
    assert_eq!(find_double_crlf(b"a\r\n\r\nb"), Some(1));
    assert_eq!(find_double_crlf(b"a\r\n\r"), None);
    assert!(matches!(head_step(b"CONNECT h:1 HTTP/1.1\r\n", &None), HeadStep::More));
    assert!(matches!(head_step(&[b'x'; 20_000], &None), HeadStep::TooLarge));
    match head_step(b"connect h.example HTTP/1.1\r\nA: b\r\n\r\ntail", &None) {
        HeadStep::Connect(h, 443, rest) => assert_eq!((h.as_str(), rest.as_slice()), ("h.example", &b"tail"[..])),
        other => panic!("unexpected {other:?}"),
    }
    match head_step(b"GET http://h.example:81/p HTTP/1.1\r\n\r\n", &None) {
        HeadStep::Forward(h, 81) => assert_eq!(h, "h.example"),
        other => panic!("unexpected {other:?}"),
    }
    assert!(matches!(
        head_step(b"GET /p HTTP/1.1\r\n\r\n", &None),
        HeadStep::Bad(ProxyError::Unsupported)
    ));
    // bytes that are no text do not hide the request
    assert!(matches!(
        head_step(b"GET http://h/ HTTP/1.1\r\nX: \xff\xfe\r\n\r\n", &None),
        HeadStep::Forward(_, 80)
    ));
}

#[test]
fn local_clients_must_authenticate() {
    let auth = Some(("user".to_string(), "pass".to_string()));
    let ok = b"CONNECT h:1 HTTP/1.1\r\nHost: h\r\nproxy-Authorization: basic dXNlcjpwYXNz\r\n\r\n";
    assert!(matches!(head_step(ok, &auth), HeadStep::Connect(..)));
    let bad = b"CONNECT h:1 HTTP/1.1\r\nProxy-Authorization: Basic dXNlcjpwYXNx\r\n\r\n";
    assert!(matches!(head_step(bad, &auth), HeadStep::Unauthorized));
    let none = b"CONNECT h:1 HTTP/1.1\r\n\r\n";
    assert!(matches!(head_step(none, &auth), HeadStep::Unauthorized));
    let short = Some(("u".to_string(), "".to_string()));
    let b = b"CONNECT h:1 HTTP/1.1\r\nProxy-Authorization: Basic dTo=\r\n\r\n";
    assert!(matches!(head_step(b, &short), HeadStep::Connect(..)));
    let one = Some(("a".to_string(), "bc".to_string()));
    let b = b"CONNECT h:1 HTTP/1.1\r\nProxy-Authorization: Basic YTpiYw==\r\n\r\n";
    assert!(matches!(head_step(b, &one), HeadStep::Connect(..)));
}

#[test]
fn proxy_failures_name_the_refusal() {
    let e = ClientError::Target(TargetError(OpenError::Denied));
    assert_eq!(
        reply_error(&e),
        "HTTP/1.1 502 Bad Gateway\r\nX-Newppp-Error: private-target-denied\r\nContent-Length: 0\r\nConnection: close\r\n\r\n"
    );
    assert_eq!(
        reply_error(&ClientError::Transport("x".into())),
        "HTTP/1.1 502 Bad Gateway\r\nContent-Length: 0\r\nConnection: close\r\n\r\n"
    );
}

// ---- SOCKS5 ----

#[test]
fn greetings_choose_a_method() {
    assert!(matches!(greeting(&[5], false), Progress::Need(1)));
    assert!(matches!(greeting(&[4, 1], false), Progress::Refuse(SocksError::NotSocks5)));
    assert!(matches!(greeting(&[5, 2, 0], false), Progress::Need(1)));
    assert!(matches!(greeting(&[5, 1, 0], false), Progress::Done(0)));
    assert!(matches!(greeting(&[5, 2, 0, 2], true), Progress::Done(2)));
    assert!(matches!(greeting(&[5, 1, 0], true), Progress::Refuse(SocksError::NoAcceptableMethod)));
    assert_eq!(method_reply(Some(2)), vec![5, 2]);
    assert_eq!(method_reply(None), vec![5, 0xff]);
}

#[test]
fn passwords_are_compared() {
    let msg = [1, 1, b'u', 2, b'p', b'w'];
    assert!(matches!(credentials(&msg, "u", "pw"), Progress::Done(())));
    assert!(matches!(credentials(&msg, "u", "px"), Progress::Refuse(SocksError::WrongCredentials)));
    assert!(matches!(credentials(&msg[..5], "u", "pw"), Progress::Need(1)));
    assert!(matches!(credentials(&msg[..3], "u", "pw"), Progress::Need(1)));
    assert!(matches!(credentials(&[2, 0], "u", "pw"), Progress::Refuse(SocksError::BadAuthVersion)));
    assert_eq!(credentials_reply(true), vec![1, 0]);
    assert_eq!(credentials_reply(false), vec![1, 1]);
}

#[test]
fn targets_are_read() {
    match read_target(&[1, 1, 2, 3, 4, 0x1f, 0x90]) {
        Progress::Done((TargetHost::V4(b), 8080)) => assert_eq!(b, [1, 2, 3, 4]),
        other => panic!("unexpected {other:?}"),
    }
    match read_target(&[3, 2, b'h', b'i', 0, 80]) {
        Progress::Done((TargetHost::Domain(h), 80)) => assert_eq!(h, "hi"),
        other => panic!("unexpected {other:?}"),
    }
    let mut v6 = vec![4u8];
    v6.extend_from_slice(&[7u8; 16]);
    assert!(matches!(read_target(&v6), Progress::Need(2)));
    v6.extend_from_slice(&[1, 0]);
    assert!(matches!(read_target(&v6), Progress::Done((TargetHost::V6(b), 256)) if b == [7u8; 16]));
    assert!(matches!(read_target(&[9]), Progress::Refuse(SocksError::BadAddressType(9))));
    assert!(matches!(read_target(&[3, 1, 0xff]), Progress::Refuse(SocksError::BadDomain)));
    assert!(matches!(read_target(&[]), Progress::Need(1)));
}

#[test]
fn requests_are_told_apart() {
    assert!(matches!(read_request(&[5, 1]), Progress::Need(1)));
    assert!(matches!(read_request(&[4, 1, 0]), Progress::Refuse(SocksError::BadVersion)));
    assert!(matches!(
        read_request(&[5, 1, 0, 1, 1, 2, 3, 4, 0, 80]),
        Progress::Done(SocksRequest::Connect(TargetHost::V4(_), 80))
    ));
    assert!(matches!(
        read_request(&[5, 3, 0, 1, 0, 0, 0, 0, 0, 0]),
        Progress::Done(SocksRequest::UdpAssociate)
    ));
    assert!(matches!(
        read_request(&[5, 2, 0, 1, 0, 0, 0, 0, 0, 0]),
        Progress::Refuse(SocksError::UnsupportedCommand(2))
    ));
}

#[test]
fn socks_replies() {
    assert_eq!(reply(7), vec![5, 7, 0, 1, 0, 0, 0, 0, 0, 0]);
    assert_eq!(failure_code(&ClientError::Target(TargetError(OpenError::Denied))), 0x02);
    assert_eq!(failure_code(&ClientError::Target(TargetError(OpenError::DialFailed))), 0x05);
    assert_eq!(failure_code(&ClientError::Target(TargetError(OpenError::Limit))), 1);
    assert_eq!(failure_code(&ClientError::Transport("x".into())), 1);
    assert_eq!(bound_reply(Ip::V4(0x7f00_0001), 0x1234), vec![5, 0, 0, 1, 127, 0, 0, 1, 0x12, 0x34]);
    let v6 = bound_reply(Ip::V6(0x0102_0304_0506_0708_090a_0b0c_0d0e_0f10), 1);
    assert_eq!(v6, vec![5, 0, 0, 4, 1, 2, 3, 4, 5, 6, 7, 8, 9, 10, 11, 12, 13, 14, 15, 16, 0, 1]);
}

#[test]
fn relays_keep_their_first_client_and_time_out() {
    let a = (Ip::V4(1), 1000);
    let b = (Ip::V4(2), 2000);
    assert_eq!(client_endpoint(None, a), a);
    assert_eq!(client_endpoint(Some(a), b), a);
    assert_eq!(idle_left(1000), 299_000);
    assert_eq!(idle_left(400_000), 0);
}

// ---- TLS ----

fn dummy_cert(byte: u8) -> Vec<u8> {
    vec![byte; 64]
}

fn digest(data: &[u8]) -> [u8; 32] {
    sha2::Sha256::digest(data).into()
}

#[test]
fn pin_matches_exact_certificate() {
    let cert = dummy_cert(0x42);
    let v = PinVerifier::new(digest(&cert));
    assert!(v.verify_server_cert(&cert));
}

#[test]
fn pin_rejects_any_other_certificate() {
    let good = dummy_cert(0x42);
    let v = PinVerifier::new(digest(&good));
    let evil = dummy_cert(0x43);
    assert!(!v.verify_server_cert(&evil));
}

#[test]
fn a_pin_replaces_other_trust() {
    assert_eq!(trust(true, Some([1u8; 32])), Trust::Pinned([1u8; 32]));
    assert_eq!(trust(true, None), Trust::Anyone);
    assert_eq!(trust(false, None), Trust::NativeRoots);
}

/// RFC 9180 base-mode round trip.
#[test]
fn seal_open_roundtrip_via_trait() {
    let hpke = HpkeX25519Sha256ChaCha20;
    let (pk, sk) = hpke.generate_key_pair();
    let info = b"newppp ech test";
    let aad = b"aad";
    let (enc, ct) = hpke.seal(info, aad, b"payload", &pk).unwrap();
    assert_eq!(enc.len(), ENC_LEN);
    let pt = hpke.open(&enc, info, aad, &ct, &sk).unwrap();
    assert_eq!(pt, b"payload");
}

/// Wire-level suite IDs must match RFC 9180 / the ECH spec expectations.
#[test]
fn suite_ids_match() {
    let s = HpkeX25519Sha256ChaCha20::suite_static();
    assert_eq!(s.kem, 0x0020);
    assert_eq!(s.kdf, 0x0001);
    assert_eq!(s.aead, 0x0003);
}

/// Long texts are sealed like short ones.
#[test]
fn long_texts_are_sealed() {
    let hpke = HpkeX25519Sha256ChaCha20;
    let (pk, sk) = hpke.generate_key_pair();
    let long = vec![7u8; 20 << 20];
    let (enc, ct) = hpke.seal(b"i", b"a", &long, &pk).unwrap();
    assert_eq!(ct.len(), long.len() + 16);
    assert_eq!(hpke.open(&enc, b"i", b"a", &ct, &sk).unwrap(), long);
}

/// Long URLs are taken like short ones.
#[test]
fn long_urls_are_rewritten() {
    let tail = "x".repeat(20 << 20);
    let long = format!("https://h:8443/{tail}");
    let sni = Some("www.example.com".to_string());
    assert!(can_mask(&long, &sni) && can_mask(&long, &None));
    assert_eq!(url_host_and_port(&long).unwrap(), ("h".to_string(), 8443));
    assert_eq!(pool_plan(&long, &sni).unwrap().url, format!("https://www.example.com/{tail}"));
    assert_eq!(fallback_plan(&long, &sni).unwrap().url, format!("https://www.example.com:8443/{tail}"));
    assert_eq!(pool_plan(&long, &None).unwrap().url, long);
    // a name this long could outgrow the positions of the result
    assert!(!can_mask("https://h", &Some("x".repeat(1 << 26))));
}

#[test]
fn hpke_rejects_wrong_keys_and_contexts() {
    let hpke = HpkeX25519Sha256ChaCha20;
    let (pk, sk) = hpke.generate_key_pair();
    let (_, other) = hpke.generate_key_pair();
    let (enc, ct) = hpke.seal(b"i", b"a", b"text", &pk).unwrap();
    assert_ne!(ct[..4], *b"text");
    assert_eq!(hpke.open(&enc, b"i", b"b", &ct, &sk).unwrap_err(), EchError::Failed);
    assert_eq!(hpke.open(&enc, b"i", b"a", &ct, &other).unwrap_err(), EchError::Failed);
    assert_eq!(hpke.open(&enc[..31], b"i", b"a", &ct, &sk).unwrap_err(), EchError::BadKey);
    assert_eq!(hpke.seal(b"i", b"a", b"t", &pk[..31]).unwrap_err(), EchError::BadKey);
    assert_eq!(hpke.seal(b"i", b"a", b"t", &[0u8; 32]).unwrap_err(), EchError::Failed);
}
