//! Clock, health endpoint, the plain HTTP front and text helpers.

use newppp::client::outbound::Outbound;
use newppp::clock::{
    apply_offset, now_unix, ntp_address, sntp_reply, sntp_request, unix_seconds, Clock, SntpError, SyncStep,
};
use newppp::config::{CertSource, ClientConfig, ServerConfig};
use newppp::health::{parse_url, probe_request, probe_verdict, Health, ProbeError, Source};
use newppp::server::build_state;
use newppp::server::fallback::{
    acme_answer, build_redirect_target, is_safe_acme_token, AcmeAnswer,
};

#[test]
fn now_unix_without_sync_uses_system_clock() {
    let sys = std::time::SystemTime::now()
        .duration_since(std::time::UNIX_EPOCH)
        .unwrap()
        .as_secs();
    let ours = now_unix(&Clock::new());
    assert!((ours as i64 - sys as i64).abs() <= 1);
}

#[test]
fn offsets_shift_the_clock_and_survive_failed_rounds() {
    assert_eq!(apply_offset(1000, -30), 970);
    assert_eq!(apply_offset(10, -30), 0);
    assert_eq!(unix_seconds(Some(12_999), 0), 12);
    assert_eq!(unix_seconds(Some(12_999), -30), 0);
    assert_eq!(unix_seconds(None, 7), 7);
    assert_eq!(unix_seconds(Some(u128::MAX), 0), 0);
    assert_eq!(unix_seconds(Some(5_000), i64::MAX), 0);
    assert!(Clock { offset: 100 }.now_unix() >= now_unix(&Clock::new()) + 99);
    assert!(now_unix(&Clock { offset: 100 }) >= now_unix(&Clock::new()) + 99);
    let mut c = Clock::new();
    assert_eq!(c.sync_step(1, None), SyncStep::Retry);
    assert_eq!(c.sync_step(2, Some(7)), SyncStep::Synced(true));
    assert_eq!(c.sync_step(1, Some(7)), SyncStep::Synced(false));
    assert_eq!(c.sync_step(3, None), SyncStep::GiveUp);
    assert_eq!(c.offset, 7);
}

#[test]
fn time_servers_get_a_port() {
    assert_eq!(ntp_address("pool.ntp.org"), "pool.ntp.org:123");
    assert_eq!(ntp_address("h:1123"), "h:1123");
    assert_eq!(ntp_address("h:x"), "h:x:123");
    assert_eq!(ntp_address("::1"), "::1");
}

#[test]
fn sntp_packets() {
    let r = sntp_request(0x0102_0304, 0x0506_0708);
    assert_eq!(r.len(), 48);
    assert_eq!(r[0], 0b00_100_011);
    assert!(r[1..40].iter().all(|b| *b == 0));
    assert_eq!(&r[40..], &[1, 2, 3, 4, 5, 6, 7, 8]);

    let mut reply = vec![0u8; 48];
    assert_eq!(sntp_reply(&reply[..47]), Err(SntpError::Short(47)));
    assert_eq!(sntp_reply(&reply), Err(SntpError::NotServer));
    reply[0] = 0x24;
    assert_eq!(sntp_reply(&reply), Err(SntpError::NoTimestamp));
    reply[32..40].copy_from_slice(&[0x83, 0xaa, 0x7e, 0x80, 0, 0, 0, 1]);
    assert_eq!(sntp_reply(&reply), Ok((2_208_988_800, 1)));
}

/// The snapshot must be exactly the documented field set, whether or not
/// a fallback has ever been used.
#[test]
fn snapshot_json_shape() {
    let cfg = ServerConfig {
        listen: None,
        cert: CertSource::SelfSigned,
        fallback_listen: Some("127.0.0.1:1".into()),
        http_listen: None,
        acme_dir: None,
        path: "/api/ppp".into(),
        users: vec![],
        max_sessions: 1,
        rate_mbps: 0,
        idle_secs: 60,
        allow_private_targets: false,
        max_unauth: 1,
        recv_window: 1024,
        max_plaintext: 16384,
        udp_dns_ttl: 3_600_000,
        shutdown_grace: 10,
        health: None,
    };
    let st = build_state(&cfg);
    let h = Health::new(
        0,
        Source::Server {
            st: &st,
            transport: "fallback",
        },
    );
    let s = h.snapshot(0);
    assert!(s.starts_with('{') && s.ends_with('}'), "not an object: {s}");
    assert!(s.contains("\"uptime\":"), "{s}");
    assert!(s.contains("\"active_sessions\":"), "{s}");
    assert!(s.contains("\"wt_conns\":"), "{s}");
    assert!(s.contains(r#""transport":"fallback""#), "{s}");
    assert!(s.contains(r#""circuit":"closed""#), "{s}");
    assert!(s.contains("\"last_fallback_at\":null"), "{s}");
    assert_eq!(
        h.snapshot(12_345),
        r#"{"uptime":12,"active_sessions":0,"wt_conns":0,"transport":"fallback","circuit":"closed","last_fallback_at":null}"#
    );
}

fn client_config() -> ClientConfig {
    ClientConfig {
        wt_url: Some("https://h".into()),
        fb_url: Some("https://h/api".into()),
        socks_bind: String::new(),
        http_bind: None,
        inbound_auth: None,
        conns: 1,
        uid: "u".into(),
        password: "pw".into(),
        skip_verify: true,
        sni: None,
        pin: None,
        recv_window: 1024,
        max_plaintext: 16384,
        health: None,
    }
}

#[test]
fn client_snapshots_show_breaker_and_fallback() {
    let mut ob = Outbound::build(&client_config()).ok().unwrap();
    let lost = newppp::client::outbound::ClientError::Transport("lost".into());
    for _ in 0..3 {
        ob.primary_over(Some(&lost), 1000);
    }
    ob.fallback_used(1_700_000_000_123);
    let h = Health::new(1000, Source::Client { outbound: &ob });
    assert_eq!(
        h.snapshot(2000),
        r#"{"uptime":1,"active_sessions":0,"wt_conns":0,"transport":"mixed","circuit":"open","last_fallback_at":1700000000123}"#
    );
    assert!(h.snapshot(100_000).contains(r#""circuit":"closed""#));
}

#[test]
fn parse_urls() {
    assert_eq!(
        parse_url("http://127.0.0.1:9100/healthz").unwrap(),
        ("127.0.0.1".into(), 9100, "/healthz".into())
    );
    assert_eq!(
        parse_url("http://127.0.0.1:9100").unwrap(),
        ("127.0.0.1".into(), 9100, "/healthz".into())
    );
    assert_eq!(
        parse_url("http://127.0.0.1/").unwrap(),
        ("127.0.0.1".into(), 80, "/healthz".into())
    );
    assert!(parse_url("https://127.0.0.1").is_err());
    assert!(parse_url("http://").is_err());
}

#[test]
fn probe_url_faults() {
    assert!(matches!(parse_url("https://h"), Err(ProbeError::BadUrl)));
    assert!(matches!(parse_url("http://h:x"), Err(ProbeError::BadPort)));
    assert!(matches!(parse_url("http:///p"), Err(ProbeError::NoHost)));
}

#[test]
fn probes_ask_and_judge() {
    assert_eq!(
        probe_request("h", 80, "/healthz"),
        "GET /healthz HTTP/1.1\r\nHost: h\r\nUser-Agent: newppp-healthcheck/1\r\nConnection: close\r\n\r\n"
    );
    assert!(probe_request("h", 9100, "/x").contains("Host: h:9100\r\n"));
    let ok = b"HTTP/1.1 200 OK\r\nA: b\r\n\r\n{\"uptime\":3}";
    assert_eq!(probe_verdict(ok).unwrap(), "{\"uptime\":3}");
    match probe_verdict(b"HTTP/1.1 503 Busy\r\n\r\nuptime") {
        Err(ProbeError::BadStatus(s)) => assert_eq!(s, "HTTP/1.1 503 Busy"),
        other => panic!("unexpected {other:?}"),
    }
    assert!(matches!(probe_verdict(b"HTTP/1.1 200 OK\r\n\r\n{}"), Err(ProbeError::NoSnapshot)));
    assert_eq!(probe_verdict(b"HTTP/1.1 200 OK\r\n\r\nuptime\xff").unwrap(), "");
}

#[test]
fn redirect_target() {
    assert_eq!(
        build_redirect_target("example.com", "/a/b?c=d"),
        "https://example.com/a/b?c=d"
    );
    // port preserved when the client sent one
    assert_eq!(
        build_redirect_target("example.com:80", "/"),
        "https://example.com:80/"
    );
    assert_eq!(
        build_redirect_target("[::1]:80", "/x"),
        "https://[::1]:80/x"
    );
    // hostile/missing Host falls back to localhost
    assert_eq!(build_redirect_target("", "/"), "https://localhost/");
    assert_eq!(
        build_redirect_target("evil.com\r\nx", "/"),
        "https://localhost/"
    );
    assert_eq!(build_redirect_target("ok.com", ""), "https://ok.com/");
}

#[test]
fn acme_token_safety() {
    assert!(is_safe_acme_token("kF4x9_-abc123"));
    assert!(!is_safe_acme_token("../secret"));
    assert!(!is_safe_acme_token(".."));
    assert!(!is_safe_acme_token("a/b"));
    assert!(!is_safe_acme_token("a.b"));
    assert!(!is_safe_acme_token(""));
    assert!(!is_safe_acme_token(&"x".repeat(256)));
}

#[test]
fn challenges_need_a_directory() {
    assert_eq!(acme_answer(true, "tok"), AcmeAnswer::File);
    assert_eq!(acme_answer(false, "tok"), AcmeAnswer::Redirect);
    assert_eq!(acme_answer(true, "../x"), AcmeAnswer::Redirect);
}
