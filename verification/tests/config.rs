//! Command line and configuration file.

use newppp::config::{
    dns_ttl_millis, extract_config_arg, file_args, max_frame_bytes, maybe_warn_creds,
    normalize_path, option_kind, parse_auth,
    parse_config_file, parse_inbound_auth, recv_window_bytes, remove_earlier_option,
    strip_cli_overridden, warn_listen_ip_ignored, warn_open_inbound, CertSource, Cli, OptionKind,
};
use newppp::net::Ip;

/// The options that these tests use, read off an argument list.
fn parse_cli(args: &[String]) -> Cli {
    let mut c = Cli::default();
    let mut i = 0;
    while i < args.len() {
        let a = args[i].as_str();
        let mut value = || {
            i += 1;
            args[i].clone()
        };
        match a {
            "-c" => c.client = true,
            "-s" => c.server = true,
            "--skip-verify" => c.skip_verify = true,
            "--auth" => {
                let v = value();
                c.auth.push(v);
            }
            "--server" => c.server_url = Some(value()),
            "--url" => c.url = Some(value()),
            "--sni" => c.sni = Some(value()),
            "--pin" => c.pin = Some(value()),
            "--listen" => c.listen = Some(value()),
            "--fallback-listen" => c.fallback_listen = Some(value()),
            "--max-sessions" => c.max_sessions = value().parse().unwrap(),
            other => panic!("unexpected argument {other}"),
        }
        i += 1;
    }
    c
}

fn owned(args: &[&str]) -> Vec<String> {
    args.iter().map(|s| s.to_string()).collect()
}

#[test]
fn parses_values_bools_quotes_comments() {
    let content = "# full-line comment\n\
         \n\
         mode = 'server'\n\
         auth  = 2233:mvNn\n\
         auth  = \"bob:hunter2\"        # trailing content is kept raw in the value\n\
         listen = 0.0.0.0:443\n\
         fallback-listen = 0.0.0.0:8443\n\
         skip-verify\n\
         ";
    let (args, has_creds) = parse_config_file("newppp.conf", content).unwrap();
    assert!(has_creds, "auth keys must flag creds");
    assert_eq!(
        args,
        vec![
            "-s",
            "--auth",
            "2233:mvNn",
            "--auth",
            "bob:hunter2",
            "--listen",
            "0.0.0.0:443",
            "--fallback-listen",
            "0.0.0.0:8443",
            "--skip-verify",
        ]
    );
    let cli = parse_cli(&args);
    assert!(cli.server);
    assert_eq!(cli.auth.len(), 2);
    assert!(cli.skip_verify);
}

#[test]
fn unknown_key_names_file_and_line() {
    let e = parse_config_file("x.conf", "mode = server\nlistn = 1:2\n").unwrap_err();
    let msg = e.message();
    assert!(msg.contains("2") && msg.contains("listn"), "{msg}");
    assert!(msg.contains("x.conf"), "{msg}");
}

#[test]
fn mode_value_is_validated() {
    let e = parse_config_file("x.conf", "mode = gateway\n").unwrap_err();
    assert!(e.message().contains("'server' or 'client'"), "{}", e.message());
}

#[test]
fn boolean_switch_rejects_a_value() {
    let e = parse_config_file("x.conf", "skip-verify = true-ish\n").unwrap_err();
    assert!(e.message().contains("on/off switch"), "{}", e.message());
}

#[test]
fn quoting_rules() {
    // quoted value + trailing comment: the comment is dropped
    let (args, _) = parse_config_file("c", "time = 'https://a.b/c'  # comment\n").unwrap();
    assert_eq!(args, vec!["--time", "https://a.b/c"]);

    // unterminated stray quote: kept raw (no silent corruption)
    let (args2, _) = parse_config_file("c", "time = 'oops\n").unwrap();
    assert_eq!(args2, vec!["--time", "'oops"]);

    // unquoted value: inline `#` and spaces are content; `--path` is a
    // real option so assert on it directly
    let (args3, _) = parse_config_file("c", "path = a b'c # not-a-tag\n").unwrap();
    assert_eq!(args3, vec!["--path", "a b'c # not-a-tag"]);
}

#[test]
fn extract_config_arg_forms() {
    let run = |args: Vec<&str>| {
        let owned: Vec<String> = args.iter().map(|s| s.to_string()).collect();
        let (cfg, rest) = extract_config_arg(owned).unwrap();
        (cfg, rest)
    };
    let (cfg, rest) = run(vec![
        "newppp",
        "--config",
        "/x/y.conf",
        "-s",
        "--auth",
        "a:b",
    ]);
    assert_eq!(cfg.as_deref(), Some("/x/y.conf"));
    assert_eq!(rest, vec!["newppp", "-s", "--auth", "a:b"]);

    let (cfg, rest) = run(vec!["newppp", "--config=/x/y.conf", "-s"]);
    assert_eq!(cfg.as_deref(), Some("/x/y.conf"));
    assert_eq!(rest, vec!["newppp", "-s"]);

    let (cfg, rest) = run(vec!["newppp", "-s", "--auth", "a:b"]);
    assert_eq!(cfg, None);
    assert_eq!(rest, vec!["newppp", "-s", "--auth", "a:b"]);

    assert!(extract_config_arg(owned(&["newppp", "--config"])).is_err());
}

/// The documented precedence: later args win, and a mode contradiction
/// from the file + CLI resolves to the CLI's mode.
#[test]
fn cli_overrides_file_and_mode_conflict_resolves() {
    let content = "mode = server\nlisten = 0.0.0.0:443\nmax-sessions = 100\nauth = a:b\n";
    let mut file_args = parse_config_file("c", content).unwrap().0;
    let cli_args: Vec<String> = vec!["-s", "--listen", "0.0.0.0:9999"]
        .into_iter()
        .map(String::from)
        .collect();
    strip_cli_overridden(&mut file_args, &cli_args);
    assert!(!file_args.contains(&"-c".to_string()) || true);
    let all: Vec<String> = file_args.iter().chain(cli_args.iter()).cloned().collect();
    let cli = parse_cli(&all);
    assert!(cli.server && !cli.client, "CLI mode must win");
    assert_eq!(
        cli.listen.as_deref(),
        Some("0.0.0.0:9999"),
        "CLI listen beats file"
    );
    assert_eq!(cli.auth.len(), 1, "file auth kept");
}

#[test]
fn the_other_mode_on_the_command_line_wins() {
    let mut file = parse_config_file("c", "mode = server\nlisten = 0.0.0.0:443\n").unwrap().0;
    strip_cli_overridden(&mut file, &owned(&["-c"]));
    assert_eq!(file, owned(&["--listen", "0.0.0.0:443"]));
    let before = owned(&["-s", "--auth", "a:b"]);
    let mut same = before.clone();
    strip_cli_overridden(&mut same, &[]);
    assert_eq!(same, before);
}

/// The mode is single-valued too: the later line overrides the earlier one.
#[test]
fn the_last_mode_line_wins() {
    let parse = |s: &str| parse_config_file("c", s).unwrap();
    assert_eq!(parse("mode = server\nmode = client\n"), (owned(&["-c"]), false));
    assert_eq!(
        parse("mode = client\nlog = debug\nmode = server\n"),
        (owned(&["--log", "debug", "-s"]), false)
    );
}

#[test]
fn frame_limit_and_resolver_time_are_configured() {
    assert_eq!(max_frame_bytes(16).unwrap(), 16384);
    assert_eq!(max_frame_bytes(1024).unwrap(), 1 << 20);
    for kb in [0, 15, 1025, u64::MAX] {
        let e = max_frame_bytes(kb).unwrap_err();
        assert_eq!(e.message(), format!("--max-frame-kb must be 16..=1024 KB, got {kb}"));
    }
    assert_eq!(dns_ttl_millis(0).unwrap(), 0);
    assert_eq!(dns_ttl_millis(86400).unwrap(), 86_400_000);
    let e = dns_ttl_millis(86401).unwrap_err();
    assert_eq!(e.message(), "--udp-dns-ttl must be 0..=86400 seconds, got 86401");

    let c = Cli {
        listen: Some("0.0.0.0:443".into()),
        self_signed: true,
        auth: owned(&["a:b"]),
        ..Cli::default()
    };
    let s = c.server_config(false, false).unwrap();
    assert_eq!((s.max_plaintext, s.udp_dns_ttl), (16384, 3_600_000));
    let c = Cli { max_frame_kb: 64, udp_dns_ttl: 5, server_url: Some("https://h".into()), ..c };
    let s = c.server_config(false, false).unwrap();
    assert_eq!((s.max_plaintext, s.udp_dns_ttl), (65536, 5000));
    assert_eq!(c.client_config().unwrap().max_plaintext, 65536);
    let c = Cli { max_frame_kb: 8, ..c };
    assert!(c.server_config(false, false).is_err());
    assert!(c.client_config().is_err());
    let c = Cli { max_frame_kb: 16, udp_dns_ttl: 90_000, ..c };
    assert!(c.server_config(false, false).is_err());
    let (args, _) = parse_config_file("c", "max-frame-kb = 64\nudp-dns-ttl = 60\n").unwrap();
    assert_eq!(args, owned(&["--max-frame-kb", "64", "--udp-dns-ttl", "60"]));
}

#[test]
fn the_last_line_of_an_option_wins() {
    let (args, _) = parse_config_file("c", "listen = a:1\nlog = debug\nlisten = b:2\n").unwrap();
    assert_eq!(args, owned(&["--log", "debug", "--listen", "b:2"]));
    let mut v = owned(&["--listen", "x", "--log=info", "--log", "warn", "-s"]);
    remove_earlier_option(&mut v, "log");
    assert_eq!(v, owned(&["--listen", "x", "-s"]));
    remove_earlier_option(&mut v, "pin");
    assert_eq!(v, owned(&["--listen", "x", "-s"]));
}

// ---- --sni / --pin validation ----

fn client_cli(extra: &[&str]) -> Cli {
    let mut args = vec!["-c", "--auth", "a:b", "--server", "https://h:443"];
    args.extend_from_slice(extra);
    parse_cli(&owned(&args))
}

#[test]
fn sni_requires_pin_or_skip_verify() {
    let e = client_cli(&["--sni", "cdn.example.com"])
        .client_config()
        .unwrap_err();
    assert!(e.message().contains("--pin"), "{}", e.message());
}

#[test]
fn sni_with_pin_parses() {
    let fp = "ab".repeat(32);
    let cfg = client_cli(&["--sni", "cdn.example.com", "--pin", &fp])
        .client_config()
        .unwrap();
    assert_eq!(cfg.sni.as_deref(), Some("cdn.example.com"));
    assert_eq!(cfg.pin.unwrap()[0], 0xab);
}

#[test]
fn pin_rejects_skip_verify() {
    let fp = "ab".repeat(32);
    let e = client_cli(&["--pin", &fp, "--skip-verify"])
        .client_config()
        .unwrap_err();
    assert!(e.message().contains("mutually exclusive"), "{}", e.message());
}

#[test]
fn pin_without_sni_is_valid() {
    let fp = "ab".repeat(32);
    let cfg = client_cli(&["--pin", &fp]).client_config().unwrap();
    assert!(cfg.sni.is_none());
    assert_eq!(cfg.pin.unwrap()[31], 0xab);
}

#[test]
fn pin_fingerprint_format_validated() {
    // wrong length
    let e = client_cli(&["--pin", "abcd"]).client_config().unwrap_err();
    assert!(e.message().contains("64 hex"), "{}", e.message());
    // non-hex
    let bad = "zz".repeat(32);
    let e = client_cli(&["--pin", &bad]).client_config().unwrap_err();
    assert!(e.message().contains("invalid hex"), "{}", e.message());
    // OpenSSL-style colons tolerated
    let colons = "ab:".repeat(31) + "ab";
    let cfg = client_cli(&["--pin", &colons]).client_config().unwrap();
    assert_eq!(cfg.pin.unwrap()[0], 0xab);
}

#[test]
fn sni_hostname_validated() {
    let fp = "ab".repeat(32);
    // empty / too long / bad chars
    for bad in ["", &"a".repeat(254), "has space", "bad//slash"] {
        let e = client_cli(&["--sni", bad, "--pin", &fp])
            .client_config()
            .unwrap_err();
        assert!(!e.message().is_empty(), "sni '{bad}' must be rejected");
    }
    // valid with underscore (wildcard-style labels are common)
    client_cli(&["--sni", "my_host.example.com", "--pin", &fp])
        .client_config()
        .unwrap();
}

#[test]
fn sni_rejects_wss_fallback() {
    let fp = "ab".repeat(32);
    let e = parse_cli(&owned(&[
        "-c",
        "--auth",
        "a:b",
        "--url",
        "wss://cf.example/api/ppp",
        "--sni",
        "cdn.example.com",
        "--pin",
        fp.as_str(),
    ]))
    .client_config()
    .unwrap_err();
    assert!(e.message().contains("wss"), "{}", e.message());
}

#[test]
fn credentials_are_split_at_the_first_colon() {
    assert_eq!(parse_auth("alice:a:b").unwrap(), ("alice".to_string(), "a:b".to_string()));
    assert!(parse_auth("alice").is_err());
    assert!(parse_auth("bad id:pw").is_err());
    assert!(parse_auth("alice:").is_err());
    assert_eq!(parse_inbound_auth("u:p").unwrap(), ("u".to_string(), "p".to_string()));
    assert!(parse_inbound_auth("u").is_err());
    assert!(parse_inbound_auth(":p").is_err());
    assert!(parse_inbound_auth("u:").is_err());
    assert!(parse_inbound_auth(&format!("u:{}", "x".repeat(256))).is_err());
}

#[test]
fn paths_and_windows_are_normalized() {
    assert_eq!(normalize_path(""), "/api/ppp");
    assert_eq!(normalize_path(" api "), "/api");
    assert_eq!(normalize_path("/x/y"), "/x/y");
    assert_eq!(recv_window_bytes(2).unwrap(), 2 * 1024 * 1024);
    assert!(recv_window_bytes(0).is_err());
    assert!(recv_window_bytes(65).is_err());
}

#[test]
fn validate_wants_one_mode_and_a_user() {
    let mut c = Cli::default();
    assert!(c.validate().is_err());
    c.client = true;
    assert!(c.validate().is_err());
    c.auth.push("a:b".into());
    assert!(c.validate().is_ok());
    c.server = true;
    assert!(c.validate().is_err());
}

#[test]
fn server_config_needs_a_listener_and_a_certificate() {
    let mut c = Cli::default();
    c.server = true;
    c.auth.push("a:b".into());
    assert!(c.server_config(false, false).is_err());
    c.listen = Some("0.0.0.0:443".into());
    assert!(c.server_config(false, false).is_err());
    c.self_signed = true;
    let s = c.server_config(false, false).unwrap();
    assert!(matches!(s.cert, CertSource::SelfSigned));
    assert_eq!(s.users, vec![("a".to_string(), "b".to_string())]);
    assert_eq!((s.max_sessions, s.idle_secs, s.path.as_str()), (200, 60, "/api/ppp"));
}

#[test]
fn a_missing_default_file_is_no_error() {
    assert_eq!(file_args(None, false, None).unwrap().0, Vec::<String>::new());
    assert!(file_args(Some("/no/such"), false, None).is_err());
    assert_eq!(file_args(Some("x"), true, Some("log = warn\n")).unwrap().0, owned(&["--log", "warn"]));
}

#[test]
fn loose_permissions_and_open_proxies_are_warned_about() {
    assert!(maybe_warn_creds(0o644));
    assert!(!maybe_warn_creds(0o600));
    assert!(warn_open_inbound(Some(Ip::V4(0)), false));
    assert!(warn_open_inbound(Some(Ip::V6(0)), false));
    assert!(!warn_open_inbound(Some(Ip::V4(0)), true));
    assert!(!warn_open_inbound(Some(Ip::V4(0x7f00_0001)), false));
    assert!(!warn_open_inbound(None, false));
    assert!(warn_listen_ip_ignored(Some(Ip::V4(0x7f00_0001))));
    assert!(warn_listen_ip_ignored(Some(Ip::V6(1))));
    assert!(!warn_listen_ip_ignored(Some(Ip::V4(0))));
    assert!(!warn_listen_ip_ignored(Some(Ip::V6(0))));
    assert!(!warn_listen_ip_ignored(None));
}

#[test]
fn options_know_whether_they_take_a_value() {
    let kind = |s: &str| option_kind(&s.chars().collect::<Vec<char>>());
    assert_eq!(kind("skip-verify"), Some(OptionKind::Switch));
    assert_eq!(kind("listn"), None);
}
