//! Command line and configuration file.
//!
//! A configuration file holds `KEY = VALUE` lines whose KEY is the verbatim
//! long option name; its lines are turned into command-line arguments that
//! stand before those of the command line itself.

use vstd::prelude::*;
use vstd::utf8::encode_utf8;

use crate::net::Ip;
use crate::proto::crypto::{hex_value, value_of};
use crate::server::dns::DEFAULT_TTL_SECS;
use crate::text;

verus! {

// ---------------------------------------------------------------------------
// Errors
// ---------------------------------------------------------------------------
/// What is wrong with a configuration.
#[derive(Clone, Copy, Debug, PartialEq, Eq, Structural)]
pub enum ConfigFault {
    /// Not exactly one of client and server mode.
    ModeChoice,
    AuthRequired,
    AuthFormat,
    BadUserId,
    EmptyPassword,
    InboundFormat,
    InboundUser,
    InboundPassword,
    NoUpstream,
    PinLength,
    PinHex,
    PinWithSkipVerify,
    SniLength,
    SniDots,
    SniChars,
    SniOverWss,
    SniUnpinned,
    RecvWindow,
    MaxFrame,
    DnsTtl,
    NoListener,
    CertNotFound,
    KeyNotFound,
    NoCert,
    ConfigWithoutPath,
    ConfigTwice,
    FileNotFound,
    FileUnreadable,
    LineKey,
    LineUnknownOption,
    LineModeMissing,
    LineModeValue,
    LineSwitchValue,
    LineNeedsValue,
}

/// A configuration error: its kind and what it speaks of. What a kind does not
/// need is empty.
#[derive(Debug)]
pub struct ConfigError {
    pub kind: ConfigFault,
    /// The file and its line, counted from 1.
    pub path: String,
    pub line: usize,
    /// The offending option, id, path or text.
    pub what: String,
    /// The offending value.
    pub value: String,
    /// The offending number.
    pub number: u64,
}

/// The content of a configuration error.
#[verifier::ext_equal]
pub ghost struct Fault {
    pub kind: ConfigFault,
    pub path: Seq<char>,
    pub line: nat,
    pub what: Seq<char>,
    pub value: Seq<char>,
    pub number: nat,
}

/// An error that speaks of nothing but its kind.
pub open spec fn bare(kind: ConfigFault) -> Fault {
    Fault {
        kind,
        path: Seq::empty(),
        line: 0,
        what: Seq::empty(),
        value: Seq::empty(),
        number: 0,
    }
}

/// An error about some text.
pub open spec fn about(kind: ConfigFault, what: Seq<char>) -> Fault {
    Fault { what, ..bare(kind) }
}

/// An error about a number.
pub open spec fn counted(kind: ConfigFault, number: nat) -> Fault {
    Fault { number, ..bare(kind) }
}

/// An error in a line of a file.
pub open spec fn at_line(path: Seq<char>, line: nat, f: Fault) -> Fault {
    Fault { path, line, ..f }
}

impl ConfigError {
    pub open spec fn view(self) -> Fault {
        Fault {
            kind: self.kind,
            path: self.path@,
            line: self.line as nat,
            what: self.what@,
            value: self.value@,
            number: self.number as nat,
        }
    }

    fn bare(kind: ConfigFault) -> (r: Self)
        ensures
            r.view() == bare(kind),
    {
        ConfigError {
            kind,
            path: String::new(),
            line: 0,
            what: String::new(),
            value: String::new(),
            number: 0,
        }
    }

    fn about(kind: ConfigFault, what: String) -> (r: Self)
        ensures
            r.view() == about(kind, what@),
    {
        ConfigError {
            kind,
            path: String::new(),
            line: 0,
            what,
            value: String::new(),
            number: 0,
        }
    }

    fn counted(kind: ConfigFault, number: u64) -> (r: Self)
        ensures
            r.view() == counted(kind, number as nat),
    {
        ConfigError {
            kind,
            path: String::new(),
            line: 0,
            what: String::new(),
            value: String::new(),
            number,
        }
    }

    /// The error, in words.
    pub fn message(&self) -> (r: String)
        ensures
            r@ == fault_text(self.view()),
    {
        let w = self.what.as_str();
        match self.kind {
            ConfigFault::ModeChoice => text::own(
                "specify exactly one mode: -c (client) or -s (server)",
            ),
            ConfigFault::AuthRequired => text::own("--auth USER:PASS is required"),
            ConfigFault::AuthFormat => wrapped("--auth must be USER:PASS, got '", w, "'"),
            ConfigFault::BadUserId => wrapped(
                "invalid user id '",
                w,
                "': use [A-Za-z0-9_-], max 32 chars",
            ),
            ConfigFault::EmptyPassword => text::own("password must not be empty"),
            ConfigFault::InboundFormat => wrapped("--inbound-auth must be USER:PASS, got '", w, "'"),
            ConfigFault::InboundUser => text::own("inbound username must be 1..=255 bytes"),
            ConfigFault::InboundPassword => text::own("inbound password must be 1..=255 bytes"),
            ConfigFault::NoUpstream => text::own(
                "client needs --server (WebTransport) and/or --url (HTTPS fallback)",
            ),
            ConfigFault::PinLength => {
                let mut s = text::own("--pin must be a SHA-256 fingerprint: 64 hex chars (got ");
                text::push_decimal(&mut s, self.number);
                s.append(" chars)");
                s
            },
            ConfigFault::PinHex => wrapped("--pin: invalid hex character '", w, "'"),
            ConfigFault::PinWithSkipVerify => text::own(
                "--pin and --skip-verify are mutually exclusive: --pin is the stronger check",
            ),
            ConfigFault::SniLength => text::own("--sni must be a hostname (1..=253 chars)"),
            ConfigFault::SniDots => wrapped("--sni '", w, "' is not a valid hostname"),
            ConfigFault::SniChars => wrapped(
                "--sni '",
                w,
                "' must be ASCII hostname characters [A-Za-z0-9.-_]",
            ),
            ConfigFault::SniOverWss => text::own(
                "--sni cannot masquerade a wss:// fallback URL: Cloudflare routes by the real SNI",
            ),
            ConfigFault::SniUnpinned => text::own(
                "--sni requires --pin (recommended) or --skip-verify: the server certificate cannot match the masquerade name, so identity must be pinned explicitly",
            ),
            ConfigFault::RecvWindow => {
                let mut s = text::own("--recv-window must be 1..=64 MB, got ");
                text::push_decimal(&mut s, self.number);
                s
            },
            ConfigFault::MaxFrame => {
                let mut s = text::own("--max-frame-kb must be 16..=1024 KB, got ");
                text::push_decimal(&mut s, self.number);
                s
            },
            ConfigFault::DnsTtl => {
                let mut s = text::own("--udp-dns-ttl must be 0..=86400 seconds, got ");
                text::push_decimal(&mut s, self.number);
                s
            },
            ConfigFault::NoListener => text::own(
                "server needs --listen (WebTransport) and/or --fallback-listen (HTTPS fallback)",
            ),
            ConfigFault::CertNotFound => text::own("cert file not found: ").concat(w),
            ConfigFault::KeyNotFound => text::own("key file not found: ").concat(w),
            ConfigFault::NoCert => text::own(
                "server needs --cert/--key (or --self-signed for dev)",
            ),
            ConfigFault::ConfigWithoutPath => text::own("--config needs a file path"),
            ConfigFault::ConfigTwice => text::own("--config given twice"),
            ConfigFault::FileNotFound => text::own("config file not found: ").concat(w),
            ConfigFault::FileUnreadable => text::own("read config file ").concat(w),
            ConfigFault::LineKey => self.in_line("key must be a single option name"),
            ConfigFault::LineUnknownOption => self.in_line(
                wrapped(
                    "unknown option '",
                    w,
                    "' — use the long CLI option names (see docs/手册.md)",
                ).as_str(),
            ),
            ConfigFault::LineModeMissing => self.in_line("mode needs a value (server|client)"),
            ConfigFault::LineModeValue => self.in_line(
                wrapped(
                    "mode must be 'server' or 'client', got '",
                    self.value.as_str(),
                    "'",
                ).as_str(),
            ),
            ConfigFault::LineSwitchValue => {
                let mut s = wrapped("'", w, "' is an on/off switch, drop the value (got '");
                s.append(self.value.as_str());
                s.append("')");
                self.in_line(s.as_str())
            },
            ConfigFault::LineNeedsValue => self.in_line(
                wrapped("option '", w, "' needs a value (KEY = VALUE)").as_str(),
            ),
        }
    }

    fn in_line(&self, what: &str) -> (r: String)
        ensures
            r@ == line_text(self.view(), what@),
    {
        let mut s = self.path.clone();
        s.append(":");
        text::push_decimal(&mut s, self.line as u64);
        s.append(": ");
        s.append(what);
        s
    }
}

fn wrapped(a: &str, b: &str, c: &str) -> (r: String)
    ensures
        r@ == a@ + b@ + c@,
{
    text::own(a).concat(b).concat(c)
}

/// `path:line: what`.
pub open spec fn line_text(f: Fault, what: Seq<char>) -> Seq<char> {
    f.path + ":"@ + text::decimal(f.line) + ": "@ + what
}

/// The error, in words.
pub open spec fn fault_text(f: Fault) -> Seq<char> {
    match f.kind {
        ConfigFault::ModeChoice => "specify exactly one mode: -c (client) or -s (server)"@,
        ConfigFault::AuthRequired => "--auth USER:PASS is required"@,
        ConfigFault::AuthFormat => "--auth must be USER:PASS, got '"@ + f.what + "'"@,
        ConfigFault::BadUserId => "invalid user id '"@ + f.what
            + "': use [A-Za-z0-9_-], max 32 chars"@,
        ConfigFault::EmptyPassword => "password must not be empty"@,
        ConfigFault::InboundFormat => "--inbound-auth must be USER:PASS, got '"@ + f.what + "'"@,
        ConfigFault::InboundUser => "inbound username must be 1..=255 bytes"@,
        ConfigFault::InboundPassword => "inbound password must be 1..=255 bytes"@,
        ConfigFault::NoUpstream =>
            "client needs --server (WebTransport) and/or --url (HTTPS fallback)"@,
        ConfigFault::PinLength => "--pin must be a SHA-256 fingerprint: 64 hex chars (got "@
            + text::decimal(f.number) + " chars)"@,
        ConfigFault::PinHex => "--pin: invalid hex character '"@ + f.what + "'"@,
        ConfigFault::PinWithSkipVerify =>
            "--pin and --skip-verify are mutually exclusive: --pin is the stronger check"@,
        ConfigFault::SniLength => "--sni must be a hostname (1..=253 chars)"@,
        ConfigFault::SniDots => "--sni '"@ + f.what + "' is not a valid hostname"@,
        ConfigFault::SniChars => "--sni '"@ + f.what
            + "' must be ASCII hostname characters [A-Za-z0-9.-_]"@,
        ConfigFault::SniOverWss =>
            "--sni cannot masquerade a wss:// fallback URL: Cloudflare routes by the real SNI"@,
        ConfigFault::SniUnpinned =>
            "--sni requires --pin (recommended) or --skip-verify: the server certificate cannot match the masquerade name, so identity must be pinned explicitly"@,
        ConfigFault::RecvWindow => "--recv-window must be 1..=64 MB, got "@ + text::decimal(
            f.number,
        ),
        ConfigFault::MaxFrame => "--max-frame-kb must be 16..=1024 KB, got "@ + text::decimal(
            f.number,
        ),
        ConfigFault::DnsTtl => "--udp-dns-ttl must be 0..=86400 seconds, got "@ + text::decimal(
            f.number,
        ),
        ConfigFault::NoListener =>
            "server needs --listen (WebTransport) and/or --fallback-listen (HTTPS fallback)"@,
        ConfigFault::CertNotFound => "cert file not found: "@ + f.what,
        ConfigFault::KeyNotFound => "key file not found: "@ + f.what,
        ConfigFault::NoCert => "server needs --cert/--key (or --self-signed for dev)"@,
        ConfigFault::ConfigWithoutPath => "--config needs a file path"@,
        ConfigFault::ConfigTwice => "--config given twice"@,
        ConfigFault::FileNotFound => "config file not found: "@ + f.what,
        ConfigFault::FileUnreadable => "read config file "@ + f.what,
        ConfigFault::LineKey => line_text(
            f,
            "key must be a single option name"@,
        ),
        ConfigFault::LineUnknownOption => line_text(
            f,
            "unknown option '"@ + f.what
                + "' — use the long CLI option names (see docs/手册.md)"@,
        ),
        ConfigFault::LineModeMissing => line_text(
            f,
            "mode needs a value (server|client)"@,
        ),
        ConfigFault::LineModeValue => line_text(
            f,
            "mode must be 'server' or 'client', got '"@ + f.value + "'"@,
        ),
        ConfigFault::LineSwitchValue => line_text(
            f,
            "'"@ + f.what + "' is an on/off switch, drop the value (got '"@ + f.value + "')"@,
        ),
        ConfigFault::LineNeedsValue => line_text(
            f,
            "option '"@ + f.what + "' needs a value (KEY = VALUE)"@,
        ),
    }
}

// ---------------------------------------------------------------------------
// Command line
// ---------------------------------------------------------------------------
/// The command line, option by option.
#[derive(Debug)]
pub struct Cli {
    /// Run in client mode
    pub client: bool,
    /// Run in server mode
    pub server: bool,
    /// Credentials, user:password (repeatable on server)
    pub auth: Vec<String>,
    /// Log level (trace|debug|info|warn|error)
    pub log: String,
    /// Time source for the internal clock
    pub time: String,
    /// [client] WebTransport server URL: https://host[:port][/path]
    pub server_url: Option<String>,
    /// [client] HTTPS POST fallback URL, e.g. https://host/api/ppp
    pub url: Option<String>,
    /// [client] SOCKS5 inbound listen address
    pub bind: String,
    /// [client] HTTP proxy inbound listen address (optional)
    pub http_bind: Option<String>,
    /// [client] require local proxy authentication
    pub inbound_auth: Option<String>,
    /// [client] number of pooled WebTransport connections (1..8)
    pub conns: usize,
    /// [client] skip TLS certificate verification (development only)
    pub skip_verify: bool,
    /// [client] masquerade SNI
    pub sni: Option<String>,
    /// [client] pin the server certificate by SHA-256 fingerprint
    pub pin: Option<String>,
    /// [client+server] QUIC per-stream receive window, MB (1..=64)
    pub recv_window_mb: u64,
    /// [client+server] largest frame payload, KB (16..=1024); the two ends use
    /// the smaller of their limits
    pub max_frame_kb: u64,
    /// [server] WebTransport (QUIC over UDP) listen address
    pub listen: Option<String>,
    /// [server] TLS certificate PEM file
    pub cert: Option<String>,
    /// [server] TLS private key PEM file
    pub key: Option<String>,
    /// [server] generate a self-signed certificate (development only)
    pub self_signed: bool,
    /// [server] TLS TCP fallback listen address
    pub fallback_listen: Option<String>,
    /// [server] plain-HTTP listen address
    pub http_listen: Option<String>,
    /// [server] directory with http-01 challenge files
    pub acme_dir: Option<String>,
    /// [server] API path for the HTTP fallback endpoint
    pub path: String,
    /// [server] max concurrent sessions (global)
    pub max_sessions: usize,
    /// [server] rate limit, Mbps (0 = unlimited)
    pub rate_mbps: u64,
    /// [server] idle session timeout, seconds
    pub idle_secs: u64,
    /// [server] allow connections to loopback, private, link-local and other
    /// non-public addresses (disabled by default to prevent SSRF)
    pub allow_private_targets: bool,
    /// [server] global cap on concurrent unauthenticated connections
    pub max_unauth: u64,
    /// [server] how long resolved names of UDP targets are used, seconds
    /// (0..=86400; 0 = resolve every datagram)
    pub udp_dns_ttl: u64,
    /// [client+server] health endpoint listen address
    pub health: Option<String>,
    /// [client+server] load arguments from a config file
    pub config: Option<String>,
    /// [server] how long to drain in-flight sessions on shutdown, seconds
    pub shutdown_grace: u64,
    pub command: Option<Command>,
}

#[derive(Debug)]
pub enum Command {
    /// Exit 0 when a /healthz endpoint answers 200 with a snapshot body.
    Healthcheck { url: String },
}

#[derive(Debug, Clone)]
pub struct ClientConfig {
    pub wt_url: Option<String>,
    pub fb_url: Option<String>,
    pub socks_bind: String,
    pub http_bind: Option<String>,
    pub inbound_auth: Option<(String, String)>,
    pub conns: usize,
    pub uid: String,
    pub password: String,
    pub skip_verify: bool,
    /// Masquerade SNI hostname (None = use the URL host).
    pub sni: Option<String>,
    /// SHA-256 certificate fingerprint (raw 32 bytes) to pin the server.
    pub pin: Option<[u8; 32]>,
    pub recv_window: u32,
    /// The largest frame payload that this end takes, in bytes.
    pub max_plaintext: u32,
    pub health: Option<String>,
}

/// Where the server loads its TLS material from.
#[derive(Debug, Clone)]
pub enum CertSource {
    Files { cert: String, key: String },
    SelfSigned,
}

#[derive(Debug, Clone)]
pub struct ServerConfig {
    pub listen: Option<String>,
    pub cert: CertSource,
    pub fallback_listen: Option<String>,
    pub http_listen: Option<String>,
    pub acme_dir: Option<String>,
    pub path: String,
    pub users: Vec<(String, String)>,
    pub max_sessions: usize,
    pub rate_mbps: u64,
    pub idle_secs: u64,
    pub allow_private_targets: bool,
    pub max_unauth: u64,
    pub recv_window: u32,
    /// The largest frame payload that this end takes, in bytes.
    pub max_plaintext: u32,
    /// How long resolved names of UDP targets are used, in milliseconds.
    pub udp_dns_ttl: u64,
    pub shutdown_grace: u64,
    pub health: Option<String>,
}

impl Default for Cli {
    /// What holds where the command line says nothing.
    fn default() -> (r: Self)
        ensures
            !r.client && !r.server && !r.skip_verify && !r.self_signed && !r.allow_private_targets,
            r.auth@.len() == 0,
            r.log@ == "info"@,
            r.time@ == "https://www.cloudflare.com/cdn-cgi/trace"@,
            r.bind@ == "127.0.0.1:1080"@,
            r.path@ == "/api/ppp"@,
            r.conns == 2,
            r.recv_window_mb == 2,
            r.max_frame_kb == 16,
            r.udp_dns_ttl == 3600,
            r.max_sessions == 200,
            r.rate_mbps == 100,
            r.idle_secs == 60,
            r.max_unauth == 128,
            r.shutdown_grace == 10,
            r.server_url is None && r.url is None && r.http_bind is None && r.inbound_auth is None,
            r.sni is None && r.pin is None && r.listen is None && r.cert is None && r.key is None,
            r.fallback_listen is None && r.http_listen is None && r.acme_dir is None,
            r.health is None && r.config is None && r.command is None,
    {
        Cli {
            client: false,
            server: false,
            auth: Vec::new(),
            log: text::own("info"),
            time: text::own("https://www.cloudflare.com/cdn-cgi/trace"),
            server_url: None,
            url: None,
            bind: text::own("127.0.0.1:1080"),
            http_bind: None,
            inbound_auth: None,
            conns: 2,
            skip_verify: false,
            sni: None,
            pin: None,
            recv_window_mb: 2,
            max_frame_kb: 16,
            listen: None,
            cert: None,
            key: None,
            self_signed: false,
            fallback_listen: None,
            http_listen: None,
            acme_dir: None,
            path: text::own("/api/ppp"),
            max_sessions: 200,
            rate_mbps: 100,
            idle_secs: 60,
            allow_private_targets: false,
            max_unauth: 128,
            udp_dns_ttl: DEFAULT_TTL_SECS,
            health: None,
            config: None,
            shutdown_grace: 10,
            command: None,
        }
    }
}

pub open spec fn opt_view(o: Option<String>) -> Option<Seq<char>> {
    match o {
        Some(s) => Some(s@),
        None => None,
    }
}

fn clone_opt(o: &Option<String>) -> (r: Option<String>)
    ensures
        opt_view(r) == opt_view(*o),
{
    match o {
        Some(s) => Some(s.clone()),
        None => None,
    }
}

// ---------------------------------------------------------------------------
// Single values
// ---------------------------------------------------------------------------
/// A user id: 1 to 32 letters, digits, underscores and hyphens.
pub open spec fn valid_uid(u: Seq<char>) -> bool {
    &&& 0 < u.len() <= 32
    &&& forall|i: int|
        0 <= i < u.len() ==> text::is_alnum(#[trigger] u[i]) || u[i] == '_' || u[i] == '-'
}

/// `USER:PASS`: what stands before the first colon, without white space around
/// it, is the id; what follows is the password.
pub open spec fn auth_parts(raw: Seq<char>) -> Result<(Seq<char>, Seq<char>), Fault> {
    match text::split_once(raw, ':') {
        None => Err(about(ConfigFault::AuthFormat, raw)),
        Some((u, p)) => {
            let uid = text::trim(u);
            if !valid_uid(uid) {
                Err(about(ConfigFault::BadUserId, uid))
            } else if p.len() == 0 {
                Err(bare(ConfigFault::EmptyPassword))
            } else {
                Ok((uid, p))
            }
        },
    }
}

/// `USER:PASS` for local clients: both parts have 1 to 255 bytes.
pub open spec fn inbound_parts(raw: Seq<char>) -> Result<(Seq<char>, Seq<char>), Fault> {
    match text::split_once(raw, ':') {
        None => Err(about(ConfigFault::InboundFormat, raw)),
        Some((u, p)) => {
            if !(0 < encode_utf8(u).len() <= 255) {
                Err(bare(ConfigFault::InboundUser))
            } else if !(0 < encode_utf8(p).len() <= 255) {
                Err(bare(ConfigFault::InboundPassword))
            } else {
                Ok((u, p))
            }
        },
    }
}

fn is_valid_uid(u: &[char]) -> (r: bool)
    ensures
        r == valid_uid(u@),
{
    if u.len() == 0 || u.len() > 32 {
        return false;
    }
    let mut i: usize = 0;
    while i < u.len()
        invariant
            i <= u.len(),
            forall|j: int|
                0 <= j < i ==> text::is_alnum(#[trigger] u@[j]) || u@[j] == '_' || u@[j] == '-',
        decreases u.len() - i,
    {
        let c = u[i];
        if !(text::char_is_alnum(c) || c == '_' || c == '-') {
            return false;
        }
        i += 1;
    }
    true
}

pub fn parse_auth(raw: &str) -> (r: Result<(String, String), ConfigError>)
    ensures
        match r {
            Ok((u, p)) => auth_parts(raw@) == Ok::<(Seq<char>, Seq<char>), Fault>((u@, p@)),
            Err(e) => auth_parts(raw@) == Err::<(Seq<char>, Seq<char>), Fault>(e.view()),
        },
{
    let v = text::chars_of(raw);
    let c = v.as_slice();
    let i = text::find_char(c, ':');
    if i >= c.len() {
        return Err(ConfigError::about(ConfigFault::AuthFormat, text::own(raw)));
    }
    let u = text::part(c, 0, i);
    let p = text::part(c, i + 1, c.len());
    proof {
        assert(u@ =~= raw@.take(i as int));
        assert(p@ =~= raw@.skip(i + 1));
    }
    let uid = text::trim_chars(u);
    if !is_valid_uid(uid) {
        return Err(ConfigError::about(ConfigFault::BadUserId, text::string_of(uid)));
    }
    if p.len() == 0 {
        return Err(ConfigError::bare(ConfigFault::EmptyPassword));
    }
    Ok((text::string_of(uid), text::string_of(p)))
}

/// Parse `--inbound-auth USER:PASS`. RFC1929 length fields are one byte, so
/// both parts must be 1..=255 bytes.
pub fn parse_inbound_auth(raw: &str) -> (r: Result<(String, String), ConfigError>)
    ensures
        match r {
            Ok((u, p)) => inbound_parts(raw@) == Ok::<(Seq<char>, Seq<char>), Fault>((u@, p@)),
            Err(e) => inbound_parts(raw@) == Err::<(Seq<char>, Seq<char>), Fault>(e.view()),
        },
{
    let v = text::chars_of(raw);
    let c = v.as_slice();
    let i = text::find_char(c, ':');
    if i >= c.len() {
        return Err(ConfigError::about(ConfigFault::InboundFormat, text::own(raw)));
    }
    let u = text::string_of(text::part(c, 0, i));
    let p = text::string_of(text::part(c, i + 1, c.len()));
    proof {
        assert(u@ =~= raw@.take(i as int));
        assert(p@ =~= raw@.skip(i + 1));
    }
    let un = u.as_str().as_bytes().len();
    if un == 0 || un > 255 {
        return Err(ConfigError::bare(ConfigFault::InboundUser));
    }
    let pn = p.as_str().as_bytes().len();
    if pn == 0 || pn > 255 {
        return Err(ConfigError::bare(ConfigFault::InboundPassword));
    }
    Ok((u, p))
}

/// The API path: absolute, and the default one when nothing is given.
pub open spec fn normal_path(p: Seq<char>) -> Seq<char> {
    let t = text::trim(p);
    if t.len() == 0 || t == "/"@ {
        "/api/ppp"@
    } else if t[0] == '/' {
        t
    } else {
        "/"@ + t
    }
}

pub fn normalize_path(p: &str) -> (r: String)
    ensures
        r@ == normal_path(p@),
{
    let v = text::chars_of(p);
    let t = text::trim_chars(v.as_slice());
    if t.len() == 0 || text::is_text(t, "/") {
        text::own("/api/ppp")
    } else if t[0] == '/' {
        text::string_of(t)
    } else {
        text::own("/").concat(text::string_of(t).as_str())
    }
}

pub fn recv_window_bytes(mb: u64) -> (r: Result<u32, ConfigError>)
    ensures
        match r {
            Ok(n) => 1 <= mb <= 64 && n == mb * 1024 * 1024,
            Err(e) => !(1 <= mb <= 64) && e.view() == counted(ConfigFault::RecvWindow, mb as nat),
        },
{
    if mb < 1 || mb > 64 {
        return Err(ConfigError::counted(ConfigFault::RecvWindow, mb));
    }
    Ok(mb as u32 * 1024 * 1024)
}

/// The largest frame payload, from kilobytes to bytes.
pub fn max_frame_bytes(kb: u64) -> (r: Result<u32, ConfigError>)
    ensures
        match r {
            Ok(n) => 16 <= kb <= 1024 && n == kb * 1024,
            Err(e) => !(16 <= kb <= 1024) && e.view() == counted(ConfigFault::MaxFrame, kb as nat),
        },
{
    if kb < 16 || kb > 1024 {
        return Err(ConfigError::counted(ConfigFault::MaxFrame, kb));
    }
    Ok(kb as u32 * 1024)
}

/// How long resolved names are used, from seconds to milliseconds.
pub fn dns_ttl_millis(secs: u64) -> (r: Result<u64, ConfigError>)
    ensures
        match r {
            Ok(n) => secs <= 86400 && n == secs * 1000,
            Err(e) => secs > 86400 && e.view() == counted(ConfigFault::DnsTtl, secs as nat),
        },
{
    if secs > 86400 {
        return Err(ConfigError::counted(ConfigFault::DnsTtl, secs));
    }
    Ok(secs * 1000)
}

/// `s` without its colons.
pub open spec fn without_colons(s: Seq<char>) -> Seq<char>
    decreases s.len(),
{
    if s.len() == 0 {
        Seq::empty()
    } else if s.last() == ':' {
        without_colons(s.drop_last())
    } else {
        without_colons(s.drop_last()).push(s.last())
    }
}

/// Position of the first byte that is no hexadecimal digit, or the length.
pub open spec fn first_non_hex(b: Seq<u8>) -> int
    decreases b.len(),
{
    if b.len() == 0 {
        0
    } else if hex_value(b[0] as char) is None {
        0
    } else {
        1 + first_non_hex(b.drop_first())
    }
}

/// A certificate fingerprint: 64 hexadecimal digits; colons do not count.
pub open spec fn fingerprint(raw: Seq<char>) -> Result<Seq<u8>, Fault> {
    let b = encode_utf8(without_colons(raw));
    if b.len() != 64 {
        Err(counted(ConfigFault::PinLength, b.len()))
    } else if first_non_hex(b) < 64 {
        Err(about(ConfigFault::PinHex, seq![b[first_non_hex(b)] as char]))
    } else {
        Ok(
            Seq::new(
                32,
                |i: int|
                    (hex_value(b[2 * i] as char)->0 * 16 + hex_value(b[2 * i + 1] as char)->0) as u8,
            ),
        )
    }
}

proof fn lemma_first_non_hex_is(b: Seq<u8>, i: int)
    requires
        0 <= i <= b.len(),
        i < b.len() ==> hex_value(b[i] as char) is None,
        forall|j: int| 0 <= j < i ==> hex_value(#[trigger] b[j] as char) is Some,
    ensures
        first_non_hex(b) == i,
    decreases b.len(),
{
    if i > 0 {
        let t = b.drop_first();
        assert(hex_value(b[0] as char) is Some);
        if i < b.len() {
            assert(t[i - 1] == b[i]);
        }
        assert forall|j: int| 0 <= j < i - 1 implies hex_value(#[trigger] t[j] as char) is Some by {
            assert(t[j] == b[j + 1]);
        }
        lemma_first_non_hex_is(t, i - 1);
    }
}

/// Parse a `--pin` SHA-256 certificate fingerprint: 64 hex chars (colons
/// tolerated between byte pairs for readability, e.g. OpenSSL output).
pub fn parse_fingerprint(raw: &str) -> (r: Result<[u8; 32], ConfigError>)
    ensures
        match r {
            Ok(f) => fingerprint(raw@) == Ok::<Seq<u8>, Fault>(f@),
            Err(e) => fingerprint(raw@) == Err::<Seq<u8>, Fault>(e.view()),
        },
{
    let v = text::chars_of(raw);
    let mut kept = String::new();
    let mut i: usize = 0;
    while i < v.len()
        invariant
            i <= v.len(),
            kept@ == without_colons(v@.take(i as int)),
        decreases v.len() - i,
    {
        assert(v@.take(i + 1).drop_last() =~= v@.take(i as int));
        if v[i] != ':' {
            kept.push(v[i]);
        }
        i += 1;
    }
    assert(v@.take(i as int) =~= raw@);
    let b = kept.as_str().as_bytes();
    if b.len() != 64 {
        return Err(ConfigError::counted(ConfigFault::PinLength, b.len() as u64));
    }
    let mut out = [0u8; 32];
    let mut k: usize = 0;
    while k < 32
        invariant
            k <= 32,
            b@.len() == 64,
            b@ == encode_utf8(without_colons(raw@)),
            forall|j: int| 0 <= j < 2 * k ==> hex_value(#[trigger] b@[j] as char) is Some,
            forall|j: int|
                0 <= j < k ==> #[trigger] out@[j] == (hex_value(b@[2 * j] as char)->0 * 16
                    + hex_value(b@[2 * j + 1] as char)->0) as u8,
        decreases 32 - k,
    {
        let hi = match value_of(b[2 * k] as char) {
            Some(d) => d,
            None => {
                proof {
                    lemma_first_non_hex_is(b@, 2 * k as int);
                }
                return Err(ConfigError::about(ConfigFault::PinHex, one_char(b[2 * k] as char)));
            },
        };
        let lo = match value_of(b[2 * k + 1] as char) {
            Some(d) => d,
            None => {
                proof {
                    lemma_first_non_hex_is(b@, 2 * k + 1);
                }
                return Err(
                    ConfigError::about(ConfigFault::PinHex, one_char(b[2 * k + 1] as char)),
                );
            },
        };
        out[k] = hi * 16 + lo;
        k += 1;
    }
    proof {
        lemma_first_non_hex_is(b@, 64);
        assert(out@ =~= fingerprint(raw@)->Ok_0);
    }
    Ok(out)
}

fn one_char(c: char) -> (r: String)
    ensures
        r@ == seq![c],
{
    let mut s = String::new();
    s.push(c);
    assert(s@ =~= seq![c]);
    s
}

// ---------------------------------------------------------------------------
// From the command line to a configuration
// ---------------------------------------------------------------------------
/// A masquerade name made of hostname characters.
pub open spec fn sni_chars(s: Seq<char>) -> bool {
    forall|i: int|
        0 <= i < s.len() ==> text::is_alnum(#[trigger] s[i]) || s[i] == '.' || s[i] == '-' || s[i]
            == '_'
}

/// A fallback URL that goes over WebSocket.
pub open spec fn is_ws_url(u: Seq<char>) -> bool {
    text::starts_with(u, "wss://"@) || text::starts_with(u, "ws://"@)
}

/// What is wrong with a masquerade name: it must be a hostname, must not stand
/// before a WebSocket fallback, and needs another way to know the server.
pub open spec fn sni_fault(sni: Seq<char>, url: Option<Seq<char>>, identified: bool) -> Option<
    Fault,
> {
    if !(0 < encode_utf8(sni).len() <= 253) {
        Some(bare(ConfigFault::SniLength))
    } else if sni[0] == '.' || sni.last() == '.' || text::has_infix(sni, ".."@) {
        Some(about(ConfigFault::SniDots, sni))
    } else if !sni_chars(sni) {
        Some(about(ConfigFault::SniChars, sni))
    } else if url matches Some(u) && is_ws_url(u) {
        Some(bare(ConfigFault::SniOverWss))
    } else if !identified {
        Some(bare(ConfigFault::SniUnpinned))
    } else {
        None
    }
}

/// The pinned fingerprint: well-formed, and not beside the switch that turns
/// verification off.
pub open spec fn pin_of(pin: Option<Seq<char>>, skip_verify: bool) -> Result<
    Option<Seq<u8>>,
    Fault,
> {
    match pin {
        None => Ok(None),
        Some(raw) => match fingerprint(raw) {
            Err(e) => Err(e),
            Ok(f) => if skip_verify {
                Err(bare(ConfigFault::PinWithSkipVerify))
            } else {
                Ok(Some(f))
            },
        },
    }
}

/// The first thing that is wrong with a client command line.
pub open spec fn client_fault(c: Cli) -> Option<Fault> {
    if c.auth@.len() == 0 {
        Some(bare(ConfigFault::AuthRequired))
    } else if auth_parts(c.auth@[0]@) is Err {
        Some(auth_parts(c.auth@[0]@)->Err_0)
    } else if c.server_url is None && c.url is None {
        Some(bare(ConfigFault::NoUpstream))
    } else if pin_of(opt_view(c.pin), c.skip_verify) is Err {
        Some(pin_of(opt_view(c.pin), c.skip_verify)->Err_0)
    } else if c.sni matches Some(s) && sni_fault(
        s@,
        opt_view(c.url),
        c.pin is Some || c.skip_verify,
    ) is Some {
        sni_fault(c.sni->0@, opt_view(c.url), c.pin is Some || c.skip_verify)
    } else if c.inbound_auth matches Some(s) && inbound_parts(s@) is Err {
        Some(inbound_parts(c.inbound_auth->0@)->Err_0)
    } else if !(1 <= c.recv_window_mb <= 64) {
        Some(counted(ConfigFault::RecvWindow, c.recv_window_mb as nat))
    } else if !(16 <= c.max_frame_kb <= 1024) {
        Some(counted(ConfigFault::MaxFrame, c.max_frame_kb as nat))
    } else {
        None
    }
}

/// The client configuration that a command line describes.
pub open spec fn is_client_config(c: Cli, r: ClientConfig) -> bool {
    &&& opt_view(r.wt_url) == opt_view(c.server_url)
    &&& opt_view(r.fb_url) == opt_view(c.url)
    &&& r.socks_bind@ == c.bind@
    &&& opt_view(r.http_bind) == opt_view(c.http_bind)
    &&& match (r.inbound_auth, c.inbound_auth) {
        (Some((u, p)), Some(raw)) => inbound_parts(raw@) == Ok::<(Seq<char>, Seq<char>), Fault>(
            (u@, p@),
        ),
        (None, None) => true,
        _ => false,
    }
    &&& r.conns == if c.conns < 1 {
        1
    } else if c.conns > 8 {
        8
    } else {
        c.conns
    }
    &&& auth_parts(c.auth@[0]@) == Ok::<(Seq<char>, Seq<char>), Fault>((r.uid@, r.password@))
    &&& r.skip_verify == c.skip_verify
    &&& opt_view(r.sni) == opt_view(c.sni)
    &&& pin_of(opt_view(c.pin), c.skip_verify) == Ok::<Option<Seq<u8>>, Fault>(
        match r.pin {
            Some(f) => Some(f@),
            None => None,
        },
    )
    &&& r.recv_window == c.recv_window_mb * 1024 * 1024
    &&& r.max_plaintext == c.max_frame_kb * 1024
    &&& opt_view(r.health) == opt_view(c.health)
}

/// The first user entry that is wrong.
pub open spec fn users_fault(auth: Seq<String>) -> Option<Fault>
    decreases auth.len(),
{
    if auth.len() == 0 {
        None
    } else {
        match users_fault(auth.drop_last()) {
            Some(f) => Some(f),
            None => match auth_parts(auth.last()@) {
                Err(f) => Some(f),
                Ok(_) => None,
            },
        }
    }
}

/// The TLS material of a server command line; whether the two files are there
/// is known from outside.
pub open spec fn cert_fault(c: Cli, cert_found: bool, key_found: bool) -> Option<Fault> {
    if c.self_signed {
        None
    } else {
        match (c.cert, c.key) {
            (Some(cert), Some(key)) => if !cert_found {
                Some(about(ConfigFault::CertNotFound, cert@))
            } else if !key_found {
                Some(about(ConfigFault::KeyNotFound, key@))
            } else {
                None
            },
            _ => Some(bare(ConfigFault::NoCert)),
        }
    }
}

/// The first thing that is wrong with a server command line.
pub open spec fn server_fault(c: Cli, cert_found: bool, key_found: bool) -> Option<Fault> {
    if c.listen is None && c.fallback_listen is None {
        Some(bare(ConfigFault::NoListener))
    } else if cert_fault(c, cert_found, key_found) is Some {
        cert_fault(c, cert_found, key_found)
    } else if users_fault(c.auth@) is Some {
        users_fault(c.auth@)
    } else if !(1 <= c.recv_window_mb <= 64) {
        Some(counted(ConfigFault::RecvWindow, c.recv_window_mb as nat))
    } else if !(16 <= c.max_frame_kb <= 1024) {
        Some(counted(ConfigFault::MaxFrame, c.max_frame_kb as nat))
    } else if c.udp_dns_ttl > 86400 {
        Some(counted(ConfigFault::DnsTtl, c.udp_dns_ttl as nat))
    } else {
        None
    }
}

/// The server configuration that a command line describes.
pub open spec fn is_server_config(c: Cli, r: ServerConfig) -> bool {
    &&& opt_view(r.listen) == opt_view(c.listen)
    &&& match r.cert {
        CertSource::SelfSigned => c.self_signed,
        CertSource::Files { cert, key } => !c.self_signed && opt_view(c.cert) == Some(cert@)
            && opt_view(c.key) == Some(key@),
    }
    &&& opt_view(r.fallback_listen) == opt_view(c.fallback_listen)
    &&& opt_view(r.http_listen) == opt_view(c.http_listen)
    &&& opt_view(r.acme_dir) == opt_view(c.acme_dir)
    &&& r.path@ == normal_path(c.path@)
    &&& r.users@.len() == c.auth@.len()
    &&& forall|i: int|
        0 <= i < c.auth@.len() ==> auth_parts((#[trigger] c.auth@[i])@) == Ok::<
            (Seq<char>, Seq<char>),
            Fault,
        >((r.users@[i].0@, r.users@[i].1@))
    &&& r.max_sessions == if c.max_sessions < 1 {
        1
    } else {
        c.max_sessions
    }
    &&& r.rate_mbps == c.rate_mbps
    &&& r.idle_secs == if c.idle_secs < 5 {
        5
    } else {
        c.idle_secs
    }
    &&& r.allow_private_targets == c.allow_private_targets
    &&& r.max_unauth == if c.max_unauth < 1 {
        1
    } else {
        c.max_unauth
    }
    &&& r.recv_window == c.recv_window_mb * 1024 * 1024
    &&& r.max_plaintext == c.max_frame_kb * 1024
    &&& r.udp_dns_ttl == c.udp_dns_ttl * 1000
    &&& r.shutdown_grace == c.shutdown_grace
    &&& opt_view(r.health) == opt_view(c.health)
}

fn check_sni(sni: &str, url: &Option<String>, identified: bool) -> (r: Result<(), ConfigError>)
    ensures
        match r {
            Ok(_) => sni_fault(sni@, opt_view(*url), identified) is None,
            Err(e) => sni_fault(sni@, opt_view(*url), identified) == Some(e.view()),
        },
{
    let n = sni.as_bytes().len();
    if n == 0 || n > 253 {
        return Err(ConfigError::bare(ConfigFault::SniLength));
    }
    let v = text::chars_of(sni);
    let c = v.as_slice();
    if c.len() == 0 {
        proof {
            assert(sni@ =~= Seq::<char>::empty());
            assert(encode_utf8(sni@).len() == 0);
        }
        return Err(ConfigError::bare(ConfigFault::SniLength));
    }
    if c[0] == '.' || c[c.len() - 1] == '.' || text::contains_text(c, "..") {
        return Err(ConfigError::about(ConfigFault::SniDots, text::own(sni)));
    }
    let mut i: usize = 0;
    while i < c.len()
        invariant
            i <= c.len(),
            c@ == sni@,
            forall|j: int|
                0 <= j < i ==> text::is_alnum(#[trigger] c@[j]) || c@[j] == '.' || c@[j] == '-'
                    || c@[j] == '_',
            0 < encode_utf8(sni@).len() <= 253,
            !(sni@[0] == '.' || sni@.last() == '.' || text::has_infix(sni@, ".."@)),
        decreases c.len() - i,
    {
        let x = c[i];
        if !(text::char_is_alnum(x) || x == '.' || x == '-' || x == '_') {
            return Err(ConfigError::about(ConfigFault::SniChars, text::own(sni)));
        }
        i += 1;
    }
    if let Some(u) = url {
        let w = text::chars_of(u.as_str());
        if text::starts_with_text(w.as_slice(), "wss://") || text::starts_with_text(
            w.as_slice(),
            "ws://",
        ) {
            return Err(ConfigError::bare(ConfigFault::SniOverWss));
        }
    }
    if !identified {
        return Err(ConfigError::bare(ConfigFault::SniUnpinned));
    }
    Ok(())
}

impl Cli {
    /// Exactly one mode, and somebody to log in as.
    pub fn validate(&self) -> (r: Result<(), ConfigError>)
        ensures
            match r {
                Ok(_) => self.client != self.server && self.auth@.len() > 0,
                Err(e) => if self.client == self.server {
                    e.view() == bare(ConfigFault::ModeChoice)
                } else {
                    self.auth@.len() == 0 && e.view() == bare(ConfigFault::AuthRequired)
                },
            },
    {
        if self.client == self.server {
            return Err(ConfigError::bare(ConfigFault::ModeChoice));
        }
        if self.auth.len() == 0 {
            return Err(ConfigError::bare(ConfigFault::AuthRequired));
        }
        Ok(())
    }

    pub fn client_config(&self) -> (r: Result<ClientConfig, ConfigError>)
        ensures
            match r {
                Ok(c) => client_fault(*self) is None && is_client_config(*self, c),
                Err(e) => client_fault(*self) == Some(e.view()),
            },
    {
        if self.auth.len() == 0 {
            return Err(ConfigError::bare(ConfigFault::AuthRequired));
        }
        let (uid, password) = match parse_auth(self.auth[0].as_str()) {
            Ok(x) => x,
            Err(e) => {
                return Err(e);
            },
        };
        if self.server_url.is_none() && self.url.is_none() {
            return Err(ConfigError::bare(ConfigFault::NoUpstream));
        }
        let pin: Option<[u8; 32]> = match &self.pin {
            Some(raw) => {
                let fp = match parse_fingerprint(raw.as_str()) {
                    Ok(x) => x,
                    Err(e) => {
                        return Err(e);
                    },
                };
                if self.skip_verify {
                    return Err(ConfigError::bare(ConfigFault::PinWithSkipVerify));
                }
                Some(fp)
            },
            None => None,
        };
        if let Some(sni) = &self.sni {
            match check_sni(sni.as_str(), &self.url, pin.is_some() || self.skip_verify) {
                Ok(_) => {},
                Err(e) => {
                    return Err(e);
                },
            }
        }
        let inbound_auth: Option<(String, String)> = match &self.inbound_auth {
            Some(raw) => match parse_inbound_auth(raw.as_str()) {
                Ok(x) => Some(x),
                Err(e) => {
                    return Err(e);
                },
            },
            None => None,
        };
        let recv_window = match recv_window_bytes(self.recv_window_mb) {
            Ok(x) => x,
            Err(e) => {
                return Err(e);
            },
        };
        let max_plaintext = match max_frame_bytes(self.max_frame_kb) {
            Ok(x) => x,
            Err(e) => {
                return Err(e);
            },
        };
        Ok(
            ClientConfig {
                wt_url: clone_opt(&self.server_url),
                fb_url: clone_opt(&self.url),
                socks_bind: self.bind.clone(),
                http_bind: clone_opt(&self.http_bind),
                inbound_auth,
                conns: if self.conns < 1 {
                    1
                } else if self.conns > 8 {
                    8
                } else {
                    self.conns
                },
                uid,
                password,
                skip_verify: self.skip_verify,
                sni: clone_opt(&self.sni),
                pin,
                recv_window,
                max_plaintext,
                health: clone_opt(&self.health),
            },
        )
    }

    /// The server configuration. Whether the certificate and the key file are
    /// there is looked up by the caller, so that a typo in a path surfaces
    /// before any listener binds.
    pub fn server_config(&self, cert_found: bool, key_found: bool) -> (r: Result<
        ServerConfig,
        ConfigError,
    >)
        ensures
            match r {
                Ok(c) => server_fault(*self, cert_found, key_found) is None && is_server_config(
                    *self,
                    c,
                ),
                Err(e) => server_fault(*self, cert_found, key_found) == Some(e.view()),
            },
    {
        if self.listen.is_none() && self.fallback_listen.is_none() {
            return Err(ConfigError::bare(ConfigFault::NoListener));
        }
        let cert = if self.self_signed {
            CertSource::SelfSigned
        } else {
            match (&self.cert, &self.key) {
                (Some(c), Some(k)) => {
                    if !cert_found {
                        return Err(ConfigError::about(ConfigFault::CertNotFound, c.clone()));
                    }
                    if !key_found {
                        return Err(ConfigError::about(ConfigFault::KeyNotFound, k.clone()));
                    }
                    CertSource::Files { cert: c.clone(), key: k.clone() }
                },
                _ => {
                    return Err(ConfigError::bare(ConfigFault::NoCert));
                },
            }
        };
        let mut users: Vec<(String, String)> = Vec::new();
        let mut i: usize = 0;
        while i < self.auth.len()
            invariant
                i <= self.auth.len(),
                users@.len() == i,
                users_fault(self.auth@.take(i as int)) is None,
                !(self.listen is None && self.fallback_listen is None),
                cert_fault(*self, cert_found, key_found) is None,
                forall|j: int|
                    0 <= j < i ==> auth_parts((#[trigger] self.auth@[j])@) == Ok::<
                        (Seq<char>, Seq<char>),
                        Fault,
                    >((users@[j].0@, users@[j].1@)),
            decreases self.auth.len() - i,
        {
            assert(self.auth@.take(i + 1).drop_last() =~= self.auth@.take(i as int));
            match parse_auth(self.auth[i].as_str()) {
                Ok(x) => {
                    users.push(x);
                },
                Err(e) => {
                    proof {
                        lemma_users_fault_found(self.auth@, i + 1);
                    }
                    return Err(e);
                },
            }
            i += 1;
        }
        assert(self.auth@.take(i as int) =~= self.auth@);
        let recv_window = match recv_window_bytes(self.recv_window_mb) {
            Ok(x) => x,
            Err(e) => {
                return Err(e);
            },
        };
        let max_plaintext = match max_frame_bytes(self.max_frame_kb) {
            Ok(x) => x,
            Err(e) => {
                return Err(e);
            },
        };
        let udp_dns_ttl = match dns_ttl_millis(self.udp_dns_ttl) {
            Ok(x) => x,
            Err(e) => {
                return Err(e);
            },
        };
        Ok(
            ServerConfig {
                listen: clone_opt(&self.listen),
                cert,
                fallback_listen: clone_opt(&self.fallback_listen),
                http_listen: clone_opt(&self.http_listen),
                acme_dir: clone_opt(&self.acme_dir),
                path: normalize_path(self.path.as_str()),
                users,
                max_sessions: if self.max_sessions < 1 {
                    1
                } else {
                    self.max_sessions
                },
                rate_mbps: self.rate_mbps,
                idle_secs: if self.idle_secs < 5 {
                    5
                } else {
                    self.idle_secs
                },
                allow_private_targets: self.allow_private_targets,
                max_unauth: if self.max_unauth < 1 {
                    1
                } else {
                    self.max_unauth
                },
                recv_window,
                max_plaintext,
                udp_dns_ttl,
                shutdown_grace: self.shutdown_grace,
                health: clone_opt(&self.health),
            },
        )
    }
}

proof fn lemma_users_fault_found(auth: Seq<String>, i: int)
    requires
        0 <= i <= auth.len(),
        users_fault(auth.take(i)) is Some,
    ensures
        users_fault(auth) == users_fault(auth.take(i)),
    decreases auth.len() - i,
{
    if i < auth.len() {
        assert(auth.take(i + 1).drop_last() =~= auth.take(i));
        lemma_users_fault_found(auth, i + 1);
    } else {
        assert(auth.take(i) =~= auth);
    }
}

// ---------------------------------------------------------------------------
// --config
// ---------------------------------------------------------------------------
/// Arguments as sequences of characters.
pub open spec fn arg_views(v: Seq<String>) -> Seq<Seq<char>> {
    v.map_values(|s: String| s@)
}

/// `p` before the arguments of an outcome.
pub open spec fn prepend(
    p: Seq<Seq<char>>,
    r: Result<(Option<Seq<char>>, Seq<Seq<char>>), Fault>,
) -> Result<(Option<Seq<char>>, Seq<Seq<char>>), Fault> {
    match r {
        Ok((c, rest)) => Ok((c, p + rest)),
        Err(e) => Err(e),
    }
}

/// The path given with `--config PATH` or `--config=PATH`, and the other
/// arguments; `found` is the path met so far.
pub open spec fn extract_spec(args: Seq<Seq<char>>, found: Option<Seq<char>>) -> Result<
    (Option<Seq<char>>, Seq<Seq<char>>),
    Fault,
>
    decreases args.len(),
{
    if args.len() == 0 {
        Ok((found, Seq::empty()))
    } else if args[0] == "--config"@ {
        if args.len() < 2 {
            Err(bare(ConfigFault::ConfigWithoutPath))
        } else if found is Some {
            Err(bare(ConfigFault::ConfigTwice))
        } else {
            extract_spec(args.skip(2), Some(args[1]))
        }
    } else if text::starts_with(args[0], "--config="@) {
        if found is Some {
            Err(bare(ConfigFault::ConfigTwice))
        } else {
            extract_spec(args.skip(1), Some(args[0].skip(9)))
        }
    } else {
        prepend(seq![args[0]], extract_spec(args.skip(1), found))
    }
}

/// Arguments without `--config` stay as they are, and no path is found.
pub proof fn law_extract_leaves_other_arguments(args: Seq<Seq<char>>)
    requires
        forall|i: int|
            0 <= i < args.len() ==> #[trigger] args[i] != "--config"@ && !text::starts_with(
                args[i],
                "--config="@,
            ),
    ensures
        extract_spec(args, None) == Ok::<(Option<Seq<char>>, Seq<Seq<char>>), Fault>((None, args)),
    decreases args.len(),
{
    if args.len() > 0 {
        let rest = args.skip(1);
        assert(args[0] != "--config"@);
        assert forall|i: int| 0 <= i < rest.len() implies #[trigger] rest[i] != "--config"@
            && !text::starts_with(rest[i], "--config="@) by {
            assert(rest[i] == args[i + 1]);
        }
        law_extract_leaves_other_arguments(rest);
        assert(seq![args[0]] + rest =~= args);
    } else {
        assert(args =~= Seq::<Seq<char>>::empty());
    }
}

/// Pull `--config [path]` / `--config=[path]` out of raw argv. It must be
/// handled before the rest is parsed because the file's contents are prepended
/// to the rest of the argv. The returned vec keeps argv[0] (program name)
/// where it was.
pub fn extract_config_arg(args: Vec<String>) -> (r: Result<
    (Option<String>, Vec<String>),
    ConfigError,
>)
    ensures
        ({
            let a = arg_views(args@);
            let wanted = if a.len() == 0 {
                Ok::<(Option<Seq<char>>, Seq<Seq<char>>), Fault>((None, a))
            } else {
                prepend(seq![a[0]], extract_spec(a.skip(1), None))
            };
            match r {
                Ok((c, rest)) => wanted == Ok::<(Option<Seq<char>>, Seq<Seq<char>>), Fault>(
                    (opt_view(c), arg_views(rest@)),
                ),
                Err(e) => wanted == Err::<(Option<Seq<char>>, Seq<Seq<char>>), Fault>(e.view()),
            }
        }),
{
    let ghost a = arg_views(args@);
    let mut out: Vec<String> = Vec::new();
    let mut config: Option<String> = None;
    if args.len() == 0 {
        assert(arg_views(out@) =~= a);
        return Ok((None, out));
    }
    out.push(args[0].clone());
    proof {
        reveal_strlit("--config=");
        assert(arg_views(out@) =~= seq![a[0]]);
    }
    let ghost wanted = prepend(seq![a[0]], extract_spec(a.skip(1), None));
    let mut i: usize = 1;
    while i < args.len()
        invariant
            1 <= i <= args.len(),
            a == arg_views(args@),
            wanted == prepend(seq![a[0]], extract_spec(a.skip(1), None)),
            wanted == prepend(arg_views(out@), extract_spec(a.skip(i as int), opt_view(config))),
            "--config="@.len() == 9,
        decreases args.len() - i,
    {
        let ghost rest = a.skip(i as int);
        assert(rest[0] == args@[i as int]@);
        let chars = text::chars_of(args[i].as_str());
        if text::is_text(chars.as_slice(), "--config") {
            if i + 1 >= args.len() {
                return Err(ConfigError::bare(ConfigFault::ConfigWithoutPath));
            }
            if config.is_some() {
                return Err(ConfigError::bare(ConfigFault::ConfigTwice));
            }
            proof {
                assert(rest[1] == args@[i + 1]@);
                assert(rest.skip(2) =~= a.skip(i + 2));
            }
            config = Some(args[i + 1].clone());
            i += 2;
        } else if text::starts_with_text(chars.as_slice(), "--config=") {
            if config.is_some() {
                return Err(ConfigError::bare(ConfigFault::ConfigTwice));
            }
            let v = text::part(chars.as_slice(), 9, chars.len());
            proof {
                assert(v@ =~= rest[0].skip(9));
                assert(rest.skip(1) =~= a.skip(i + 1));
            }
            config = Some(text::string_of(v));
            i += 1;
        } else {
            let ghost before = arg_views(out@);
            out.push(args[i].clone());
            proof {
                assert(rest.skip(1) =~= a.skip(i + 1));
                assert(arg_views(out@) =~= before + seq![rest[0]]);
                let tail = extract_spec(rest.skip(1), opt_view(config));
                match tail {
                    Ok((c, t)) => {
                        assert(before + (seq![rest[0]] + t) =~= before + seq![rest[0]] + t);
                    },
                    Err(_) => {},
                }
            }
            i += 1;
        }
    }
    proof {
        assert(a.skip(i as int) =~= Seq::<Seq<char>>::empty());
        assert(arg_views(out@) + Seq::<Seq<char>>::empty() =~= arg_views(out@));
    }
    Ok((config, out))
}

// ---------------------------------------------------------------------------
// Options
// ---------------------------------------------------------------------------
/// How an option takes its value.
#[derive(Clone, Copy, Debug, PartialEq, Eq, Structural)]
pub enum OptionKind {
    /// On or off, without a value.
    Switch,
    /// Repeated occurrences add up.
    Append,
    /// One value.
    Single,
}

/// The long options of the command line; `mode` stands for `-s` and `-c`.
pub open spec fn option_kind_spec(key: Seq<char>) -> Option<OptionKind> {
    if key == "auth"@ {
        Some(OptionKind::Append)
    } else if key == "skip-verify"@ || key == "self-signed"@ || key == "allow-private-targets"@ {
        Some(OptionKind::Switch)
    } else if key == "mode"@ || key == "log"@ || key == "time"@ || key == "server"@ || key == "url"@
        || key == "bind"@ || key == "http-bind"@ || key == "inbound-auth"@ || key == "conns"@ || key
        == "sni"@ || key == "pin"@ || key == "recv-window"@ || key == "listen"@ || key == "cert"@
        || key == "key"@ || key == "fallback-listen"@ || key == "http-listen"@ || key
        == "acme-dir"@ || key == "path"@ || key == "max-sessions"@ || key == "rate"@ || key
        == "idle"@ || key == "max-unauth"@ || key == "health"@ || key == "config"@ || key
        == "shutdown-grace"@ || key == "max-frame-kb"@ || key == "udp-dns-ttl"@ {
        Some(OptionKind::Single)
    } else {
        None
    }
}

pub fn option_kind(key: &[char]) -> (r: Option<OptionKind>)
    ensures
        r == option_kind_spec(key@),
{
    if text::is_text(key, "auth") {
        Some(OptionKind::Append)
    } else if text::is_text(key, "skip-verify") || text::is_text(key, "self-signed")
        || text::is_text(key, "allow-private-targets") {
        Some(OptionKind::Switch)
    } else if text::is_text(key, "mode") || text::is_text(key, "log") || text::is_text(key, "time")
        || text::is_text(key, "server") || text::is_text(key, "url") || text::is_text(key, "bind")
        || text::is_text(key, "http-bind") || text::is_text(key, "inbound-auth") || text::is_text(
        key,
        "conns",
    ) || text::is_text(key, "sni") || text::is_text(key, "pin") || text::is_text(
        key,
        "recv-window",
    ) || text::is_text(key, "listen") || text::is_text(key, "cert") || text::is_text(key, "key")
        || text::is_text(key, "fallback-listen") || text::is_text(key, "http-listen")
        || text::is_text(key, "acme-dir") || text::is_text(key, "path") || text::is_text(
        key,
        "max-sessions",
    ) || text::is_text(key, "rate") || text::is_text(key, "idle") || text::is_text(
        key,
        "max-unauth",
    ) || text::is_text(key, "health") || text::is_text(key, "config") || text::is_text(
        key,
        "shutdown-grace",
    ) || text::is_text(key, "max-frame-kb") || text::is_text(key, "udp-dns-ttl") {
        Some(OptionKind::Single)
    } else {
        None
    }
}

/// `--key`
pub open spec fn flag(key: Seq<char>) -> Seq<char> {
    "--"@ + key
}

/// `--key=`
pub open spec fn inline_flag(key: Seq<char>) -> Seq<char> {
    flag(key) + "="@
}

/// The argument looks like an option.
pub open spec fn dashed(a: Seq<char>) -> bool {
    text::starts_with(a, "-"@)
}

/// The arguments without every `--key`, the value behind it unless that looks
/// like an option, and every `--key=...`.
pub open spec fn without_option(args: Seq<Seq<char>>, key: Seq<char>) -> Seq<Seq<char>>
    decreases args.len(),
{
    if args.len() == 0 {
        args
    } else if args[0] == flag(key) {
        if args.len() > 1 && !dashed(args[1]) {
            without_option(args.skip(2), key)
        } else {
            without_option(args.skip(1), key)
        }
    } else if text::starts_with(args[0], inline_flag(key)) {
        without_option(args.skip(1), key)
    } else {
        seq![args[0]] + without_option(args.skip(1), key)
    }
}

/// The argument sets `key`.
pub open spec fn sets_option(a: Seq<char>, key: Seq<char>) -> bool {
    a == flag(key) || text::starts_with(a, inline_flag(key))
}

/// After an option was removed nothing sets it any more, and what is left was
/// there before.
pub proof fn law_removed_option_is_gone(args: Seq<Seq<char>>, key: Seq<char>, i: int)
    requires
        0 <= i < without_option(args, key).len(),
    ensures
        !sets_option(without_option(args, key)[i], key),
        args.contains(without_option(args, key)[i]),
    decreases args.len(),
{
    let r = without_option(args, key);
    if args.len() > 0 {
        if args[0] == flag(key) {
            let rest = if args.len() > 1 && !dashed(args[1]) {
                args.skip(2)
            } else {
                args.skip(1)
            };
            let by: int = if args.len() > 1 && !dashed(args[1]) {
                2
            } else {
                1
            };
            law_removed_option_is_gone(rest, key, i);
            let k = choose|k: int| 0 <= k < rest.len() && rest[k] == r[i];
            assert(args[k + by] == r[i]);
        } else {
            let rest = args.skip(1);
            if text::starts_with(args[0], inline_flag(key)) {
                law_removed_option_is_gone(rest, key, i);
                let k = choose|k: int| 0 <= k < rest.len() && rest[k] == r[i];
                assert(args[k + 1] == r[i]);
            } else if i == 0 {
                assert(args[0] == r[0]);
            } else {
                law_removed_option_is_gone(rest, key, i - 1);
                let k = choose|k: int|
                    0 <= k < rest.len() && rest[k] == without_option(rest, key)[i - 1];
                assert(r[i] == without_option(rest, key)[i - 1]);
                assert(args[k + 1] == r[i]);
            }
        }
    }
}

/// Removing an option that nothing sets changes nothing.
pub proof fn law_removing_an_unset_option(args: Seq<Seq<char>>, key: Seq<char>)
    requires
        forall|i: int| 0 <= i < args.len() ==> !sets_option(#[trigger] args[i], key),
    ensures
        without_option(args, key) == args,
    decreases args.len(),
{
    if args.len() > 0 {
        let rest = args.skip(1);
        assert(!sets_option(args[0], key));
        assert forall|i: int| 0 <= i < rest.len() implies !sets_option(#[trigger] rest[i], key) by {
            assert(rest[i] == args[i + 1]);
        }
        law_removing_an_unset_option(rest, key);
        assert(seq![args[0]] + rest =~= args);
    }
}

/// Erase every earlier occurrence of `--key` (and, when the option takes a
/// separate value, that value token) so that a later occurrence can win.
pub fn remove_earlier_option(out: &mut Vec<String>, key: &str)
    ensures
        arg_views(final(out)@) == without_option(arg_views(old(out)@), key@),
{
    let bare_flag = text::own("--").concat(key);
    let inline = text::own("--").concat(key).concat("=");
    let ghost a = arg_views(out@);
    let mut kept: Vec<String> = Vec::new();
    let mut j: usize = 0;
    proof {
        assert(a.skip(0) =~= a);
        assert(arg_views(kept@) + without_option(a, key@) =~= without_option(a, key@));
    }
    while j < out.len()
        invariant
            j <= out.len(),
            out@ == old(out)@,
            a == arg_views(out@),
            bare_flag@ == flag(key@),
            inline@ == inline_flag(key@),
            arg_views(kept@) + without_option(a.skip(j as int), key@) == without_option(a, key@),
        decreases out.len() - j,
    {
        let ghost rest = a.skip(j as int);
        assert(rest[0] == out@[j as int]@);
        let c = text::chars_of(out[j].as_str());
        if text::is_text(c.as_slice(), bare_flag.as_str()) {
            let mut next: usize = j + 1;
            if next < out.len() {
                assert(rest[1] == out@[j + 1]@);
                let d = text::chars_of(out[next].as_str());
                if !text::starts_with_text(d.as_slice(), "-") {
                    next = next + 1;
                }
            }
            proof {
                assert(rest.skip(1) =~= a.skip(j + 1));
                if next == j + 2 {
                    assert(rest.skip(2) =~= a.skip(j + 2));
                }
            }
            j = next;
        } else if text::starts_with_text(c.as_slice(), inline.as_str()) {
            assert(rest.skip(1) =~= a.skip(j + 1));
            j += 1;
        } else {
            let ghost before = arg_views(kept@);
            kept.push(out[j].clone());
            proof {
                assert(rest.skip(1) =~= a.skip(j + 1));
                assert(arg_views(kept@) =~= before + seq![rest[0]]);
                let t = without_option(rest.skip(1), key@);
                assert(before + (seq![rest[0]] + t) =~= before + seq![rest[0]] + t);
            }
            j += 1;
        }
    }
    proof {
        assert(a.skip(j as int) =~= Seq::<Seq<char>>::empty());
        assert(arg_views(kept@) + Seq::<Seq<char>>::empty() =~= arg_views(kept@));
    }
    *out = kept;
}

// ---------------------------------------------------------------------------
// Configuration file
// ---------------------------------------------------------------------------
pub open spec fn is_quote(c: char) -> bool {
    c == '\'' || c == '"'
}

/// `KEY = value`: a quoted value ends at its closing quote (what follows is a
/// comment); anything else is kept as it is.
pub open spec fn value_spec(v: Seq<char>) -> Option<Seq<char>> {
    if v.len() == 0 {
        None
    } else {
        let body = v.skip(1);
        let end = text::find(body, v[0]);
        if is_quote(v[0]) && end < body.len() {
            Some(body.take(end))
        } else {
            Some(v)
        }
    }
}

/// `KEY = value`: whole-token quotes are stripped (their remainder is a
/// comment), anything else is kept byte-for-byte — `#` and spaces count as
/// value content for an unquoted value.
pub fn parse_value(v: &[char]) -> (r: Option<String>)
    ensures
        opt_view(r) == value_spec(v@),
{
    if v.len() == 0 {
        return None;
    }
    let first = v[0];
    if first == '\'' || first == '"' {
        let body = text::part(v, 1, v.len());
        assert(body@ =~= v@.skip(1));
        let end = text::find_char(body, first);
        if end < body.len() {
            let inner = text::part(body, 0, end);
            assert(inner@ =~= body@.take(end as int));
            return Some(text::string_of(inner));
        }
    }
    Some(text::string_of(v))
}

/// Key and value of a line; a line without `=` is a key alone.
pub open spec fn line_parts(line: Seq<char>) -> Result<(Seq<char>, Option<Seq<char>>), Fault> {
    match text::split_once(line, '=') {
        Some((k, v)) => {
            let key = text::trim(k);
            if key.len() == 0 || key.contains(' ') {
                Err(bare(ConfigFault::LineKey))
            } else {
                Ok((key, value_spec(text::trim(v))))
            }
        },
        None => Ok((line, None)),
    }
}

/// The arguments that one setting adds.
pub open spec fn setting_args(key: Seq<char>, value: Option<Seq<char>>) -> Result<
    Seq<Seq<char>>,
    Fault,
> {
    if key == "mode"@ {
        match value {
            None => Err(bare(ConfigFault::LineModeMissing)),
            Some(v) => if v == "server"@ {
                Ok(seq!["-s"@])
            } else if v == "client"@ {
                Ok(seq!["-c"@])
            } else {
                Err(Fault { value: v, ..bare(ConfigFault::LineModeValue) })
            },
        }
    } else if option_kind_spec(key) == Some(OptionKind::Switch) {
        match value {
            None => Ok(seq![flag(key)]),
            Some(v) => if v == "true"@ {
                Ok(seq![flag(key)])
            } else {
                Err(Fault { value: v, ..about(ConfigFault::LineSwitchValue, key) })
            },
        }
    } else {
        match value {
            None => Err(about(ConfigFault::LineNeedsValue, key)),
            Some(v) => Ok(seq![flag(key), v]),
        }
    }
}

/// What one line makes of the arguments so far, and of whether credentials
/// were seen. Blank lines and lines that begin with `#` count for nothing. A
/// later setting replaces an earlier one of the same option, except for options
/// that add up; a later mode replaces an earlier one.
pub open spec fn line_step(
    out: Seq<Seq<char>>,
    creds: bool,
    raw: Seq<char>,
) -> Result<(Seq<Seq<char>>, bool), Fault> {
    let line = text::trim(raw);
    if line.len() == 0 || line[0] == '#' {
        Ok((out, creds))
    } else {
        match line_parts(line) {
            Err(f) => Err(f),
            Ok((key, value)) => match option_kind_spec(key) {
                None => Err(about(ConfigFault::LineUnknownOption, key)),
                Some(kind) => match setting_args(key, value) {
                    Err(f) => Err(f),
                    Ok(new) => {
                        let kept = if kind == OptionKind::Append {
                            out
                        } else if key == "mode"@ {
                            without_mode(out)
                        } else {
                            without_option(out, key)
                        };
                        Ok((kept + new, creds || key == "auth"@))
                    },
                },
            },
        }
    }
}

/// What the first `n` lines make.
pub open spec fn lines_spec(path: Seq<char>, lines: Seq<Seq<char>>, n: nat) -> Result<
    (Seq<Seq<char>>, bool),
    Fault,
>
    decreases n,
{
    if n == 0 {
        Ok((Seq::empty(), false))
    } else {
        match lines_spec(path, lines, (n - 1) as nat) {
            Err(f) => Err(f),
            Ok((out, creds)) => match line_step(out, creds, lines[n - 1]) {
                Ok(x) => Ok(x),
                Err(f) => Err(at_line(path, n, f)),
            },
        }
    }
}

/// The text behind a byte order mark.
pub open spec fn without_bom(t: Seq<char>) -> Seq<char> {
    if t.len() > 0 && t[0] == '\u{feff}' {
        t.skip(1)
    } else {
        t
    }
}

/// The arguments that a configuration file stands for, and whether it holds
/// credentials.
pub open spec fn file_spec(path: Seq<char>, t: Seq<char>) -> Result<(Seq<Seq<char>>, bool), Fault> {
    let lines = text::split(without_bom(t), '\n');
    lines_spec(path, lines, lines.len())
}

proof fn lemma_lines_fault_stays(path: Seq<char>, lines: Seq<Seq<char>>, i: nat, n: nat)
    requires
        i <= n,
        lines_spec(path, lines, i) is Err,
    ensures
        lines_spec(path, lines, n) == lines_spec(path, lines, i),
    decreases n - i,
{
    if i < n {
        lemma_lines_fault_stays(path, lines, i, (n - 1) as nat);
    }
}

/// The last line that sets an option wins: after it, the option is set by its
/// own arguments at the end and by nothing before them. The last line that sets
/// the mode wins likewise: no mode stands before its own.
pub proof fn law_last_line_wins(
    out: Seq<Seq<char>>,
    creds: bool,
    raw: Seq<char>,
    key: Seq<char>,
    value: Option<Seq<char>>,
    i: int,
)
    requires
        text::trim(raw).len() > 0,
        text::trim(raw)[0] != '#',
        line_parts(text::trim(raw)) == Ok::<(Seq<char>, Option<Seq<char>>), Fault>((key, value)),
        option_kind_spec(key) matches Some(k) && k != OptionKind::Append,
        setting_args(key, value) is Ok,
    ensures
        ({
            let new = setting_args(key, value)->Ok_0;
            let r = line_step(out, creds, raw);
            &&& r is Ok
            &&& new.len() <= r->Ok_0.0.len()
            &&& r->Ok_0.0.skip(r->Ok_0.0.len() - new.len()) == new
            &&& 0 <= i < r->Ok_0.0.len() - new.len() ==> if key == "mode"@ {
                !is_mode(r->Ok_0.0[i])
            } else {
                !sets_option(r->Ok_0.0[i], key)
            }
        }),
{
    let new = setting_args(key, value)->Ok_0;
    let kept = if key == "mode"@ {
        without_mode(out)
    } else {
        without_option(out, key)
    };
    let r = line_step(out, creds, raw)->Ok_0.0;
    assert(r == kept + new);
    assert(r.skip(r.len() - new.len()) =~= new);
    if 0 <= i < kept.len() {
        if key == "mode"@ {
            lemma_without_mode(out, i);
        } else {
            law_removed_option_is_gone(out, key, i);
        }
        assert(r[i] == kept[i]);
    }
}

fn to_error(kind: ConfigFault, path: &str, line: usize, what: String, value: String) -> (r:
    ConfigError)
    ensures
        r.view() == (Fault {
            kind,
            path: path@,
            line: line as nat,
            what: what@,
            value: value@,
            number: 0,
        }),
{
    ConfigError { kind, path: text::own(path), line, what, value, number: 0 }
}

/// The arguments that the text of the configuration file `path` stands for,
/// and whether it holds credentials.
#[verifier::rlimit(40)]
pub fn parse_config_file(path: &str, content: &str) -> (r: Result<(Vec<String>, bool), ConfigError>)
    ensures
        match r {
            Ok((v, c)) => file_spec(path@, content@) == Ok::<(Seq<Seq<char>>, bool), Fault>(
                (arg_views(v@), c),
            ),
            Err(e) => file_spec(path@, content@) == Err::<(Seq<Seq<char>>, bool), Fault>(e.view()),
        },
{
    let all = text::chars_of(content);
    let from: usize = if all.len() > 0 && all[0] == '\u{feff}' {
        1
    } else {
        0
    };
    let body = text::part(all.as_slice(), from, all.len());
    assert(body@ =~= without_bom(content@));
    let pieces = text::split_chars(body, '\n');
    let ghost lines = text::split(without_bom(content@), '\n');
    proof {
        assert(pieces@.map_values(|p: Vec<char>| p@).len() == pieces@.len());
        assert forall|k: int| 0 <= k < pieces@.len() implies lines[k] == (#[trigger] pieces@[k])@ by {
            assert(pieces@.map_values(|p: Vec<char>| p@)[k] == pieces@[k]@);
        }
    }
    let mut out: Vec<String> = Vec::new();
    let mut creds = false;
    let mut i: usize = 0;
    assert(arg_views(out@) =~= Seq::<Seq<char>>::empty());
    while i < pieces.len()
        invariant
            i <= pieces.len(),
            lines == text::split(without_bom(content@), '\n'),
            lines.len() == pieces@.len(),
            forall|k: int| 0 <= k < pieces@.len() ==> lines[k] == (#[trigger] pieces@[k])@,
            lines_spec(path@, lines, i as nat) == Ok::<(Seq<Seq<char>>, bool), Fault>(
                (arg_views(out@), creds),
            ),
        decreases pieces.len() - i,
    {
        let ghost before = arg_views(out@);
        let raw = pieces[i].as_slice();
        assert(raw@ == lines[i as int]);
        match apply_line(&mut out, creds, raw, path, i + 1) {
            Ok(c) => {
                creds = c;
            },
            Err(e) => {
                proof {
                    lemma_lines_fault_stays(path@, lines, (i + 1) as nat, lines.len());
                }
                return Err(e);
            },
        }
        i += 1;
    }
    Ok((out, creds))
}

/// Apply one line.
fn apply_line(out: &mut Vec<String>, creds: bool, raw: &[char], path: &str, number: usize) -> (r:
    Result<bool, ConfigError>)
    ensures
        match r {
            Ok(c) => line_step(arg_views(old(out)@), creds, raw@) == Ok::<
                (Seq<Seq<char>>, bool),
                Fault,
            >((arg_views(final(out)@), c)),
            Err(e) => {
                let s = line_step(arg_views(old(out)@), creds, raw@);
                s is Err && e.view() == at_line(path@, number as nat, s->Err_0)
            },
        },
{
    let line = text::trim_chars(raw);
    if line.len() == 0 || line[0] == '#' {
        return Ok(creds);
    }
    let i = text::find_char(line, '=');
    let (key, value): (&[char], Option<String>) = if i < line.len() {
        let k = text::part(line, 0, i);
        let v = text::part(line, i + 1, line.len());
        proof {
            assert(k@ =~= line@.take(i as int));
            assert(v@ =~= line@.skip(i + 1));
        }
        let key = text::trim_chars(k);
        let space = text::find_char(key, ' ');
        proof {
            text::lemma_find(key@, ' ');
        }
        if key.len() == 0 || space < key.len() {
            return Err(
                to_error(ConfigFault::LineKey, path, number, String::new(), String::new()),
            );
        }
        (key, parse_value(text::trim_chars(v)))
    } else {
        (line, None)
    };
    assert(line_parts(line@) == Ok::<(Seq<char>, Option<Seq<char>>), Fault>((key@, opt_view(value))));
    let name = text::string_of(key);
    let kind = match option_kind(key) {
        Some(k) => k,
        None => {
            return Err(
                to_error(ConfigFault::LineUnknownOption, path, number, name, String::new()),
            );
        },
    };
    let mut new: Vec<String> = Vec::new();
    if text::is_text(key, "mode") {
        match value {
            None => {
                return Err(
                    to_error(
                        ConfigFault::LineModeMissing,
                        path,
                        number,
                        String::new(),
                        String::new(),
                    ),
                );
            },
            Some(v) => {
                if text::same_text(v.as_str(), "server") {
                    new.push(text::own("-s"));
                    assert(arg_views(new@) =~= seq!["-s"@]);
                } else if text::same_text(v.as_str(), "client") {
                    new.push(text::own("-c"));
                    assert(arg_views(new@) =~= seq!["-c"@]);
                } else {
                    return Err(
                        to_error(ConfigFault::LineModeValue, path, number, String::new(), v),
                    );
                }
            },
        }
    } else if kind == OptionKind::Switch {
        match value {
            None => {},
            Some(v) => {
                if !text::same_text(v.as_str(), "true") {
                    return Err(to_error(ConfigFault::LineSwitchValue, path, number, name, v));
                }
            },
        }
        new.push(text::own("--").concat(name.as_str()));
        assert(arg_views(new@) =~= seq![flag(key@)]);
    } else {
        match value {
            None => {
                return Err(
                    to_error(ConfigFault::LineNeedsValue, path, number, name, String::new()),
                );
            },
            Some(v) => {
                new.push(text::own("--").concat(name.as_str()));
                new.push(v);
                assert(arg_views(new@) =~= seq![flag(key@), v@]);
            },
        }
    }
    if kind != OptionKind::Append {
        if text::is_text(key, "mode") {
            drop_mode(out);
        } else {
            remove_earlier_option(out, name.as_str());
        }
    }
    let ghost kept = out@;
    let ghost added = new@;
    out.append(&mut new);
    assert(arg_views(out@) =~= arg_views(kept) + arg_views(added));
    Ok(creds || text::is_text(key, "auth"))
}

/// The file that is looked for when none is named.
pub const DEFAULT_FILE: &'static str = "newppp.conf";

/// The arguments that the configuration source stands for, and whether it
/// holds credentials: the named file (which must be there), else
/// `newppp.conf` when present, else nothing. Whether the file is there and
/// what it holds is looked up by the caller.
pub fn file_args(config_path: Option<&str>, is_file: bool, content: Option<&str>) -> (r: Result<
    (Vec<String>, bool),
    ConfigError,
>)
    ensures
        ({
            let path = match config_path {
                Some(p) => p@,
                None => DEFAULT_FILE@,
            };
            let wanted = if !is_file && config_path is None {
                Ok::<(Seq<Seq<char>>, bool), Fault>((Seq::empty(), false))
            } else if !is_file {
                Err(about(ConfigFault::FileNotFound, path))
            } else {
                match content {
                    None => Err(about(ConfigFault::FileUnreadable, path)),
                    Some(t) => file_spec(path, t@),
                }
            };
            match r {
                Ok((v, c)) => wanted == Ok::<(Seq<Seq<char>>, bool), Fault>((arg_views(v@), c)),
                Err(e) => wanted == Err::<(Seq<Seq<char>>, bool), Fault>(e.view()),
            }
        }),
{
    let path: &str = match config_path {
        Some(p) => p,
        None => {
            if !is_file {
                let v: Vec<String> = Vec::new();
                assert(arg_views(v@) =~= Seq::<Seq<char>>::empty());
                return Ok((v, false));
            }
            DEFAULT_FILE
        },
    };
    if !is_file {
        return Err(ConfigError::about(ConfigFault::FileNotFound, text::own(path)));
    }
    match content {
        None => Err(ConfigError::about(ConfigFault::FileUnreadable, text::own(path))),
        Some(t) => parse_config_file(path, t),
    }
}

/// Whether to warn that the address of the WebTransport listener (as far as it
/// reads as one) is ignored: it binds all interfaces.
pub fn warn_listen_ip_ignored(listen: Option<Ip>) -> (r: bool)
    ensures
        r == (listen matches Some(ip) && ip != Ip::V4(0) && ip != Ip::V6(0)),
{
    match listen {
        Some(Ip::V4(a)) => a != 0,
        Some(Ip::V6(a)) => a != 0,
        None => false,
    }
}

/// Whether to warn that an inbound proxy listener is bound to a wildcard
/// address (as far as its address reads as one) without local authentication:
/// that exposes an open proxy to the whole network.
pub fn warn_open_inbound(bound: Option<Ip>, has_auth: bool) -> (r: bool)
    ensures
        r == (!has_auth && (bound == Some(Ip::V4(0)) || bound == Some(Ip::V6(0)))),
{
    if has_auth {
        return false;
    }
    match bound {
        Some(Ip::V4(a)) => a == 0,
        Some(Ip::V6(a)) => a == 0,
        None => false,
    }
}

/// Whether a file with these permission bits, which holds passwords, can be
/// read by group or others.
pub fn maybe_warn_creds(mode: u32) -> (r: bool)
    ensures
        r == (mode & 0x3f != 0),
{
    mode & 0x3f != 0
}

// ---------------------------------------------------------------------------
// Precedence
// ---------------------------------------------------------------------------
/// The options that the command line sets, in order; options that add up do
/// not count.
pub open spec fn overridden(cli: Seq<Seq<char>>) -> Seq<Seq<char>>
    decreases cli.len(),
{
    if cli.len() == 0 {
        Seq::empty()
    } else if text::starts_with(cli[0], "--"@) {
        let rest = cli[0].skip(2);
        let inline = text::find(rest, '=') < rest.len();
        let key = rest.take(text::find(rest, '='));
        match option_kind_spec(key) {
            Some(kind) => if kind == OptionKind::Append {
                overridden(cli.skip(1))
            } else if !inline && kind == OptionKind::Single && cli.len() > 1 && !dashed(cli[1]) {
                seq![key] + overridden(cli.skip(2))
            } else {
                seq![key] + overridden(cli.skip(1))
            },
            None => overridden(cli.skip(1)),
        }
    } else {
        overridden(cli.skip(1))
    }
}

/// The arguments without each of the options.
pub open spec fn without_options(args: Seq<Seq<char>>, keys: Seq<Seq<char>>) -> Seq<Seq<char>>
    decreases keys.len(),
{
    if keys.len() == 0 {
        args
    } else {
        without_options(without_option(args, keys[0]), keys.skip(1))
    }
}

pub open spec fn is_mode(a: Seq<char>) -> bool {
    a == "-c"@ || a == "-s"@
}

pub open spec fn has_mode(cli: Seq<Seq<char>>) -> bool {
    exists|i: int| 0 <= i < cli.len() && is_mode(#[trigger] cli[i])
}

/// The arguments without `-c` and `-s`.
pub open spec fn without_mode(args: Seq<Seq<char>>) -> Seq<Seq<char>>
    decreases args.len(),
{
    if args.len() == 0 {
        args
    } else if is_mode(args.last()) {
        without_mode(args.drop_last())
    } else {
        without_mode(args.drop_last()).push(args.last())
    }
}

/// What is left of the file's arguments beside those of the command line.
pub open spec fn stripped(file: Seq<Seq<char>>, cli: Seq<Seq<char>>) -> Seq<Seq<char>> {
    let kept = without_options(file, overridden(cli));
    if has_mode(cli) {
        without_mode(kept)
    } else {
        kept
    }
}

proof fn lemma_without_options(args: Seq<Seq<char>>, keys: Seq<Seq<char>>, i: int)
    requires
        0 <= i < without_options(args, keys).len(),
    ensures
        args.contains(without_options(args, keys)[i]),
        forall|k: int|
            0 <= k < keys.len() ==> !sets_option(without_options(args, keys)[i], #[trigger] keys[k]),
    decreases keys.len(),
{
    let r = without_options(args, keys);
    if keys.len() > 0 {
        let once = without_option(args, keys[0]);
        lemma_without_options(once, keys.skip(1), i);
        let j = choose|j: int| 0 <= j < once.len() && once[j] == r[i];
        law_removed_option_is_gone(args, keys[0], j);
        assert forall|k: int| 0 <= k < keys.len() implies !sets_option(r[i], #[trigger] keys[k]) by {
            if k > 0 {
                assert(keys.skip(1)[k - 1] == keys[k]);
            }
        }
    }
}

proof fn lemma_without_mode(args: Seq<Seq<char>>, i: int)
    requires
        0 <= i < without_mode(args).len(),
    ensures
        !is_mode(without_mode(args)[i]),
        args.contains(without_mode(args)[i]),
    decreases args.len(),
{
    let rest = args.drop_last();
    let r = without_mode(args);
    if !is_mode(args.last()) && i == r.len() - 1 {
        assert(args[args.len() - 1] == r[i]);
    } else {
        lemma_without_mode(rest, i);
        let k = choose|k: int| 0 <= k < rest.len() && rest[k] == without_mode(rest)[i];
        assert(args[k] == r[i]);
    }
}

/// The command line wins: what is left of the file sets no option that the
/// command line sets (unless such options add up) and, when the command line
/// names a mode, names none; and it holds nothing that was not in the file.
pub proof fn law_command_line_wins(file: Seq<Seq<char>>, cli: Seq<Seq<char>>, i: int)
    requires
        0 <= i < stripped(file, cli).len(),
    ensures
        file.contains(stripped(file, cli)[i]),
        forall|k: int|
            0 <= k < overridden(cli).len() ==> !sets_option(
                stripped(file, cli)[i],
                #[trigger] overridden(cli)[k],
            ),
        has_mode(cli) ==> !is_mode(stripped(file, cli)[i]),
{
    let kept = without_options(file, overridden(cli));
    let x = stripped(file, cli)[i];
    if has_mode(cli) {
        lemma_without_mode(kept, i);
        let j = choose|j: int| 0 <= j < kept.len() && kept[j] == x;
        lemma_without_options(file, overridden(cli), j);
    } else {
        lemma_without_options(file, overridden(cli), i);
    }
}

/// A command line that sets nothing leaves the file's arguments as they are.
pub proof fn law_silent_command_line_keeps_the_file(file: Seq<Seq<char>>)
    ensures
        stripped(file, Seq::<Seq<char>>::empty()) == file,
{
}

/// Arguments supplied on the command line override the config file; a mode in
/// both places (`mode = server` + `-c`) is contradictory, so the file's mode
/// loses. Repeat-append options (`--auth`) add up — only single-value options
/// and switches are overridden here.
pub fn strip_cli_overridden(file_args: &mut Vec<String>, cli_args: &[String])
    ensures
        arg_views(final(file_args)@) == stripped(arg_views(old(file_args)@), arg_views(cli_args@)),
{
    let ghost file = arg_views(file_args@);
    let ghost cli = arg_views(cli_args@);
    proof {
        reveal_strlit("--");
        assert(cli.skip(0) =~= cli);
    }
    let mut i: usize = 0;
    while i < cli_args.len()
        invariant
            i <= cli_args.len(),
            cli == arg_views(cli_args@),
            "--"@.len() == 2,
            without_options(arg_views(file_args@), overridden(cli.skip(i as int)))
                == without_options(file, overridden(cli)),
        decreases cli_args.len() - i,
    {
        let ghost here = cli.skip(i as int);
        proof {
            assert(here[0] == cli_args@[i as int]@);
            assert(here.skip(1) =~= cli.skip(i + 1));
        }
        let tok = text::chars_of(cli_args[i].as_str());
        let mut step: usize = 1;
        if text::starts_with_text(tok.as_slice(), "--") {
            let rest = text::part(tok.as_slice(), 2, tok.len());
            assert(rest@ =~= here[0].skip(2));
            let cut = text::find_char(rest, '=');
            let key = text::part(rest, 0, cut);
            assert(key@ =~= rest@.take(text::find(rest@, '=')));
            if let Some(kind) = option_kind(key) {
                if kind != OptionKind::Append {
                    if cut >= rest.len() && kind == OptionKind::Single && i + 1 < cli_args.len() {
                        assert(here[1] == cli_args@[i + 1]@);
                        let next = text::chars_of(cli_args[i + 1].as_str());
                        if !text::starts_with_text(next.as_slice(), "-") {
                            step = 2;
                            assert(here.skip(2) =~= cli.skip(i + 2));
                        }
                    }
                    let name = text::string_of(key);
                    let ghost tail = overridden(cli.skip(i + step));
                    proof {
                        let all = seq![key@] + tail;
                        assert(overridden(here) == all);
                        assert(all[0] == key@);
                        assert(all.skip(1) =~= tail);
                    }
                    remove_earlier_option(file_args, name.as_str());
                }
            }
        }
        i += step;
    }
    assert(cli.skip(i as int) =~= Seq::<Seq<char>>::empty());
    assert(arg_views(file_args@) == without_options(file, overridden(cli)));
    let mut mode = false;
    let mut k: usize = 0;
    while k < cli_args.len()
        invariant
            k <= cli_args.len(),
            cli == arg_views(cli_args@),
            mode <==> exists|j: int| 0 <= j < k && is_mode(#[trigger] cli[j]),
        decreases cli_args.len() - k,
    {
        let named = text::same_text(cli_args[k].as_str(), "-c") || text::same_text(
            cli_args[k].as_str(),
            "-s",
        );
        assert(named == is_mode(cli[k as int]));
        if named {
            mode = true;
        }
        k += 1;
    }
    if mode {
        drop_mode(file_args);
    }
}

fn drop_mode(args: &mut Vec<String>)
    ensures
        arg_views(final(args)@) == without_mode(arg_views(old(args)@)),
{
    let ghost a = arg_views(args@);
    let mut kept: Vec<String> = Vec::new();
    let mut i: usize = 0;
    proof {
        assert(arg_views(kept@) =~= Seq::<Seq<char>>::empty());
        assert(a.take(0) =~= Seq::<Seq<char>>::empty());
    }
    while i < args.len()
        invariant
            i <= args.len(),
            args@ == old(args)@,
            a == arg_views(args@),
            arg_views(kept@) == without_mode(a.take(i as int)),
        decreases args.len() - i,
    {
        proof {
            assert(a.take(i + 1).drop_last() =~= a.take(i as int));
            assert(a.take(i + 1).last() == args@[i as int]@);
        }
        let named = text::same_text(args[i].as_str(), "-c") || text::same_text(
            args[i].as_str(),
            "-s",
        );
        if !named {
            let ghost before = arg_views(kept@);
            kept.push(args[i].clone());
            assert(arg_views(kept@) =~= before.push(args@[i as int]@));
        }
        i += 1;
    }
    assert(a.take(i as int) =~= a);
    *args = kept;
}

// ---------------------------------------------------------------------------
// Laws
// ---------------------------------------------------------------------------
/// A user entry falls apart at its first colon: ids of 1 to 32 letters, digits,
/// `_` and `-` are taken with any password that is not empty, colons included;
/// everything else is refused by its fault.
pub proof fn law_user_entries(user: Seq<char>, password: Seq<char>)
    requires
        forall|i: int|
            0 <= i < user.len() ==> 48 <= (#[trigger] user[i]) as u32 <= 57 || 65 <= user[i] as u32
                <= 90 || 97 <= user[i] as u32 <= 122 || user[i] == '_' || user[i] == '-',
    ensures
        ({
            let r = auth_parts(user + ":"@ + password);
            &&& 1 <= user.len() <= 32 && password.len() > 0 ==> r == Ok::<
                (Seq<char>, Seq<char>),
                Fault,
            >((user, password))
            &&& user.len() == 0 || user.len() > 32 ==> r is Err && r->Err_0.kind
                == ConfigFault::BadUserId
            &&& 1 <= user.len() <= 32 && password.len() == 0 ==> r is Err && r->Err_0.kind
                == ConfigFault::EmptyPassword
            &&& auth_parts(user) is Err && auth_parts(user)->Err_0.kind == ConfigFault::AuthFormat
        }),
        forall|raw: Seq<char>| (#[trigger] auth_parts(raw)) matches Ok((u, p)) ==> 1 <= u.len() <= 32
            && p.len() > 0 && !u.contains(':') && !u.contains(' ') && !u.contains('.'),
{
    reveal_strlit(":");
    assert(!user.contains(':'));
    text::law_split_cuts_at_the_character(user, ':', password);
    assert(":"@ =~= seq![':']);
    assert(text::solid(user)) by {
        assert forall|i: int| 0 <= i < user.len() implies !text::is_space(#[trigger] user[i]) by {
            text::law_ascii_classes(user[i]);
        }
    }
    text::lemma_trim_solid(user);
    assert forall|i: int| 0 <= i < user.len() implies text::is_alnum(#[trigger] user[i]) || user[i]
        == '_' || user[i] == '-' by {
        text::law_ascii_classes(user[i]);
    }
}

/// An id with any other character is refused.
pub proof fn law_other_ids_are_refused(user: Seq<char>, password: Seq<char>, i: int)
    requires
        0 <= i < user.len(),
        text::solid(user),
        !user.contains(':'),
        !(48 <= user[i] as u32 <= 57 || 65 <= user[i] as u32 <= 90 || 97 <= user[i] as u32 <= 122
            || user[i] == '_' || user[i] == '-'),
    ensures
        auth_parts(user + ":"@ + password) is Err,
        auth_parts(user + ":"@ + password)->Err_0.kind == ConfigFault::BadUserId,
{
    reveal_strlit(":");
    text::law_split_cuts_at_the_character(user, ':', password);
    assert(":"@ =~= seq![':']);
    text::lemma_trim_solid(user);
    text::law_ascii_classes(user[i]);
}

/// Credentials of the local proxies fall apart at the first colon; each part has
/// 1 to 255 bytes.
pub proof fn law_local_credentials(user: Seq<char>, password: Seq<char>)
    requires
        !user.contains(':'),
    ensures
        ({
            let r = inbound_parts(user + ":"@ + password);
            let u = encode_utf8(user).len();
            let p = encode_utf8(password).len();
            &&& r is Ok <==> 1 <= u <= 255 && 1 <= p <= 255
            &&& r is Ok ==> r == Ok::<(Seq<char>, Seq<char>), Fault>((user, password))
            &&& inbound_parts(user) is Err
        }),
{
    reveal_strlit(":");
    text::law_split_cuts_at_the_character(user, ':', password);
    assert(":"@ =~= seq![':']);
}

/// A path begins with a slash: one is put in front where it is missing, and
/// nothing else changes; no path at all is the standard one.
pub proof fn law_paths_begin_with_a_slash(p: Seq<char>)
    requires
        text::solid(p),
    ensures
        p.len() > 0 && p[0] != '/' ==> normal_path(p) == "/"@ + p,
        p.len() > 1 && p[0] == '/' ==> normal_path(p) == p,
        normal_path(Seq::empty()) == "/api/ppp"@,
        normal_path("/"@) == "/api/ppp"@,
        normal_path(p)[0] == '/',
{
    reveal_strlit("/");
    reveal_strlit("/api/ppp");
    text::lemma_trim_solid(p);
    text::lemma_trim_solid(Seq::empty());
    text::lemma_trim_solid("/"@);
}

/// The fingerprint of a certificate is read from its 64 hexadecimal digits,
/// colons between them or not; texts with fewer or more digits are refused.
pub proof fn law_fingerprints_read_back(f: Seq<u8>)
    ensures
        f.len() == 32 ==> fingerprint(crate::proto::crypto::hex_spec(f)) == Ok::<Seq<u8>, Fault>(f),
        f.len() != 32 ==> fingerprint(crate::proto::crypto::hex_spec(f)) is Err,
        forall|raw: Seq<char>| (#[trigger] fingerprint(raw)) matches Ok(g) ==> g.len() == 32,
{
    let h = crate::proto::crypto::hex_spec(f);
    assert forall|i: int| 0 <= i < h.len() implies '\0' <= #[trigger] h[i] <= '\u{7f}' && h[i] != ':'
        && hex_value(h[i]) is Some by {
        crate::proto::crypto::law_hex_digits(0, h[i], f, i / 2);
    }
    vstd::utf8::is_ascii_chars_encode_utf8(h);
    lemma_no_colons(h);
    let b = encode_utf8(h);
    if f.len() == 32 {
        assert forall|i: int| 0 <= i < b.len() implies hex_value((#[trigger] b[i]) as char)
            == hex_value(h[i]) && hex_value(h[i]) is Some by {
            assert(h[i] as u8 == b[i]);
            assert(b[i] as char == h[i]);
        }
        lemma_all_hex(b);
        let g = fingerprint(h)->Ok_0;
        assert(g =~= f) by {
            assert forall|i: int| 0 <= i < 32 implies g[i] == f[i] by {
                crate::proto::crypto::law_hex_digits(0, 'a', f, i);
                assert(hex_value(b[2 * i] as char) == hex_value(h[2 * i]));
                assert(hex_value(b[2 * i + 1] as char) == hex_value(h[2 * i + 1]));
            }
        }
    }
}

proof fn lemma_no_colons(s: Seq<char>)
    requires
        forall|i: int| 0 <= i < s.len() ==> #[trigger] s[i] != ':',
    ensures
        without_colons(s) == s,
    decreases s.len(),
{
    if s.len() > 0 {
        assert(s[s.len() - 1] != ':');
        assert forall|i: int| 0 <= i < s.drop_last().len() implies #[trigger] s.drop_last()[i]
            != ':' by {
            assert(s.drop_last()[i] == s[i]);
        }
        lemma_no_colons(s.drop_last());
        assert(s.drop_last().push(s.last()) =~= s);
    }
}

proof fn lemma_all_hex(b: Seq<u8>)
    requires
        forall|i: int| 0 <= i < b.len() ==> hex_value((#[trigger] b[i]) as char) is Some,
    ensures
        first_non_hex(b) == b.len(),
    decreases b.len(),
{
    if b.len() > 0 {
        assert(hex_value(b[0] as char) is Some);
        let d = b.drop_first();
        assert forall|i: int| 0 <= i < d.len() implies hex_value((#[trigger] d[i]) as char)
            is Some by {
            assert(d[i] == b[i + 1]);
        }
        lemma_all_hex(d);
    }
}

/// Colons in a fingerprint do not count.
pub proof fn law_colons_are_passed_over(a: Seq<char>, b: Seq<char>)
    ensures
        without_colons(a + seq![':'] + b) == without_colons(a + b),
    decreases b.len(),
{
    let s = a + seq![':'] + b;
    let t = a + b;
    if b.len() == 0 {
        assert(s.drop_last() =~= a);
        assert(t =~= a);
    } else {
        assert(s.drop_last() =~= a + seq![':'] + b.drop_last());
        assert(t.drop_last() =~= a + b.drop_last());
        law_colons_are_passed_over(a, b.drop_last());
    }
}

proof fn lemma_low(c: char)
    requires
        c as u32 <= 127,
    ensures
        '\0' <= c <= '\u{7f}',
{
}

/// A masquerade name of host name characters, not too long and without empty
/// labels, is taken, unless the fallback is a WebSocket or nothing says how the
/// server is identified.
pub proof fn law_masquerade_names(sni: Seq<char>, url: Option<Seq<char>>, identified: bool)
    requires
        0 < sni.len() <= 253,
        forall|i: int|
            0 <= i < sni.len() ==> 48 <= (#[trigger] sni[i]) as u32 <= 57 || 65 <= sni[i] as u32
                <= 90 || 97 <= sni[i] as u32 <= 122 || sni[i] == '-' || sni[i] == '_' || (sni[i]
                == '.' && 0 < i < sni.len() - 1 && sni[i - 1] != '.'),
    ensures
        sni_fault(sni, url, identified) is None <==> identified && !(url matches Some(u) && (
        text::starts_with(u, "wss://"@) || text::starts_with(u, "ws://"@))),
{
    reveal_strlit("..");
    assert forall|i: int| 0 <= i < sni.len() implies '\0' <= #[trigger] sni[i] <= '\u{7f}' by {
        lemma_low(sni[i]);
    }
    vstd::utf8::is_ascii_chars_encode_utf8(sni);
    assert forall|i: int| 0 <= i < sni.len() implies text::is_alnum(#[trigger] sni[i]) || sni[i]
        == '.' || sni[i] == '-' || sni[i] == '_' by {
        text::law_ascii_classes(sni[i]);
    }
    if text::has_infix(sni, ".."@) {
        let k = choose|k: int| 0 <= k <= sni.len() - 2 && #[trigger] sni.subrange(k, k + 2) == ".."@;
        assert(sni.subrange(k, k + 2)[0] == sni[k]);
        assert(sni.subrange(k, k + 2)[1] == sni[k + 1]);
        assert(false);
    }
    assert(sni[0] != '.');
    assert(sni[sni.len() - 1] != '.');
}

/// What an accepted client command line has, and what it needs no more than:
/// somebody to log in as, a server to reach, numbers within their bounds. A
/// pinned certificate and the switch against verification exclude one another,
/// and a masquerade needs one of them.
pub proof fn law_client_command_lines(c: Cli)
    ensures
        client_fault(c) is None ==> {
            &&& c.auth@.len() > 0 && auth_parts(c.auth@[0]@) is Ok
            &&& c.server_url is Some || c.url is Some
            &&& 1 <= c.recv_window_mb <= 64
            &&& 16 <= c.max_frame_kb <= 1024
            &&& !(c.pin is Some && c.skip_verify)
            &&& c.sni is Some ==> c.pin is Some || c.skip_verify
            &&& c.inbound_auth matches Some(s) ==> inbound_parts(s@) is Ok
            &&& c.pin matches Some(p) ==> fingerprint(p@) is Ok
        },
        c.auth@.len() > 0 && auth_parts(c.auth@[0]@) is Ok && (c.server_url is Some || c.url is Some)
            && 1 <= c.recv_window_mb <= 64 && 16 <= c.max_frame_kb <= 1024 && c.sni is None && (
        c.inbound_auth matches Some(s) ==> inbound_parts(s@) is Ok) && (c.pin matches Some(p) ==> (
        fingerprint(p@) is Ok && !c.skip_verify)) ==> client_fault(c) is None,
{
}

/// What a client configuration takes over from the command line. The number of
/// connections is held within 1 and 8.
pub proof fn law_client_configuration(c: Cli, r: ClientConfig)
    requires
        is_client_config(c, r),
    ensures
        1 <= r.conns <= 8,
        1 <= c.conns <= 8 ==> r.conns == c.conns,
        c.conns == 0 ==> r.conns == 1,
        c.conns > 8 ==> r.conns == 8,
        r.recv_window == c.recv_window_mb * 1_048_576,
        r.max_plaintext == c.max_frame_kb * 1024,
        r.skip_verify == c.skip_verify,
        r.pin is Some <==> c.pin is Some,
        r.pin matches Some(f) ==> fingerprint(c.pin->0@) == Ok::<Seq<u8>, Fault>(f@),
        r.inbound_auth is Some <==> c.inbound_auth is Some,
        r.inbound_auth matches Some((u, p)) ==> inbound_parts(c.inbound_auth->0@) == Ok::<
            (Seq<char>, Seq<char>),
            Fault,
        >((u@, p@)),
        auth_parts(c.auth@[0]@) == Ok::<(Seq<char>, Seq<char>), Fault>((r.uid@, r.password@)),
        opt_view(r.wt_url) == opt_view(c.server_url) && opt_view(r.fb_url) == opt_view(c.url),
        r.socks_bind@ == c.bind@ && opt_view(r.http_bind) == opt_view(c.http_bind),
        opt_view(r.sni) == opt_view(c.sni) && opt_view(r.health) == opt_view(c.health),
{
}

/// What an accepted server command line has, and what it needs no more than: a
/// listener, a certificate that is there or the switch that makes one, users
/// that are all well-formed, numbers within their bounds.
pub proof fn law_server_command_lines(c: Cli, cert_found: bool, key_found: bool)
    ensures
        server_fault(c, cert_found, key_found) is None <==> {
            &&& c.listen is Some || c.fallback_listen is Some
            &&& c.self_signed || (c.cert is Some && c.key is Some && cert_found && key_found)
            &&& forall|i: int| 0 <= i < c.auth@.len() ==> auth_parts((#[trigger] c.auth@[i])@) is Ok
            &&& 1 <= c.recv_window_mb <= 64
            &&& 16 <= c.max_frame_kb <= 1024
            &&& c.udp_dns_ttl <= 86_400
        },
{
    lemma_users_fault(c.auth@);
}

proof fn lemma_users_fault(auth: Seq<String>)
    ensures
        users_fault(auth) is None <==> forall|i: int|
            0 <= i < auth.len() ==> auth_parts((#[trigger] auth[i])@) is Ok,
    decreases auth.len(),
{
    if auth.len() > 0 {
        let d = auth.drop_last();
        lemma_users_fault(d);
        if forall|i: int| 0 <= i < auth.len() ==> auth_parts((#[trigger] auth[i])@) is Ok {
            assert forall|i: int| 0 <= i < d.len() implies auth_parts((#[trigger] d[i])@) is Ok by {
                assert(d[i] == auth[i]);
            }
            assert(auth_parts(auth[auth.len() - 1]@) is Ok);
        }
        if users_fault(auth) is None {
            assert forall|i: int| 0 <= i < auth.len() implies auth_parts((#[trigger] auth[i])@)
                is Ok by {
                if i < d.len() {
                    assert(d[i] == auth[i]);
                }
            }
        }
    }
}

/// What a server configuration takes over from the command line. There is room
/// for at least one session and one unauthenticated connection, and sessions
/// are idle for at least five seconds before they are closed.
pub proof fn law_server_configuration(c: Cli, r: ServerConfig)
    requires
        is_server_config(c, r),
    ensures
        r.max_sessions >= 1 && (c.max_sessions >= 1 ==> r.max_sessions == c.max_sessions),
        r.max_unauth >= 1 && (c.max_unauth >= 1 ==> r.max_unauth == c.max_unauth),
        r.idle_secs >= 5 && (c.idle_secs >= 5 ==> r.idle_secs == c.idle_secs),
        c.max_sessions == 0 ==> r.max_sessions == 1,
        c.max_unauth == 0 ==> r.max_unauth == 1,
        c.idle_secs < 5 ==> r.idle_secs == 5,
        r.rate_mbps == c.rate_mbps && r.shutdown_grace == c.shutdown_grace,
        r.allow_private_targets == c.allow_private_targets,
        r.recv_window == c.recv_window_mb * 1_048_576,
        r.max_plaintext == c.max_frame_kb * 1024,
        r.udp_dns_ttl == c.udp_dns_ttl * 1000,
        r.path@ == normal_path(c.path@),
        c.self_signed <==> r.cert is SelfSigned,
        r.cert matches CertSource::Files { cert, key } ==> opt_view(c.cert) == Some(cert@)
            && opt_view(c.key) == Some(key@),
        opt_view(r.listen) == opt_view(c.listen),
        opt_view(r.fallback_listen) == opt_view(c.fallback_listen),
        opt_view(r.http_listen) == opt_view(c.http_listen),
        opt_view(r.acme_dir) == opt_view(c.acme_dir) && opt_view(r.health) == opt_view(c.health),
        r.users@.len() == c.auth@.len(),
        forall|i: int|
            0 <= i < c.auth@.len() ==> auth_parts((#[trigger] c.auth@[i])@) == Ok::<
                (Seq<char>, Seq<char>),
                Fault,
            >((r.users@[i].0@, r.users@[i].1@)),
{
}

/// The configuration file is taken out of the arguments in both forms, wherever
/// it stands; the others stay in order. Two of them are one too many.
pub proof fn law_config_argument_is_taken_out(
    before: Seq<Seq<char>>,
    path: Seq<char>,
    after: Seq<Seq<char>>,
)
    requires
        forall|i: int|
            0 <= i < before.len() ==> (#[trigger] before[i]) != "--config"@ && !text::starts_with(
                before[i],
                "--config="@,
            ),
        forall|i: int|
            0 <= i < after.len() ==> (#[trigger] after[i]) != "--config"@ && !text::starts_with(
                after[i],
                "--config="@,
            ),
    ensures
        extract_spec(before + seq!["--config"@, path] + after, None) == Ok::<
            (Option<Seq<char>>, Seq<Seq<char>>),
            Fault,
        >((Some(path), before + after)),
        extract_spec(before + seq!["--config="@ + path] + after, None) == Ok::<
            (Option<Seq<char>>, Seq<Seq<char>>),
            Fault,
        >((Some(path), before + after)),
        extract_spec(before + seq!["--config="@ + path] + after, Some(path)) is Err,
        extract_spec(before + seq!["--config"@], None) is Err,
    decreases before.len(),
{
    reveal_strlit("--config");
    reveal_strlit("--config=");
    let a = before + seq!["--config"@, path] + after;
    let b = before + seq!["--config="@ + path] + after;
    let c = before + seq!["--config"@];
    if before.len() == 0 {
        lemma_plain_arguments(after, Some(path));
        assert(a[0] == "--config"@ && a[1] == path);
        assert(a.skip(2) =~= after);
        assert(b[0] == "--config="@ + path);
        assert(b[0].take(9) =~= "--config="@);
        assert(b[0].skip(9) =~= path);
        assert(b[0][8] == '=');
        assert(b[0].len() >= 9 && "--config"@.len() == 8);
        assert(b.skip(1) =~= after);
        assert(before + after =~= after);
        assert(c =~= seq!["--config"@]);
    } else {
        let d = before.skip(1);
        assert forall|i: int| 0 <= i < d.len() implies (#[trigger] d[i]) != "--config"@
            && !text::starts_with(d[i], "--config="@) by {
            assert(d[i] == before[i + 1]);
        }
        law_config_argument_is_taken_out(d, path, after);
        assert(a[0] == before[0] && b[0] == before[0] && c[0] == before[0]);
        assert(a.skip(1) =~= d + seq!["--config"@, path] + after);
        assert(b.skip(1) =~= d + seq!["--config="@ + path] + after);
        assert(c.skip(1) =~= d + seq!["--config"@]);
        assert(seq![before[0]] + (d + after) =~= before + after);
    }
}

proof fn lemma_plain_arguments(args: Seq<Seq<char>>, found: Option<Seq<char>>)
    requires
        forall|i: int|
            0 <= i < args.len() ==> (#[trigger] args[i]) != "--config"@ && !text::starts_with(
                args[i],
                "--config="@,
            ),
    ensures
        extract_spec(args, found) == Ok::<(Option<Seq<char>>, Seq<Seq<char>>), Fault>((found, args)),
    decreases args.len(),
{
    if args.len() > 0 {
        let d = args.skip(1);
        assert(args[0] != "--config"@ && !text::starts_with(args[0], "--config="@));
        assert forall|i: int| 0 <= i < d.len() implies (#[trigger] d[i]) != "--config"@
            && !text::starts_with(d[i], "--config="@) by {
            assert(d[i] == args[i + 1]);
        }
        lemma_plain_arguments(d, found);
        assert(seq![args[0]] + d =~= args);
    } else {
        assert(args =~= Seq::<Seq<char>>::empty());
    }
}

/// A value in quotes is what stands between them; any other value is taken as it
/// is.
pub proof fn law_values_and_their_quotes(q: char, s: Seq<char>, rest: Seq<char>)
    requires
        q == '\'' || q == '"',
        !s.contains(q),
    ensures
        value_spec(seq![q] + s + seq![q] + rest) == Some(s),
        rest.len() > 0 && rest[0] != '\'' && rest[0] != '"' ==> value_spec(rest) == Some(rest),
        value_spec(Seq::empty()) is None,
{
    let v = seq![q] + s + seq![q] + rest;
    let body = v.skip(1);
    let n = s.len() as int;
    assert(v[0] == q);
    assert forall|j: int| 0 <= j < n implies body[j] != q by {
        assert(body[j] == s[j]);
        assert(s.contains(s[j]));
    }
    assert(body[n] == q);
    text::lemma_find_is(body, q, n);
    assert(body.take(n) =~= s);
}

proof fn lemma_line_parts(key: Seq<char>, value: Seq<char>)
    requires
        key.len() > 0,
        text::solid(key),
        !key.contains('='),
        value.len() > 0,
        text::solid(value),
        value[0] != '\'' && value[0] != '"',
    ensures
        text::trim(key) == key,
        text::trim(key + " = "@ + value) == key + " = "@ + value,
        line_parts(key + " = "@ + value) == Ok::<(Seq<char>, Option<Seq<char>>), Fault>(
            (key, Some(value)),
        ),
        line_parts(key) == Ok::<(Seq<char>, Option<Seq<char>>), Fault>((key, None)),
{
    reveal_strlit(" = ");
    let raw = key + " = "@ + value;
    let n = key.len() as int;
    assert(raw[0] == key[0] && raw.last() == value[value.len() - 1]);
    text::law_trim_strips_the_ends(Seq::empty(), raw, Seq::empty());
    assert(Seq::<char>::empty() + raw + Seq::<char>::empty() =~= raw);
    let k = key + seq![' '];
    let v = seq![' '] + value;
    assert(!k.contains('=')) by {
        assert forall|i: int| 0 <= i < k.len() implies k[i] != '=' by {
            if i < n {
                assert(k[i] == key[i]);
                assert(key.contains(key[i]));
            }
        }
    }
    text::law_split_cuts_at_the_character(k, '=', v);
    assert(k + seq!['='] + v =~= raw);
    text::law_trim_strips_the_ends(Seq::empty(), key, seq![' ']);
    assert(Seq::<char>::empty() + key + seq![' '] =~= k);
    text::law_trim_strips_the_ends(seq![' '], value, Seq::empty());
    assert(seq![' '] + value + Seq::<char>::empty() =~= v);
    assert(!key.contains(' ')) by {
        assert forall|i: int| 0 <= i < n implies key[i] != ' ' by {
            assert(!text::is_space(key[i]));
        }
    }
    text::law_split_cuts_at_the_character(key, '=', key);
    text::lemma_trim_solid(key);
}

/// A line sets the option that it names to the value behind the equals sign:
/// its argument and the value come last, and an earlier setting of that option
/// goes, except that credentials add up. What no option is called is refused.
pub proof fn law_lines_set_their_option(
    out: Seq<Seq<char>>,
    creds: bool,
    key: Seq<char>,
    value: Seq<char>,
)
    requires
        key.len() > 0,
        text::solid(key),
        !key.contains('='),
        key[0] != '#',
        key != "mode"@,
        value.len() > 0,
        text::solid(value),
        value[0] != '\'' && value[0] != '"',
    ensures
        ({
            let r = line_step(out, creds, key + " = "@ + value);
            match option_kind_spec(key) {
                Some(OptionKind::Single) => r == Ok::<(Seq<Seq<char>>, bool), Fault>(
                    (without_option(out, key) + seq!["--"@ + key, value], creds),
                ),
                Some(OptionKind::Append) => r == Ok::<(Seq<Seq<char>>, bool), Fault>(
                    (out + seq!["--"@ + key, value], true),
                ),
                Some(OptionKind::Switch) => if value == "true"@ {
                    r == Ok::<(Seq<Seq<char>>, bool), Fault>(
                        (without_option(out, key) + seq!["--"@ + key], creds),
                    )
                } else {
                    r is Err && r->Err_0.kind == ConfigFault::LineSwitchValue
                },
                None => r is Err && r->Err_0.kind == ConfigFault::LineUnknownOption,
            }
        }),
{
    lemma_line_parts(key, value);
    law_options_that_add_up_or_stand_alone(key);
    reveal_strlit(" = ");
    assert((key + " = "@ + value)[0] == key[0]);
}

/// A line without a value sets a switch, and nothing else.
pub proof fn law_switches_need_no_value(out: Seq<Seq<char>>, creds: bool, key: Seq<char>)
    requires
        key.len() > 0,
        text::solid(key),
        !key.contains('='),
        key[0] != '#',
    ensures
        option_kind_spec(key) == Some(OptionKind::Switch) && key != "mode"@ ==> line_step(
            out,
            creds,
            key,
        ) == Ok::<(Seq<Seq<char>>, bool), Fault>(
            (without_option(out, key) + seq!["--"@ + key], creds),
        ),
        option_kind_spec(key) != Some(OptionKind::Switch) ==> line_step(out, creds, key) is Err,
{
    lemma_line_parts(key, seq!['1']);
    law_options_that_add_up_or_stand_alone(key);
    reveal_strlit("skip-verify");
    reveal_strlit("self-signed");
    reveal_strlit("allow-private-targets");
    reveal_strlit("auth");
    reveal_strlit("mode");
    assert("auth"@.len() == 4 && "skip-verify"@.len() == 11 && "self-signed"@.len() == 11);
    assert("allow-private-targets"@.len() == 21 && "mode"@.len() == 4);
}

/// The mode of a configuration file is `server` or `client`; the later one
/// counts.
pub proof fn law_mode_of_a_file(out: Seq<Seq<char>>, creds: bool, value: Seq<char>)
    requires
        value.len() > 0,
        text::solid(value),
        value[0] != '\'' && value[0] != '"',
    ensures
        ({
            let r = line_step(out, creds, "mode"@ + " = "@ + value);
            if value == "server"@ {
                r == Ok::<(Seq<Seq<char>>, bool), Fault>((without_mode(out) + seq!["-s"@], creds))
            } else if value == "client"@ {
                r == Ok::<(Seq<Seq<char>>, bool), Fault>((without_mode(out) + seq!["-c"@], creds))
            } else {
                r is Err && r->Err_0.kind == ConfigFault::LineModeValue
            }
        }),
{
    let key = "mode"@;
    reveal_strlit("mode");
    reveal_strlit(" = ");
    assert(text::solid(key)) by {
        assert forall|i: int| 0 <= i < key.len() implies !text::is_space(#[trigger] key[i]) by {
            text::law_ascii_classes(key[i]);
        }
    }
    lemma_line_parts(key, value);
    law_options_of_both_sides(key);
    reveal_strlit("auth");
    assert("auth"@[0] == 'a' && key[0] == 'm');
    assert((key + " = "@ + value)[0] == key[0]);
    reveal_strlit("server");
    reveal_strlit("client");
    assert("server"@[0] == 's' && "client"@[0] == 'c');
}

/// Blank lines and comments change nothing.
pub proof fn law_comments_are_passed_over(out: Seq<Seq<char>>, creds: bool, blank: Seq<char>, rest: Seq<char>)
    requires
        forall|i: int| 0 <= i < blank.len() ==> text::is_space(#[trigger] blank[i]),
    ensures
        line_step(out, creds, blank) == Ok::<(Seq<Seq<char>>, bool), Fault>((out, creds)),
        rest.len() == 0 || !text::is_space(rest.last()) ==> line_step(out, creds, blank + "#"@ + rest)
            == Ok::<(Seq<Seq<char>>, bool), Fault>((out, creds)),
{
    reveal_strlit("#");
    text::law_blank_text_is_trimmed_away(blank);
    let c = "#"@ + rest;
    if rest.len() == 0 || !text::is_space(rest.last()) {
        assert(c[0] == '#');
        if rest.len() > 0 {
            assert(c.last() == rest.last());
        }
        text::law_trim_strips_the_ends(blank, c, Seq::empty());
        assert(blank + c + Seq::<char>::empty() =~= blank + "#"@ + rest);
    }
}

/// A file is the lines that it holds, one behind the other; the first fault
/// stops it and is reported with its file and line.
pub proof fn law_files_are_read_line_by_line(path: Seq<char>, lines: Seq<Seq<char>>, n: nat)
    requires
        n < lines.len(),
    ensures
        lines_spec(path, lines, 0) == Ok::<(Seq<Seq<char>>, bool), Fault>((Seq::empty(), false)),
        lines_spec(path, lines, n) matches Ok((out, creds)) ==> match line_step(
            out,
            creds,
            lines[n as int],
        ) {
            Ok(x) => lines_spec(path, lines, n + 1) == Ok::<(Seq<Seq<char>>, bool), Fault>(x),
            Err(f) => lines_spec(path, lines, n + 1) == Err::<(Seq<Seq<char>>, bool), Fault>(
                (Fault { path, line: n + 1, ..f }),
            ),
        },
        lines_spec(path, lines, n) matches Err(f) ==> lines_spec(path, lines, n + 1) == Err::<
            (Seq<Seq<char>>, bool),
            Fault,
        >(f),
{
}

/// Credentials add up, switches stand alone, and every option of these two kinds
/// is one of these.
pub proof fn law_options_that_add_up_or_stand_alone(key: Seq<char>)
    ensures
        option_kind_spec(key) == Some(OptionKind::Append) <==> key == "auth"@,
        option_kind_spec(key) == Some(OptionKind::Switch) <==> (key == "skip-verify"@ || key
            == "self-signed"@ || key == "allow-private-targets"@),
{
    reveal_strlit("auth");
    reveal_strlit("skip-verify");
    reveal_strlit("self-signed");
    reveal_strlit("allow-private-targets");
    assert("auth"@.len() == 4 && "skip-verify"@.len() == 11 && "self-signed"@.len() == 11);
    assert("allow-private-targets"@.len() == 21);
}

/// The options with one value that both sides have.
pub proof fn law_options_of_both_sides(key: Seq<char>)
    requires
        key == "mode"@
            || key == "log"@
            || key == "time"@
            || key == "health"@
            || key == "config"@
            || key == "max-frame-kb"@
            || key == "recv-window"@,
    ensures
        option_kind_spec(key) == Some(OptionKind::Single),
{
    reveal_strlit("auth");
    reveal_strlit("skip-verify");
    reveal_strlit("self-signed");
    reveal_strlit("allow-private-targets");
    assert("auth"@[0] == 'a' && "self-signed"@[1] == 'e' && "skip-verify"@[1] == 'k');
    assert("auth"@.len() == 4 && "skip-verify"@.len() == 11 && "self-signed"@.len() == 11);
    assert("allow-private-targets"@.len() == 21);
    if key == "mode"@ {
        reveal_strlit("mode");
        assert(key.len() == 4);
        assert(key[0] == 'm');
    }
    if key == "log"@ {
        reveal_strlit("log");
        assert(key.len() == 3);
    }
    if key == "time"@ {
        reveal_strlit("time");
        assert(key.len() == 4);
        assert(key[0] == 't');
    }
    if key == "health"@ {
        reveal_strlit("health");
        assert(key.len() == 6);
    }
    if key == "config"@ {
        reveal_strlit("config");
        assert(key.len() == 6);
    }
    if key == "max-frame-kb"@ {
        reveal_strlit("max-frame-kb");
        assert(key.len() == 12);
    }
    if key == "recv-window"@ {
        reveal_strlit("recv-window");
        assert(key.len() == 11);
        assert(key[0] == 'r' && "self-signed"@[0] == 's');
    }
}

/// The options with one value that a client has.
pub proof fn law_options_of_a_client(key: Seq<char>)
    requires
        key == "server"@
            || key == "url"@
            || key == "bind"@
            || key == "http-bind"@
            || key == "inbound-auth"@
            || key == "conns"@
            || key == "sni"@
            || key == "pin"@,
    ensures
        option_kind_spec(key) == Some(OptionKind::Single),
{
    reveal_strlit("auth");
    reveal_strlit("skip-verify");
    reveal_strlit("self-signed");
    reveal_strlit("allow-private-targets");
    assert("auth"@[0] == 'a' && "self-signed"@[1] == 'e' && "skip-verify"@[1] == 'k');
    assert("auth"@.len() == 4 && "skip-verify"@.len() == 11 && "self-signed"@.len() == 11);
    assert("allow-private-targets"@.len() == 21);
    if key == "server"@ {
        reveal_strlit("server");
        assert(key.len() == 6);
    }
    if key == "url"@ {
        reveal_strlit("url");
        assert(key.len() == 3);
    }
    if key == "bind"@ {
        reveal_strlit("bind");
        assert(key.len() == 4);
        assert(key[0] == 'b');
    }
    if key == "http-bind"@ {
        reveal_strlit("http-bind");
        assert(key.len() == 9);
    }
    if key == "inbound-auth"@ {
        reveal_strlit("inbound-auth");
        assert(key.len() == 12);
    }
    if key == "conns"@ {
        reveal_strlit("conns");
        assert(key.len() == 5);
    }
    if key == "sni"@ {
        reveal_strlit("sni");
        assert(key.len() == 3);
    }
    if key == "pin"@ {
        reveal_strlit("pin");
        assert(key.len() == 3);
    }
}

/// The options with one value that a server has.
pub proof fn law_options_of_a_server(key: Seq<char>)
    requires
        key == "listen"@
            || key == "cert"@
            || key == "key"@
            || key == "fallback-listen"@
            || key == "http-listen"@
            || key == "acme-dir"@
            || key == "path"@
            || key == "max-sessions"@
            || key == "rate"@
            || key == "idle"@
            || key == "max-unauth"@
            || key == "shutdown-grace"@
            || key == "udp-dns-ttl"@,
    ensures
        option_kind_spec(key) == Some(OptionKind::Single),
{
    reveal_strlit("auth");
    reveal_strlit("skip-verify");
    reveal_strlit("self-signed");
    reveal_strlit("allow-private-targets");
    assert("auth"@[0] == 'a' && "self-signed"@[1] == 'e' && "skip-verify"@[1] == 'k');
    assert("auth"@.len() == 4 && "skip-verify"@.len() == 11 && "self-signed"@.len() == 11);
    assert("allow-private-targets"@.len() == 21);
    if key == "listen"@ {
        reveal_strlit("listen");
        assert(key.len() == 6);
    }
    if key == "cert"@ {
        reveal_strlit("cert");
        assert(key.len() == 4);
        assert(key[0] == 'c');
    }
    if key == "key"@ {
        reveal_strlit("key");
        assert(key.len() == 3);
    }
    if key == "fallback-listen"@ {
        reveal_strlit("fallback-listen");
        assert(key.len() == 15);
    }
    if key == "http-listen"@ {
        reveal_strlit("http-listen");
        assert(key.len() == 11);
        assert(key[1] == 't');
    }
    if key == "acme-dir"@ {
        reveal_strlit("acme-dir");
        assert(key.len() == 8);
    }
    if key == "path"@ {
        reveal_strlit("path");
        assert(key.len() == 4);
        assert(key[0] == 'p');
    }
    if key == "max-sessions"@ {
        reveal_strlit("max-sessions");
        assert(key.len() == 12);
    }
    if key == "rate"@ {
        reveal_strlit("rate");
        assert(key.len() == 4);
        assert(key[0] == 'r');
    }
    if key == "idle"@ {
        reveal_strlit("idle");
        assert(key.len() == 4);
        assert(key[0] == 'i');
    }
    if key == "max-unauth"@ {
        reveal_strlit("max-unauth");
        assert(key.len() == 10);
    }
    if key == "shutdown-grace"@ {
        reveal_strlit("shutdown-grace");
        assert(key.len() == 14);
    }
    if key == "udp-dns-ttl"@ {
        reveal_strlit("udp-dns-ttl");
        assert(key.len() == 11);
        assert(key[1] == 'd');
    }
}

/// No name that is shorter or longer than all of these is an option.
pub proof fn law_no_other_lengths(key: Seq<char>)
    requires
        key.len() < 3 || key.len() > 21 || (key.len() == 7 || key.len() == 13 || 15
            < key.len() < 21),
    ensures
        option_kind_spec(key) is None,
{
    reveal_strlit("auth");
    reveal_strlit("skip-verify");
    reveal_strlit("self-signed");
    reveal_strlit("allow-private-targets");
    reveal_strlit("mode");
    reveal_strlit("log");
    reveal_strlit("time");
    reveal_strlit("server");
    reveal_strlit("url");
    reveal_strlit("bind");
    reveal_strlit("http-bind");
    reveal_strlit("inbound-auth");
    reveal_strlit("conns");
    reveal_strlit("sni");
    reveal_strlit("pin");
    reveal_strlit("recv-window");
    reveal_strlit("listen");
    reveal_strlit("cert");
    reveal_strlit("key");
    reveal_strlit("fallback-listen");
    reveal_strlit("http-listen");
    reveal_strlit("acme-dir");
    reveal_strlit("path");
    reveal_strlit("max-sessions");
    reveal_strlit("rate");
    reveal_strlit("idle");
    reveal_strlit("max-unauth");
    reveal_strlit("health");
    reveal_strlit("config");
    reveal_strlit("shutdown-grace");
    reveal_strlit("max-frame-kb");
    reveal_strlit("udp-dns-ttl");
    assert("auth"@.len() == 4);
    assert("skip-verify"@.len() == 11);
    assert("self-signed"@.len() == 11);
    assert("allow-private-targets"@.len() == 21);
    assert("mode"@.len() == 4);
    assert("log"@.len() == 3);
    assert("time"@.len() == 4);
    assert("server"@.len() == 6);
    assert("url"@.len() == 3);
    assert("bind"@.len() == 4);
    assert("http-bind"@.len() == 9);
    assert("inbound-auth"@.len() == 12);
    assert("conns"@.len() == 5);
    assert("sni"@.len() == 3);
    assert("pin"@.len() == 3);
    assert("recv-window"@.len() == 11);
    assert("listen"@.len() == 6);
    assert("cert"@.len() == 4);
    assert("key"@.len() == 3);
    assert("fallback-listen"@.len() == 15);
    assert("http-listen"@.len() == 11);
    assert("acme-dir"@.len() == 8);
    assert("path"@.len() == 4);
    assert("max-sessions"@.len() == 12);
    assert("rate"@.len() == 4);
    assert("idle"@.len() == 4);
    assert("max-unauth"@.len() == 10);
    assert("health"@.len() == 6);
    assert("config"@.len() == 6);
    assert("shutdown-grace"@.len() == 14);
    assert("max-frame-kb"@.len() == 12);
    assert("udp-dns-ttl"@.len() == 11);
}

/// A masquerade name that is empty, too long, has an empty label or a character
/// that no host name has is refused by that fault.
pub proof fn law_other_masquerade_names(
    sni: Seq<char>,
    url: Option<Seq<char>>,
    identified: bool,
    i: int,
)
    ensures
        encode_utf8(sni).len() == 0 || encode_utf8(sni).len() > 253 ==> (sni_fault(
            sni,
            url,
            identified,
        ) matches Some(f) && f.kind == ConfigFault::SniLength),
        1 <= encode_utf8(sni).len() <= 253 && (sni[0] == '.' || sni[sni.len() - 1] == '.' || (0 <= i
            < sni.len() - 1 && sni[i] == '.' && sni[i + 1] == '.')) ==> (sni_fault(
            sni,
            url,
            identified,
        ) matches Some(f) && f.kind == ConfigFault::SniDots),
        1 <= encode_utf8(sni).len() <= 253 && 0 <= i < sni.len() && (sni[i] == '/' || sni[i] == ':'
            || sni[i] == ' ' || sni[i] as u32 >= 128) ==> sni_fault(sni, url, identified) is Some,
{
    reveal_strlit("..");
    if 0 <= i < sni.len() - 1 && sni[i] == '.' && sni[i + 1] == '.' {
        assert(sni.subrange(i, i + 2) =~= ".."@);
    }
    if 0 <= i < sni.len() {
        text::law_ascii_classes(sni[i]);
    }
}

/// A file begins with its first line, whether or not a byte order mark stands
/// before it.
pub proof fn law_byte_order_mark_is_passed_over(path: Seq<char>, t: Seq<char>)
    ensures
        t.len() == 0 || t[0] != '\u{feff}' ==> file_spec(path, seq!['\u{feff}'] + t) == file_spec(
            path,
            t,
        ),
        t.len() == 0 || t[0] != '\u{feff}' ==> file_spec(path, t) == lines_spec(
            path,
            text::split(t, '\n'),
            text::split(t, '\n').len(),
        ),
{
    assert((seq!['\u{feff}'] + t).skip(1) =~= t);
}

/// With an option goes the value behind it, unless that looks like an option
/// itself; an option with its value inside goes alone, and everything else stays
/// where it is.
pub proof fn law_removing_an_option_with_its_value(
    key: Seq<char>,
    value: Seq<char>,
    other: Seq<char>,
    rest: Seq<Seq<char>>,
)
    requires
        other != "--"@ + key,
        !text::starts_with(other, "--"@ + key + "="@),
    ensures
        value.len() == 0 || value[0] != '-' ==> without_option(
            seq!["--"@ + key, value] + rest,
            key,
        ) == without_option(rest, key),
        value.len() > 0 && value[0] == '-' ==> without_option(
            seq!["--"@ + key, value] + rest,
            key,
        ) == without_option(seq![value] + rest, key),
        without_option(seq!["--"@ + key + "="@ + value] + rest, key) == without_option(rest, key),
        without_option(seq![other] + rest, key) == seq![other] + without_option(rest, key),
{
    reveal_strlit("-");
    reveal_strlit("--");
    reveal_strlit("=");
    let a = seq!["--"@ + key, value] + rest;
    assert(a[0] == "--"@ + key && a[1] == value);
    assert(a.skip(2) =~= rest);
    assert(a.skip(1) =~= seq![value] + rest);
    assert("-"@ =~= seq!['-']);
    if value.len() > 0 {
        assert(value.take(1) =~= seq![value[0]]);
        assert(value.take(1)[0] == value[0]);
    }
    let f = "--"@ + key + "="@;
    let g = f + value;
    let b = seq![g] + rest;
    assert(g.take(f.len() as int) =~= f);
    assert(g.len() > ("--"@ + key).len());
    assert(b[0] == g && b.skip(1) =~= rest);
    let c = seq![other] + rest;
    assert(c[0] == other && c.skip(1) =~= rest);
}

/// The modes are `-c` and `-s`. They leave a file's arguments where the command
/// line has one of them, and stay where it has none.
pub proof fn law_mode_of_the_command_line_wins(
    file: Seq<Seq<char>>,
    cli: Seq<Seq<char>>,
    i: int,
    x: Seq<char>,
)
    ensures
        0 <= i < cli.len() && (cli[i] == "-s"@ || cli[i] == "-c"@) ==> !stripped(file, cli).contains(
            "-s"@,
        ) && !stripped(file, cli).contains("-c"@),
        (forall|j: int| 0 <= j < cli.len() ==> (#[trigger] cli[j]) != "-s"@ && cli[j] != "-c"@)
            ==> stripped(file, cli) == without_options(file, overridden(cli)),
        x != "-s"@ && x != "-c"@ ==> (without_mode(file).contains(x) <==> file.contains(x)),
{
    let kept = without_options(file, overridden(cli));
    lemma_modes_go(kept, "-s"@);
    lemma_modes_go(kept, "-c"@);
    lemma_modes_go(file, x);
    if 0 <= i < cli.len() && (cli[i] == "-s"@ || cli[i] == "-c"@) {
        assert(is_mode(cli[i]));
    }
}

proof fn lemma_modes_go(args: Seq<Seq<char>>, x: Seq<char>)
    ensures
        without_mode(args).contains(x) <==> args.contains(x) && x != "-s"@ && x != "-c"@,
    decreases args.len(),
{
    if args.len() > 0 {
        let d = args.drop_last();
        lemma_modes_go(d, x);
        let t = without_mode(d);
        assert(args[args.len() - 1] == args.last());
        if args.contains(x) {
            let i = choose|i: int| 0 <= i < args.len() && args[i] == x;
            if i < d.len() {
                assert(d[i] == x);
            }
        }
        if d.contains(x) {
            let i = choose|i: int| 0 <= i < d.len() && d[i] == x;
            assert(args[i] == x);
        }
        if !is_mode(args.last()) {
            let r = t.push(args.last());
            if t.contains(x) {
                let i = choose|i: int| 0 <= i < t.len() && t[i] == x;
                assert(r[i] == x);
            }
            if args.last() == x {
                assert(r[t.len() as int] == x);
            }
            if r.contains(x) {
                let i = choose|i: int| 0 <= i < r.len() && r[i] == x;
                if i < t.len() {
                    assert(t[i] == x);
                }
            }
        }
    }
}

/// What the command line overrides: each option that it names, alone, with its
/// value behind it or inside it. Credentials add up and override nothing, and
/// neither do other words.
pub proof fn law_what_the_command_line_overrides(
    key: Seq<char>,
    value: Seq<char>,
    word: Seq<char>,
    rest: Seq<Seq<char>>,
)
    requires
        !key.contains('='),
        !text::starts_with(word, "--"@),
        value.len() == 0 || value[0] != '-',
    ensures
        option_kind_spec(key) == Some(OptionKind::Single) ==> overridden(
            seq!["--"@ + key, value] + rest,
        ) == seq![key] + overridden(rest),
        option_kind_spec(key) == Some(OptionKind::Switch) ==> overridden(seq!["--"@ + key] + rest)
            == seq![key] + overridden(rest),
        option_kind_spec(key) == Some(OptionKind::Single) || option_kind_spec(key) == Some(
            OptionKind::Switch,
        ) ==> overridden(seq!["--"@ + key + "="@ + value] + rest) == seq![key] + overridden(rest),
        option_kind_spec(key) == Some(OptionKind::Append) || option_kind_spec(key) is None
            ==> overridden(seq!["--"@ + key] + rest) == overridden(rest),
        overridden(seq![word] + rest) == overridden(rest),
{
    reveal_strlit("-");
    reveal_strlit("--");
    reveal_strlit("=");
    assert("-"@ =~= seq!['-']);
    if value.len() > 0 {
        assert(value.take(1)[0] == value[0]);
    }
    let f = "--"@ + key;
    assert(f.take(2) =~= "--"@ && f.skip(2) =~= key);
    text::lemma_find(key, '=');
    assert(key.take(key.len() as int) =~= key);
    let a = seq![f, value] + rest;
    assert(a[0] == f && a[1] == value && a.skip(2) =~= rest);
    let b = seq![f] + rest;
    assert(b[0] == f && b.skip(1) =~= rest);
    let g = "--"@ + key + "="@ + value;
    let inner = key + "="@ + value;
    assert(g.take(2) =~= "--"@ && g.skip(2) =~= inner);
    assert forall|j: int| 0 <= j < key.len() implies inner[j] != '=' by {
        assert(inner[j] == key[j]);
        assert(key.contains(key[j]));
    }
    text::lemma_find_is(inner, '=', key.len() as int);
    assert(inner.take(key.len() as int) =~= key);
    let c = seq![g] + rest;
    assert(c[0] == g && c.skip(1) =~= rest);
    let w = seq![word] + rest;
    assert(w[0] == word && w.skip(1) =~= rest);
}

/// A line whose key is missing, or has a space in it, is refused.
pub proof fn law_lines_need_a_key(
    out: Seq<Seq<char>>,
    creds: bool,
    a: Seq<char>,
    b: Seq<char>,
    value: Seq<char>,
)
    requires
        text::solid(a) && text::solid(b) && text::solid(value),
        a.len() > 0 && b.len() > 0 && value.len() > 0,
        a[0] != '#',
        !a.contains('=') && !b.contains('='),
    ensures
        line_step(out, creds, "="@ + value) matches Err(f) && f.kind == ConfigFault::LineKey,
        line_step(out, creds, a + " "@ + b + "="@ + value) matches Err(f) && f.kind
            == ConfigFault::LineKey,
{
    reveal_strlit("=");
    reveal_strlit(" ");
    text::law_ascii_classes('=');
    let none = Seq::<char>::empty();
    let x = "="@ + value;
    assert(x[0] == '=' && x.last() == value[value.len() - 1]);
    text::law_trim_strips_the_ends(none, x, none);
    assert(none + x + none =~= x);
    text::law_split_cuts_at_the_character(none, '=', value);
    assert(none + seq!['='] + value =~= x);
    text::law_blank_text_is_trimmed_away(none);
    let k = a + " "@ + b;
    let y = a + " "@ + b + "="@ + value;
    assert(y[0] == a[0] && y.last() == value[value.len() - 1]);
    text::law_trim_strips_the_ends(none, y, none);
    assert(none + y + none =~= y);
    assert(!k.contains('=')) by {
        assert forall|i: int| 0 <= i < k.len() implies k[i] != '=' by {
            if i < a.len() {
                assert(k[i] == a[i]);
                assert(a.contains(a[i]));
            } else if i > a.len() {
                assert(k[i] == b[i - a.len() - 1]);
                assert(b.contains(b[i - a.len() - 1]));
            }
        }
    }
    text::law_split_cuts_at_the_character(k, '=', value);
    assert(k + seq!['='] + value =~= y);
    assert(k[0] == a[0] && k.last() == b[b.len() - 1]);
    text::law_trim_strips_the_ends(none, k, none);
    assert(none + k + none =~= k);
    assert(k[a.len() as int] == ' ');
}

/// A fault in a file is told with the file and the line before it.
pub proof fn law_faults_of_lines_as_text(f: Fault, what: Seq<char>)
    requires
        !f.path.contains(':'),
    ensures
        ({
            let t = line_text(f, what);
            &&& text::split_once(t, ':') matches Some((p, r)) && p == f.path && text::split_once(
                r,
                ':',
            ) == Some((text::decimal(f.line), " "@ + what))
        }),
{
    reveal_strlit(":");
    reveal_strlit(": ");
    reveal_strlit(" ");
    let d = text::decimal(f.line);
    let r = d + ": "@ + what;
    text::lemma_decimal(f.line);
    assert(!d.contains(':')) by {
        assert forall|i: int| 0 <= i < d.len() implies d[i] != ':' by {
            assert(text::is_digit(d[i]));
        }
    }
    assert(line_text(f, what) =~= f.path + seq![':'] + r);
    assert(r =~= d + seq![':'] + (" "@ + what));
    text::law_split_cuts_at_the_character(f.path, ':', r);
    text::law_split_cuts_at_the_character(d, ':', " "@ + what);
}

} // verus!
