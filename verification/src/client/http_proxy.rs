//! Local HTTP proxy inbound: CONNECT tunneling plus a minimal absolute-URI
//! passthrough for plain HTTP.

use vstd::prelude::*;
use vstd::utf8::encode_utf8;

use super::outbound::{error_tag, tag_of, ClientError};
use crate::text;
use crate::wire;

verus! {

/// Longest request head, in bytes.
pub const MAX_HEAD: usize = 16384;

/// Why a request cannot be served.
#[derive(Debug, Clone, Copy, PartialEq, Eq, Structural)]
pub enum ProxyError {
    EmptyTarget,
    BadIpv6Target,
    BadPort,
    /// Neither CONNECT nor an `http://` target.
    Unsupported,
}

impl ProxyError {
    /// What went wrong, in words.
    pub fn message(self) -> (r: &'static str)
        ensures
            r@ == match self {
                ProxyError::EmptyTarget => "empty target"@,
                ProxyError::BadIpv6Target => "bad ipv6 target"@,
                ProxyError::BadPort => "bad target port"@,
                ProxyError::Unsupported => "only http:// and CONNECT supported"@,
            },
    {
        match self {
            ProxyError::EmptyTarget => "empty target",
            ProxyError::BadIpv6Target => "bad ipv6 target",
            ProxyError::BadPort => "bad target port",
            ProxyError::Unsupported => "only http:// and CONNECT supported",
        }
    }
}

// ---------------------------------------------------------------------------
// Targets
// ---------------------------------------------------------------------------
/// The port that a text spells, with the host it belongs to.
pub open spec fn with_port(host: Seq<char>, port: Seq<char>) -> Result<
    (Seq<char>, u16),
    ProxyError,
> {
    match text::parse_unsigned(port, 65535) {
        Some(p) => Ok((host, p as u16)),
        None => Err(ProxyError::BadPort),
    }
}

/// Host and port of `host`, `host:port`, `[v6]` or `[v6]:port`. A text with
/// several colons and no brackets is a host as a whole. What comes behind the
/// closing bracket without a colon is passed over.
pub open spec fn host_port_spec(s: Seq<char>, default_port: u16) -> Result<
    (Seq<char>, u16),
    ProxyError,
> {
    let t = text::trim(s);
    if t.len() == 0 {
        Err(ProxyError::EmptyTarget)
    } else if t[0] == '[' {
        let inner = t.skip(1);
        let e = text::find(inner, ']');
        if e >= inner.len() {
            Err(ProxyError::BadIpv6Target)
        } else {
            let tail = inner.skip(e + 1);
            if tail.len() > 0 && tail[0] == ':' {
                with_port(inner.take(e), tail.skip(1))
            } else {
                Ok((inner.take(e), default_port))
            }
        }
    } else {
        let i = text::rfind(t, ':');
        if i >= 0 && !t.take(i).contains(':') {
            with_port(t.take(i), t.skip(i + 1))
        } else {
            Ok((t, default_port))
        }
    }
}

fn port_of(host: &[char], port: &[char]) -> (r: Result<(String, u16), ProxyError>)
    ensures
        match r {
            Ok((h, p)) => with_port(host@, port@) == Ok::<(Seq<char>, u16), ProxyError>((h@, p)),
            Err(e) => with_port(host@, port@) == Err::<(Seq<char>, u16), ProxyError>(e),
        },
{
    match text::parse_number(port, 65535) {
        Some(p) => Ok((text::string_of(host), p as u16)),
        None => Err(ProxyError::BadPort),
    }
}

fn host_port_chars(s: &[char], default_port: u16) -> (r: Result<(String, u16), ProxyError>)
    ensures
        match r {
            Ok((h, p)) => host_port_spec(s@, default_port) == Ok::<(Seq<char>, u16), ProxyError>(
                (h@, p),
            ),
            Err(e) => host_port_spec(s@, default_port) == Err::<(Seq<char>, u16), ProxyError>(e),
        },
{
    let t = text::trim_chars(s);
    if t.len() == 0 {
        return Err(ProxyError::EmptyTarget);
    }
    if t[0] == '[' {
        let inner = text::part(t, 1, t.len());
        assert(inner@ =~= t@.skip(1));
        let e = text::find_char(inner, ']');
        if e >= inner.len() {
            return Err(ProxyError::BadIpv6Target);
        }
        let host = text::part(inner, 0, e);
        let tail = text::part(inner, e + 1, inner.len());
        assert(host@ =~= inner@.take(e as int));
        assert(tail@ =~= inner@.skip(e + 1));
        if tail.len() > 0 && tail[0] == ':' {
            let port = text::part(tail, 1, tail.len());
            assert(port@ =~= tail@.skip(1));
            return port_of(host, port);
        }
        return Ok((text::string_of(host), default_port));
    }
    match text::rfind_char(t, ':') {
        Some(i) => {
            let host = text::part(t, 0, i);
            assert(host@ =~= t@.take(i as int));
            proof {
                text::lemma_find(host@, ':');
            }
            if text::find_char(host, ':') < host.len() {
                return Ok((text::string_of(t), default_port));
            }
            let port = text::part(t, i + 1, t.len());
            assert(port@ =~= t@.skip(i + 1));
            port_of(host, port)
        },
        None => Ok((text::string_of(t), default_port)),
    }
}

pub fn parse_host_port(s: &str, default_port: u16) -> (r: Result<(String, u16), ProxyError>)
    ensures
        match r {
            Ok((h, p)) => host_port_spec(s@, default_port) == Ok::<(Seq<char>, u16), ProxyError>(
                (h@, p),
            ),
            Err(e) => host_port_spec(s@, default_port) == Err::<(Seq<char>, u16), ProxyError>(e),
        },
{
    host_port_chars(text::chars_of(s).as_slice(), default_port)
}

// ---------------------------------------------------------------------------
// Request head
// ---------------------------------------------------------------------------
/// The end of a request head.
pub open spec fn blank_line() -> Seq<u8> {
    seq![13u8, 10u8, 13u8, 10u8]
}

/// Where the first empty line begins.
pub fn find_double_crlf(buf: &[u8]) -> (r: Option<usize>)
    ensures
        match r {
            Some(i) => i == text::find_infix(buf@, blank_line()) && i + 4 <= buf.len(),
            None => !text::has_infix(buf@, blank_line()),
        },
{
    let p: [u8; 4] = [13, 10, 13, 10];
    assert(p@ =~= blank_line());
    let i = wire::find_bytes(buf, &p);
    proof {
        text::lemma_find_infix(buf@, blank_line());
    }
    if i < buf.len() {
        Some(i)
    } else {
        None
    }
}

/// What a local client asks for.
#[derive(Debug)]
pub enum ProxyRequest {
    /// A tunnel to the host and port.
    Connect(String, u16),
    /// Plain HTTP to the host and port.
    Forward(String, u16),
}

/// A request, as text.
pub ghost enum RequestView {
    Connect(Seq<char>, u16),
    Forward(Seq<char>, u16),
}

impl ProxyRequest {
    pub open spec fn view(self) -> RequestView {
        match self {
            ProxyRequest::Connect(h, p) => RequestView::Connect(h@, p),
            ProxyRequest::Forward(h, p) => RequestView::Forward(h@, p),
        }
    }
}

/// The first line of a request head.
pub open spec fn request_line(head: Seq<char>) -> Seq<char> {
    head.take(text::find_infix(head, "\r\n"@))
}

/// The host part of what follows `http://`.
pub open spec fn authority(rest: Seq<char>) -> Seq<char> {
    rest.take(text::find(rest, '/'))
}

/// The request that the head of a message makes.
pub open spec fn request_spec(head: Seq<char>) -> Result<RequestView, ProxyError> {
    let line = request_line(head);
    let method = text::first_word(line);
    let target = text::first_word(text::after_word(line));
    if text::same_ignoring_case(method, "CONNECT"@) {
        match host_port_spec(target, 443) {
            Ok((h, p)) => Ok(RequestView::Connect(h, p)),
            Err(e) => Err(e),
        }
    } else if text::starts_with(target, "http://"@) {
        match host_port_spec(authority(target.skip(7)), 80) {
            Ok((h, p)) => Ok(RequestView::Forward(h, p)),
            Err(e) => Err(e),
        }
    } else {
        Err(ProxyError::Unsupported)
    }
}

/// How a request line falls apart.
proof fn lemma_request_words(
    method: Seq<char>,
    target: Seq<char>,
    version: Seq<char>,
    end: Seq<char>,
)
    requires
        method.len() > 0,
        text::solid(method),
        target.len() > 0,
        text::solid(target),
        version.len() > 0 ==> version[0] == ' ',
        !version.contains('\r'),
        end.len() > 0 ==> text::starts_with(end, "\r\n"@),
    ensures
        ({
            let line = request_line(method + " "@ + target + version + end);
            text::first_word(line) == method && text::first_word(text::after_word(line)) == target
        }),
{
    reveal_strlit(" ");
    reveal_strlit("\r\n");
    let line = method + " "@ + target + version;
    let head = method + " "@ + target + version + end;
    let n = line.len() as int;
    assert(head =~= line + end);
    assert forall|j: int| 0 <= j < n implies line[j] != '\r' by {
        if j < method.len() {
            assert(line[j] == method[j]);
        } else if j > method.len() && j < method.len() + 1 + target.len() {
            assert(line[j] == target[j - method.len() - 1]);
        } else if j > method.len() {
            assert(line[j] == version[j - method.len() - 1 - target.len()]);
            assert(version.contains(line[j]));
        }
    }
    assert forall|j: int| 0 <= j < n implies !text::starts_with(
        #[trigger] head.skip(j),
        "\r\n"@,
    ) by {
        assert(head.skip(j)[0] == line[j]);
        if text::starts_with(head.skip(j), "\r\n"@) {
            assert(head.skip(j).take(2)[0] == '\r');
        }
    }
    assert(head.skip(n) =~= end);
    text::lemma_find_infix_is(head, "\r\n"@, n);
    assert(head.take(n) =~= line);
    let rest = " "@ + target + version;
    assert(line =~= method + rest);
    text::lemma_first_word(method, rest);
    assert(rest =~= seq![' '] + (target + version));
    text::lemma_leading_space(' ', target + version);
    text::lemma_first_word(target, version);
}

/// A host name as it stands in a target: without white space, brackets or
/// colons.
pub open spec fn plain_host(host: Seq<char>) -> bool {
    host.len() > 0 && text::solid(host) && !host.contains(':') && !host.contains('[')
        && !host.contains(']') && !host.contains('/')
}

/// Host and port of a target read back: `host:port` and `[host]:port` name the
/// port, whatever the default is; without a port the default counts, and a text
/// with several colons is a host.
pub proof fn law_host_and_port_read_back(host: Seq<char>, v6: Seq<char>, port: u16, default_port: u16)
    requires
        plain_host(host),
        text::solid(v6),
        !v6.contains(']'),
    ensures
        host_port_spec(host + ":"@ + text::decimal(port as nat), default_port) == Ok::<
            (Seq<char>, u16),
            ProxyError,
        >((host, port)),
        host_port_spec(host, default_port) == Ok::<(Seq<char>, u16), ProxyError>(
            (host, default_port),
        ),
        host_port_spec("["@ + v6 + "]:"@ + text::decimal(port as nat), default_port) == Ok::<
            (Seq<char>, u16),
            ProxyError,
        >((v6, port)),
        host_port_spec("["@ + v6 + "]"@, default_port) == Ok::<(Seq<char>, u16), ProxyError>(
            (v6, default_port),
        ),
        host_port_spec("["@ + v6, default_port) == Err::<(Seq<char>, u16), ProxyError>(
            ProxyError::BadIpv6Target,
        ),
        host_port_spec(host + "::"@ + host, default_port) == Ok::<(Seq<char>, u16), ProxyError>(
            (host + "::"@ + host, default_port),
        ),
        host_port_spec(host + ":"@ + host, default_port) is Ok ==> host.len() <= 5 || host[0] == '0'
            || host[0] == '+',
        host_port_spec(Seq::empty(), default_port) == Err::<(Seq<char>, u16), ProxyError>(
            ProxyError::EmptyTarget,
        ),
{
    reveal_strlit(":");
    reveal_strlit("::");
    reveal_strlit("[");
    reveal_strlit("]");
    reveal_strlit("]:");
    let p = port as nat;
    let d = text::decimal(p);
    text::lemma_decimal(p);
    text::lemma_decimal_roundtrip(p, 65535);
    lemma_digits_are_plain(d);
    // host:port
    let a = host + ":"@ + d;
    let n = host.len() as int;
    assert(text::solid(a)) by {
        assert forall|i: int| 0 <= i < a.len() implies !text::is_space(#[trigger] a[i]) by {
            if i < n {
                assert(a[i] == host[i]);
            } else if i > n {
                assert(a[i] == d[i - n - 1]);
            }
        }
    }
    text::lemma_trim_solid(a);
    assert(a[0] == host[0] && host.contains(host[0]));
    assert(a[n] == ':');
    assert forall|j: int| n < j < a.len() implies a[j] != ':' by {
        assert(a[j] == d[j - n - 1]);
        assert(text::is_digit(d[j - n - 1]));
    }
    text::lemma_rfind_is(a, ':', n);
    assert(a.take(n) =~= host);
    assert(a.skip(n + 1) =~= d);
    // host
    text::lemma_trim_solid(host);
    text::lemma_rfind(host, ':');
    if text::rfind(host, ':') >= 0 {
        assert(host.contains(host[text::rfind(host, ':')]));
    }
    // [v6]:port, [v6], [v6
    let b = "["@ + v6 + "]:"@ + d;
    let m = v6.len() as int;
    assert(text::solid(b)) by {
        assert forall|i: int| 0 <= i < b.len() implies !text::is_space(#[trigger] b[i]) by {
            if 1 <= i <= m {
                assert(b[i] == v6[i - 1]);
            } else if i > m + 2 {
                assert(b[i] == d[i - m - 3]);
            }
        }
    }
    text::lemma_trim_solid(b);
    let inner = b.skip(1);
    lemma_bracket_end(inner, v6);
    assert(inner.skip(m + 1) =~= ":"@ + d);
    assert(inner.skip(m + 1).skip(1) =~= d);
    let c = "["@ + v6 + "]"@;
    assert(text::solid(c)) by {
        assert forall|i: int| 0 <= i < c.len() implies !text::is_space(#[trigger] c[i]) by {
            if 1 <= i <= m {
                assert(c[i] == v6[i - 1]);
            }
        }
    }
    text::lemma_trim_solid(c);
    lemma_bracket_end(c.skip(1), v6);
    let e = "["@ + v6;
    assert(text::solid(e)) by {
        assert forall|i: int| 0 <= i < e.len() implies !text::is_space(#[trigger] e[i]) by {
            if 1 <= i {
                assert(e[i] == v6[i - 1]);
            }
        }
    }
    text::lemma_trim_solid(e);
    assert(e.skip(1) =~= v6);
    text::lemma_find(v6, ']');
    // several colons
    let f = host + "::"@ + host;
    assert(text::solid(f)) by {
        assert forall|i: int| 0 <= i < f.len() implies !text::is_space(#[trigger] f[i]) by {
            if i < n {
                assert(f[i] == host[i]);
            } else if i > n + 1 {
                assert(f[i] == host[i - n - 2]);
            }
        }
    }
    text::lemma_trim_solid(f);
    assert(f[0] == host[0]);
    assert forall|j: int| n + 1 < j < f.len() implies f[j] != ':' by {
        assert(f[j] == host[j - n - 2]);
        assert(host.contains(f[j]));
    }
    text::lemma_rfind_is(f, ':', n + 1);
    assert(f.take(n + 1)[n] == ':');
    // a name in place of a port
    let g = host + ":"@ + host;
    assert(text::solid(g)) by {
        assert forall|i: int| 0 <= i < g.len() implies !text::is_space(#[trigger] g[i]) by {
            if i < n {
                assert(g[i] == host[i]);
            } else if i > n {
                assert(g[i] == host[i - n - 1]);
            }
        }
    }
    text::lemma_trim_solid(g);
    assert(g[0] == host[0]);
    assert forall|j: int| n < j < g.len() implies g[j] != ':' by {
        assert(g[j] == host[j - n - 1]);
        assert(host.contains(g[j]));
    }
    text::lemma_rfind_is(g, ':', n);
    assert(g.take(n) =~= host);
    assert(g.skip(n + 1) =~= host);
    if host_port_spec(g, default_port) is Ok && host[0] != '0' && host[0] != '+' {
        lemma_short_number(host);
    }
}

/// A number of at most five digits, unless it begins with a zero.
proof fn lemma_short_number(s: Seq<char>)
    requires
        s.len() > 0,
        s[0] != '0',
        s[0] != '+',
        text::parse_unsigned(s, 65535) is Some,
    ensures
        s.len() <= 5,
{
    assert(text::all_digits(s));
    if s.len() > 5 {
        lemma_number_grows(s, 6);
    }
}

proof fn lemma_number_grows(s: Seq<char>, k: nat)
    requires
        text::all_digits(s),
        s.len() >= k,
        k >= 1,
        s[0] != '0',
    ensures
        text::dec_value(s) >= 1,
        k >= 6 ==> text::dec_value(s) >= 100_000,
    decreases s.len(),
{
    reveal_with_fuel(text::dec_value, 7);
    let d = s.drop_last();
    assert(text::is_digit(s[0]));
    assert(text::is_digit(s[s.len() - 1]));
    if s.len() > 1 {
        assert forall|i: int| 0 <= i < d.len() implies text::is_digit(#[trigger] d[i]) by {
            assert(d[i] == s[i]);
        }
        if s.len() > 6 {
            lemma_number_grows(d, 6);
        } else {
            lemma_number_grows(d, 1);
            if s.len() == 6 {
                assert(text::is_digit(s[1]) && text::is_digit(s[2]) && text::is_digit(s[3])
                    && text::is_digit(s[4]));
                let d2 = d.drop_last();
                let d3 = d2.drop_last();
                let d4 = d3.drop_last();
                let d5 = d4.drop_last();
                assert(d5 =~= seq![s[0]]);
                assert(text::dec_value(d5) >= 1);
            }
        }
    }
}

proof fn lemma_digits_are_plain(d: Seq<char>)
    requires
        text::all_digits(d),
    ensures
        text::solid(d),
{
    assert forall|i: int| 0 <= i < d.len() implies !text::is_space(#[trigger] d[i]) by {
        assert(text::is_digit(d[i]));
    }
}

proof fn lemma_bracket_end(inner: Seq<char>, v6: Seq<char>)
    requires
        inner.len() > v6.len(),
        inner.take(v6.len() as int) =~= v6,
        inner[v6.len() as int] == ']',
        !v6.contains(']'),
    ensures
        text::find(inner, ']') == v6.len(),
        inner.take(v6.len() as int) == v6,
{
    assert forall|j: int| 0 <= j < v6.len() implies inner[j] != ']' by {
        assert(inner.take(v6.len() as int)[j] == inner[j]);
        assert(v6.contains(v6[j]));
    }
    text::lemma_find_is(inner, ']', v6.len() as int);
}

/// A CONNECT is a tunnel to the host and the port that its request line names;
/// only without a port is it 443. The case of the method does not matter, nor
/// what comes behind the target.
pub proof fn law_connect_names_its_target(
    method: Seq<char>,
    host: Seq<char>,
    port: u16,
    version: Seq<char>,
    end: Seq<char>,
)
    requires
        method == "CONNECT"@ || method == "connect"@ || method == "Connect"@,
        plain_host(host),
        version.len() > 0 ==> version[0] == ' ',
        !version.contains('\r'),
        end.len() > 0 ==> text::starts_with(end, "\r\n"@),
    ensures
        request_spec(
            method + " "@ + (host + ":"@ + text::decimal(port as nat)) + version + end,
        ) == Ok::<RequestView, ProxyError>(RequestView::Connect(host, port)),
        request_spec(method + " "@ + host + version + end) == Ok::<RequestView, ProxyError>(
            RequestView::Connect(host, 443),
        ),
{
    reveal_strlit("CONNECT");
    reveal_strlit("connect");
    reveal_strlit("Connect");
    reveal_strlit(":");
    let d = text::decimal(port as nat);
    text::lemma_decimal(port as nat);
    lemma_digits_are_plain(d);
    let target = host + ":"@ + d;
    assert forall|i: int| 0 <= i < target.len() implies !text::is_space(#[trigger] target[i]) by {
        if i < host.len() {
            assert(target[i] == host[i]);
        } else if i > host.len() {
            assert(target[i] == d[i - host.len() - 1]);
        }
    }
    lemma_request_words(method, target, version, end);
    lemma_request_words(method, host, version, end);
    law_host_and_port_read_back(host, Seq::empty(), port, 443);
}

/// Any other request for an `http://` URL goes to the host and the port that the
/// URL names, and to port 80 without one, whatever the path is. Requests for
/// anything else are not served.
pub proof fn law_plain_requests_go_where_their_url_says(
    method: Seq<char>,
    host: Seq<char>,
    port: u16,
    path: Seq<char>,
    version: Seq<char>,
    end: Seq<char>,
)
    requires
        method.len() > 0,
        text::solid(method),
        method.len() != 7,
        plain_host(host),
        path.len() > 0 ==> path[0] == '/',
        text::solid(path),
        version.len() > 0 ==> version[0] == ' ',
        !version.contains('\r'),
        end.len() > 0 ==> text::starts_with(end, "\r\n"@),
    ensures
        request_spec(
            method + " "@ + ("http://"@ + (host + ":"@ + text::decimal(port as nat)) + path)
                + version + end,
        ) == Ok::<RequestView, ProxyError>(RequestView::Forward(host, port)),
        request_spec(method + " "@ + ("http://"@ + host + path) + version + end) == Ok::<
            RequestView,
            ProxyError,
        >(RequestView::Forward(host, 80)),
        request_spec(method + " "@ + ("/"@ + path) + version + end) == Err::<
            RequestView,
            ProxyError,
        >(ProxyError::Unsupported),
        request_spec(method + " "@ + ("https://"@ + host) + version + end) == Err::<
            RequestView,
            ProxyError,
        >(ProxyError::Unsupported),
{
    reveal_strlit("CONNECT");
    reveal_strlit("http://");
    reveal_strlit("https://");
    reveal_strlit("/");
    reveal_strlit(":");
    let d = text::decimal(port as nat);
    text::lemma_decimal(port as nat);
    lemma_digits_are_plain(d);
    let name = host + ":"@ + d;
    assert forall|i: int| 0 <= i < name.len() implies !text::is_space(#[trigger] name[i])
        && name[i] != '/' by {
        if i < host.len() {
            assert(name[i] == host[i]);
            assert(host.contains(host[i]));
        } else if i > host.len() {
            assert(name[i] == d[i - host.len() - 1]);
            assert(text::is_digit(d[i - host.len() - 1]));
        }
    }
    assert forall|i: int| 0 <= i < host.len() implies host[i] != '/' by {
        assert(host.contains(host[i]));
    }
    law_host_and_port_read_back(host, Seq::empty(), port, 80);
    lemma_forward(method, name, path, version, end);
    lemma_forward(method, host, path, version, end);
    let local = "/"@ + path;
    assert forall|i: int| 0 <= i < local.len() implies !text::is_space(#[trigger] local[i]) by {
        if i > 0 {
            assert(local[i] == path[i - 1]);
        }
    }
    lemma_request_words(method, local, version, end);
    if text::starts_with(local, "http://"@) {
        assert(local.take(7)[0] == local[0]);
    }
    let secure = "https://"@ + host;
    assert forall|i: int| 0 <= i < secure.len() implies !text::is_space(#[trigger] secure[i]) by {
        if i >= 8 {
            assert(secure[i] == host[i - 8]);
        }
    }
    lemma_request_words(method, secure, version, end);
    if text::starts_with(secure, "http://"@) {
        assert(secure.take(7)[4] == secure[4]);
    }
}

proof fn lemma_forward(
    method: Seq<char>,
    name: Seq<char>,
    path: Seq<char>,
    version: Seq<char>,
    end: Seq<char>,
)
    requires
        method.len() > 0,
        text::solid(method),
        method.len() != 7,
        forall|i: int| 0 <= i < name.len() ==> !text::is_space(#[trigger] name[i]) && name[i] != '/',
        path.len() > 0 ==> path[0] == '/',
        text::solid(path),
        version.len() > 0 ==> version[0] == ' ',
        !version.contains('\r'),
        end.len() > 0 ==> text::starts_with(end, "\r\n"@),
    ensures
        request_spec(method + " "@ + ("http://"@ + name + path) + version + end)
            == match host_port_spec(name, 80) {
            Ok((h, p)) => Ok::<RequestView, ProxyError>(RequestView::Forward(h, p)),
            Err(e) => Err(e),
        },
{
    reveal_strlit("CONNECT");
    reveal_strlit("http://");
    let target = "http://"@ + name + path;
    assert forall|i: int| 0 <= i < target.len() implies !text::is_space(#[trigger] target[i]) by {
        if i >= 7 && i < 7 + name.len() {
            assert(target[i] == name[i - 7]);
        } else if i >= 7 {
            assert(target[i] == path[i - 7 - name.len()]);
        }
    }
    lemma_request_words(method, target, version, end);
    assert(target.take(7) =~= "http://"@);
    let rest = target.skip(7);
    assert(rest =~= name + path);
    assert forall|j: int| 0 <= j < name.len() implies rest[j] != '/' by {
        assert(rest[j] == name[j]);
    }
    text::lemma_find_is(rest, '/', name.len() as int);
    assert(rest.take(name.len() as int) =~= name);
}

/// The request that the head of a message makes.
pub fn parse_request(head: &[char]) -> (r: Result<ProxyRequest, ProxyError>)
    ensures
        match r {
            Ok(q) => request_spec(head@) == Ok::<RequestView, ProxyError>(q@),
            Err(e) => request_spec(head@) == Err::<RequestView, ProxyError>(e),
        },
{
    proof {
        reveal_strlit("\r\n");
        reveal_strlit("http://");
    }
    let end = text::find_text(head, "\r\n");
    let line = text::part(head, 0, end);
    assert(line@ =~= request_line(head@));
    let (method, behind) = text::cut_word(line);
    let (target, _) = text::cut_word(behind);
    if text::equal_ignoring_case(method, "CONNECT") {
        return match host_port_chars(target, 443) {
            Ok((h, p)) => Ok(ProxyRequest::Connect(h, p)),
            Err(e) => Err(e),
        };
    }
    if !text::starts_with_text(target, "http://") {
        return Err(ProxyError::Unsupported);
    }
    let rest = text::part(target, 7, target.len());
    assert(rest@ =~= target@.skip(7));
    let slash = text::find_char(rest, '/');
    let host = text::part(rest, 0, slash);
    assert(host@ =~= authority(rest@));
    match host_port_chars(host, 80) {
        Ok((h, p)) => Ok(ProxyRequest::Forward(h, p)),
        Err(e) => Err(e),
    }
}

// ---------------------------------------------------------------------------
// Local authentication
// ---------------------------------------------------------------------------
/// The value of the first header with this name, among the lines of `s`.
pub open spec fn header_spec(s: Seq<char>, name: Seq<char>) -> Option<Seq<char>>
    decreases s.len(),
{
    let e = text::find_infix(s, "\r\n"@);
    let line = s.take(e);
    let c = text::find(line, ':');
    if c < line.len() && text::same_ignoring_case(line.take(c), name) {
        Some(text::trim(line.skip(c + 1)))
    } else if 0 <= e && e + 2 <= s.len() {
        header_spec(s.skip(e + 2), name)
    } else {
        None
    }
}

/// The value of the first header with this name, among the lines of `s`.
fn header_value(s: &[char], name: &str) -> (r: Option<Vec<char>>)
    ensures
        match r {
            Some(v) => header_spec(s@, name@) == Some(v@),
            None => header_spec(s@, name@) is None,
        },
{
    proof {
        reveal_strlit("\r\n");
    }
    let mut from: usize = 0;
    assert(s@.skip(0) =~= s@);
    loop
        invariant
            from <= s.len(),
            "\r\n"@.len() == 2,
            header_spec(s@, name@) == header_spec(s@.skip(from as int), name@),
        decreases s.len() - from,
    {
        let rest = text::part(s, from, s.len());
        assert(rest@ =~= s@.skip(from as int));
        let e = text::find_text(rest, "\r\n");
        let line = text::part(rest, 0, e);
        assert(line@ =~= rest@.take(e as int));
        let c = text::find_char(line, ':');
        if c < line.len() {
            let n = text::part(line, 0, c);
            assert(n@ =~= line@.take(c as int));
            if text::equal_ignoring_case(n, name) {
                let v = text::part(line, c + 1, line.len());
                assert(v@ =~= line@.skip(c + 1));
                return Some(text::copy_chars(text::trim_chars(v)));
            }
        }
        if e >= rest.len() {
            return None;
        }
        assert(rest@.skip(e + 2) =~= s@.skip(from + e + 2));
        from = from + e + 2;
    }
}

/// What comes behind the first line of a head.
pub open spec fn header_lines(head: Seq<char>) -> Seq<char> {
    let e = text::find_infix(head, "\r\n"@);
    if e + 2 <= head.len() {
        head.skip(e + 2)
    } else {
        Seq::empty()
    }
}

/// The credentials of HTTP Basic authentication.
pub open spec fn basic_credentials(user: Seq<char>, password: Seq<char>) -> Seq<char> {
    wire::base64(encode_utf8(user) + seq![58u8] + encode_utf8(password))
}

/// The head names the user and the password.
pub open spec fn names_user(head: Seq<char>, user: Seq<char>, password: Seq<char>) -> bool {
    match header_spec(header_lines(head), "proxy-authorization"@) {
        Some(v) => text::same_ignoring_case(text::first_word(v), "basic"@) && text::trim(
            text::after_word(v),
        ) == basic_credentials(user, password),
        None => false,
    }
}

/// The head satisfies the local authentication, when there is one.
pub open spec fn is_authorized(head: Seq<char>, auth: Option<(Seq<char>, Seq<char>)>) -> bool {
    match auth {
        Some((u, p)) => names_user(head, u, p),
        None => true,
    }
}

/// Configured credentials, as text.
pub open spec fn auth_view(auth: Option<(String, String)>) -> Option<(Seq<char>, Seq<char>)> {
    match auth {
        Some((u, p)) => Some((u@, p@)),
        None => None,
    }
}

/// Whether the head satisfies the local authentication.
pub fn authorized(head: &[char], auth: &Option<(String, String)>) -> (r: bool)
    ensures
        r == is_authorized(head@, auth_view(*auth)),
{
    match auth {
        None => true,
        Some((user, password)) => {
            proof {
                reveal_strlit("\r\n");
            }
            let e = text::find_text(head, "\r\n");
            let lines = if e < head.len() {
                text::part(head, e + 2, head.len())
            } else {
                text::part(head, head.len(), head.len())
            };
            assert(lines@ =~= header_lines(head@));
            match header_value(lines, "proxy-authorization") {
                None => false,
                Some(v) => {
                    let (scheme, behind) = text::cut_word(v.as_slice());
                    if !text::equal_ignoring_case(scheme, "basic") {
                        return false;
                    }
                    let mut plain: Vec<u8> = Vec::new();
                    wire::push_bytes(&mut plain, user.as_str().as_bytes());
                    plain.push(58);
                    wire::push_bytes(&mut plain, password.as_str().as_bytes());
                    assert(plain@ =~= encode_utf8(user@) + seq![58u8] + encode_utf8(password@));
                    let want = wire::to_base64(plain.as_slice());
                    text::same_chars(text::trim_chars(behind), want.as_slice())
                },
            }
        },
    }
}

// ---------------------------------------------------------------------------
// One connection
// ---------------------------------------------------------------------------
/// What to do with the bytes read so far.
#[derive(Debug)]
pub enum HeadStep {
    /// Read more.
    More,
    /// The head is too large: drop the connection.
    TooLarge,
    /// Ask for credentials, then drop the connection.
    Unauthorized,
    /// Drop the connection.
    Bad(ProxyError),
    /// Open a tunnel; the bytes behind the head are its first bytes.
    Connect(String, u16, Vec<u8>),
    /// Open a session and send it everything read so far.
    Forward(String, u16),
}

/// What to do about a complete head that begins a message.
pub open spec fn is_answer(
    r: HeadStep,
    head: Seq<char>,
    auth: Option<(Seq<char>, Seq<char>)>,
    behind: Seq<u8>,
) -> bool {
    if !is_authorized(head, auth) {
        r is Unauthorized
    } else {
        match request_spec(head) {
            Ok(RequestView::Connect(h, p)) => r matches HeadStep::Connect(host, port, first)
                && host@ == h && port == p && first@ == behind,
            Ok(RequestView::Forward(h, p)) => r matches HeadStep::Forward(host, port) && host@ == h
                && port == p,
            Err(e) => r == HeadStep::Bad(e),
        }
    }
}

/// Decide about a complete head, given as text, and the bytes behind it.
pub fn answer_head(head: &[char], auth: &Option<(String, String)>, behind: &[u8]) -> (r: HeadStep)
    ensures
        is_answer(r, head@, auth_view(*auth), behind@),
{
    if !authorized(head, auth) {
        return HeadStep::Unauthorized;
    }
    match parse_request(head) {
        Ok(ProxyRequest::Connect(h, p)) => HeadStep::Connect(h, p, wire::copy_bytes(behind)),
        Ok(ProxyRequest::Forward(h, p)) => HeadStep::Forward(h, p),
        Err(e) => HeadStep::Bad(e),
    }
}

/// What to do about the bytes that a local client has sent so far: too many of
/// them end the connection, a head is answered once its blank line is there.
pub open spec fn is_head_step(
    r: HeadStep,
    buf: Seq<u8>,
    auth: Option<(Seq<char>, Seq<char>)>,
) -> bool {
    if buf.len() > MAX_HEAD {
        r is TooLarge
    } else if text::has_infix(buf, blank_line()) {
        let e = text::find_infix(buf, blank_line());
        is_answer(r, wire::lossy_text(buf.take(e)), auth, buf.skip(e + 4))
    } else {
        r is More
    }
}

/// Decide about the bytes that a local client has sent so far.
pub fn head_step(buf: &[u8], auth: &Option<(String, String)>) -> (r: HeadStep)
    ensures
        is_head_step(r, buf@, auth_view(*auth)),
{
    if buf.len() > MAX_HEAD {
        return HeadStep::TooLarge;
    }
    proof {
        text::lemma_find_infix(buf@, blank_line());
    }
    match find_double_crlf(buf) {
        None => HeadStep::More,
        Some(e) => {
            let head = wire::slice(buf, 0, e);
            let behind = wire::slice(buf, e + 4, buf.len());
            assert(head@ =~= buf@.take(e as int));
            assert(behind@ =~= buf@.skip(e + 4));
            let shown = wire::utf8_lossy(head);
            answer_head(text::chars_of(shown.as_str()).as_slice(), auth, behind)
        },
    }
}

/// The answer to a CONNECT whose tunnel stands.
pub const ESTABLISHED: &'static str = "HTTP/1.1 200 Connection Established\r\n\r\n";

/// The answer to a request without credentials.
pub const AUTH_REQUIRED: &'static str =
    "HTTP/1.1 407 Proxy Authentication Required\r\nProxy-Authenticate: Basic realm=\"newppp\"\r\nContent-Length: 0\r\nConnection: close\r\n\r\n";

/// The answer to a request whose session could not be opened: a clean failure
/// in place of a connection reset, with the kind of refusal where there is one.
pub fn reply_error(e: &ClientError) -> (r: String)
    ensures
        r@ == match *e {
            ClientError::Target(_) => "HTTP/1.1 502 Bad Gateway\r\n"@ + "X-Newppp-Error: "@
                + tag_of(*e) + "\r\n"@ + "Content-Length: 0\r\nConnection: close\r\n\r\n"@,
            ClientError::Transport(_) => "HTTP/1.1 502 Bad Gateway\r\n"@
                + "Content-Length: 0\r\nConnection: close\r\n\r\n"@,
        },
{
    let mut out = text::own("HTTP/1.1 502 Bad Gateway\r\n");
    match e {
        ClientError::Target(_) => {
            out.append("X-Newppp-Error: ");
            out.append(error_tag(e));
            out.append("\r\n");
        },
        ClientError::Transport(_) => {},
    }
    out.append("Content-Length: 0\r\nConnection: close\r\n\r\n");
    out
}

// ---------------------------------------------------------------------------
// Laws
// ---------------------------------------------------------------------------
proof fn lemma_line_end(line: Seq<char>, rest: Seq<char>)
    requires
        !line.contains('\n'),
    ensures
        text::find_infix(line + "\r\n"@ + rest, "\r\n"@) == line.len(),
        text::find_infix(line, "\r\n"@) == line.len(),
{
    reveal_strlit("\r\n");
    let s = line + "\r\n"@ + rest;
    let n = line.len() as int;
    assert forall|j: int| 0 <= j < n implies !text::starts_with(
        #[trigger] s.skip(j),
        "\r\n"@,
    ) by {
        if text::starts_with(s.skip(j), "\r\n"@) {
            assert(s.skip(j).take(2)[1] == '\n');
            assert(s[j + 1] == '\n');
            if j + 1 < n {
                assert(line[j + 1] == '\n');
            }
        }
    }
    assert(s.skip(n).take(2) =~= "\r\n"@);
    text::lemma_find_infix_is(s, "\r\n"@, n);
    assert forall|j: int| 0 <= j < n implies !text::starts_with(
        #[trigger] line.skip(j),
        "\r\n"@,
    ) by {
        if text::starts_with(line.skip(j), "\r\n"@) {
            assert(line.skip(j).take(2)[1] == '\n');
            assert(line[j + 1] == '\n');
        }
    }
    text::lemma_find_infix_is(line, "\r\n"@, n);
}

/// A header is found by its name, in any case, at the first line that has it:
/// its value is what stands behind the colon, without white space around it.
/// Lines with other names are passed over.
pub proof fn law_headers_by_name(
    name: Seq<char>,
    wanted: Seq<char>,
    value: Seq<char>,
    rest: Seq<char>,
)
    requires
        !name.contains(':'),
        !name.contains('\n'),
        !value.contains('\n'),
    ensures
        text::same_ignoring_case(name, wanted) ==> header_spec(
            name + ":"@ + value + "\r\n"@ + rest,
            wanted,
        ) == Some(text::trim(value)),
        text::same_ignoring_case(name, wanted) ==> header_spec(name + ":"@ + value, wanted) == Some(
            text::trim(value),
        ),
        !text::same_ignoring_case(name, wanted) ==> header_spec(
            name + ":"@ + value + "\r\n"@ + rest,
            wanted,
        ) == header_spec(rest, wanted),
{
    reveal_strlit(":");
    reveal_strlit("\r\n");
    let line = name + ":"@ + value;
    let n = name.len() as int;
    assert(!line.contains('\n')) by {
        assert forall|i: int| 0 <= i < line.len() implies line[i] != '\n' by {
            if i < n {
                assert(line[i] == name[i]);
                assert(name.contains(name[i]));
            } else if i > n {
                assert(line[i] == value[i - n - 1]);
                assert(value.contains(value[i - n - 1]));
            }
        }
    }
    lemma_line_end(line, rest);
    let s = line + "\r\n"@ + rest;
    assert(s.take(line.len() as int) =~= line);
    assert(line.take(line.len() as int) =~= line);
    assert forall|j: int| 0 <= j < n implies line[j] != ':' by {
        assert(line[j] == name[j]);
        assert(name.contains(name[j]));
    }
    text::lemma_find_is(line, ':', n);
    assert(line.take(n) =~= name);
    assert(line.skip(n + 1) =~= value);
    assert(s.skip(line.len() as int + 2) =~= rest);
}

/// A request with credentials is let through where they are the base64 of user,
/// colon and password, and only there.
pub proof fn law_basic_credentials_decide(
    line: Seq<char>,
    cred: Seq<char>,
    rest: Seq<char>,
    user: Seq<char>,
    password: Seq<char>,
)
    requires
        !line.contains('\n'),
        cred.len() > 0,
        text::solid(cred),
    ensures
        ({
            let head = line + "\r\n"@ + "Proxy-Authorization"@ + ":"@ + " Basic "@ + cred + "\r\n"@
                + rest;
            is_authorized(head, Some((user, password))) <==> cred == wire::base64(
                encode_utf8(user) + seq![58u8] + encode_utf8(password),
            )
        }),
{
    let name = "Proxy-Authorization"@;
    let wanted = "proxy-authorization"@;
    let value = " Basic "@ + cred;
    reveal_strlit("Proxy-Authorization");
    reveal_strlit("proxy-authorization");
    reveal_strlit(" Basic ");
    reveal_strlit("Basic");
    reveal_strlit("basic");
    reveal_strlit("\r\n");
    reveal_strlit(":");
    let lines = name + ":"@ + value + "\r\n"@ + rest;
    let head = line + "\r\n"@ + "Proxy-Authorization"@ + ":"@ + " Basic "@ + cred + "\r\n"@ + rest;
    assert(head =~= line + "\r\n"@ + lines);
    lemma_line_end(line, lines);
    assert(head.skip(line.len() as int + 2) =~= lines);
    assert(header_lines(head) == lines);
    lemma_small(name, wanted);
    assert(!value.contains('\n')) by {
        assert forall|i: int| 0 <= i < value.len() implies value[i] != '\n' by {
            if i >= 7 {
                assert(value[i] == cred[i - 7]);
                assert(!text::is_space(cred[i - 7]));
                text::law_ascii_classes('\n');
            }
        }
    }
    assert(!name.contains(':')) by {
        assert forall|i: int| 0 <= i < name.len() implies name[i] != ':' by {}
    }
    assert(!name.contains('\n')) by {
        assert forall|i: int| 0 <= i < name.len() implies name[i] != '\n' by {}
    }
    law_headers_by_name(name, wanted, value, rest);
    let inner = "Basic"@ + (seq![' '] + cred);
    text::law_ascii_classes(' ');
    text::law_ascii_classes('B');
    assert(!text::is_space(cred[cred.len() - 1]));
    assert(inner.last() == cred[cred.len() - 1]);
    text::law_trim_strips_the_ends(seq![' '], inner, Seq::empty());
    assert(seq![' '] + inner + Seq::<char>::empty() =~= value);
    assert(text::solid("Basic"@)) by {
        assert forall|i: int| 0 <= i < 5 implies !text::is_space(#[trigger] "Basic"@[i]) by {
            text::law_ascii_classes("Basic"@[i]);
        }
    }
    text::lemma_first_word("Basic"@, seq![' '] + cred);
    lemma_small_basic();
    text::law_trim_strips_the_ends(seq![' '], cred, Seq::empty());
    assert(seq![' '] + cred + Seq::<char>::empty() =~= seq![' '] + cred);
}

proof fn lemma_small_basic()
    ensures
        text::same_ignoring_case("Basic"@, "basic"@),
{
    reveal_strlit("Basic");
    reveal_strlit("basic");
    assert(text::lower('B') == 'b' && text::lower('b') == 'b');
    assert forall|i: int| 0 <= i < 5 implies text::lower(#[trigger] "Basic"@[i]) == text::lower(
        "basic"@[i],
    ) by {
        if i > 0 {
            assert("Basic"@[i] == "basic"@[i]);
        }
    }
}

proof fn lemma_small(name: Seq<char>, wanted: Seq<char>)
    requires
        name == "Proxy-Authorization"@,
        wanted == "proxy-authorization"@,
    ensures
        text::same_ignoring_case(name, wanted),
{
    reveal_strlit("Proxy-Authorization");
    reveal_strlit("proxy-authorization");
    assert(text::lower('P') == 'p' && text::lower('p') == 'p');
    assert(text::lower('A') == 'a' && text::lower('a') == 'a');
    assert forall|i: int| 0 <= i < name.len() implies text::lower(#[trigger] name[i])
        == text::lower(wanted[i]) by {
        if i != 0 && i != 6 {
            assert(name[i] == wanted[i]);
        }
    }
}

/// A request without credentials is refused where credentials are configured;
/// where none are, everything is let through.
pub proof fn law_no_credentials_are_refused(
    head: Seq<char>,
    user: Seq<char>,
    password: Seq<char>,
)
    ensures
        is_authorized(head, None),
        !head.contains(':') ==> !is_authorized(head, Some((user, password))),
{
    if !head.contains(':') {
        reveal_strlit("\r\n");
        let s = header_lines(head);
        text::lemma_find_infix(head, "\r\n"@);
        let e = text::find_infix(head, "\r\n"@);
        assert forall|i: int| 0 <= i < s.len() implies head.contains(#[trigger] s[i]) by {
            assert(s[i] == head[e + 2 + i]);
        }
        lemma_no_header(s, head, "proxy-authorization"@);
    }
}

proof fn lemma_no_header(s: Seq<char>, head: Seq<char>, name: Seq<char>)
    requires
        !head.contains(':'),
        forall|i: int| 0 <= i < s.len() ==> head.contains(#[trigger] s[i]),
    ensures
        header_spec(s, name) is None,
    decreases s.len(),
{
    reveal_strlit("\r\n");
    text::lemma_find_infix(s, "\r\n"@);
    let e = text::find_infix(s, "\r\n"@);
    let line = s.take(e);
    assert forall|j: int| 0 <= j < line.len() implies line[j] != ':' by {
        assert(line[j] == s[j]);
        assert(head.contains(s[j]));
    }
    text::lemma_find_is(line, ':', line.len() as int);
    if e + 2 <= s.len() {
        let t = s.skip(e + 2);
        assert forall|i: int| 0 <= i < t.len() implies head.contains(#[trigger] t[i]) by {
            assert(t[i] == s[e + 2 + i]);
        }
        lemma_no_header(t, head, name);
    }
}

/// A head of up to 16 KiB is answered once its blank line has come, with the
/// bytes before that line as the head and those behind it as the first bytes of
/// the tunnel; before that more is read, and a longer one is dropped.
pub proof fn law_when_a_head_is_answered(
    r: HeadStep,
    a: Seq<u8>,
    behind: Seq<u8>,
    auth: Option<(Seq<char>, Seq<char>)>,
)
    requires
        forall|i: int|
            0 <= i < a.len() ==> #[trigger] a[i] != 10 || i == 0 || i + 1 == a.len() || !(a[i - 1]
                == 13 && a[i + 1] == 13),
        a.len() > 0 ==> a[a.len() - 1] != 10,
    ensures
        ({
            let buf = a + seq![13u8, 10u8, 13u8, 10u8] + behind;
            &&& is_head_step(r, buf, auth) && buf.len() <= 16384 ==> is_answer(
                r,
                wire::lossy_text(a),
                auth,
                behind,
            )
            &&& is_head_step(r, buf, auth) && buf.len() > 16384 ==> r is TooLarge
            &&& is_head_step(r, a, auth) && a.len() <= 16384 ==> r is More
            &&& is_head_step(r, a, auth) && a.len() > 16384 ==> r is TooLarge
        }),
{
    let p = seq![13u8, 10u8, 13u8, 10u8];
    let buf = a + p + behind;
    let n = a.len() as int;
    assert forall|j: int| 0 <= j < n implies !text::starts_with(#[trigger] buf.skip(j), p) by {
        if text::starts_with(buf.skip(j), p) {
            let t = buf.skip(j).take(4);
            assert(t[0] == 13 && t[1] == 10 && t[2] == 13 && t[3] == 10);
            assert(buf[j] == 13 && buf[j + 1] == 10 && buf[j + 2] == 13 && buf[j + 3] == 10);
            if j + 1 < n {
                assert(a[j + 1] == 10 && a[j] == 13);
                if j + 2 < n {
                    assert(a[j + 2] == 13);
                }
            }
        }
    }
    assert(buf.skip(n).take(4) =~= p);
    text::lemma_find_infix(buf, p);
    text::lemma_find_infix_is(buf, p, n);
    assert(buf.take(n) =~= a);
    assert(buf.skip(n + 4) =~= behind);
    assert forall|j: int| 0 <= j < n implies !text::starts_with(#[trigger] a.skip(j), p) by {
        if text::starts_with(a.skip(j), p) {
            let t = a.skip(j).take(4);
            assert(t[0] == 13 && t[1] == 10 && t[2] == 13 && t[3] == 10);
            assert(a[j] == 13 && a[j + 1] == 10 && a[j + 2] == 13);
        }
    }
    text::lemma_find_infix(a, p);
    text::lemma_find_infix_is(a, p, n);
}

/// Who is not let through is asked for credentials. Who is gets a tunnel with
/// what was already sent, a forwarded request, or the error of the request.
pub proof fn law_answers_follow_the_request(
    r: HeadStep,
    head: Seq<char>,
    auth: Option<(Seq<char>, Seq<char>)>,
    behind: Seq<u8>,
    h: Seq<char>,
    p: u16,
)
    requires
        is_answer(r, head, auth, behind),
    ensures
        r is Unauthorized <==> !is_authorized(head, auth),
        is_authorized(head, auth) && request_spec(head) == Ok::<RequestView, ProxyError>(
            RequestView::Connect(h, p),
        ) ==> (r matches HeadStep::Connect(host, port, first) && host@ == h && port == p && first@
            == behind),
        is_authorized(head, auth) && request_spec(head) == Ok::<RequestView, ProxyError>(
            RequestView::Forward(h, p),
        ) ==> (r matches HeadStep::Forward(host, port) && host@ == h && port == p),
        is_authorized(head, auth) && request_spec(head) is Err ==> r == HeadStep::Bad(
            request_spec(head)->Err_0,
        ),
{
}

/// A tunnel that stands is answered with 200, a request without credentials with
/// 407; each answer ends with a blank line.
pub proof fn law_answers_have_their_status()
    ensures
        ESTABLISHED@.subrange(9, 12) == "200"@,
        AUTH_REQUIRED@.subrange(9, 12) == "407"@,
        ESTABLISHED@.subrange(ESTABLISHED@.len() - 4, ESTABLISHED@.len() as int) == "\r\n\r\n"@,
        AUTH_REQUIRED@.subrange(AUTH_REQUIRED@.len() - 4, AUTH_REQUIRED@.len() as int)
            == "\r\n\r\n"@,
{
    reveal_strlit("200");
    reveal_strlit("407");
    reveal_strlit("\r\n\r\n");
    reveal_strlit("HTTP/1.1 200 Connection Established\r\n\r\n");
    reveal_strlit(
        "HTTP/1.1 407 Proxy Authentication Required\r\nProxy-Authenticate: Basic realm=\"newppp\"\r\nContent-Length: 0\r\nConnection: close\r\n\r\n",
    );
    assert(ESTABLISHED@.subrange(9, 12) =~= "200"@);
    assert(AUTH_REQUIRED@.subrange(9, 12) =~= "407"@);
    assert(ESTABLISHED@.subrange(ESTABLISHED@.len() - 4, ESTABLISHED@.len() as int)
        =~= "\r\n\r\n"@);
    assert(AUTH_REQUIRED@.subrange(AUTH_REQUIRED@.len() - 4, AUTH_REQUIRED@.len() as int)
        =~= "\r\n\r\n"@);
}

/// A port that is no number up to 65535 is refused.
pub proof fn law_bad_ports(host: Seq<char>, port: Seq<char>, default_port: u16)
    requires
        plain_host(host),
        text::solid(port),
        !port.contains(':'),
    ensures
        text::parse_unsigned(port, 65535) is None ==> host_port_spec(
            host + ":"@ + port,
            default_port,
        ) == Err::<(Seq<char>, u16), ProxyError>(ProxyError::BadPort),
        text::parse_unsigned(port, 65535) matches Some(p) ==> host_port_spec(
            host + ":"@ + port,
            default_port,
        ) == Ok::<(Seq<char>, u16), ProxyError>((host, p as u16)),
{
    reveal_strlit(":");
    let t = host + ":"@ + port;
    let n = host.len() as int;
    assert(text::solid(t)) by {
        assert forall|i: int| 0 <= i < t.len() implies !text::is_space(#[trigger] t[i]) by {
            if i < n {
                assert(t[i] == host[i]);
            } else if i > n {
                assert(t[i] == port[i - n - 1]);
            }
        }
    }
    text::lemma_trim_solid(t);
    assert(t[0] == host[0]);
    assert(host.contains(host[0]));
    assert forall|j: int| n < j < t.len() implies t[j] != ':' by {
        assert(t[j] == port[j - n - 1]);
        assert(port.contains(port[j - n - 1]));
    }
    text::lemma_rfind_is(t, ':', n);
    assert(t.take(n) =~= host);
    assert(t.skip(n + 1) =~= port);
}

} // verus!
