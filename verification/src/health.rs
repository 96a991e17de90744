//! Health endpoint: the JSON snapshot behind `/healthz`, and the probe that
//! reads it (for container images without a shell).

use vstd::prelude::*;

use crate::client::outbound::{first_path_spec, Outbound, Path};
use crate::server::state::ServerState;
use crate::text;
use crate::wire;

verus! {

/// Where the snapshot reads its numbers from.
pub enum Source<'a> {
    /// Server mode: live counters, and the transports that it listens on
    /// (`wt`, `fallback` or `mixed`).
    Server { st: &'a ServerState, transport: &'static str },
    /// Client mode: what it can reach, and whether the breaker is open.
    Client { outbound: &'a Outbound },
}

/// The health of a process.
pub struct Health<'a> {
    /// When it started, in milliseconds of the caller's monotonic clock.
    pub started: u64,
    pub source: Source<'a>,
}

/// What the transport is called.
pub open spec fn transport_spec(s: Source<'_>) -> Seq<char> {
    match s {
        Source::Server { transport, .. } => transport@,
        Source::Client { outbound } => match *outbound {
            Outbound::Wt => "wt"@,
            Outbound::Http(_) => "fallback"@,
            Outbound::Both(_, _, _) => "mixed"@,
        },
    }
}

/// What the state of the breaker is called.
pub open spec fn circuit_spec(s: Source<'_>, now: nat) -> Seq<char> {
    match s {
        Source::Server { .. } => "closed"@,
        Source::Client { outbound } => if *outbound is Both && first_path_spec(*outbound, now)
            == Path::Fallback {
            "open"@
        } else {
            "closed"@
        },
    }
}

/// When the fallback last had to carry traffic.
pub open spec fn last_fallback_spec(s: Source<'_>) -> nat {
    match s {
        Source::Client { outbound } => match *outbound {
            Outbound::Both(_, _, last) => last as nat,
            _ => 0,
        },
        _ => 0,
    }
}

/// Sessions and connections, as numbers.
pub open spec fn counts_spec(s: Source<'_>) -> (nat, nat) {
    match s {
        Source::Server { st, .. } => (st.active_sessions as nat, st.table().dom().len()),
        Source::Client { .. } => (0, 0),
    }
}

/// Whole seconds from `started` to `now`.
pub open spec fn uptime_spec(started: nat, now: nat) -> nat {
    if now < started {
        0
    } else {
        ((now - started) / 1000) as nat
    }
}

/// The snapshot: exactly these fields, in this order.
pub open spec fn snapshot_spec(h: Health<'_>, now: nat) -> Seq<char> {
    let last = last_fallback_spec(h.source);
    "{\"uptime\":"@ + text::decimal(uptime_spec(h.started as nat, now)) + ",\"active_sessions\":"@
        + text::decimal(counts_spec(h.source).0) + ",\"wt_conns\":"@ + text::decimal(
        counts_spec(h.source).1,
    ) + ",\"transport\":\""@ + transport_spec(h.source) + "\",\"circuit\":\""@ + circuit_spec(
        h.source,
        now,
    ) + "\",\"last_fallback_at\":"@ + (if last == 0 {
        "null"@
    } else {
        text::decimal(last)
    }) + "}"@
}

impl<'a> Health<'a> {
    pub fn new(started: u64, source: Source<'a>) -> (r: Self)
        ensures
            r.started == started,
            r.source == source,
    {
        Health { started, source }
    }

    fn transport(&self) -> (r: &'static str)
        ensures
            r@ == transport_spec(self.source),
    {
        match &self.source {
            Source::Server { transport, .. } => transport,
            Source::Client { outbound } => match outbound {
                Outbound::Wt => "wt",
                Outbound::Http(_) => "fallback",
                Outbound::Both(_, _, _) => "mixed",
            },
        }
    }

    fn circuit(&self, now: u64) -> (r: &'static str)
        ensures
            r@ == circuit_spec(self.source, now as nat),
    {
        match &self.source {
            Source::Server { .. } => "closed",
            Source::Client { outbound } => match outbound {
                Outbound::Both(_, b, _) => if b.can_try(now) {
                    "closed"
                } else {
                    "open"
                },
                _ => "closed",
            },
        }
    }

    /// The JSON text that `/healthz` answers at `now`.
    pub fn snapshot(&self, now: u64) -> (r: String)
        ensures
            r@ == snapshot_spec(*self, now as nat),
    {
        let uptime: u64 = if now < self.started {
            0
        } else {
            (now - self.started) / 1000
        };
        let (sessions, conns): (u64, u64) = match &self.source {
            Source::Server { st, .. } => (st.active_sessions, st.conn_count() as u64),
            Source::Client { .. } => (0, 0),
        };
        let last: u64 = match &self.source {
            Source::Client { outbound } => match outbound {
                Outbound::Both(_, _, last) => *last,
                _ => 0,
            },
            _ => 0,
        };
        let mut out = text::own("{\"uptime\":");
        text::push_decimal(&mut out, uptime);
        out.append(",\"active_sessions\":");
        text::push_decimal(&mut out, sessions);
        out.append(",\"wt_conns\":");
        text::push_decimal(&mut out, conns);
        out.append(",\"transport\":\"");
        out.append(self.transport());
        out.append("\",\"circuit\":\"");
        out.append(self.circuit(now));
        out.append("\",\"last_fallback_at\":");
        if last == 0 {
            out.append("null");
        } else {
            text::push_decimal(&mut out, last);
        }
        out.append("}");
        out
    }
}

// ---------------------------------------------------------------------------
// Probe
// ---------------------------------------------------------------------------
/// Why a probe fails.
#[derive(Debug)]
pub enum ProbeError {
    /// Not an `http://` URL.
    BadUrl,
    BadPort,
    NoHost,
    /// The status line is not that of a success.
    BadStatus(String),
    NoSnapshot,
}

/// An error, as plain values.
pub ghost enum ProbeFault {
    BadUrl,
    BadPort,
    NoHost,
    BadStatus(Seq<char>),
    NoSnapshot,
}

impl ProbeError {
    pub open spec fn view(self) -> ProbeFault {
        match self {
            ProbeError::BadUrl => ProbeFault::BadUrl,
            ProbeError::BadPort => ProbeFault::BadPort,
            ProbeError::NoHost => ProbeFault::NoHost,
            ProbeError::BadStatus(s) => ProbeFault::BadStatus(s@),
            ProbeError::NoSnapshot => ProbeFault::NoSnapshot,
        }
    }
}

/// What a probe URL names: host, port and path.
pub ghost struct ProbeTarget {
    pub host: Seq<char>,
    pub port: u16,
    pub path: Seq<char>,
}

/// The path behind the host; the endpoint's own when there is none.
pub open spec fn probe_path(rest: Seq<char>) -> Seq<char> {
    let i = text::find(rest, '/');
    if i + 1 < rest.len() {
        rest.skip(i)
    } else {
        "/healthz"@
    }
}

/// `http://host[:port][/path]`: the listener is plain HTTP only.
pub open spec fn probe_url(url: Seq<char>) -> Result<ProbeTarget, ProbeFault> {
    if !text::starts_with(url, "http://"@) {
        Err(ProbeFault::BadUrl)
    } else {
        let rest = url.skip(7);
        let hostport = rest.take(text::find(rest, '/'));
        let path = probe_path(rest);
        let c = text::rfind(hostport, ':');
        let host = if c >= 0 {
            hostport.take(c)
        } else {
            hostport
        };
        let port = if c >= 0 {
            text::parse_unsigned(hostport.skip(c + 1), 65535)
        } else {
            Some(80nat)
        };
        match port {
            None => Err(ProbeFault::BadPort),
            Some(p) => if host.len() == 0 {
                Err(ProbeFault::NoHost)
            } else {
                Ok(ProbeTarget { host: text::trim(host), port: p as u16, path })
            },
        }
    }
}

/// Split a probe URL.
pub fn parse_url(url: &str) -> (r: Result<(String, u16, String), ProbeError>)
    ensures
        match r {
            Ok((host, port, path)) => probe_url(url@) == Ok::<ProbeTarget, ProbeFault>(
                ProbeTarget { host: host@, port, path: path@ },
            ),
            Err(e) => probe_url(url@) == Err::<ProbeTarget, ProbeFault>(e@),
        },
{
    proof {
        reveal_strlit("http://");
    }
    let v = text::chars_of(url);
    let c = v.as_slice();
    if !text::starts_with_text(c, "http://") {
        return Err(ProbeError::BadUrl);
    }
    let rest = text::part(c, 7, c.len());
    assert(rest@ =~= url@.skip(7));
    let slash = text::find_char(rest, '/');
    let hostport = text::part(rest, 0, slash);
    assert(hostport@ =~= rest@.take(slash as int));
    let path = if slash < rest.len() && slash + 1 < rest.len() {
        let p = text::part(rest, slash, rest.len());
        assert(p@ =~= rest@.skip(slash as int));
        text::string_of(p)
    } else {
        text::own("/healthz")
    };
    let (host, port): (&[char], u16) = match text::rfind_char(hostport, ':') {
        Some(i) => {
            let h = text::part(hostport, 0, i);
            let p = text::part(hostport, i + 1, hostport.len());
            assert(h@ =~= hostport@.take(i as int));
            assert(p@ =~= hostport@.skip(i + 1));
            match text::parse_number(p, 65535) {
                Some(n) => (h, n as u16),
                None => {
                    return Err(ProbeError::BadPort);
                },
            }
        },
        None => (hostport, 80u16),
    };
    if host.len() == 0 {
        return Err(ProbeError::NoHost);
    }
    Ok((text::string_of(text::trim_chars(host)), port, path))
}

/// Host and port of a probe, for the resolver.
pub open spec fn host_port_text(host: Seq<char>, port: u16) -> Seq<char> {
    host + ":"@ + text::decimal(port as nat)
}

/// The request that a probe sends. The port stands in the Host header unless
/// it is the default one.
pub fn probe_request(host: &str, port: u16, path: &str) -> (r: String)
    ensures
        r@ == "GET "@ + path@ + " HTTP/1.1\r\nHost: "@ + (if port == 80 {
            host@
        } else {
            host_port_text(host@, port)
        })
            + "\r\nUser-Agent: newppp-healthcheck/1\r\nConnection: close\r\n\r\n"@,
{
    let mut out = text::own("GET ");
    out.append(path);
    out.append(" HTTP/1.1\r\nHost: ");
    let ghost before = out@;
    out.append(host);
    if port != 80 {
        out.append(":");
        text::push_decimal(&mut out, port as u64);
        assert(out@ =~= before + host_port_text(host@, port));
    }
    out.append("\r\nUser-Agent: newppp-healthcheck/1\r\nConnection: close\r\n\r\n");
    out
}

/// A line without the carriage return in front of its line feed.
pub open spec fn bare_line(line: Seq<char>, ended: bool) -> Seq<char> {
    if ended && line.len() > 0 && line.last() == '\r' {
        line.drop_last()
    } else {
        line
    }
}

/// The first line of a text.
pub open spec fn first_line(t: Seq<char>) -> Seq<char> {
    let i = text::find(t, '\n');
    bare_line(t.take(i), i < t.len())
}

/// The first line that begins with a brace, empty when there is none.
pub open spec fn json_line(t: Seq<char>) -> Seq<char>
    decreases t.len(),
{
    let i = text::find(t, '\n');
    let line = first_line(t);
    if line.len() > 0 && line[0] == '{' {
        line
    } else if 0 <= i < t.len() {
        json_line(t.skip(i + 1))
    } else {
        Seq::empty()
    }
}

/// What a probe makes of a response: the snapshot, when the status is a
/// success and the body looks like one.
pub open spec fn probe_spec(t: Seq<char>) -> Result<Seq<char>, ProbeFault> {
    if !text::has_infix(first_line(t), " 200 "@) {
        Err(ProbeFault::BadStatus(first_line(t)))
    } else if !text::has_infix(t, "uptime"@) {
        Err(ProbeFault::NoSnapshot)
    } else {
        Ok(json_line(t))
    }
}

/// A success response that carries a snapshot is recognised as healthy.
pub proof fn law_snapshot_is_recognised(t: Seq<char>, h: Health<'_>, now: nat)
    requires
        text::has_infix(first_line(t), " 200 "@),
        text::has_infix(t, snapshot_spec(h, now)),
    ensures
        probe_spec(t) is Ok,
{
    let s = snapshot_spec(h, now);
    let head = "{\"uptime\":"@;
    reveal_strlit("{\"uptime\":");
    reveal_strlit("uptime");
    assert(s.take(head.len() as int) =~= head);
    let i = choose|i: int|
        0 <= i <= t.len() - s.len() && #[trigger] t.subrange(i, i + s.len()) == s;
    assert forall|k: int| 0 <= k < 6 implies t[i + 2 + k] == "uptime"@[k] by {
        assert(s[2 + k] == t.subrange(i, i + s.len())[2 + k]);
        assert(s[2 + k] == s.take(head.len() as int)[2 + k]);
    }
    assert(t.subrange(i + 2, i + 2 + "uptime"@.len()) =~= "uptime"@);
}

fn line_of(t: &[char]) -> (r: (&[char], usize))
    ensures
        r.0@ == first_line(t@),
        r.1 == text::find(t@, '\n'),
        r.1 <= t.len(),
{
    let i = text::find_char(t, '\n');
    let line = text::part(t, 0, i);
    assert(line@ =~= t@.take(i as int));
    if i < t.len() && i > 0 && t[i - 1] == '\r' {
        let bare = text::part(t, 0, i - 1);
        assert(bare@ =~= line@.drop_last());
        (bare, i)
    } else {
        (line, i)
    }
}

/// Judge a response, given as text.
pub fn judge_response(t: &[char]) -> (r: Result<String, ProbeError>)
    ensures
        match r {
            Ok(s) => probe_spec(t@) == Ok::<Seq<char>, ProbeFault>(s@),
            Err(e) => probe_spec(t@) == Err::<Seq<char>, ProbeFault>(e@),
        },
{
    let (status, _) = line_of(t);
    if !text::contains_text(status, " 200 ") {
        return Err(ProbeError::BadStatus(text::string_of(status)));
    }
    if !text::contains_text(t, "uptime") {
        return Err(ProbeError::NoSnapshot);
    }
    let mut from: usize = 0;
    assert(t@.skip(0) =~= t@);
    loop
        invariant
            from <= t.len(),
            text::has_infix(first_line(t@), " 200 "@),
            text::has_infix(t@, "uptime"@),
            json_line(t@) == json_line(t@.skip(from as int)),
        decreases t.len() - from,
    {
        let rest = text::part(t, from, t.len());
        assert(rest@ =~= t@.skip(from as int));
        let (line, end) = line_of(rest);
        if line.len() > 0 && line[0] == '{' {
            return Ok(text::string_of(line));
        }
        if end >= rest.len() {
            let none = text::string_of(text::part(t, 0, 0));
            assert(none@ =~= Seq::<char>::empty());
            return Ok(none);
        }
        assert(rest@.skip(end + 1) =~= t@.skip(from + end + 1));
        from = from + end + 1;
    }
}

/// Judge the bytes of a response.
pub fn probe_verdict(response: &[u8]) -> (r: Result<String, ProbeError>)
    ensures
        match r {
            Ok(s) => probe_spec(wire::lossy_text(response@)) == Ok::<Seq<char>, ProbeFault>(s@),
            Err(e) => probe_spec(wire::lossy_text(response@)) == Err::<Seq<char>, ProbeFault>(e@),
        },
{
    let t = wire::utf8_lossy(response);
    judge_response(text::chars_of(t.as_str()).as_slice())
}

/// A listener has been up for the whole seconds since it started; a clock that
/// went back counts as none.
pub proof fn law_uptime_in_seconds(started: nat, now: nat)
    ensures
        now >= started ==> 1000 * uptime_spec(started, now) <= now - started < 1000 * uptime_spec(
            started,
            now,
        ) + 1000,
        now < started ==> uptime_spec(started, now) == 0,
{
}

/// The address of a listener to ask: host and port, 80 where there is none, and
/// the path, `/healthz` where there is none. Only plain http is asked.
pub proof fn law_where_to_ask(host: Seq<char>, port: u16, path: Seq<char>)
    requires
        host.len() > 0,
        text::solid(host),
        !host.contains(':'),
        !host.contains('/'),
        path.len() != 1,
        path.len() > 0 ==> path[0] == '/',
    ensures
        ({
            let shown = if path.len() > 0 {
                path
            } else {
                "/healthz"@
            };
            &&& probe_url("http://"@ + host + ":"@ + text::decimal(port as nat) + path) == Ok::<
                ProbeTarget,
                ProbeFault,
            >((ProbeTarget { host, port, path: shown }))
            &&& probe_url("http://"@ + host + path) == Ok::<ProbeTarget, ProbeFault>(
                (ProbeTarget { host, port: 80, path: shown }),
            )
            &&& probe_url("http://"@ + host + "/"@) == Ok::<ProbeTarget, ProbeFault>(
                (ProbeTarget { host, port: 80, path: "/healthz"@ }),
            )
            &&& probe_url("http://"@ + ":"@ + text::decimal(port as nat) + path) == Err::<
                ProbeTarget,
                ProbeFault,
            >(ProbeFault::NoHost)
            &&& probe_url("https://"@ + host + path) == Err::<ProbeTarget, ProbeFault>(
                ProbeFault::BadUrl,
            )
        }),
{
    reveal_strlit("http://");
    reveal_strlit("https://");
    reveal_strlit(":");
    let d = text::decimal(port as nat);
    text::lemma_decimal(port as nat);
    text::lemma_decimal_roundtrip(port as nat, 65535);
    let hp = host + ":"@ + d;
    let a = "http://"@ + host + ":"@ + d + path;
    let b = "http://"@ + host + path;
    let c = "https://"@ + host + path;
    let n = host.len() as int;
    assert(a.take(7) =~= "http://"@);
    assert(a.skip(7) =~= hp + path);
    assert(b.take(7) =~= "http://"@);
    assert(b.skip(7) =~= host + path);
    assert(c[4] == 's');
    if text::starts_with(c, "http://"@) {
        assert(c.take(7)[4] == ':');
    }
    assert forall|j: int| 0 <= j < n implies host[j] != '/' && host[j] != ':' by {
        assert(host.contains(host[j]));
    }
    assert forall|j: int| 0 <= j < hp.len() implies hp[j] != '/' by {
        if j < n {
            assert(hp[j] == host[j]);
        } else if j > n {
            assert(hp[j] == d[j - n - 1]);
            assert(text::is_digit(d[j - n - 1]));
        }
    }
    let ra = hp + path;
    let rb = host + path;
    assert forall|j: int| 0 <= j < hp.len() implies ra[j] != '/' by {
        assert(ra[j] == hp[j]);
    }
    assert forall|j: int| 0 <= j < n implies rb[j] != '/' by {
        assert(rb[j] == host[j]);
    }
    text::lemma_find_is(ra, '/', hp.len() as int);
    text::lemma_find_is(rb, '/', n);
    assert(ra.take(hp.len() as int) =~= hp);
    assert(rb.take(n) =~= host);
    assert(ra.skip(hp.len() as int) =~= path);
    assert(rb.skip(n) =~= path);
    assert forall|j: int| n < j < hp.len() implies hp[j] != ':' by {
        assert(hp[j] == d[j - n - 1]);
        assert(text::is_digit(d[j - n - 1]));
    }
    text::lemma_rfind_is(hp, ':', n);
    text::lemma_rfind_is(host, ':', -1);
    lemma_root_and_no_host(host, port, path);
    assert(hp.take(n) =~= host);
    assert(hp.skip(n + 1) =~= d);
    text::lemma_trim_solid(host);
}

proof fn lemma_root_and_no_host(host: Seq<char>, port: u16, path: Seq<char>)
    requires
        host.len() > 0,
        text::solid(host),
        !host.contains(':'),
        !host.contains('/'),
        path.len() > 0 ==> path[0] == '/',
    ensures
        probe_url("http://"@ + host + "/"@) == Ok::<ProbeTarget, ProbeFault>(
            (ProbeTarget { host, port: 80, path: "/healthz"@ }),
        ),
        probe_url("http://"@ + ":"@ + text::decimal(port as nat) + path) == Err::<
            ProbeTarget,
            ProbeFault,
        >(ProbeFault::NoHost),
{
    reveal_strlit("http://");
    reveal_strlit(":");
    reveal_strlit("/");
    let d = text::decimal(port as nat);
    text::lemma_decimal(port as nat);
    text::lemma_decimal_roundtrip(port as nat, 65535);
    let n = host.len() as int;
    let a = "http://"@ + host + "/"@;
    let rest = host + "/"@;
    assert(a.take(7) =~= "http://"@ && a.skip(7) =~= rest);
    assert forall|j: int| 0 <= j < n implies rest[j] != '/' && host[j] != ':' by {
        assert(rest[j] == host[j]);
        assert(host.contains(host[j]));
    }
    text::lemma_find_is(rest, '/', n);
    assert(rest.take(n) =~= host);
    text::lemma_rfind_is(host, ':', -1);
    text::lemma_trim_solid(host);
    let b = "http://"@ + ":"@ + d + path;
    let hp = ":"@ + d;
    let m = hp.len() as int;
    assert(b.take(7) =~= "http://"@ && b.skip(7) =~= hp + path);
    assert forall|j: int| 0 <= j < m implies (hp + path)[j] != '/' by {
        if j > 0 {
            assert((hp + path)[j] == d[j - 1]);
            assert(text::is_digit(d[j - 1]));
        }
    }
    text::lemma_find_is(hp + path, '/', m);
    assert((hp + path).take(m) =~= hp);
    assert forall|j: int| 0 < j < m implies hp[j] != ':' by {
        assert(hp[j] == d[j - 1]);
        assert(text::is_digit(d[j - 1]));
    }
    text::lemma_rfind_is(hp, ':', 0);
    assert(hp.skip(1) =~= d);
}

/// What a snapshot says, in the order in which it says it.
pub proof fn law_snapshot_of_a_server(h: Health<'_>, now: nat)
    requires
        h.source is Server,
        now >= h.started,
    ensures
        h.source matches Source::Server { st, transport } ==> snapshot_spec(h, now)
            == "{\"uptime\":"@ + text::decimal(((now - h.started) / 1000) as nat)
            + ",\"active_sessions\":"@ + text::decimal(st.active_sessions as nat)
            + ",\"wt_conns\":"@ + text::decimal(st.table().dom().len()) + ",\"transport\":\""@
            + transport@ + "\",\"circuit\":\""@ + "closed"@ + "\",\"last_fallback_at\":"@
            + "null"@ + "}"@,
{
}

/// A listener is shown as its host and port, with a colon between them.
pub proof fn law_listeners_as_text(host: Seq<char>, port: u16)
    requires
        !host.contains(':'),
    ensures
        text::split_once(host_port_text(host, port), ':') == Some(
            (host, text::decimal(port as nat)),
        ),
{
    reveal_strlit(":");
    assert(host_port_text(host, port) =~= host + seq![':'] + text::decimal(port as nat));
    text::law_split_cuts_at_the_character(host, ':', text::decimal(port as nat));
}

/// What a client's snapshot says of its paths: the circuit is open while the
/// first of two paths is not tried.
pub proof fn law_snapshot_of_a_client(o: Outbound, now: nat)
    ensures
        ({
            let s = Source::Client { outbound: &o };
            &&& transport_spec(s) == if o is Wt {
                "wt"@
            } else if o is Http {
                "fallback"@
            } else {
                "mixed"@
            }
            &&& counts_spec(s) == (0nat, 0nat)
            &&& circuit_spec(s, now) == if o is Both && first_path_spec(o, now) == Path::Fallback {
                "open"@
            } else {
                "closed"@
            }
            &&& o matches Outbound::Both(_, _, last) ==> last_fallback_spec(s) == last
            &&& !(o is Both) ==> last_fallback_spec(s) == 0
        }),
{
}

/// An answer is healthy where its first line has the status 200 and it holds a
/// snapshot; then the snapshot is the first line that begins with a brace.
pub proof fn law_healthy_answers(line: Seq<char>, middle: Seq<char>, json: Seq<char>)
    requires
        !line.contains('\n'),
        !middle.contains('\n'),
        middle.len() > 0 ==> middle[0] != '{',
        !json.contains('\n'),
        json.len() > 0 && json[0] == '{',
        line.len() > 0 && line[0] != '{',
    ensures
        ({
            let t = line + "\r\n"@ + middle + "\r\n"@ + json;
            &&& first_line(t) == line
            &&& probe_spec(t) is Ok ==> probe_spec(t) == Ok::<Seq<char>, ProbeFault>(json)
            &&& probe_spec(t) is Ok <==> text::has_infix(line, " 200 "@) && text::has_infix(
                t,
                "uptime"@,
            )
        }),
{
    reveal_strlit("\r\n");
    let tail = middle + "\r\n"@ + json;
    let t = line + "\r\n"@ + middle + "\r\n"@ + json;
    assert(t =~= line + "\r\n"@ + tail);
    lemma_first_line(line, tail);
    lemma_first_line(middle, json);
    lemma_last_line(json);
    reveal_with_fuel(json_line, 4);
    if middle.len() == 0 {
        assert(first_line(tail).len() == 0);
    }
}

proof fn lemma_first_line(line: Seq<char>, rest: Seq<char>)
    requires
        !line.contains('\n'),
    ensures
        ({
            let t = line + "\r\n"@ + rest;
            &&& text::find(t, '\n') == line.len() + 1
            &&& first_line(t) == line
            &&& t.skip(text::find(t, '\n') + 1) == rest
        }),
{
    reveal_strlit("\r\n");
    let t = line + "\r\n"@ + rest;
    let n = line.len() as int;
    assert forall|j: int| 0 <= j < n + 1 implies t[j] != '\n' by {
        if j < n {
            assert(t[j] == line[j]);
            assert(line.contains(line[j]));
        }
    }
    text::lemma_find_is(t, '\n', n + 1);
    let l = t.take(n + 1);
    assert(l.last() == '\r');
    assert(l.drop_last() =~= line);
    assert(t.skip(n + 2) =~= rest);
}

proof fn lemma_last_line(line: Seq<char>)
    requires
        !line.contains('\n'),
    ensures
        first_line(line) == line,
{
    assert forall|j: int| 0 <= j < line.len() implies line[j] != '\n' by {
        assert(line.contains(line[j]));
    }
    text::lemma_find_is(line, '\n', line.len() as int);
    assert(line.take(line.len() as int) =~= line);
}

} // verus!
