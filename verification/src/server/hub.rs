//! Server-side session engine: which targets may be dialed and how the frames
//! of a session are acted on, for both transports.

use vstd::prelude::*;
use vstd::utf8::encode_utf8;

use crate::net::{is_public, Ip};
use crate::proto::addr::{addr_decoding, AddrView, Reader, UdpAddr};
use crate::proto::frame::{decode_open, open_decoding, Frame, FrameType, FLAG_FIN, FLAG_RST};
use crate::proto::mux::{OpenError, OutFrame};
use crate::server::dns::{known, law_last_answer_is_used, stored, stored_all, DnsView};
use crate::server::state::{
    admission, dropped, live, registered, same_rest, touched, ServerState,
};
use crate::text;
use crate::wire;

verus! {

/// How long a dial may take, in seconds.
pub const DIAL_TIMEOUT_SECS: u64 = 10;

/// How long the name of a UDP target may take to resolve, in seconds.
pub const RESOLVE_TIMEOUT_SECS: u64 = 5;

pub const READ_BUF: usize = 16384;

pub const TCP_ROUTE_CAP: usize = 64;

// ---------------------------------------------------------------------------
// Targets
// ---------------------------------------------------------------------------
/// An address may be reached: it is public, or private targets are allowed.
pub open spec fn target_allowed(ip: Ip, allow_private: bool) -> bool {
    allow_private || is_public(ip)
}

/// The addresses that may be reached, in order.
pub open spec fn allowed_targets(addrs: Seq<Ip>, allow_private: bool) -> Seq<Ip>
    decreases addrs.len(),
{
    if addrs.len() == 0 {
        Seq::empty()
    } else if target_allowed(addrs.last(), allow_private) {
        allowed_targets(addrs.drop_last(), allow_private).push(addrs.last())
    } else {
        allowed_targets(addrs.drop_last(), allow_private)
    }
}

/// The addresses to dial for a host that resolved to `addrs`.
pub open spec fn dial_plan(host: Seq<char>, addrs: Seq<Ip>, allow_private: bool) -> Result<
    Seq<Ip>,
    OpenError,
> {
    if !(0 < encode_utf8(host).len() <= 255) {
        Err(OpenError::BadTarget)
    } else if addrs.len() == 0 {
        Err(OpenError::DialFailed)
    } else if allowed_targets(addrs, allow_private).len() == 0 {
        Err(OpenError::Denied)
    } else {
        Ok(allowed_targets(addrs, allow_private))
    }
}

/// Unless private targets are allowed, every address that is dialed is public,
/// whatever the host resolved to.
pub proof fn law_only_public_targets_are_dialed(addrs: Seq<Ip>, i: int)
    requires
        0 <= i < allowed_targets(addrs, false).len(),
    ensures
        is_public(allowed_targets(addrs, false)[i]),
        addrs.contains(allowed_targets(addrs, false)[i]),
    decreases addrs.len(),
{
    let rest = addrs.drop_last();
    let r = allowed_targets(rest, false);
    let x = allowed_targets(addrs, false)[i];
    if target_allowed(addrs.last(), false) && i == r.len() {
        assert(addrs[addrs.len() - 1] == x);
    } else {
        law_only_public_targets_are_dialed(rest, i);
        let k = choose|k: int| 0 <= k < rest.len() && rest[k] == r[i];
        assert(addrs[k] == x);
    }
}

/// Whether an address may be reached.
pub fn may_reach(ip: Ip, allow_private: bool) -> (r: bool)
    ensures
        r == target_allowed(ip, allow_private),
{
    allow_private || ip.public()
}

/// Whether the host of a target has a usable length.
pub fn host_ok(host: &str) -> (r: bool)
    ensures
        r == (0 < encode_utf8(host@).len() <= 255),
{
    let n = host.as_bytes().len();
    0 < n && n <= 255
}

/// The addresses to dial for a host that resolved to `addrs` (none when it did
/// not resolve): those that may be reached, in order.
pub fn dial_target(host: &str, addrs: &Vec<Ip>, allow_private: bool) -> (r: Result<
    Vec<Ip>,
    OpenError,
>)
    ensures
        match r {
            Ok(v) => dial_plan(host@, addrs@, allow_private) == Ok::<Seq<Ip>, OpenError>(v@),
            Err(e) => dial_plan(host@, addrs@, allow_private) == Err::<Seq<Ip>, OpenError>(e),
        },
{
    if !host_ok(host) {
        return Err(OpenError::BadTarget);
    }
    if addrs.len() == 0 {
        return Err(OpenError::DialFailed);
    }
    let mut out: Vec<Ip> = Vec::new();
    let mut i: usize = 0;
    while i < addrs.len()
        invariant
            i <= addrs.len(),
            out@ == allowed_targets(addrs@.take(i as int), allow_private),
        decreases addrs.len() - i,
    {
        assert(addrs@.take(i + 1).drop_last() =~= addrs@.take(i as int));
        if may_reach(addrs[i], allow_private) {
            out.push(addrs[i]);
        }
        i += 1;
    }
    assert(addrs@.take(i as int) =~= addrs@);
    if out.len() == 0 {
        Err(OpenError::Denied)
    } else {
        Ok(out)
    }
}

// ---------------------------------------------------------------------------
// Data toward the target
// ---------------------------------------------------------------------------
#[derive(Clone, Copy, Debug, PartialEq, Eq, Structural)]
pub enum FeedStep {
    /// The session was aborted; the flag says whether it was still running.
    Ended(bool),
    /// Hand the data to the session's route.
    Forward,
    /// No such session (any more): ignore the data.
    Unknown,
}

/// Data of a mux-path session arrived: it refreshes the connection and the
/// session; an abort then ends the session, anything else goes to its route.
pub fn feed_tcp(st: &mut ServerState, conn: u64, sid: u32, rst: bool, now: i64) -> (r: FeedStep)
    requires
        old(st).quota_ok(),
    ensures
        final(st).quota_ok(),
        same_rest(*old(st), *final(st)),
        final(st).conn_seq == old(st).conn_seq,
        final(st).table() == if !old(st).table().contains_key(conn) {
            old(st).table()
        } else if rst {
            old(st).table().insert(conn, dropped(touched(old(st).table()[conn], sid, now), sid))
        } else {
            old(st).table().insert(conn, touched(old(st).table()[conn], sid, now))
        },
        r == if rst {
            FeedStep::Ended(live(old(st).table()).contains((conn, sid)))
        } else if old(st).table().contains_key(conn) && old(st).table()[conn].tcp.contains(sid) {
            FeedStep::Forward
        } else {
            FeedStep::Unknown
        },
{
    st.touch(conn, sid, now);
    if rst {
        return FeedStep::Ended(st.end_session(conn, sid));
    }
    let (tcp, _) = st.routes(conn, sid);
    if tcp {
        FeedStep::Forward
    } else {
        FeedStep::Unknown
    }
}

/// Tear down a session. The slot is given back only when this call actually
/// removed the session; late or repeated Close frames change nothing.
pub fn close_tcp(st: &mut ServerState, conn: u64, sid: u32) -> (r: bool)
    requires
        old(st).quota_ok(),
    ensures
        final(st).quota_ok(),
        same_rest(*old(st), *final(st)),
        final(st).conn_seq == old(st).conn_seq,
        r == live(old(st).table()).contains((conn, sid)),
        final(st).active_sessions == old(st).active_sessions - if r {
            1int
        } else {
            0
        },
        final(st).table() == if old(st).table().contains_key(conn) {
            old(st).table().insert(conn, dropped(old(st).table()[conn], sid))
        } else {
            old(st).table()
        },
{
    st.end_session(conn, sid)
}

// ---------------------------------------------------------------------------
// Datagrams
// ---------------------------------------------------------------------------
/// What to do with a datagram of a UDP session.
#[derive(Debug)]
pub enum UdpStep {
    /// No such session (any more): drop the datagram.
    Unknown,
    /// Send it there.
    Send(Ip, u16),
    /// The target may not be reached: drop the datagram.
    Denied,
    /// Look the name up first.
    Resolve(String, u16),
    /// The name has no address: drop the datagram.
    Unresolved,
}

/// What to do with a datagram, as plain values.
#[verifier::ext_equal]
pub ghost enum UdpRoute {
    Unknown,
    Send(Ip, u16),
    Denied,
    Resolve(Seq<char>, u16),
    Unresolved,
}

impl UdpStep {
    pub open spec fn view(self) -> UdpRoute {
        match self {
            UdpStep::Unknown => UdpRoute::Unknown,
            UdpStep::Send(ip, port) => UdpRoute::Send(ip, port),
            UdpStep::Denied => UdpRoute::Denied,
            UdpStep::Resolve(host, port) => UdpRoute::Resolve(host@, port),
            UdpStep::Unresolved => UdpRoute::Unresolved,
        }
    }
}

/// A datagram goes to this address, when it may be reached.
pub open spec fn judged(ip: Ip, port: u16, allow_private: bool) -> UdpRoute {
    if target_allowed(ip, allow_private) {
        UdpRoute::Send(ip, port)
    } else {
        UdpRoute::Denied
    }
}

/// Where a datagram for `dst` goes at `mono`: to the address it names, or to
/// the one that the cache holds for its name. A name is looked up only when the
/// cache has no answer for it.
pub open spec fn udp_route(c: DnsView, dst: AddrView, allow_private: bool, mono: u64) -> UdpRoute {
    match dst {
        AddrView::V4(b, port) => judged(Ip::V4(wire::be_value(b) as u32), port, allow_private),
        AddrView::V6(b, port) => judged(Ip::V6(wire::be_value(b) as u128), port, allow_private),
        AddrView::Domain(host, port) => match known(c, host, mono) {
            Some(ip) => judged(ip, port, allow_private),
            None => UdpRoute::Resolve(host, port),
        },
    }
}

/// Where a datagram goes whose name was looked up.
pub open spec fn udp_answer(found: Option<Ip>, port: u16, allow_private: bool) -> UdpRoute {
    match found {
        Some(ip) => judged(ip, port, allow_private),
        None => UdpRoute::Unresolved,
    }
}

/// A name is not looked up per datagram: once it was resolved, datagrams to it
/// go to the address that was found, without another lookup, until the time of
/// the answer is over, whatever other names were resolved since. The clock must
/// not go back.
pub proof fn law_resolved_name_is_not_looked_up_again(
    c: DnsView,
    run: Seq<(Seq<char>, Ip, u64)>,
    i: int,
    port: u16,
    allow_private: bool,
    mono: u64,
)
    requires
        0 <= i < run.len(),
        forall|j: int| i < j < run.len() ==> (#[trigger] run[j]).0 != run[i].0,
        forall|j: int| i <= j < run.len() ==> (#[trigger] run[j]).2 <= mono,
        mono - run[i].2 < c.ttl,
    ensures
        udp_route(stored_all(c, run), AddrView::Domain(run[i].0, port), allow_private, mono)
            == udp_answer(Some(run[i].1), port, allow_private),
        !(udp_route(stored_all(c, run), AddrView::Domain(run[i].0, port), allow_private, mono)
            is Resolve),
{
    law_last_answer_is_used(c, run, i, mono);
}

/// Unless private targets are allowed, a datagram is sent to public addresses
/// only, whatever its target names and whatever that resolves to.
pub proof fn law_datagrams_go_to_public_targets(
    c: DnsView,
    dst: AddrView,
    found: Option<Ip>,
    port: u16,
    mono: u64,
)
    ensures
        udp_route(c, dst, false, mono) matches UdpRoute::Send(ip, _) ==> is_public(ip),
        udp_answer(found, port, false) matches UdpRoute::Send(ip, _) ==> is_public(ip),
{
}

fn judge(ip: Ip, port: u16, allow_private: bool) -> (r: UdpStep)
    ensures
        r.view() == judged(ip, port, allow_private),
{
    if may_reach(ip, allow_private) {
        UdpStep::Send(ip, port)
    } else {
        UdpStep::Denied
    }
}

/// A datagram for a UDP session arrived: the connection and the session are
/// refreshed, and the datagram goes to its target when the session has a relay.
/// The answers of the resolver that are still good at `mono` are used.
pub fn udp_feed(
    st: &mut ServerState,
    conn: u64,
    sid: u32,
    dst: &UdpAddr,
    now: i64,
    mono: u64,
) -> (r: UdpStep)
    requires
        old(st).quota_ok(),
    ensures
        final(st).quota_ok(),
        same_rest(*old(st), *final(st)),
        final(st).conn_seq == old(st).conn_seq,
        r.view() == if old(st).table().contains_key(conn) && old(st).table()[conn].udp.contains(
            sid,
        ) {
            udp_route(old(st).dns@, dst.view(), old(st).allow_private_targets, mono)
        } else {
            UdpRoute::Unknown
        },
        final(st).table() == if old(st).table().contains_key(conn) {
            old(st).table().insert(conn, touched(old(st).table()[conn], sid, now))
        } else {
            old(st).table()
        },
{
    st.touch(conn, sid, now);
    let (_, udp) = st.routes(conn, sid);
    if !udp {
        return UdpStep::Unknown;
    }
    let allow = st.allow_private_targets;
    match dst {
        UdpAddr::V4(b, port) => {
            proof {
                wire::lemma_be_value_bound(b@);
                wire::lemma_pow256();
            }
            judge(Ip::V4(wire::read_be(b.as_slice()) as u32), *port, allow)
        },
        UdpAddr::V6(b, port) => judge(Ip::V6(wire::read_be_wide(b.as_slice())), *port, allow),
        UdpAddr::Domain(host, port) => match st.dns.lookup(host.as_str(), mono) {
            Some(ip) => judge(ip, *port, allow),
            None => UdpStep::Resolve(text::own(host.as_str()), *port),
        },
    }
}

/// The lookup of a datagram's name is over at `mono`: with an address, which is
/// kept for later datagrams, or without one.
pub fn udp_resolved(
    st: &mut ServerState,
    host: &str,
    port: u16,
    found: Option<Ip>,
    mono: u64,
) -> (r: UdpStep)
    ensures
        *final(st) == (ServerState { dns: final(st).dns, ..*old(st) }),
        final(st).dns@ == match found {
            Some(ip) => stored(old(st).dns@, host@, ip, mono),
            None => old(st).dns@,
        },
        r.view() == udp_answer(found, port, old(st).allow_private_targets),
{
    match found {
        Some(ip) => {
            st.dns.store(host, ip, mono);
            judge(ip, port, st.allow_private_targets)
        },
        None => UdpStep::Unresolved,
    }
}

// ---------------------------------------------------------------------------
// Dedicated stream of one session
// ---------------------------------------------------------------------------
/// How the first frame of a dedicated stream is answered.
#[derive(Debug)]
pub enum StreamStart {
    /// Drop the stream without an answer.
    Silence,
    /// Answer with this error and drop the stream.
    Refuse(u32, OpenError),
    /// The session is registered: dial the target, then answer.
    Dial(u32, String, u16),
}

/// Begin a session on a stream of its own. Only an Open frame begins one; an id
/// in use is met with silence. The id is taken before the target is looked at,
/// so that a second stream cannot use it meanwhile, and is given back when the
/// target is malformed.
pub fn start_stream(st: &mut ServerState, conn: u64, first: &Frame, now: i64) -> (r: StreamStart)
    requires
        old(st).quota_ok(),
    ensures
        final(st).quota_ok(),
        same_rest(*old(st), *final(st)),
        final(st).conn_seq == old(st).conn_seq,
        ({
            let verdict = admission(
                old(st).table(),
                old(st).active_sessions as nat,
                old(st).max_sessions as nat,
                conn,
                first.sid,
            );
            let taken = old(st).table().insert(
                conn,
                registered(old(st).table()[conn], first.sid, now),
            );
            if !(first.ftype is Open) || verdict == Err::<(), OpenError>(OpenError::Denied) {
                r is Silence && final(st).table() == old(st).table()
            } else if verdict == Err::<(), OpenError>(OpenError::Limit) {
                r == StreamStart::Refuse(first.sid, OpenError::Limit) && final(st).table() == old(
                    st,
                ).table()
            } else {
                match open_decoding(first.payload@) {
                    Ok((host, port)) => {
                        &&& r matches StreamStart::Dial(sid, h, p) && sid == first.sid && h@ == host
                            && p == port
                        &&& final(st).table() == taken
                    },
                    Err(_) => {
                        &&& r == StreamStart::Refuse(first.sid, OpenError::BadTarget)
                        &&& final(st).table() == taken.insert(
                            conn,
                            dropped(taken[conn], first.sid),
                        )
                    },
                }
            }
        }),
{
    match first.ftype {
        FrameType::Open => {},
        _ => {
            return StreamStart::Silence;
        },
    }
    let sid = first.sid;
    match st.start_session(conn, sid, now) {
        Ok(_) => {},
        Err(OpenError::Denied) => {
            return StreamStart::Silence;
        },
        Err(e) => {
            return StreamStart::Refuse(sid, e);
        },
    }
    match decode_open(first.payload.as_slice()) {
        Ok((host, port)) => StreamStart::Dial(sid, host, port),
        Err(_) => {
            let _ = st.end_session(conn, sid);
            StreamStart::Refuse(sid, OpenError::BadTarget)
        },
    }
}

/// What to do with a frame that the client sends on a running stream.
#[derive(Debug)]
pub enum StreamStep {
    Nothing,
    /// Write the payload to the target; after it, end that direction when the
    /// flag is set.
    Write(Vec<u8>, bool),
    /// The client has sent its last byte: end the direction toward the target
    /// and leave the session to the answering direction.
    HalfClose,
    /// Drop the session.
    Abort,
}

/// React to what arrives on a running stream: a frame, or the end of the
/// stream. FIN on a Data or Close frame, and the end of the stream, are a
/// half-close.
pub fn stream_step(arrived: Option<Frame>) -> (r: StreamStep)
    ensures
        match arrived {
            None => r is HalfClose,
            Some(f) => match f.ftype {
                FrameType::Data => r matches StreamStep::Write(data, last) && data@ == f.payload@
                    && last == (f.flags & FLAG_FIN != 0),
                FrameType::Close => if f.flags & FLAG_FIN != 0 {
                    r is HalfClose
                } else {
                    r is Abort
                },
                _ => r is Nothing,
            },
        },
{
    match arrived {
        None => StreamStep::HalfClose,
        Some(f) => match f.ftype {
            FrameType::Data => {
                let last = f.flags & FLAG_FIN != 0;
                StreamStep::Write(f.payload, last)
            },
            FrameType::Close => {
                if f.flags & FLAG_FIN != 0 {
                    StreamStep::HalfClose
                } else {
                    StreamStep::Abort
                }
            },
            _ => StreamStep::Nothing,
        },
    }
}

/// The frame for what was read from the target: data, its end, or a failure.
/// Only data lets the session go on.
pub fn target_frame(sid: u32, read: Result<Vec<u8>, ()>) -> (r: (OutFrame, bool))
    ensures
        match read {
            Ok(data) => if data@.len() == 0 {
                r.0.is(FrameType::Data, FLAG_FIN, sid, data@) && !r.1
            } else {
                r.0.is(FrameType::Data, 0, sid, data@) && r.1
            },
            Err(_) => r.0.is(FrameType::Close, FLAG_RST, sid, Seq::<u8>::empty()) && !r.1,
        },
{
    match read {
        Ok(data) => {
            if data.len() == 0 {
                (OutFrame::new(FrameType::Data, FLAG_FIN, sid, data), false)
            } else {
                (OutFrame::new(FrameType::Data, 0, sid, data), true)
            }
        },
        Err(_) => (OutFrame::new(FrameType::Close, FLAG_RST, sid, Vec::new()), false),
    }
}

// ---------------------------------------------------------------------------
// Control stream and datagrams
// ---------------------------------------------------------------------------
/// What to do with a frame of the control stream.
#[derive(Debug)]
pub enum CtrlAction {
    Nothing,
    Pong,
    UdpAssociate(u32),
    UdpFeed(u32, UdpAddr, Vec<u8>),
    Close(u32),
}

/// React to a frame of the control stream: UDP, keepalive, and the end of a
/// session. A malformed UDP payload is dropped.
pub fn handle_ctrl_frame(f: Frame) -> (r: CtrlAction)
    ensures
        match f.ftype {
            FrameType::Ping => r is Pong,
            FrameType::UdpAssociate => r == CtrlAction::UdpAssociate(f.sid),
            FrameType::UdpData => match addr_decoding(f.payload@, false) {
                (Ok(dst), n) => r matches CtrlAction::UdpFeed(sid, a, data) && sid == f.sid
                    && a.view() == dst && data@ == f.payload@.skip(n as int),
                (Err(_), _) => r is Nothing,
            },
            FrameType::Close | FrameType::Error => r == CtrlAction::Close(f.sid),
            _ => r is Nothing,
        },
{
    match f.ftype {
        FrameType::Ping => CtrlAction::Pong,
        FrameType::UdpAssociate => CtrlAction::UdpAssociate(f.sid),
        FrameType::UdpData => {
            let mut rd = Reader::new(f.payload.as_slice());
            match UdpAddr::decode(&mut rd) {
                Ok(dst) => {
                    let data = wire::copy_bytes(rd.rest());
                    CtrlAction::UdpFeed(f.sid, dst, data)
                },
                Err(_) => CtrlAction::Nothing,
            }
        },
        FrameType::Close => CtrlAction::Close(f.sid),
        FrameType::Error => CtrlAction::Close(f.sid),
        _ => CtrlAction::Nothing,
    }
}

/// React to a frame that came as a datagram: only UDP data is taken there.
pub fn handle_datagram_frame(f: Frame) -> (r: CtrlAction)
    ensures
        match (f.ftype, addr_decoding(f.payload@, false)) {
            (FrameType::UdpData, (Ok(dst), n)) => r matches CtrlAction::UdpFeed(sid, a, data) && sid
                == f.sid && a.view() == dst && data@ == f.payload@.skip(n as int),
            _ => r is Nothing,
        },
{
    match f.ftype {
        FrameType::UdpData => handle_ctrl_frame(f),
        _ => CtrlAction::Nothing,
    }
}

/// Of the addresses of a target those are dialed that are public, all of them
/// where private targets are allowed, in the order in which they came.
pub proof fn law_allowed_targets(a: Seq<Ip>, b: Seq<Ip>, allow_private: bool, x: Ip)
    ensures
        allowed_targets(a, allow_private).contains(x) <==> a.contains(x) && (allow_private
            || is_public(x)),
        allowed_targets(a + b, allow_private) == allowed_targets(a, allow_private)
            + allowed_targets(b, allow_private),
        allowed_targets(a, true) == a,
        allowed_targets(a, allow_private).len() <= a.len(),
    decreases a.len() + b.len(),
{
    if a.len() > 0 {
        let d = a.drop_last();
        law_allowed_targets(d, Seq::empty(), allow_private, x);
        assert(d + Seq::<Ip>::empty() =~= d);
        let t = allowed_targets(d, allow_private);
        if a.contains(x) {
            let i = choose|i: int| 0 <= i < a.len() && a[i] == x;
            if i < d.len() {
                assert(d[i] == x);
            }
        }
        if d.contains(x) {
            let i = choose|i: int| 0 <= i < d.len() && d[i] == x;
            assert(a[i] == x);
        }
        assert(a[a.len() - 1] == a.last());
        if allow_private || is_public(a.last()) {
            let r = t.push(a.last());
            if t.contains(x) {
                let i = choose|i: int| 0 <= i < t.len() && t[i] == x;
                assert(r[i] == x);
            }
            if a.last() == x {
                assert(r[t.len() as int] == x);
            }
            if r.contains(x) {
                let i = choose|i: int| 0 <= i < r.len() && r[i] == x;
                if i < t.len() {
                    assert(t[i] == x);
                }
            }
        }
        assert(allowed_targets(d, true) == d);
        assert(d.push(a.last()) =~= a);
    }
    if b.len() > 0 {
        let e = b.drop_last();
        law_allowed_targets(a, e, allow_private, x);
        assert((a + b).drop_last() =~= a + e);
        assert((a + b).last() == b.last());
        if allow_private || is_public(b.last()) {
            assert((allowed_targets(a, allow_private) + allowed_targets(e, allow_private)).push(
                b.last(),
            ) =~= allowed_targets(a, allow_private) + allowed_targets(e, allow_private).push(
                b.last(),
            ));
        }
    } else {
        assert(a + b =~= a);
        assert(allowed_targets(a, allow_private) + allowed_targets(b, allow_private)
            =~= allowed_targets(a, allow_private));
    }
}

/// A target is dialed where its name has 1 to 255 bytes and an address of it may
/// be reached; otherwise the reason is told apart.
pub proof fn law_what_is_dialed(host: Seq<char>, addrs: Seq<Ip>, allow_private: bool, x: Ip)
    ensures
        ({
            let n = encode_utf8(host).len();
            let r = dial_plan(host, addrs, allow_private);
            &&& n == 0 || n > 255 ==> r == Err::<Seq<Ip>, OpenError>(OpenError::BadTarget)
            &&& 1 <= n <= 255 && addrs.len() == 0 ==> r == Err::<Seq<Ip>, OpenError>(
                OpenError::DialFailed,
            )
            &&& 1 <= n <= 255 && addrs.contains(x) && (allow_private || is_public(x)) ==> (
            r matches Ok(p) && p.contains(x))
            &&& (r matches Ok(p) && p.contains(x)) ==> addrs.contains(x) && (allow_private
                || is_public(x))
            &&& r matches Ok(p) ==> p.len() > 0
            &&& 1 <= n <= 255 && addrs.len() > 0 && (forall|i: int|
                0 <= i < addrs.len() ==> !allow_private && !is_public(#[trigger] addrs[i])) ==> r
                == Err::<Seq<Ip>, OpenError>(OpenError::Denied)
        }),
{
    law_allowed_targets(addrs, Seq::empty(), allow_private, x);
    let t = allowed_targets(addrs, allow_private);
    if t.len() > 0 {
        law_allowed_targets(addrs, Seq::empty(), allow_private, t[0]);
        assert(t.contains(t[0]));
    }
}

/// A datagram to an address goes to that address and port, in network byte
/// order, where it may be reached, and is denied elsewhere; one to a name goes
/// where the name was last found, or has the name looked up.
pub proof fn law_where_datagrams_go(
    c: DnsView,
    b: Seq<u8>,
    host: Seq<char>,
    port: u16,
    allow_private: bool,
    mono: u64,
)
    ensures
        ({
            let v4 = Ip::V4(wire::be_value(b) as u32);
            let v6 = Ip::V6(wire::be_value(b) as u128);
            let r4 = udp_route(c, AddrView::V4(b, port), allow_private, mono);
            let r6 = udp_route(c, AddrView::V6(b, port), allow_private, mono);
            let rd = udp_route(c, AddrView::Domain(host, port), allow_private, mono);
            &&& allow_private || is_public(v4) ==> r4 == UdpRoute::Send(v4, port)
            &&& !allow_private && !is_public(v4) ==> r4 is Denied
            &&& allow_private || is_public(v6) ==> r6 == UdpRoute::Send(v6, port)
            &&& !allow_private && !is_public(v6) ==> r6 is Denied
            &&& !c.answers.contains_key(host) ==> rd == UdpRoute::Resolve(host, port)
            &&& c.answers.contains_key(host) && mono >= c.answers[host].1 + c.ttl ==> rd
                == UdpRoute::Resolve(host, port)
            &&& c.answers.contains_key(host) && mono < c.answers[host].1 + c.ttl && c.ttl > 0 ==> {
                let ip = c.answers[host].0;
                if allow_private || is_public(ip) {
                    rd == UdpRoute::Send(ip, port)
                } else {
                    rd is Denied
                }
            }
        }),
        udp_answer(None, port, allow_private) is Unresolved,
        forall|ip: Ip| #[trigger]
            udp_answer(Some(ip), port, allow_private) == if allow_private || is_public(ip) {
                UdpRoute::Send(ip, port)
            } else {
                UdpRoute::Denied
            },
{
}

/// A dial may take ten seconds and a lookup five; data is read in pieces of
/// 16 KiB, and 64 of them may wait for a target.
pub proof fn law_times_and_sizes()
    ensures
        DIAL_TIMEOUT_SECS == 10,
        RESOLVE_TIMEOUT_SECS == 5,
        READ_BUF == 16 * 1024,
        TCP_ROUTE_CAP == 64,
{
}

} // verus!
