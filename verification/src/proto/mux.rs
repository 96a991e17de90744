//! Multiplexer: many logical sessions over one duplex frame channel (used by
//! the HTTPS POST fallback, both roles).
//!
//! The tables and the reaction to every frame stand here; whoever owns the
//! channel performs the returned action.

use dashmap::DashMap;
use rand::RngCore;
use vstd::prelude::*;
use vstd::utf8::encode_utf8;

use super::addr::{addr_decoding, Reader, UdpAddr};
use super::frame::{
    decode_open, encode_open, open_decoding, open_encoding, Frame, FrameType, FLAG_FIN, FLAG_RST,
    OPEN_ERR_BAD_TARGET, OPEN_ERR_DENIED, OPEN_ERR_DIAL, OPEN_ERR_LIMIT,
};
use crate::tables::{sids, sids_clear, sids_contains, sids_insert, sids_new, sids_remove};
use crate::wire;

verus! {

pub const SESSION_BUF: usize = 65536;

pub const ROUTE_CHAN: usize = 256;

/// How long a handshake reply is waited for, in seconds.
pub const HANDSHAKE_TIMEOUT_SECS: u64 = 10;

/// Outbound frame queue entry.
#[derive(Debug)]
pub struct OutFrame {
    pub ftype: FrameType,
    pub flags: u16,
    pub sid: u32,
    pub payload: Vec<u8>,
}

impl OutFrame {
    pub fn new(ftype: FrameType, flags: u16, sid: u32, payload: Vec<u8>) -> (r: Self)
        ensures
            r.is(ftype, flags, sid, payload@),
    {
        OutFrame { ftype, flags, sid, payload }
    }

    /// The frame has this content.
    pub open spec fn is(self, ftype: FrameType, flags: u16, sid: u32, payload: Seq<u8>) -> bool {
        self.ftype == ftype && self.flags == flags && self.sid == sid && self.payload@ == payload
    }
}

/// Whether an encoded frame goes out as a datagram: it fits what the path
/// takes. Otherwise it goes over the stream.
pub fn datagram_fits(wire_len: usize, max_datagram: Option<usize>) -> (r: bool)
    ensures
        r == (wire_len <= match max_datagram {
            Some(m) => m as int,
            None => 0,
        }),
{
    match max_datagram {
        Some(m) => wire_len <= m,
        None => wire_len == 0,
    }
}

/// Errors surfaced to clients when opening sessions.
#[derive(Debug, Clone, Copy, PartialEq, Eq, Structural)]
pub enum OpenError {
    DialFailed,
    Limit,
    BadTarget,
    Denied,
}

/// The wire code of an error.
pub open spec fn open_error_code(e: OpenError) -> u8 {
    match e {
        OpenError::DialFailed => OPEN_ERR_DIAL,
        OpenError::Limit => OPEN_ERR_LIMIT,
        OpenError::BadTarget => OPEN_ERR_BAD_TARGET,
        OpenError::Denied => OPEN_ERR_DENIED,
    }
}

/// The error of a wire code; an unknown code counts as a denial.
pub open spec fn open_error_of(c: u8) -> OpenError {
    if c == OPEN_ERR_DIAL {
        OpenError::DialFailed
    } else if c == OPEN_ERR_LIMIT {
        OpenError::Limit
    } else if c == OPEN_ERR_BAD_TARGET {
        OpenError::BadTarget
    } else {
        OpenError::Denied
    }
}

/// Every error reads back from its code as itself.
pub proof fn law_open_error_roundtrip(e: OpenError)
    ensures
        open_error_of(open_error_code(e)) == e,
{
}

impl OpenError {
    /// What went wrong, in words.
    pub fn message(self) -> (r: &'static str)
        ensures
            r@ == match self {
                OpenError::DialFailed => "dial failed"@,
                OpenError::Limit => "session limit reached"@,
                OpenError::BadTarget => "invalid target"@,
                OpenError::Denied => "denied"@,
            },
    {
        match self {
            OpenError::DialFailed => "dial failed",
            OpenError::Limit => "session limit reached",
            OpenError::BadTarget => "invalid target",
            OpenError::Denied => "denied",
        }
    }

    pub fn to_code(self) -> (r: u8)
        ensures
            r == open_error_code(self),
    {
        match self {
            OpenError::DialFailed => OPEN_ERR_DIAL,
            OpenError::Limit => OPEN_ERR_LIMIT,
            OpenError::BadTarget => OPEN_ERR_BAD_TARGET,
            OpenError::Denied => OPEN_ERR_DENIED,
        }
    }

    pub fn from_code(c: u8) -> (r: Self)
        ensures
            r == open_error_of(c),
    {
        if c == OPEN_ERR_DIAL {
            OpenError::DialFailed
        } else if c == OPEN_ERR_LIMIT {
            OpenError::Limit
        } else if c == OPEN_ERR_BAD_TARGET {
            OpenError::BadTarget
        } else {
            OpenError::Denied
        }
    }
}

/// The error that an OpenErr payload carries in its first byte.
pub open spec fn payload_error(payload: Seq<u8>) -> OpenError {
    open_error_of(
        if payload.len() > 0 {
            payload[0]
        } else {
            0
        },
    )
}

pub fn code_to_open_error(payload: &[u8]) -> (r: OpenError)
    ensures
        r == payload_error(payload@),
{
    if payload.len() > 0 {
        OpenError::from_code(payload[0])
    } else {
        OpenError::from_code(0)
    }
}

/// `rand::rngs::OsRng`: a number from the operating system. Nothing is
/// promised of its value.
#[verifier::external_body]
pub(crate) fn random_u32() -> (r: u32) {
    rand::rngs::OsRng.next_u32()
}

/// Random non-zero seed for per-connection session id allocators.
pub fn next_rand_u32() -> (r: u32)
    ensures
        r >= 1,
        exists|v: u32| r == #[trigger] seed_spec(v),
{
    let v = random_u32();
    seed_of(v)
}

/// The seed for a random number: the number itself, and 1 in place of 0.
pub open spec fn seed_spec(v: u32) -> u32 {
    if v == 0 {
        1
    } else {
        v
    }
}

/// The seed for a random number.
pub fn seed_of(v: u32) -> (r: u32)
    ensures
        r == seed_spec(v),
{
    if v < 1 {
        1
    } else {
        v
    }
}

// ---------------------------------------------------------------------------
// Session ids
// ---------------------------------------------------------------------------
/// The id after `v`; the numbers go round.
pub open spec fn next_id(v: u32) -> u32 {
    if v == u32::MAX {
        0
    } else {
        (v + 1) as u32
    }
}

/// How many steps lead from `from` to `to`.
pub open spec fn steps_to(from: u32, to: u32) -> nat {
    if from <= to {
        (to - from) as nat
    } else {
        (0x1_0000_0000 - from + to) as nat
    }
}

/// The id is zero or in one of the tables.
pub open spec fn id_taken(a: Set<u32>, b: Set<u32>, sid: u32) -> bool {
    sid == 0 || a.contains(sid) || b.contains(sid)
}

/// The first id from `start` on, going round, that is not taken. One must be
/// free.
pub(crate) fn free_id(start: u32, a: &DashMap<u32, ()>, b: &DashMap<u32, ()>) -> (r: u32)
    requires
        exists|f: u32| !#[trigger] id_taken(sids(*a), sids(*b), f),
    ensures
        !id_taken(sids(*a), sids(*b), r),
        forall|k: u32|
            steps_to(start, k) < steps_to(start, r) ==> #[trigger] id_taken(sids(*a), sids(*b), k),
{
    let ghost free = choose|f: u32| !#[trigger] id_taken(sids(*a), sids(*b), f);
    let mut v: u32 = start;
    loop
        invariant
            !id_taken(sids(*a), sids(*b), free),
            steps_to(start, v) <= steps_to(start, free),
            forall|k: u32|
                steps_to(start, k) < steps_to(start, v) ==> #[trigger] id_taken(
                    sids(*a),
                    sids(*b),
                    k,
                ),
        decreases steps_to(v, free),
    {
        if v != 0 && !sids_contains(a, v) && !sids_contains(b, v) {
            return v;
        }
        assert(id_taken(sids(*a), sids(*b), v));
        assert(v != free);
        v = if v == u32::MAX {
            0
        } else {
            v + 1
        };
    }
}

// ---------------------------------------------------------------------------
// Client role
// ---------------------------------------------------------------------------
/// Client-side session tables of one duplex frame channel.
pub struct MuxClient {
    /// Sessions that take data.
    pub sessions: DashMap<u32, ()>,
    /// UDP associations that take datagrams.
    pub udp: DashMap<u32, ()>,
    /// Opens without a reply yet.
    pub pending_open: DashMap<u32, ()>,
    /// UDP associations without a reply yet.
    pub pending_udp: DashMap<u32, ()>,
    pub next_sid: u32,
    pub closed: bool,
}

/// What the owner of the channel is to do about a frame.
#[derive(Debug)]
pub enum ClientAction {
    Nothing,
    /// Tell whoever waits for the open of this session.
    OpenDone(u32, Result<(), OpenError>),
    /// Tell whoever waits for this UDP association.
    UdpDone(u32, Result<(), OpenError>),
    /// Hand the payload to the session; after it, end the session's input when
    /// the flag is set.
    Deliver(u32, Vec<u8>, bool),
    /// End the input of the session and of the association.
    End(u32),
    /// Hand a datagram to the association.
    DeliverUdp(u32, UdpAddr, Vec<u8>),
    /// Answer with a Pong.
    Pong,
    /// The payload of a UDP frame is malformed.
    BadUdp,
}

/// The id is taken.
pub open spec fn sid_in_use(m: MuxClient, sid: u32) -> bool {
    id_taken(sids(m.sessions), sids(m.udp), sid)
}

/// Everything but the session tables is the same.
pub open spec fn same_ids(a: MuxClient, b: MuxClient) -> bool {
    a.next_sid == b.next_sid && a.closed == b.closed
}

impl MuxClient {
    /// Tables of a new channel; ids start at `first`.
    pub fn new(first: u32) -> (r: Self)
        ensures
            sids(r.sessions) == Set::<u32>::empty(),
            sids(r.udp) == Set::<u32>::empty(),
            sids(r.pending_open) == Set::<u32>::empty(),
            sids(r.pending_udp) == Set::<u32>::empty(),
            r.next_sid == first,
            !r.closed,
    {
        MuxClient {
            sessions: sids_new(),
            udp: sids_new(),
            pending_open: sids_new(),
            pending_udp: sids_new(),
            next_sid: first,
            closed: false,
        }
    }

    pub fn is_closed(&self) -> (r: bool)
        ensures
            r == self.closed,
    {
        self.closed
    }

    /// The next id that is not taken: the first one from `next_sid` on, going
    /// round, that is not zero and belongs to no session or association. One
    /// must be free.
    pub fn alloc_sid(&mut self) -> (r: u32)
        requires
            exists|f: u32| !#[trigger] sid_in_use(*old(self), f),
        ensures
            !sid_in_use(*old(self), r),
            forall|k: u32|
                steps_to(old(self).next_sid, k) < steps_to(old(self).next_sid, r)
                    ==> #[trigger] sid_in_use(*old(self), k),
            final(self).next_sid == next_id(r),
            final(self).sessions == old(self).sessions,
            final(self).udp == old(self).udp,
            final(self).pending_open == old(self).pending_open,
            final(self).pending_udp == old(self).pending_udp,
            final(self).closed == old(self).closed,
    {
        proof {
            let f = choose|f: u32| !#[trigger] sid_in_use(*old(self), f);
            assert(!id_taken(sids(self.sessions), sids(self.udp), f));
        }
        let v = free_id(self.next_sid, &self.sessions, &self.udp);
        self.next_sid = if v == u32::MAX {
            0
        } else {
            v + 1
        };
        assert forall|k: u32|
            steps_to(old(self).next_sid, k) < steps_to(
                old(self).next_sid,
                v,
            ) implies #[trigger] sid_in_use(*old(self), k) by {
            assert(id_taken(sids(old(self).sessions), sids(old(self).udp), k));
        }
        v
    }

    /// Begin a TCP session: the id under which it runs and the Open frame to
    /// send. A host of no or of more than 255 bytes is refused.
    pub fn begin_open(&mut self, host: &str, port: u16) -> (r: Result<OutFrame, OpenError>)
        requires
            exists|f: u32| !#[trigger] sid_in_use(*old(self), f),
        ensures
            match r {
                Ok(f) => {
                    &&& 0 < encode_utf8(host@).len() <= 255
                    &&& !sid_in_use(*old(self), f.sid)
                    &&& forall|k: u32|
                        steps_to(old(self).next_sid, k) < steps_to(old(self).next_sid, f.sid)
                            ==> #[trigger] sid_in_use(*old(self), k)
                    &&& f.is(FrameType::Open, 0, f.sid, open_encoding(host@, port))
                    &&& sids(final(self).sessions) == sids(old(self).sessions).insert(f.sid)
                    &&& sids(final(self).pending_open) == sids(old(self).pending_open).insert(f.sid)
                    &&& final(self).next_sid == next_id(f.sid)
                    &&& final(self).udp == old(self).udp
                    &&& final(self).pending_udp == old(self).pending_udp
                    &&& final(self).closed == old(self).closed
                },
                Err(e) => {
                    &&& !(0 < encode_utf8(host@).len() <= 255)
                    &&& e == OpenError::BadTarget
                    &&& *final(self) == *old(self)
                },
            },
    {
        let n = host.as_bytes().len();
        if n == 0 || n > 255 {
            return Err(OpenError::BadTarget);
        }
        let sid = self.alloc_sid();
        sids_insert(&mut self.sessions, sid);
        sids_insert(&mut self.pending_open, sid);
        Ok(OutFrame::new(FrameType::Open, 0, sid, encode_open(host, port)))
    }

    /// The open of `sid` came to nothing: the session is dropped, and so is
    /// the wait for a reply when none came in time.
    pub fn abandon_open(&mut self, sid: u32, no_reply: bool)
        ensures
            sids(final(self).sessions) == sids(old(self).sessions).remove(sid),
            sids(final(self).pending_open) == if no_reply {
                sids(old(self).pending_open).remove(sid)
            } else {
                sids(old(self).pending_open)
            },
            final(self).udp == old(self).udp,
            final(self).pending_udp == old(self).pending_udp,
            same_ids(*old(self), *final(self)),
    {
        sids_remove(&mut self.sessions, sid);
        if no_reply {
            sids_remove(&mut self.pending_open, sid);
        }
    }

    /// The local side has sent its last byte: the frame that tells the server.
    /// The session stays, so that the rest of the response still arrives.
    pub fn finish_send(&self, sid: u32) -> (r: OutFrame)
        ensures
            r.is(FrameType::Close, FLAG_FIN, sid, Seq::<u8>::empty()),
    {
        OutFrame::new(FrameType::Close, FLAG_FIN, sid, Vec::new())
    }

    /// Begin a UDP association: the id under which it runs and the frame to
    /// send.
    pub fn begin_udp(&mut self) -> (r: OutFrame)
        requires
            exists|f: u32| !#[trigger] sid_in_use(*old(self), f),
        ensures
            !sid_in_use(*old(self), r.sid),
            forall|k: u32|
                steps_to(old(self).next_sid, k) < steps_to(old(self).next_sid, r.sid)
                    ==> #[trigger] sid_in_use(*old(self), k),
            r.is(FrameType::UdpAssociate, 0, r.sid, Seq::<u8>::empty()),
            sids(final(self).udp) == sids(old(self).udp).insert(r.sid),
            sids(final(self).pending_udp) == sids(old(self).pending_udp).insert(r.sid),
            final(self).next_sid == next_id(r.sid),
            final(self).sessions == old(self).sessions,
            final(self).pending_open == old(self).pending_open,
            final(self).closed == old(self).closed,
    {
        let sid = self.alloc_sid();
        sids_insert(&mut self.udp, sid);
        sids_insert(&mut self.pending_udp, sid);
        OutFrame::new(FrameType::UdpAssociate, 0, sid, Vec::new())
    }

    /// The association `sid` is over.
    pub fn end_udp(&mut self, sid: u32)
        ensures
            sids(final(self).udp) == sids(old(self).udp).remove(sid),
            final(self).sessions == old(self).sessions,
            final(self).pending_open == old(self).pending_open,
            final(self).pending_udp == old(self).pending_udp,
            same_ids(*old(self), *final(self)),
    {
        sids_remove(&mut self.udp, sid);
    }

    /// Nobody reads the session `sid` any more.
    pub fn session_gone(&mut self, sid: u32)
        ensures
            sids(final(self).sessions) == sids(old(self).sessions).remove(sid),
            final(self).udp == old(self).udp,
            final(self).pending_open == old(self).pending_open,
            final(self).pending_udp == old(self).pending_udp,
            same_ids(*old(self), *final(self)),
    {
        sids_remove(&mut self.sessions, sid);
    }

    /// The channel is dead: no session or association is left.
    pub fn teardown_all(&mut self)
        ensures
            final(self).closed,
            sids(final(self).sessions) == Set::<u32>::empty(),
            sids(final(self).udp) == Set::<u32>::empty(),
            final(self).pending_open == old(self).pending_open,
            final(self).pending_udp == old(self).pending_udp,
            final(self).next_sid == old(self).next_sid,
    {
        self.closed = true;
        sids_clear(&mut self.sessions);
        sids_clear(&mut self.udp);
    }

    /// React to a frame of the server. A payload is delivered before the end
    /// of the session that comes with it.
    pub fn handle_client_frame(&mut self, f: Frame) -> (r: ClientAction)
        ensures
            same_ids(*old(self), *final(self)),
            sids(final(self).pending_open) == match f.ftype {
                FrameType::OpenOk | FrameType::OpenErr => sids(old(self).pending_open).remove(
                    f.sid,
                ),
                _ => sids(old(self).pending_open),
            },
            sids(final(self).pending_udp) == match f.ftype {
                FrameType::UdpOk | FrameType::Error => sids(old(self).pending_udp).remove(f.sid),
                _ => sids(old(self).pending_udp),
            },
            sids(final(self).sessions) == match f.ftype {
                FrameType::Error | FrameType::Close => sids(old(self).sessions).remove(f.sid),
                FrameType::Data => if f.flags & FLAG_FIN != 0 {
                    sids(old(self).sessions).remove(f.sid)
                } else {
                    sids(old(self).sessions)
                },
                _ => sids(old(self).sessions),
            },
            sids(final(self).udp) == match f.ftype {
                FrameType::Close => sids(old(self).udp).remove(f.sid),
                _ => sids(old(self).udp),
            },
            match f.ftype {
                FrameType::OpenOk => if sids(old(self).pending_open).contains(f.sid) {
                    r == ClientAction::OpenDone(f.sid, Ok(()))
                } else {
                    r is Nothing
                },
                FrameType::OpenErr => if sids(old(self).pending_open).contains(f.sid) {
                    r == ClientAction::OpenDone(f.sid, Err(payload_error(f.payload@)))
                } else {
                    r is Nothing
                },
                FrameType::UdpOk => if sids(old(self).pending_udp).contains(f.sid) {
                    r == ClientAction::UdpDone(f.sid, Ok(()))
                } else {
                    r is Nothing
                },
                FrameType::Error => if sids(old(self).pending_udp).contains(f.sid) {
                    r == ClientAction::UdpDone(f.sid, Err(payload_error(f.payload@)))
                } else {
                    r is Nothing
                },
                FrameType::Data => if sids(old(self).sessions).contains(f.sid) {
                    r matches ClientAction::Deliver(sid, data, last) && sid == f.sid && data@
                        == f.payload@ && last == (f.flags & FLAG_FIN != 0)
                } else {
                    r is Nothing
                },
                FrameType::Close => r == ClientAction::End(f.sid),
                FrameType::UdpData => match addr_decoding(f.payload@, false) {
                    (Ok(src), n) => if sids(old(self).udp).contains(f.sid) {
                        r matches ClientAction::DeliverUdp(sid, a, data) && sid == f.sid && a.view()
                            == src && data@ == f.payload@.skip(n as int)
                    } else {
                        r is Nothing
                    },
                    (Err(_), _) => r is BadUdp,
                },
                FrameType::Ping => r is Pong,
                _ => r is Nothing,
            },
    {
        match f.ftype {
            FrameType::OpenOk => {
                if sids_remove(&mut self.pending_open, f.sid) {
                    ClientAction::OpenDone(f.sid, Ok(()))
                } else {
                    ClientAction::Nothing
                }
            },
            FrameType::OpenErr => {
                let e = code_to_open_error(f.payload.as_slice());
                if sids_remove(&mut self.pending_open, f.sid) {
                    ClientAction::OpenDone(f.sid, Err(e))
                } else {
                    ClientAction::Nothing
                }
            },
            FrameType::UdpOk => {
                if sids_remove(&mut self.pending_udp, f.sid) {
                    ClientAction::UdpDone(f.sid, Ok(()))
                } else {
                    ClientAction::Nothing
                }
            },
            FrameType::Error => {
                let e = code_to_open_error(f.payload.as_slice());
                let waited = sids_remove(&mut self.pending_udp, f.sid);
                sids_remove(&mut self.sessions, f.sid);
                if waited {
                    ClientAction::UdpDone(f.sid, Err(e))
                } else {
                    ClientAction::Nothing
                }
            },
            FrameType::Data => {
                let known = sids_contains(&self.sessions, f.sid);
                let last = f.flags & FLAG_FIN != 0;
                if last {
                    sids_remove(&mut self.sessions, f.sid);
                }
                if known {
                    ClientAction::Deliver(f.sid, f.payload, last)
                } else {
                    ClientAction::Nothing
                }
            },
            FrameType::Close => {
                sids_remove(&mut self.sessions, f.sid);
                sids_remove(&mut self.udp, f.sid);
                ClientAction::End(f.sid)
            },
            FrameType::UdpData => {
                let mut rd = Reader::new(f.payload.as_slice());
                match UdpAddr::decode(&mut rd) {
                    Ok(src) => {
                        let data = wire::copy_bytes(rd.rest());
                        if sids_contains(&self.udp, f.sid) {
                            ClientAction::DeliverUdp(f.sid, src, data)
                        } else {
                            ClientAction::Nothing
                        }
                    },
                    Err(_) => ClientAction::BadUdp,
                }
            },
            FrameType::Ping => ClientAction::Pong,
            _ => ClientAction::Nothing,
        }
    }
}

/// The payload of a UdpData frame: the address, then the datagram.
pub fn udp_payload(addr: &UdpAddr, data: &[u8]) -> (r: Vec<u8>)
    ensures
        r@ == super::addr::addr_encoding(addr.view(), false) + data@,
{
    let mut v: Vec<u8> = Vec::new();
    addr.encode(&mut v);
    wire::push_bytes(&mut v, data);
    assert(v@ =~= super::addr::addr_encoding(addr.view(), false) + data@);
    v
}

// ---------------------------------------------------------------------------
// Server role
// ---------------------------------------------------------------------------
/// What the server is to do about a frame of an authenticated channel.
#[derive(Debug)]
pub enum ServerAction {
    Nothing,
    /// Establish a TCP session and answer with its outcome.
    Open(u32, String, u16),
    /// Answer the Open with this error.
    RefuseOpen(u32, OpenError),
    /// Refresh the session and route data toward the target.
    Feed(u32, Vec<u8>, bool, bool),
    /// The client has sent its last byte; the target may still answer.
    HalfClose(u32),
    /// Tear the session down (the flag marks an abort).
    Close(u32, bool),
    /// Answer with a Pong.
    Pong,
    /// Set up a UDP relay and answer with its outcome.
    UdpAssociate(u32),
    /// Refresh the session and relay a datagram.
    UdpFeed(u32, UdpAddr, Vec<u8>),
    /// The payload of a UDP frame is malformed.
    BadUdp,
}

/// React to a frame of the client. A Close that carries FIN without RST is a
/// half-close: only the direction toward the target ends, so that the response
/// is not cut off.
pub fn handle_server_frame(f: Frame) -> (r: ServerAction)
    ensures
        match f.ftype {
            FrameType::Open => match open_decoding(f.payload@) {
                Ok((host, port)) => r matches ServerAction::Open(sid, h, p) && sid == f.sid && h@
                    == host && p == port,
                Err(_) => r == ServerAction::RefuseOpen(f.sid, OpenError::BadTarget),
            },
            FrameType::Data => r matches ServerAction::Feed(sid, data, fin, rst) && sid == f.sid
                && data@ == f.payload@ && fin == (f.flags & FLAG_FIN != 0) && rst == (f.flags
                & FLAG_RST != 0),
            FrameType::Close => if f.flags & FLAG_FIN != 0 && f.flags & FLAG_RST == 0 {
                r == ServerAction::HalfClose(f.sid)
            } else {
                r == ServerAction::Close(f.sid, f.flags & FLAG_RST != 0)
            },
            FrameType::Ping => r is Pong,
            FrameType::UdpAssociate => r == ServerAction::UdpAssociate(f.sid),
            FrameType::UdpData => match addr_decoding(f.payload@, false) {
                (Ok(dst), n) => r matches ServerAction::UdpFeed(sid, a, data) && sid == f.sid
                    && a.view() == dst && data@ == f.payload@.skip(n as int),
                (Err(_), _) => r is BadUdp,
            },
            FrameType::Error => r == ServerAction::Close(f.sid, true),
            _ => r is Nothing,
        },
{
    match f.ftype {
        FrameType::Open => match decode_open(f.payload.as_slice()) {
            Ok((host, port)) => ServerAction::Open(f.sid, host, port),
            Err(_) => ServerAction::RefuseOpen(f.sid, OpenError::BadTarget),
        },
        FrameType::Data => {
            let fin = f.flags & FLAG_FIN != 0;
            let rst = f.flags & FLAG_RST != 0;
            ServerAction::Feed(f.sid, f.payload, fin, rst)
        },
        FrameType::Close => {
            let fin = f.flags & FLAG_FIN != 0;
            let rst = f.flags & FLAG_RST != 0;
            if fin && !rst {
                ServerAction::HalfClose(f.sid)
            } else {
                ServerAction::Close(f.sid, rst)
            }
        },
        FrameType::Ping => ServerAction::Pong,
        FrameType::UdpAssociate => ServerAction::UdpAssociate(f.sid),
        FrameType::UdpData => {
            let mut rd = Reader::new(f.payload.as_slice());
            match UdpAddr::decode(&mut rd) {
                Ok(dst) => {
                    let data = wire::copy_bytes(rd.rest());
                    ServerAction::UdpFeed(f.sid, dst, data)
                },
                Err(_) => ServerAction::BadUdp,
            }
        },
        FrameType::Error => ServerAction::Close(f.sid, true),
        _ => ServerAction::Nothing,
    }
}

/// A one-byte payload with an error code.
pub open spec fn error_payload(e: OpenError) -> Seq<u8> {
    seq![open_error_code(e)]
}

/// The answer to an Open.
pub fn open_reply(sid: u32, outcome: Result<(), OpenError>) -> (r: OutFrame)
    ensures
        match outcome {
            Ok(_) => r.is(FrameType::OpenOk, 0, sid, Seq::<u8>::empty()),
            Err(e) => r.is(FrameType::OpenErr, 0, sid, error_payload(e)),
        },
{
    match outcome {
        Ok(_) => OutFrame::new(FrameType::OpenOk, 0, sid, Vec::new()),
        Err(e) => {
            let mut v: Vec<u8> = Vec::new();
            v.push(e.to_code());
            assert(v@ =~= error_payload(e));
            OutFrame::new(FrameType::OpenErr, 0, sid, v)
        },
    }
}

/// The answer to a UdpAssociate.
pub fn udp_reply(sid: u32, outcome: Result<(), OpenError>) -> (r: OutFrame)
    ensures
        match outcome {
            Ok(_) => r.is(FrameType::UdpOk, 0, sid, Seq::<u8>::empty()),
            Err(e) => r.is(FrameType::OpenErr, 0, sid, error_payload(e)),
        },
{
    match outcome {
        Ok(_) => OutFrame::new(FrameType::UdpOk, 0, sid, Vec::new()),
        Err(e) => {
            let mut v: Vec<u8> = Vec::new();
            v.push(e.to_code());
            assert(v@ =~= error_payload(e));
            OutFrame::new(FrameType::OpenErr, 0, sid, v)
        },
    }
}

/// The client reads from the server's answer exactly the outcome it carries.
pub proof fn law_open_reply_is_understood(e: OpenError)
    ensures
        payload_error(error_payload(e)) == e,
{
}

/// The codes of refusals on the wire; what no code stands for reads as denied.
pub proof fn law_refusals_have_their_codes(e: OpenError, c: u8, tail: Seq<u8>)
    ensures
        open_error_code(e) == match e {
            OpenError::DialFailed => 1u8,
            OpenError::Limit => 2u8,
            OpenError::BadTarget => 3u8,
            OpenError::Denied => 4u8,
        },
        c == 0 || c > 3 ==> open_error_of(c) == OpenError::Denied,
        payload_error(seq![open_error_code(e)] + tail) == e,
        payload_error(Seq::empty()) == OpenError::Denied,
        error_payload(e).len() == 1 && payload_error(error_payload(e)) == e,
{
    let p = seq![open_error_code(e)] + tail;
    assert(p[0] == open_error_code(e));
}

/// Ids follow one another and go round; the distance between two counts the
/// steps. Id 0 is never free, and neither is one that a session has.
pub proof fn law_ids_follow_one_another(v: u32, w: u32, a: Set<u32>, b: Set<u32>)
    ensures
        v < 0xffff_ffff ==> next_id(v) == v + 1,
        next_id(0xffff_ffff) == 0,
        steps_to(v, v) == 0,
        next_id(w) != v ==> steps_to(v, next_id(w)) == steps_to(v, w) + 1,
        v != w ==> steps_to(v, w) + steps_to(w, v) == 0x1_0000_0000,
        id_taken(a, b, 0),
        v != 0 ==> (id_taken(a, b, v) <==> a.contains(v) || b.contains(v)),
        seed_spec(v) != 0,
        v != 0 ==> seed_spec(v) == v,
{
}

/// A session may have 64 KiB on their way and 256 frames in waiting; a channel
/// is set up within ten seconds.
pub proof fn law_sizes_of_a_channel()
    ensures
        SESSION_BUF == 64 * 1024,
        ROUTE_CHAN == 256,
        HANDSHAKE_TIMEOUT_SECS == 10,
{
}

/// An id is in use while a session or an association has it; zero is no id.
pub proof fn law_ids_in_use(m: MuxClient, sid: u32)
    ensures
        sid_in_use(m, 0),
        sid != 0 ==> (sid_in_use(m, sid) <==> sids(m.sessions).contains(sid) || sids(
            m.udp,
        ).contains(sid)),
{
}

/// What a frame to send is made of.
pub proof fn law_frames_to_send(
    f: OutFrame,
    ftype: FrameType,
    flags: u16,
    sid: u32,
    payload: Seq<u8>,
)
    ensures
        f.is(f.ftype, f.flags, f.sid, f.payload@),
        f.is(ftype, flags, sid, payload) ==> f.ftype == ftype && f.flags == flags && f.sid == sid
            && f.payload@ == payload,
{
}

/// What stays the same of a channel while its tables change.
pub proof fn law_what_tables_leave_alone(a: MuxClient, b: MuxClient)
    ensures
        same_ids(a, a),
        same_ids(a, b) ==> a.next_sid == b.next_sid && a.closed == b.closed,
{
}

} // verus!
