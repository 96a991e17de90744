//! WebTransport client: a pool of connections, one authenticated control
//! stream per connection, one stream per TCP session, datagrams for UDP.
//!
//! Times are milliseconds of one monotonic clock of the caller, unless a name
//! says seconds.

use dashmap::DashMap;
use rand::Rng;
use vstd::prelude::*;

use super::outbound::{target_of, ClientError, TargetError};
use crate::proto::addr::{addr_decoding, Reader, UdpAddr};
use crate::proto::frame::{encode_open, open_encoding, Frame, FrameType, FLAG_FIN};
use crate::proto::mux::{
    code_to_open_error, free_id, id_taken, next_id, payload_error, steps_to, OpenError, OutFrame,
};
use crate::quic_tune::{gap_hint, gap_hint_spec};
use crate::tables::{sids, sids_clear, sids_contains, sids_insert, sids_new, sids_remove};
use crate::text;
use crate::wire;

verus! {

/// Sessions that one connection may carry.
pub const MAX_PER_CONN: usize = 50;

/// Consecutive unanswered heartbeats after which a link counts as half-dead.
pub const PONG_MISS_LIMIT: usize = 2;

/// Base heartbeat period, in seconds.
pub const HEARTBEAT_SECS: u64 = 30;

/// Greatest deviation of a heartbeat period from the base: a fifth of it.
pub const HEARTBEAT_BAND: i64 = 6;

/// Length of the source connection ids. The pool may hold an extra connection
/// for a while even when its size is one, and ids of no length could not tell
/// the connections of one endpoint apart.
pub fn source_cid_len(_conns: usize) -> (r: usize)
    ensures
        r == 8,
{
    8
}

// ---------------------------------------------------------------------------
// Heartbeat period
// ---------------------------------------------------------------------------
/// `rand::Rng::gen_range` over `-band..=band`: a number in the band. Which one
/// is left to the operating system's generator.
#[verifier::external_body]
fn random_jitter(band: i64) -> (r: i64)
    requires
        0 <= band < i64::MAX,
    ensures
        -band <= r <= band,
{
    rand::rngs::OsRng.gen_range(-band..=band)
}

/// The heartbeat period, in seconds, with this deviation from the base.
pub fn heartbeat_with(jitter: i64) -> (r: u64)
    requires
        -HEARTBEAT_BAND <= jitter <= HEARTBEAT_BAND,
    ensures
        r == HEARTBEAT_SECS + jitter,
{
    (HEARTBEAT_SECS as i64 + jitter) as u64
}

/// Next heartbeat period in seconds: the base give or take a fifth. Periods
/// that vary carry no signature that an observer could pick out.
pub fn heartbeat_interval() -> (r: u64)
    ensures
        24 <= r <= 36,
{
    heartbeat_with(random_jitter(HEARTBEAT_BAND))
}

/// The misses that a link is given cover a minute, whatever the period.
pub proof fn law_heartbeat_budget(interval: nat)
    requires
        24 <= interval <= 36,
    ensures
        interval * (PONG_MISS_LIMIT + 1) >= 60,
{
    assert(interval * (PONG_MISS_LIMIT + 1) == interval * 3);
}

// ---------------------------------------------------------------------------
// One connection
// ---------------------------------------------------------------------------
/// The state of one connection.
pub struct WtConn {
    pub next_sid: u32,
    /// Sessions that run on it.
    pub sessions: usize,
    pub alive: bool,
    /// A Pong came since the last heartbeat.
    pub pong_seen: bool,
    /// Consecutive heartbeats without a Pong.
    pub missed_pings: usize,
    /// UDP associations that take datagrams.
    pub udp: DashMap<u32, ()>,
    /// UDP associations without a reply yet.
    pub pending_udp: DashMap<u32, ()>,
}

/// What to do about a frame of the control stream or a datagram.
#[derive(Debug)]
pub enum WtAction {
    Nothing,
    /// Hand a datagram to the association.
    DeliverUdp(u32, UdpAddr, Vec<u8>),
    /// Tell whoever waits for this association.
    UdpDone(u32, Result<(), OpenError>),
}

/// What to do at a heartbeat.
#[derive(Debug, Clone, Copy, PartialEq, Eq, Structural)]
pub enum Beat {
    /// Send a Ping.
    Ping,
    /// So many heartbeats in a row went unanswered: give the connection up.
    Dead(usize),
}

/// The id cannot be given to a new association.
pub open spec fn udp_id_in_use(c: WtConn, sid: u32) -> bool {
    id_taken(sids(c.udp), sids(c.udp), sid)
}

/// The number of heartbeats without a Pong, counting this one.
pub open spec fn misses(c: WtConn) -> int {
    if c.pong_seen {
        0
    } else {
        c.missed_pings + 1
    }
}

/// The error of a connection that is gone.
pub open spec fn is_closed_error(e: ClientError) -> bool {
    e matches ClientError::Transport(m) && m@ == "connection closed"@
}

impl WtConn {
    /// A new connection; ids start at `first`.
    pub fn new(first: u32) -> (r: Self)
        ensures
            r.next_sid == first,
            r.sessions == 0,
            r.alive,
            !r.pong_seen,
            r.missed_pings == 0,
            sids(r.udp) == Set::<u32>::empty(),
            sids(r.pending_udp) == Set::<u32>::empty(),
    {
        WtConn {
            next_sid: first,
            sessions: 0,
            alive: true,
            pong_seen: false,
            missed_pings: 0,
            udp: sids_new(),
            pending_udp: sids_new(),
        }
    }

    /// Take a session slot. A connection at capacity is healthy: its refusal
    /// is one of the target's kind, so that the caller tries elsewhere.
    pub fn begin_session(&mut self) -> (r: Result<(), ClientError>)
        ensures
            match r {
                Ok(_) => old(self).alive && old(self).sessions < MAX_PER_CONN && *final(self) == (
                WtConn { sessions: (old(self).sessions + 1) as usize, ..*old(self) }),
                Err(e) => *final(self) == *old(self) && if old(self).alive {
                    old(self).sessions >= MAX_PER_CONN && e == ClientError::Target(
                        TargetError(OpenError::Limit),
                    )
                } else {
                    is_closed_error(e)
                },
            },
    {
        if !self.alive {
            return Err(ClientError::Transport(text::own("connection closed")));
        }
        if self.sessions >= MAX_PER_CONN {
            return Err(ClientError::Target(TargetError(OpenError::Limit)));
        }
        self.sessions = self.sessions + 1;
        Ok(())
    }

    /// Give a session slot back: the session is over or was never opened.
    pub fn end_session(&mut self)
        requires
            old(self).sessions > 0,
        ensures
            *final(self) == (WtConn { sessions: (old(self).sessions - 1) as usize, ..*old(self) }),
    {
        self.sessions = self.sessions - 1;
    }

    /// The next id: the first one from `next_sid` on, going round, that is not
    /// zero and belongs to no association. One must be free.
    pub fn alloc_sid(&mut self) -> (r: u32)
        requires
            exists|f: u32| !#[trigger] udp_id_in_use(*old(self), f),
        ensures
            !udp_id_in_use(*old(self), r),
            forall|k: u32|
                steps_to(old(self).next_sid, k) < steps_to(old(self).next_sid, r)
                    ==> #[trigger] udp_id_in_use(*old(self), k),
            *final(self) == (WtConn { next_sid: next_id(r), ..*old(self) }),
    {
        proof {
            let f = choose|f: u32| !#[trigger] udp_id_in_use(*old(self), f);
            assert(!id_taken(sids(self.udp), sids(self.udp), f));
        }
        let v = free_id(self.next_sid, &self.udp, &self.udp);
        self.next_sid = if v == u32::MAX {
            0
        } else {
            v + 1
        };
        assert forall|k: u32|
            steps_to(old(self).next_sid, k) < steps_to(
                old(self).next_sid,
                v,
            ) implies #[trigger] udp_id_in_use(*old(self), k) by {
            assert(id_taken(sids(old(self).udp), sids(old(self).udp), k));
        }
        v
    }

    /// Begin a UDP association: the frame that asks for it.
    pub fn begin_udp(&mut self) -> (r: Result<OutFrame, ClientError>)
        requires
            exists|f: u32| !#[trigger] udp_id_in_use(*old(self), f),
        ensures
            match r {
                Ok(f) => {
                    &&& old(self).alive
                    &&& !udp_id_in_use(*old(self), f.sid)
                    &&& forall|k: u32|
                        steps_to(old(self).next_sid, k) < steps_to(old(self).next_sid, f.sid)
                            ==> #[trigger] udp_id_in_use(*old(self), k)
                    &&& f.is(FrameType::UdpAssociate, 0, f.sid, Seq::<u8>::empty())
                    &&& sids(final(self).pending_udp) == sids(old(self).pending_udp).insert(f.sid)
                    &&& *final(self) == (WtConn {
                        next_sid: next_id(f.sid),
                        pending_udp: final(self).pending_udp,
                        ..*old(self)
                    })
                },
                Err(e) => !old(self).alive && is_closed_error(e) && *final(self) == *old(self),
            },
    {
        if !self.alive {
            return Err(ClientError::Transport(text::own("connection closed")));
        }
        let sid = self.alloc_sid();
        sids_insert(&mut self.pending_udp, sid);
        Ok(OutFrame::new(FrameType::UdpAssociate, 0, sid, Vec::new()))
    }

    /// No reply to the association came, or it could not be asked for.
    pub fn abandon_udp(&mut self, sid: u32)
        ensures
            sids(final(self).pending_udp) == sids(old(self).pending_udp).remove(sid),
            *final(self) == (WtConn { pending_udp: final(self).pending_udp, ..*old(self) }),
    {
        sids_remove(&mut self.pending_udp, sid);
    }

    /// The association stands: it takes datagrams from now on.
    pub fn udp_opened(&mut self, sid: u32)
        ensures
            sids(final(self).udp) == sids(old(self).udp).insert(sid),
            *final(self) == (WtConn { udp: final(self).udp, ..*old(self) }),
    {
        sids_insert(&mut self.udp, sid);
    }

    /// The association is over.
    pub fn end_udp(&mut self, sid: u32)
        ensures
            sids(final(self).udp) == sids(old(self).udp).remove(sid),
            *final(self) == (WtConn { udp: final(self).udp, ..*old(self) }),
    {
        sids_remove(&mut self.udp, sid);
    }

    /// React to a frame of the control stream or a datagram.
    pub fn dispatch(&mut self, f: Frame) -> (r: WtAction)
        ensures
            *final(self) == (WtConn {
                pong_seen: old(self).pong_seen || f.ftype == FrameType::Pong,
                pending_udp: final(self).pending_udp,
                ..*old(self)
            }),
            sids(final(self).pending_udp) == match f.ftype {
                FrameType::UdpOk | FrameType::OpenErr | FrameType::Error => sids(
                    old(self).pending_udp,
                ).remove(f.sid),
                _ => sids(old(self).pending_udp),
            },
            match f.ftype {
                FrameType::UdpData => match addr_decoding(f.payload@, false) {
                    (Ok(src), n) => if sids(old(self).udp).contains(f.sid) {
                        r matches WtAction::DeliverUdp(sid, a, data) && sid == f.sid && a.view()
                            == src && data@ == f.payload@.skip(n as int)
                    } else {
                        r is Nothing
                    },
                    (Err(_), _) => r is Nothing,
                },
                FrameType::UdpOk => if sids(old(self).pending_udp).contains(f.sid) {
                    r == WtAction::UdpDone(f.sid, Ok(()))
                } else {
                    r is Nothing
                },
                FrameType::OpenErr | FrameType::Error => if sids(old(self).pending_udp).contains(
                    f.sid,
                ) {
                    r == WtAction::UdpDone(f.sid, Err(payload_error(f.payload@)))
                } else {
                    r is Nothing
                },
                _ => r is Nothing,
            },
    {
        match f.ftype {
            FrameType::UdpData => {
                let mut rd = Reader::new(f.payload.as_slice());
                match UdpAddr::decode(&mut rd) {
                    Ok(src) => {
                        let data = wire::copy_bytes(rd.rest());
                        if sids_contains(&self.udp, f.sid) {
                            WtAction::DeliverUdp(f.sid, src, data)
                        } else {
                            WtAction::Nothing
                        }
                    },
                    Err(_) => WtAction::Nothing,
                }
            },
            FrameType::UdpOk => {
                if sids_remove(&mut self.pending_udp, f.sid) {
                    WtAction::UdpDone(f.sid, Ok(()))
                } else {
                    WtAction::Nothing
                }
            },
            FrameType::OpenErr | FrameType::Error => {
                let e = code_to_open_error(f.payload.as_slice());
                if sids_remove(&mut self.pending_udp, f.sid) {
                    WtAction::UdpDone(f.sid, Err(e))
                } else {
                    WtAction::Nothing
                }
            },
            FrameType::Pong => {
                self.pong_seen = true;
                WtAction::Nothing
            },
            _ => WtAction::Nothing,
        }
    }

    /// The heartbeat is due: judge whether the last one was answered. The link
    /// may be half-dead while sessions still look fine, so a connection whose
    /// heartbeats go unanswered is given up, for the pool to dial again.
    pub fn heartbeat(&mut self) -> (r: Beat)
        requires
            old(self).missed_pings < usize::MAX,
        ensures
            *final(self) == (WtConn {
                pong_seen: false,
                missed_pings: misses(*old(self)) as usize,
                ..*old(self)
            }),
            r == if misses(*old(self)) >= PONG_MISS_LIMIT {
                Beat::Dead(misses(*old(self)) as usize)
            } else {
                Beat::Ping
            },
    {
        if self.pong_seen {
            self.pong_seen = false;
            self.missed_pings = 0;
            return Beat::Ping;
        }
        let missed: usize = self.missed_pings + 1;
        self.missed_pings = missed;
        if missed >= PONG_MISS_LIMIT {
            Beat::Dead(missed)
        } else {
            Beat::Ping
        }
    }

    /// The connection is dead. Its UDP waiters and routes are dropped, so that
    /// callers fail at once. The result says whether it was alive until now.
    pub fn expire(&mut self) -> (r: bool)
        ensures
            r == old(self).alive,
            sids(final(self).udp) == Set::<u32>::empty(),
            sids(final(self).pending_udp) == Set::<u32>::empty(),
            *final(self) == (WtConn {
                alive: false,
                udp: final(self).udp,
                pending_udp: final(self).pending_udp,
                ..*old(self)
            }),
    {
        let was = self.alive;
        self.alive = false;
        sids_clear(&mut self.pending_udp);
        sids_clear(&mut self.udp);
        was
    }

    /// An open failed with this error. A refusal of the target leaves the
    /// connection healthy; a transport failure marks it dead. The result says
    /// whether to close it.
    pub fn open_failed(&mut self, e: &ClientError) -> (r: bool)
        ensures
            r == (target_of(*e) is None),
            *final(self) == (WtConn { alive: old(self).alive && !r, ..*old(self) }),
    {
        match e {
            ClientError::Target(_) => false,
            ClientError::Transport(_) => {
                self.alive = false;
                true
            },
        }
    }
}

/// The connection after `n` heartbeats without a Pong in between.
pub open spec fn after_silent_beats(c: WtConn, n: nat) -> WtConn
    decreases n,
{
    if n == 0 {
        c
    } else {
        let p = after_silent_beats(c, (n - 1) as nat);
        WtConn { pong_seen: false, missed_pings: misses(p) as usize, ..p }
    }
}

/// A link that falls silent is given up at the limit, counting from its last
/// Pong, and not before.
pub proof fn law_silent_link_is_given_up(c: WtConn, n: nat)
    requires
        c.pong_seen,
        n <= PONG_MISS_LIMIT,
    ensures
        misses(after_silent_beats(c, n)) == n,
{
    reveal_with_fuel(after_silent_beats, 3);
}

/// The log line for a connection that died.
pub fn death_notice(reason: &str) -> (r: String)
    ensures
        r@ == "wt connection dead: "@ + reason@ + gap_hint_spec(reason@),
{
    let mut out = text::own("wt connection dead: ");
    out.append(reason);
    out.append(gap_hint(reason));
    out
}

// ---------------------------------------------------------------------------
// One TCP session
// ---------------------------------------------------------------------------
/// The frame that asks for a TCP session, with a random tail.
pub fn open_request(sid: u32, host: &str, port: u16, padding: &[u8]) -> (r: OutFrame)
    ensures
        r.is(FrameType::Open, 0, sid, open_encoding(host@, port) + padding@),
{
    let mut p = encode_open(host, port);
    wire::push_bytes(&mut p, padding);
    assert(p@ =~= open_encoding(host@, port) + padding@);
    OutFrame::new(FrameType::Open, 0, sid, p)
}

/// The outcome of an open, by the frame that answers it.
pub fn open_outcome(sid: u32, reply: Option<&Frame>) -> (r: Result<(), ClientError>)
    ensures
        match reply {
            Some(f) => if f.sid == sid && f.ftype == FrameType::OpenOk {
                r is Ok
            } else if f.ftype == FrameType::OpenErr {
                r == Err::<(), ClientError>(
                    ClientError::Target(TargetError(payload_error(f.payload@))),
                )
            } else {
                r matches Err(ClientError::Transport(m)) && m@ == "unexpected open reply"@
            },
            None => r matches Err(ClientError::Transport(m)) && m@ == "unexpected open reply"@,
        },
{
    match reply {
        Some(f) => {
            if f.sid == sid && f.ftype == FrameType::OpenOk {
                return Ok(());
            }
            if f.ftype == FrameType::OpenErr {
                let e = code_to_open_error(f.payload.as_slice());
                return Err(ClientError::Target(TargetError(e)));
            }
            Err(ClientError::Transport(text::own("unexpected open reply")))
        },
        None => Err(ClientError::Transport(text::own("unexpected open reply"))),
    }
}

/// What to do about a frame of a session's own stream.
#[derive(Debug)]
pub enum SessionStep {
    Ignore,
    /// Hand the payload to the local side; after it, end when the flag is set.
    Deliver(Vec<u8>, bool),
    End,
}

pub fn session_step(f: Frame) -> (r: SessionStep)
    ensures
        match f.ftype {
            FrameType::Data => r matches SessionStep::Deliver(data, last) && data@ == f.payload@
                && last == (f.flags & FLAG_FIN != 0),
            FrameType::Close => r is End,
            _ => r is Ignore,
        },
{
    match f.ftype {
        FrameType::Data => {
            let last = f.flags & FLAG_FIN != 0;
            SessionStep::Deliver(f.payload, last)
        },
        FrameType::Close => SessionStep::End,
        _ => SessionStep::Ignore,
    }
}

/// The frame for what the local side sent; nothing stands for its end.
pub fn local_frame(sid: u32, read: Option<Vec<u8>>) -> (r: OutFrame)
    ensures
        match read {
            Some(data) => r.is(FrameType::Data, 0, sid, data@),
            None => r.is(FrameType::Close, FLAG_FIN, sid, Seq::<u8>::empty()),
        },
{
    match read {
        Some(data) => OutFrame::new(FrameType::Data, 0, sid, data),
        None => OutFrame::new(FrameType::Close, FLAG_FIN, sid, Vec::new()),
    }
}

// ---------------------------------------------------------------------------
// Pool
// ---------------------------------------------------------------------------
/// What the pool knows of a connection.
#[derive(Debug, Clone, Copy, PartialEq, Eq, Structural)]
pub struct PoolConn {
    pub id: u64,
    pub alive: bool,
    pub sessions: usize,
}

/// The connection can take another session.
pub open spec fn usable(c: PoolConn) -> bool {
    c.alive && c.sessions < MAX_PER_CONN
}

/// The connection for a new session: the first of those with the fewest
/// sessions among the usable ones. Nothing when a new one is to be dialed.
pub fn acquire(conns: &Vec<PoolConn>) -> (r: Option<usize>)
    ensures
        match r {
            Some(i) => {
                &&& i < conns@.len()
                &&& usable(conns@[i as int])
                &&& forall|j: int|
                    0 <= j < conns@.len() && usable(#[trigger] conns@[j]) ==> conns@[i as int].sessions
                        <= conns@[j].sessions
                &&& forall|j: int|
                    0 <= j < i && usable(#[trigger] conns@[j]) ==> conns@[i as int].sessions
                        < conns@[j].sessions
            },
            None => forall|j: int| 0 <= j < conns@.len() ==> !usable(#[trigger] conns@[j]),
        },
{
    let mut best: Option<usize> = None;
    let mut i: usize = 0;
    while i < conns.len()
        invariant
            i <= conns@.len(),
            match best {
                Some(b) => {
                    &&& b < i
                    &&& usable(conns@[b as int])
                    &&& forall|j: int|
                        0 <= j < i && usable(#[trigger] conns@[j]) ==> conns@[b as int].sessions
                            <= conns@[j].sessions
                    &&& forall|j: int|
                        0 <= j < b && usable(#[trigger] conns@[j]) ==> conns@[b as int].sessions
                            < conns@[j].sessions
                },
                None => forall|j: int| 0 <= j < i ==> !usable(#[trigger] conns@[j]),
            },
        decreases conns@.len() - i,
    {
        let c = conns[i];
        if c.alive && c.sessions < MAX_PER_CONN {
            let better = match best {
                Some(b) => c.sessions < conns[b].sessions,
                None => true,
            };
            if better {
                best = Some(i);
            }
        }
        i += 1;
    }
    best
}

/// The connections that are alive, in their order.
pub open spec fn living(conns: Seq<PoolConn>) -> Seq<PoolConn>
    decreases conns.len(),
{
    if conns.len() == 0 {
        conns
    } else if conns.last().alive {
        living(conns.drop_last()).push(conns.last())
    } else {
        living(conns.drop_last())
    }
}

/// Position of the first connection without sessions, or the length.
pub open spec fn first_idle(conns: Seq<PoolConn>) -> int
    decreases conns.len(),
{
    if conns.len() == 0 || conns[0].sessions == 0 {
        0
    } else {
        1 + first_idle(conns.drop_first())
    }
}

/// The pool held to `size`: while it is larger the first connection without
/// sessions leaves; connections in use stay. With it, the numbers of those
/// that left, in the order in which they did.
pub open spec fn trimmed(conns: Seq<PoolConn>, size: nat) -> (Seq<PoolConn>, Seq<u64>)
    decreases conns.len(),
{
    let i = first_idle(conns);
    if conns.len() > size && 0 <= i < conns.len() {
        let (kept, gone) = trimmed(conns.remove(i), size);
        (kept, seq![conns[i].id] + gone)
    } else {
        (conns, Seq::empty())
    }
}

proof fn lemma_first_idle(conns: Seq<PoolConn>, i: int)
    requires
        0 <= i <= conns.len(),
        forall|j: int| 0 <= j < i ==> (#[trigger] conns[j]).sessions != 0,
        i < conns.len() ==> conns[i].sessions == 0,
    ensures
        first_idle(conns) == i,
    decreases conns.len(),
{
    if i > 0 {
        let t = conns.drop_first();
        assert(conns[0].sessions != 0);
        assert forall|j: int| 0 <= j < i - 1 implies (#[trigger] t[j]).sessions != 0 by {
            assert(t[j] == conns[j + 1]);
        }
        if i < conns.len() {
            assert(t[i - 1] == conns[i]);
        }
        lemma_first_idle(t, i - 1);
    }
}

/// Trimming never takes a connection that carries sessions, and what it leaves
/// fits the size unless every connection left is in use.
pub proof fn law_trimming_spares_used_connections(conns: Seq<PoolConn>, size: nat, c: PoolConn)
    ensures
        c.sessions > 0 && conns.contains(c) ==> trimmed(conns, size).0.contains(c),
        trimmed(conns, size).0.contains(c) ==> conns.contains(c),
        trimmed(conns, size).0.len() > size && trimmed(conns, size).0.contains(c) ==> c.sessions
            > 0,
    decreases conns.len(),
{
    let i = first_idle(conns);
    lemma_first_idle_bounds(conns);
    if conns.len() > size && 0 <= i < conns.len() {
        let rest = conns.remove(i);
        law_trimming_spares_used_connections(rest, size, c);
        if conns.contains(c) && c.sessions > 0 {
            let k = choose|k: int| 0 <= k < conns.len() && conns[k] == c;
            if k < i {
                assert(rest[k] == c);
            } else {
                assert(rest[k - 1] == c);
            }
        }
        if rest.contains(c) {
            let k = choose|k: int| 0 <= k < rest.len() && rest[k] == c;
            if k < i {
                assert(conns[k] == c);
            } else {
                assert(conns[k + 1] == c);
            }
        }
    }
}

proof fn lemma_first_idle_bounds(conns: Seq<PoolConn>)
    ensures
        0 <= first_idle(conns) <= conns.len(),
        first_idle(conns) < conns.len() ==> conns[first_idle(conns)].sessions == 0,
        forall|j: int| 0 <= j < first_idle(conns) ==> (#[trigger] conns[j]).sessions != 0,
    decreases conns.len(),
{
    if conns.len() > 0 && conns[0].sessions != 0 {
        let t = conns.drop_first();
        lemma_first_idle_bounds(t);
        assert forall|j: int| 0 <= j < first_idle(conns) implies (#[trigger] conns[j]).sessions
            != 0 by {
            if j > 0 {
                assert(t[j - 1] == conns[j]);
            }
        }
        if first_idle(conns) < conns.len() {
            assert(t[first_idle(t)] == conns[first_idle(conns)]);
        }
    }
}

/// Drop the dead connections.
pub fn drop_dead(conns: &mut Vec<PoolConn>)
    ensures
        final(conns)@ == living(old(conns)@),
{
    let mut kept: Vec<PoolConn> = Vec::new();
    let mut i: usize = 0;
    assert(conns@.take(0) =~= Seq::<PoolConn>::empty());
    while i < conns.len()
        invariant
            i <= conns@.len(),
            conns@ == old(conns)@,
            kept@ == living(conns@.take(i as int)),
        decreases conns@.len() - i,
    {
        let c = conns[i];
        assert(conns@.take(i + 1).drop_last() =~= conns@.take(i as int));
        if c.alive {
            kept.push(c);
        }
        i += 1;
    }
    assert(conns@.take(i as int) =~= conns@);
    *conns = kept;
}

/// One round of maintenance on the pool: dead connections are dropped, surplus
/// ones without sessions are retired. The result names the retired ones.
pub fn maintain(conns: &mut Vec<PoolConn>, size: usize) -> (r: Vec<u64>)
    ensures
        (final(conns)@, r@) == trimmed(living(old(conns)@), size as nat),
{
    drop_dead(conns);
    let ghost start = conns@;
    let mut gone: Vec<u64> = Vec::new();
    while conns.len() > size
        invariant_except_break
            trimmed(start, size as nat) == ({
                let (kept, later) = trimmed(conns@, size as nat);
                (kept, gone@ + later)
            }),
        ensures
            trimmed(start, size as nat) == (conns@, gone@),
        decreases conns@.len(),
    {
        let mut i: usize = 0;
        while i < conns.len() && conns[i].sessions != 0
            invariant
                i <= conns@.len(),
                forall|j: int| 0 <= j < i ==> (#[trigger] conns@[j]).sessions != 0,
            decreases conns@.len() - i,
        {
            i += 1;
        }
        proof {
            lemma_first_idle(conns@, i as int);
        }
        if i >= conns.len() {
            assert(gone@ + Seq::<u64>::empty() =~= gone@);
            break;
        }
        let ghost before = conns@;
        let ghost had = gone@;
        let victim = conns.remove(i);
        gone.push(victim.id);
        proof {
            let later = trimmed(conns@, size as nat).1;
            assert(had + (seq![victim.id] + later) =~= gone@ + later);
        }
    }
    gone
}

/// A connection was dialed on demand: it joins those that are alive.
pub fn add_conn(conns: &mut Vec<PoolConn>, c: PoolConn)
    ensures
        final(conns)@ == living(old(conns)@).push(c),
{
    drop_dead(conns);
    conns.push(c);
}

// ---------------------------------------------------------------------------
// Refills
// ---------------------------------------------------------------------------
/// How often the pool is looked after, and the first pause after failed dials.
pub const BASE_BACKOFF: u64 = 10_000;

/// Longest pause after failed dials.
pub const MAX_BACKOFF: u64 = 300_000;

/// Exponential backoff of the pool's refills while the server is unreachable.
#[derive(Debug, Clone, Copy, PartialEq, Eq, Structural)]
pub struct Backoff {
    pub delay: u64,
    /// No refill is tried before this time.
    pub next_attempt: u64,
}

/// The pause after one more failed round of dials.
pub open spec fn longer_delay(delay: nat) -> nat {
    if delay * 2 > MAX_BACKOFF {
        MAX_BACKOFF as nat
    } else {
        delay * 2
    }
}

/// The pause after `n` failed rounds in a row.
pub open spec fn delay_after(n: nat) -> nat
    decreases n,
{
    if n == 0 {
        BASE_BACKOFF as nat
    } else {
        longer_delay(delay_after((n - 1) as nat))
    }
}

/// Pauses start at twice the base, grow without ever shrinking, and stay
/// within the longest one.
pub proof fn law_backoff_grows_to_its_bound(n: nat)
    ensures
        BASE_BACKOFF <= delay_after(n) <= MAX_BACKOFF,
        delay_after(n) <= delay_after(n + 1),
        n >= 5 ==> delay_after(n) == MAX_BACKOFF,
    decreases n,
{
    if n > 0 {
        law_backoff_grows_to_its_bound((n - 1) as nat);
    }
    reveal_with_fuel(delay_after, 6);
}

impl Backoff {
    pub open spec fn wf(self) -> bool {
        BASE_BACKOFF <= self.delay <= MAX_BACKOFF
    }

    pub fn new(now: u64) -> (r: Self)
        ensures
            r.wf(),
            r == (Backoff { delay: BASE_BACKOFF, next_attempt: now }),
    {
        Backoff { delay: BASE_BACKOFF, next_attempt: now }
    }

    /// How many connections to dial now, when `alive` of `size` stand. A full
    /// pool resets the backoff.
    pub fn plan(&mut self, alive: usize, size: usize, now: u64) -> (r: usize)
        requires
            old(self).wf(),
        ensures
            final(self).wf(),
            if alive >= size {
                r == 0 && *final(self) == (Backoff { delay: BASE_BACKOFF, next_attempt: now })
            } else {
                *final(self) == *old(self) && r == if now < old(self).next_attempt {
                    0
                } else {
                    size - alive
                }
            },
    {
        if alive >= size {
            self.delay = BASE_BACKOFF;
            self.next_attempt = now;
            return 0;
        }
        if now < self.next_attempt {
            return 0;
        }
        size - alive
    }

    /// A round of dials is over. One success resets the backoff.
    pub fn dialed(&mut self, any_ok: bool, now: u64)
        requires
            old(self).wf(),
            now + MAX_BACKOFF <= u64::MAX,
        ensures
            final(self).wf(),
            final(self).delay == if any_ok {
                BASE_BACKOFF as nat
            } else {
                longer_delay(old(self).delay as nat)
            },
            final(self).next_attempt == if any_ok {
                now as int
            } else {
                now + final(self).delay
            },
    {
        if any_ok {
            self.delay = BASE_BACKOFF;
            self.next_attempt = now;
        } else {
            let d: u64 = self.delay * 2;
            self.delay = if d > MAX_BACKOFF {
                MAX_BACKOFF
            } else {
                d
            };
            self.next_attempt = now + self.delay;
        }
    }
}

/// A connection takes sessions while it lives, up to fifty at a time.
pub proof fn law_sessions_of_a_connection(c: PoolConn)
    ensures
        !c.alive ==> !usable(c),
        c.alive && c.sessions < 50 ==> usable(c),
        c.sessions >= 50 ==> !usable(c),
        MAX_PER_CONN == 50,
{
}

/// A heartbeat comes every 24 to 36 seconds. A link that answered is asked
/// again; the second heartbeat in a row without an answer ends it.
pub proof fn law_two_misses_end_a_link(c: WtConn, jitter: int)
    requires
        c.pong_seen,
    ensures
        misses(c) == 0,
        misses(after_silent_beats(c, 0)) < PONG_MISS_LIMIT,
        misses(after_silent_beats(c, 1)) == 1,
        misses(after_silent_beats(c, 1)) < PONG_MISS_LIMIT,
        misses(after_silent_beats(c, 2)) == 2,
        misses(after_silent_beats(c, 2)) >= PONG_MISS_LIMIT,
        after_silent_beats(c, 2).alive == c.alive && after_silent_beats(c, 2).sessions == c.sessions,
        -HEARTBEAT_BAND <= jitter <= HEARTBEAT_BAND <==> 24 <= HEARTBEAT_SECS + jitter <= 36,
{
    reveal_with_fuel(after_silent_beats, 3);
}

/// The living connections are all that live, in their order.
pub proof fn law_living_connections(a: Seq<PoolConn>, b: Seq<PoolConn>, c: PoolConn)
    ensures
        living(a).contains(c) <==> a.contains(c) && c.alive,
        living(a + b) == living(a) + living(b),
        (forall|i: int| 0 <= i < a.len() ==> (#[trigger] a[i]).alive) ==> living(a) == a,
    decreases a.len() + b.len(),
{
    if a.len() > 0 {
        let d = a.drop_last();
        law_living_connections(d, Seq::empty(), c);
        assert(d + Seq::<PoolConn>::empty() =~= d);
        let t = living(d);
        assert(a[a.len() - 1] == a.last());
        if a.contains(c) {
            let i = choose|i: int| 0 <= i < a.len() && a[i] == c;
            if i < d.len() {
                assert(d[i] == c);
            }
        }
        if d.contains(c) {
            let i = choose|i: int| 0 <= i < d.len() && d[i] == c;
            assert(a[i] == c);
        }
        if a.last().alive {
            let r = t.push(a.last());
            if t.contains(c) {
                let i = choose|i: int| 0 <= i < t.len() && t[i] == c;
                assert(r[i] == c);
            }
            if a.last() == c {
                assert(r[t.len() as int] == c);
            }
            if r.contains(c) {
                let i = choose|i: int| 0 <= i < r.len() && r[i] == c;
                if i < t.len() {
                    assert(t[i] == c);
                }
            }
        }
        if forall|i: int| 0 <= i < a.len() ==> (#[trigger] a[i]).alive {
            assert forall|i: int| 0 <= i < d.len() implies (#[trigger] d[i]).alive by {
                assert(d[i] == a[i]);
            }
            assert(d.push(a.last()) =~= a);
        }
    }
    if b.len() > 0 {
        let e = b.drop_last();
        law_living_connections(a, e, c);
        assert((a + b).drop_last() =~= a + e);
        assert((a + b).last() == b.last());
        if b.last().alive {
            assert((living(a) + living(e)).push(b.last()) =~= living(a) + living(e).push(b.last()));
        }
    } else {
        assert(a + b =~= a);
        assert(living(a) + living(b) =~= living(a));
    }
}

/// Maintenance retires no more connections than are too many, and does not stop
/// while one too many has no session.
pub proof fn law_trimming_stops_in_time(conns: Seq<PoolConn>, size: nat)
    ensures
        trimmed(conns, size).0.len() + trimmed(conns, size).1.len() == conns.len(),
        conns.len() <= size ==> trimmed(conns, size) == (conns, Seq::<u64>::empty()),
        conns.len() >= size ==> trimmed(conns, size).0.len() >= size,
        trimmed(conns, size).0.len() > size ==> forall|i: int|
            0 <= i < trimmed(conns, size).0.len() ==> (#[trigger] trimmed(
                conns,
                size,
            ).0[i]).sessions > 0,
    decreases conns.len(),
{
    let i = first_idle(conns);
    lemma_idle_is_first(conns);
    if conns.len() > size && 0 <= i < conns.len() {
        law_trimming_stops_in_time(conns.remove(i), size);
    }
}

proof fn lemma_idle_is_first(conns: Seq<PoolConn>)
    ensures
        0 <= first_idle(conns) <= conns.len(),
        first_idle(conns) == conns.len() ==> forall|i: int|
            0 <= i < conns.len() ==> (#[trigger] conns[i]).sessions > 0,
    decreases conns.len(),
{
    if conns.len() > 0 && conns[0].sessions != 0 {
        let d = conns.drop_first();
        lemma_idle_is_first(d);
        if first_idle(conns) == conns.len() {
            assert forall|i: int| 0 <= i < conns.len() implies (#[trigger] conns[i]).sessions
                > 0 by {
                if i > 0 {
                    assert(d[i - 1] == conns[i]);
                }
            }
        }
    }
}

/// The pause after failed dials begins with ten seconds and doubles with each
/// further failure, up to five minutes.
pub proof fn law_pauses_double(n: nat)
    ensures
        delay_after(0) == 10_000,
        2 * delay_after(n) <= 300_000 ==> delay_after(n + 1) == 2 * delay_after(n),
        2 * delay_after(n) > 300_000 ==> delay_after(n + 1) == 300_000,
        delay_after(4) == 160_000,
        delay_after(5) == 300_000,
{
    reveal_with_fuel(delay_after, 6);
    assert(delay_after(1) == 20_000);
    assert(delay_after(2) == 40_000);
    assert(delay_after(3) == 80_000);
}

/// What a session on a dead connection is told; no refusal of a target reads so.
pub proof fn law_dead_connections_say_so(e: ClientError, m: String)
    ensures
        is_closed_error(ClientError::Transport(m)) <==> m@ == "connection closed"@,
        is_closed_error(e) ==> e is Transport,
{
}

/// An id of an association is in use while datagrams are routed by it; zero is
/// no id.
pub proof fn law_ids_of_associations(c: WtConn, sid: u32)
    ensures
        udp_id_in_use(c, 0),
        sid != 0 ==> (udp_id_in_use(c, sid) <==> sids(c.udp).contains(sid)),
{
}

} // verus!
