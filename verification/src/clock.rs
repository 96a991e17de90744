//! Internal UTC clock with SNTP calibration.
//!
//! Auth timestamps must agree between client and server within a window, but
//! both may run on hosts with skewed clocks. The process keeps its own notion
//! of UTC: the system clock plus an offset that is measured against a time
//! server now and then. The offset is 0 until the first successful round.

use vstd::prelude::*;

use crate::text;
use crate::wire;

verus! {

/// Default NTP server pool.
pub const DEFAULT_NTP_SERVER: &'static str = "pool.ntp.org";

/// Seconds between rounds of calibration.
pub const SYNC_INTERVAL_SECS: u64 = 3600;

/// Queries per round: single datagrams are lost now and then.
pub const SYNC_ATTEMPTS: u32 = 3;

/// Pause between queries of a round, in seconds.
pub const RETRY_PAUSE_SECS: u64 = 2;

/// How long a reply is waited for, in seconds.
pub const QUERY_TIMEOUT_SECS: u64 = 5;

/// Length of a request and of a reply.
pub const NTP_PACKET_LEN: usize = 48;

/// Seconds between 1900-01-01 and 1970-01-01.
pub const NTP_UNIX_DELTA: u64 = 2_208_988_800;

/// The port of the time service.
pub const NTP_PORT: u16 = 123;

// ---------------------------------------------------------------------------
// Time
// ---------------------------------------------------------------------------
/// Seconds since the Unix epoch: the system's count and the offset, never
/// below zero.
pub open spec fn calibrated(sys: i64, offset: i64) -> int {
    if sys + offset < 0 {
        0
    } else {
        sys + offset
    }
}

/// The system's count of seconds with the offset applied. The sum must fit.
pub fn apply_offset(sys: i64, offset: i64) -> (r: u64)
    requires
        i64::MIN <= sys + offset <= i64::MAX,
    ensures
        r == calibrated(sys, offset),
{
    let t: i64 = sys + offset;
    if t < 0 {
        0
    } else {
        t as u64
    }
}

/// `SystemTime::elapsed` since the Unix epoch, in milliseconds; nothing when
/// the clock stands before it.
#[verifier::external_body]
pub(crate) fn system_millis() -> (r: Option<u128>) {
    std::time::SystemTime::UNIX_EPOCH.elapsed().ok().map(|d| d.as_millis())
}

/// Whole seconds of a reading of the system clock: 0 before the epoch, and
/// beyond what 63 bits count.
pub open spec fn whole_seconds(millis: Option<u128>) -> i64 {
    match millis {
        Some(m) => if m / 1000 <= i64::MAX {
            (m / 1000) as i64
        } else {
            0
        },
        None => 0,
    }
}

/// Seconds since the Unix epoch for a reading of the system clock and an
/// offset; 0 where the sum is no count of 63 bits.
pub open spec fn unix_seconds_spec(millis: Option<u128>, offset: i64) -> int {
    if whole_seconds(millis) + offset > i64::MAX {
        0
    } else {
        calibrated(whole_seconds(millis), offset)
    }
}

/// The time for a reading of the system clock, in milliseconds since the Unix
/// epoch, and an offset.
pub fn unix_seconds(millis: Option<u128>, offset: i64) -> (r: u64)
    ensures
        r == unix_seconds_spec(millis, offset),
{
    let sys: i64 = match millis {
        Some(m) => {
            let s: u128 = m / 1000;
            if s <= i64::MAX as u128 {
                s as i64
            } else {
                0
            }
        },
        None => 0,
    };
    match sys.checked_add(offset) {
        Some(_) => apply_offset(sys, offset),
        None => 0,
    }
}

/// `t` is what the calibrated clock shows for some reading of the system clock.
pub open spec fn is_reading(clock: Clock, t: u64) -> bool {
    exists|m: Option<u128>| t == #[trigger] unix_seconds_spec(m, clock.offset)
}

/// Seconds since the Unix epoch by the calibrated clock: the system clock and
/// the offset.
pub fn now_unix(clock: &Clock) -> (r: u64)
    ensures
        is_reading(*clock, r),
{
    clock.now_unix()
}

/// The calibration of the process.
#[derive(Debug, Clone, Copy, PartialEq, Eq, Structural)]
pub struct Clock {
    /// Seconds to add to the system clock.
    pub offset: i64,
}

/// What follows a query of a calibration round.
#[derive(Debug, Clone, Copy, PartialEq, Eq, Structural)]
pub enum SyncStep {
    /// Calibrated; the flag says whether the offset changed.
    Synced(bool),
    /// Pause, then query again.
    Retry,
    /// All queries failed: keep the old offset until the next round.
    GiveUp,
}

impl Clock {
    pub fn new() -> (r: Self)
        ensures
            r.offset == 0,
    {
        Clock { offset: 0 }
    }

    /// Seconds since the Unix epoch by the calibrated clock.
    pub fn now_unix(&self) -> (r: u64)
        ensures
            is_reading(*self, r),
    {
        let m = system_millis();
        unix_seconds(m, self.offset)
    }

    /// Query number `attempt` of a round is over: with a measured offset, or
    /// without one.
    pub fn sync_step(&mut self, attempt: u32, measured: Option<i64>) -> (r: SyncStep)
        ensures
            match measured {
                Some(off) => r == SyncStep::Synced(old(self).offset != off),
                None => r == if attempt < SYNC_ATTEMPTS {
                    SyncStep::Retry
                } else {
                    SyncStep::GiveUp
                },
            },
            final(self).offset == after_query(old(self).offset, measured),
    {
        match measured {
            Some(off) => {
                let changed = self.offset != off;
                self.offset = off;
                SyncStep::Synced(changed)
            },
            None => if attempt < SYNC_ATTEMPTS {
                SyncStep::Retry
            } else {
                SyncStep::GiveUp
            },
        }
    }
}

/// The offset after a query that measured this, or nothing.
pub open spec fn after_query(offset: i64, measured: Option<i64>) -> i64 {
    match measured {
        Some(off) => off,
        None => offset,
    }
}

/// The offset after a round with these queries; the first that measures ends
/// it.
pub open spec fn after_round(offset: i64, round: Seq<Option<i64>>) -> i64
    decreases round.len(),
{
    if round.len() == 0 {
        offset
    } else if round[0] is Some {
        after_query(offset, round[0])
    } else {
        after_round(after_query(offset, round[0]), round.drop_first())
    }
}

/// A round in which every query fails keeps the offset.
pub proof fn law_failed_round_keeps_the_offset(offset: i64, round: Seq<Option<i64>>)
    requires
        forall|i: int| 0 <= i < round.len() ==> (#[trigger] round[i]) is None,
    ensures
        after_round(offset, round) == offset,
    decreases round.len(),
{
    if round.len() > 0 {
        assert(round[0] is None);
        let t = round.drop_first();
        assert forall|i: int| 0 <= i < t.len() implies (#[trigger] t[i]) is None by {
            assert(t[i] == round[i + 1]);
        }
        law_failed_round_keeps_the_offset(offset, t);
    }
}

// ---------------------------------------------------------------------------
// Queries
// ---------------------------------------------------------------------------
/// The text ends in a colon and a port.
pub open spec fn has_port(server: Seq<char>) -> bool {
    let i = text::rfind(server, ':');
    i >= 0 && text::parse_unsigned(server.skip(i + 1), 65535) is Some
}

/// The address to query: the given one, with the port of the time service
/// unless it carries a port already.
pub fn ntp_address(server: &str) -> (r: String)
    ensures
        r@ == if has_port(server@) {
            server@
        } else {
            server@ + ":123"@
        },
{
    let v = text::chars_of(server);
    let c = v.as_slice();
    let given = match text::rfind_char(c, ':') {
        Some(i) => {
            let p = text::part(c, i + 1, c.len());
            assert(p@ =~= server@.skip(i + 1));
            text::parse_number(p, 65535).is_some()
        },
        None => false,
    };
    let mut out = text::own(server);
    if !given {
        out.append(":123");
    }
    out
}

/// A client request: version 4, client mode, and the time of sending at its
/// end.
pub open spec fn request_spec(secs: u32, frac: u32) -> Seq<u8> {
    seq![0x23u8] + Seq::new(39, |i: int| 0u8) + wire::be(secs as nat, 4) + wire::be(frac as nat, 4)
}

/// The request, with the time of sending as seconds since 1900 and their
/// fraction in units of 2^-32.
pub fn sntp_request(secs: u32, frac: u32) -> (r: Vec<u8>)
    ensures
        r@ == request_spec(secs, frac),
        r@.len() == NTP_PACKET_LEN,
{
    let mut v: Vec<u8> = Vec::new();
    v.push(0x23);
    let mut i: usize = 1;
    while i < 40
        invariant
            1 <= i <= 40,
            v@ =~= seq![0x23u8] + Seq::new((i - 1) as nat, |k: int| 0u8),
        decreases 40 - i,
    {
        v.push(0);
        i += 1;
    }
    wire::push_be(&mut v, secs as u64, 4);
    wire::push_be(&mut v, frac as u64, 4);
    proof {
        wire::lemma_be_len(secs as nat, 4);
        wire::lemma_be_len(frac as nat, 4);
        assert(v@ =~= request_spec(secs, frac));
    }
    v
}

/// Why a reply is of no use.
#[derive(Debug, Clone, Copy, PartialEq, Eq, Structural)]
pub enum SntpError {
    Short(usize),
    /// The mode is not that of a server.
    NotServer,
    /// The server time is missing.
    NoTimestamp,
}

/// What a reply says: the server time as seconds since 1900 and their
/// fraction.
pub open spec fn reply_spec(b: Seq<u8>) -> Result<(u32, u32), SntpError> {
    let secs = wire::be_value(b.subrange(32, 36)) as u32;
    let frac = wire::be_value(b.subrange(36, 40)) as u32;
    if b.len() < NTP_PACKET_LEN {
        Err(SntpError::Short(b.len() as usize))
    } else if b[0] % 8 != 4 {
        Err(SntpError::NotServer)
    } else if secs == 0 {
        Err(SntpError::NoTimestamp)
    } else {
        Ok((secs, frac))
    }
}

/// Read a reply.
pub fn sntp_reply(b: &[u8]) -> (r: Result<(u32, u32), SntpError>)
    ensures
        r == reply_spec(b@),
{
    if b.len() < NTP_PACKET_LEN {
        return Err(SntpError::Short(b.len()));
    }
    if b[0] % 8 != 4 {
        return Err(SntpError::NotServer);
    }
    let s = wire::slice(b, 32, 36);
    let f = wire::slice(b, 36, 40);
    proof {
        wire::lemma_be_value_bound(s@);
        wire::lemma_be_value_bound(f@);
        wire::lemma_pow256();
    }
    let secs: u32 = wire::read_be(s) as u32;
    let frac: u32 = wire::read_be(f) as u32;
    if secs == 0 {
        return Err(SntpError::NoTimestamp);
    }
    Ok((secs, frac))
}

/// The time is the system's whole seconds and the offset, and never before the
/// epoch.
pub proof fn law_time_is_system_and_offset(m: u128, offset: i64)
    requires
        m / 1000 <= i64::MAX,
        m / 1000 + offset <= i64::MAX,
    ensures
        m / 1000 + offset >= 0 ==> unix_seconds_spec(Some(m), offset) == m / 1000 + offset,
        m / 1000 + offset < 0 ==> unix_seconds_spec(Some(m), offset) == 0,
        offset >= 0 ==> unix_seconds_spec(None, offset) == offset,
        offset < 0 ==> unix_seconds_spec(None, offset) == 0,
{
}

/// The first query of a round that measures sets the offset, whatever the
/// earlier ones and the old offset were.
pub proof fn law_first_measurement_counts(offset: i64, failed: nat, measured: i64, rest: Seq<Option<i64>>)
    ensures
        after_round(
            offset,
            Seq::new(failed, |i: int| None::<i64>) + seq![Some(measured)] + rest,
        ) == measured,
    decreases failed,
{
    let s = Seq::new(failed, |i: int| None::<i64>) + seq![Some(measured)] + rest;
    if failed > 0 {
        let t = Seq::new((failed - 1) as nat, |i: int| None::<i64>) + seq![Some(measured)] + rest;
        assert(s.drop_first() =~= t);
        law_first_measurement_counts(offset, (failed - 1) as nat, measured, rest);
    } else {
        assert(s[0] == Some(measured));
    }
}

/// A name without a colon has no port, and one with a colon and a number behind
/// it does.
pub proof fn law_ports_of_time_servers(name: Seq<char>, port: u16)
    requires
        !name.contains(':'),
    ensures
        !has_port(name),
        has_port(name + ":"@ + text::decimal(port as nat)),
{
    reveal_strlit(":");
    text::lemma_rfind(name, ':');
    if text::rfind(name, ':') >= 0 {
        assert(name.contains(name[text::rfind(name, ':')]));
    }
    let d = text::decimal(port as nat);
    let s = name + ":"@ + d;
    let n = name.len() as int;
    text::lemma_decimal(port as nat);
    text::lemma_decimal_roundtrip(port as nat, 65535);
    assert forall|j: int| n < j < s.len() implies s[j] != ':' by {
        assert(s[j] == d[j - n - 1]);
        assert(text::is_digit(d[j - n - 1]));
    }
    assert(s[n] == ':');
    text::lemma_rfind_is(s, ':', n);
    assert(s.skip(n + 1) =~= d);
}

/// A reply of 48 bytes in server mode says what its bytes 32 to 39 hold; a
/// shorter one, one in another mode and one without a time are of no use.
pub proof fn law_replies_hold_the_time(b: Seq<u8>)
    requires
        b.len() >= 40,
    ensures
        ({
            let secs = wire::be_value(b.subrange(32, 36)) as u32;
            let frac = wire::be_value(b.subrange(36, 40)) as u32;
            &&& b.len() < 48 ==> reply_spec(b) is Err
            &&& b.len() >= 48 && b[0] % 8 != 4 ==> reply_spec(b) is Err
            &&& b.len() >= 48 && b[0] % 8 == 4 && secs != 0 ==> reply_spec(b) == Ok::<
                (u32, u32),
                SntpError,
            >((secs, frac))
            &&& secs == 0 ==> reply_spec(b) is Err
        }),
{
}

/// A request is 48 bytes: the mode of a client in version 4, and at its end the
/// time of sending.
pub proof fn law_requests_hold_the_time(secs: u32, frac: u32)
    ensures
        ({
            let b = request_spec(secs, frac);
            &&& b.len() == 48
            &&& b[0] / 64 == 0 && b[0] / 8 % 8 == 4 && b[0] % 8 == 3
            &&& wire::be_value(b.subrange(40, 44)) == secs
            &&& wire::be_value(b.subrange(44, 48)) == frac
        }),
{
    wire::lemma_pow256();
    wire::lemma_be_roundtrip(secs as nat, 4);
    wire::lemma_be_roundtrip(frac as nat, 4);
    let b = request_spec(secs, frac);
    assert(b.subrange(40, 44) =~= wire::be(secs as nat, 4));
    assert(b.subrange(44, 48) =~= wire::be(frac as nat, 4));
}

/// Time servers count from the year 1900: seventy years, seventeen of them with
/// a leap day, before 1970. They are asked at port 123, every hour, three times
/// before an hour is given up.
pub proof fn law_numbers_of_the_time_protocol()
    ensures
        NTP_UNIX_DELTA == (70 * 365 + 17) * 24 * 60 * 60,
        NTP_PORT == 123,
        NTP_PACKET_LEN == 48,
        SYNC_INTERVAL_SECS == 60 * 60,
        SYNC_ATTEMPTS == 3,
        RETRY_PAUSE_SECS == 2,
        QUERY_TIMEOUT_SECS == 5,
{
}

/// A time that a signed number of 64 bits cannot hold counts as no time; every
/// reading of a clock is the system's time and the offset.
pub proof fn law_readings_of_a_clock(c: Clock, m: Option<u128>, t: u64)
    requires
        m matches Some(x) && x / 1000 <= 0x7fff_ffff_ffff_ffff,
    ensures
        m->0 / 1000 + c.offset > 0x7fff_ffff_ffff_ffff ==> unix_seconds_spec(m, c.offset) == 0,
        is_reading(c, t) <==> exists|k: Option<u128>| t == #[trigger] unix_seconds_spec(k, c.offset),
{
}

/// Between its first byte and its time a request holds nothing but zeros.
pub proof fn law_requests_are_blank(secs: u32, frac: u32, i: int)
    requires
        1 <= i < 40,
    ensures
        request_spec(secs, frac)[i] == 0,
{
    wire::lemma_be_len(secs as nat, 4);
    wire::lemma_be_len(frac as nat, 4);
}

} // verus!
