//! Outbound transport selection with automatic degradation: WebTransport
//! first, the HTTPS fallback when it fails.
//!
//! Times are milliseconds of one monotonic clock of the caller.

use vstd::prelude::*;

use crate::config::{is_ws_url, ClientConfig};
use crate::proto::mux::OpenError;
use crate::text;

verus! {

// ---------------------------------------------------------------------------
// Errors
// ---------------------------------------------------------------------------
/// Per-target failure reported by the server for one session (dial refused,
/// bad target, limit). It does not depend on the transport: the fallback
/// reaches the same server and dials the same target.
#[derive(Debug, Clone, Copy, PartialEq, Eq, Structural)]
pub struct TargetError(pub OpenError);

/// Why a session could not be opened.
#[derive(Debug)]
pub enum ClientError {
    /// The server answered, and refused the target.
    Target(TargetError),
    /// The transport failed, with what is known of it.
    Transport(String),
}

/// What a refusal is called, in words.
pub open spec fn refusal_text(e: OpenError) -> Seq<char> {
    match e {
        OpenError::DialFailed => "target refused: dial failed"@,
        OpenError::Limit => "target refused: session limit reached"@,
        OpenError::BadTarget => "target refused: invalid target"@,
        OpenError::Denied => "target refused: denied"@,
    }
}

impl TargetError {
    /// What went wrong, in words.
    pub fn message(self) -> (r: &'static str)
        ensures
            r@ == refusal_text(self.0),
    {
        match self.0 {
            OpenError::DialFailed => "target refused: dial failed",
            OpenError::Limit => "target refused: session limit reached",
            OpenError::BadTarget => "target refused: invalid target",
            OpenError::Denied => "target refused: denied",
        }
    }

    /// Whether switching to the fallback could plausibly succeed. Dial and
    /// target errors fail identically on any transport; a limit may clear on a
    /// fresh connection.
    pub fn fallback_worthwhile(self) -> (r: bool)
        ensures
            r == (self.0 == OpenError::Limit),
    {
        matches!(self.0, OpenError::Limit)
    }
}

/// The refusal that an error is, when it is one.
pub open spec fn target_of(e: ClientError) -> Option<TargetError> {
    match e {
        ClientError::Target(t) => Some(t),
        ClientError::Transport(_) => None,
    }
}

/// Classify an error: `Some` when it is a per-target refusal.
pub fn target_error(e: &ClientError) -> (r: Option<TargetError>)
    ensures
        r == target_of(*e),
{
    match e {
        ClientError::Target(t) => Some(*t),
        ClientError::Transport(_) => None,
    }
}

/// The short name under which a failure is reported to local clients.
pub open spec fn tag_of(e: ClientError) -> Seq<char> {
    match e {
        ClientError::Target(t) => match t.0 {
            OpenError::DialFailed => "dial-failed"@,
            OpenError::Limit => "session-limit"@,
            OpenError::BadTarget => "bad-target"@,
            OpenError::Denied => "private-target-denied"@,
        },
        ClientError::Transport(_) => "transport"@,
    }
}

pub fn error_tag(e: &ClientError) -> (r: &'static str)
    ensures
        r@ == tag_of(*e),
{
    match e {
        ClientError::Target(t) => match t.0 {
            OpenError::DialFailed => "dial-failed",
            OpenError::Limit => "session-limit",
            OpenError::BadTarget => "bad-target",
            OpenError::Denied => "private-target-denied",
        },
        ClientError::Transport(_) => "transport",
    }
}

// ---------------------------------------------------------------------------
// Circuit breaker
// ---------------------------------------------------------------------------
/// How many consecutive transport failures trip the breaker.
pub const BREAKER_THRESHOLD: u32 = 3;

/// How long the primary path stays skipped afterwards, in milliseconds.
pub const BREAKER_COOLDOWN: u64 = 60_000;

/// What a breaker knows.
pub ghost struct Breaker {
    pub failures: nat,
    /// Set while tripped: one probe is let through from then on.
    pub until: Option<nat>,
    /// Set while a probe is out: the next one has to wait until then, should
    /// this one never report.
    pub probe: Option<nat>,
    pub threshold: nat,
    pub cooldown: nat,
}

/// The primary path may be attempted at `now`.
pub open spec fn may_try(b: Breaker, now: nat) -> bool {
    match (b.until, b.probe) {
        (Some(t), Some(p)) => now >= t && now >= p,
        (Some(t), None) => now >= t,
        (None, _) => true,
    }
}

/// The cooldown is not over yet.
pub open spec fn cooling(b: Breaker, now: nat) -> bool {
    b.until matches Some(t) && now < t
}

/// The primary path is asked for at `now`: where the breaker is tripped, an
/// attempt that is let through is its probe.
pub open spec fn after_ask(b: Breaker, now: nat) -> Breaker {
    if b.until is Some && may_try(b, now) {
        Breaker { probe: Some(now + b.cooldown), ..b }
    } else {
        b
    }
}

pub open spec fn after_success(b: Breaker) -> Breaker {
    Breaker { failures: 0, until: None, probe: None, ..b }
}

/// While the breaker cools down it stays as it is. A failed probe trips it
/// again at once. Otherwise the streak grows, and trips the breaker at the
/// threshold.
pub open spec fn after_failure(b: Breaker, now: nat) -> Breaker {
    if cooling(b, now) {
        b
    } else if b.until is Some {
        Breaker { until: Some(now + b.cooldown), probe: None, ..b }
    } else if b.failures + 1 >= b.threshold {
        Breaker { failures: 0, until: Some(now + b.cooldown), ..b }
    } else {
        Breaker { failures: b.failures + 1, ..b }
    }
}

/// The breaker after failures at these times, one behind the other.
pub open spec fn after_failures(b: Breaker, times: Seq<nat>) -> Breaker
    decreases times.len(),
{
    if times.len() == 0 {
        b
    } else {
        after_failure(after_failures(b, times.drop_last()), times.last())
    }
}

/// A breaker that has never tripped, or was closed by a success.
pub open spec fn is_closed(b: Breaker) -> bool {
    b.until is None && b.probe is None && b.failures == 0
}

/// Fewer failures in a row than the threshold leave the primary path open;
/// the failure that completes the streak closes it, for exactly the cooldown.
pub proof fn law_breaker_trips_at_threshold(b: Breaker, times: Seq<nat>, now: nat)
    requires
        is_closed(b),
        b.threshold > 0,
        times.len() <= b.threshold,
    ensures
        times.len() < b.threshold ==> may_try(after_failures(b, times), now),
        times.len() == b.threshold ==> (may_try(after_failures(b, times), now) <==> now
            >= times.last() + b.cooldown),
{
    lemma_streak(b, times);
}

proof fn lemma_streak(b: Breaker, times: Seq<nat>)
    requires
        is_closed(b),
        b.threshold > 0,
        times.len() <= b.threshold,
    ensures
        times.len() < b.threshold ==> after_failures(b, times) == (Breaker {
            failures: times.len(),
            ..b
        }),
        times.len() == b.threshold ==> after_failures(b, times) == (Breaker {
            until: Some(times.last() + b.cooldown),
            ..b
        }),
    decreases times.len(),
{
    if times.len() > 0 {
        lemma_streak(b, times.drop_last());
    }
}

/// A probe that fails trips the breaker again for the cooldown, however long
/// the streak was.
pub proof fn law_failed_probe_trips_again(b: Breaker, now: nat, later: nat)
    requires
        b.until is Some,
        !cooling(b, now),
    ensures
        may_try(after_failure(b, now), later) <==> later >= now + b.cooldown,
{
}

/// When the cooldown has elapsed one probe is let through: until it reports, or
/// another cooldown has passed without a report, nothing else is. Its success
/// closes the breaker.
pub proof fn law_one_probe_after_the_cooldown(b: Breaker, now: nat, later: nat)
    requires
        b.until is Some,
        b.probe is None,
        !cooling(b, now),
        now <= later,
    ensures
        may_try(b, now),
        may_try(after_ask(b, now), later) <==> later >= now + b.cooldown,
        later < now + b.cooldown ==> after_ask(after_ask(b, now), later) == after_ask(b, now),
        is_closed(after_success(after_ask(b, now))),
{
}

/// Asking for the primary path changes nothing while the breaker is closed.
pub proof fn law_closed_breaker_lets_everything_through(b: Breaker, now: nat)
    requires
        b.until is None,
    ensures
        may_try(b, now),
        after_ask(b, now) == b,
{
}

/// A success forgets everything before it: what follows is as if the breaker
/// were new.
pub proof fn law_success_resets_streak(a: Breaker, b: Breaker, now: nat)
    requires
        a.threshold == b.threshold,
        a.cooldown == b.cooldown,
    ensures
        after_success(a) == after_success(b),
        is_closed(after_success(a)),
        may_try(after_success(a), now),
{
}

/// Failures that come in while the breaker cools down change nothing.
pub proof fn law_open_breaker_ignores_failures(b: Breaker, now: nat)
    requires
        cooling(b, now),
    ensures
        after_failure(b, now) == b,
{
}

/// Circuit breaker for the WebTransport path.
///
/// Counts consecutive transport failures (refusals of the target count as
/// successes: the transport demonstrably answered). After `threshold` of them
/// the primary path is skipped for the cooldown, so that sessions go straight
/// to the fallback. Then one probe is let through: success closes the breaker,
/// failure trips it again immediately.
#[derive(Debug)]
pub struct CircuitBreaker {
    consecutive_failures: u32,
    tripped_until: Option<u64>,
    probe_until: Option<u64>,
    threshold: u32,
    cooldown: u64,
}

impl CircuitBreaker {
    pub closed spec fn view(self) -> Breaker {
        Breaker {
            failures: self.consecutive_failures as nat,
            until: match self.tripped_until {
                Some(t) => Some(t as nat),
                None => None,
            },
            probe: match self.probe_until {
                Some(t) => Some(t as nat),
                None => None,
            },
            threshold: self.threshold as nat,
            cooldown: self.cooldown as nat,
        }
    }

    /// The streak stays below the threshold, and only a tripped breaker sends
    /// probes.
    pub open spec fn wf(self) -> bool {
        &&& self@.failures == 0 || self@.failures < self@.threshold
        &&& self@.until is None ==> self@.probe is None
    }

    pub fn new(threshold: u32, cooldown: u64) -> (r: Self)
        ensures
            r.wf(),
            r@ == (Breaker {
                failures: 0,
                until: None,
                probe: None,
                threshold: threshold as nat,
                cooldown: cooldown as nat,
            }),
    {
        CircuitBreaker {
            consecutive_failures: 0,
            tripped_until: None,
            probe_until: None,
            threshold,
            cooldown,
        }
    }

    /// Whether the primary path may be attempted at `now`.
    pub fn can_try(&self, now: u64) -> (r: bool)
        ensures
            r == may_try(self@, now as nat),
    {
        match (self.tripped_until, self.probe_until) {
            (Some(t), Some(p)) => now >= t && now >= p,
            (Some(t), None) => now >= t,
            (None, _) => true,
        }
    }

    /// Ask for the primary path at `now`; whoever is let through while the
    /// breaker is tripped is its probe. The end of a cooldown must fit the
    /// clock.
    pub fn ask(&mut self, now: u64) -> (r: bool)
        requires
            old(self).wf(),
            now + old(self)@.cooldown <= u64::MAX,
        ensures
            final(self).wf(),
            r == may_try(old(self)@, now as nat),
            final(self)@ == after_ask(old(self)@, now as nat),
    {
        let r = self.can_try(now);
        if r && self.tripped_until.is_some() {
            self.probe_until = Some(now + self.cooldown);
        }
        r
    }

    pub fn record_success(&mut self)
        ensures
            final(self).wf(),
            final(self)@ == after_success(old(self)@),
    {
        self.consecutive_failures = 0;
        self.tripped_until = None;
        self.probe_until = None;
    }

    /// A transport failure at `now`. The end of a cooldown must fit the clock.
    pub fn record_failure(&mut self, now: u64)
        requires
            old(self).wf(),
            now + old(self)@.cooldown <= u64::MAX,
        ensures
            final(self).wf(),
            final(self)@ == after_failure(old(self)@, now as nat),
    {
        if let Some(t) = self.tripped_until {
            if now >= t {
                self.tripped_until = Some(now + self.cooldown);
                self.probe_until = None;
            }
            return;
        }
        let failures: u32 = self.consecutive_failures + 1;
        if failures >= self.threshold {
            self.tripped_until = Some(now + self.cooldown);
            self.consecutive_failures = 0;
        } else {
            self.consecutive_failures = failures;
        }
    }
}

// ---------------------------------------------------------------------------
// Transport choice
// ---------------------------------------------------------------------------
/// What the client can reach.
#[derive(Debug)]
pub enum Outbound {
    /// WebTransport only.
    Wt,
    /// The HTTPS fallback only; the flag says that it is a WebSocket.
    Http(bool),
    /// WebTransport, with the fallback (a WebSocket where the flag is set)
    /// behind a breaker. The number is when the fallback last had to carry
    /// traffic, in milliseconds since the Unix epoch; 0 stands for never.
    Both(bool, CircuitBreaker, u64),
}

/// A way to the server.
#[derive(Debug, Clone, Copy, PartialEq, Eq, Structural)]
pub enum Path {
    Primary,
    Fallback,
}

/// What follows an attempt on the primary path.
#[derive(Debug, Clone, Copy, PartialEq, Eq, Structural)]
pub enum NextStep {
    /// The session stands.
    Done,
    /// Report the failure.
    Fail,
    /// Try the fallback.
    Fallback,
}

/// The path that a new session takes first.
pub open spec fn first_path_spec(o: Outbound, now: nat) -> Path {
    match o {
        Outbound::Wt => Path::Primary,
        Outbound::Http(_) => Path::Fallback,
        Outbound::Both(_, b, _) => if may_try(b@, now) {
            Path::Primary
        } else {
            Path::Fallback
        },
    }
}

/// What follows an attempt on the primary path that failed with this error, or
/// succeeded.
pub open spec fn next_step(o: Outbound, failure: Option<ClientError>) -> NextStep {
    match failure {
        None => NextStep::Done,
        Some(e) => match (o, target_of(e)) {
            (Outbound::Both(_, _, _), None) => NextStep::Fallback,
            (Outbound::Both(_, _, _), Some(t)) => if t.0 == OpenError::Limit {
                NextStep::Fallback
            } else {
                NextStep::Fail
            },
            (_, _) => NextStep::Fail,
        },
    }
}

/// A refusal of the target shows that the transport answered: only a transport
/// failure counts against the primary path.
pub open spec fn breaker_after(b: Breaker, failure: Option<ClientError>, now: nat) -> Breaker {
    match failure {
        None => after_success(b),
        Some(e) => if target_of(e) is Some {
            after_success(b)
        } else {
            after_failure(b, now)
        },
    }
}

/// The error that an attempt ended with, as a value.
pub open spec fn failure_of(failure: Option<&ClientError>) -> Option<ClientError> {
    match failure {
        Some(e) => Some(*e),
        None => None,
    }
}

/// A refusal of the target never counts against the primary path, and is
/// never retried over the fallback unless it was a session limit.
pub proof fn law_target_refusal_does_not_degrade(o: Outbound, t: TargetError, now: nat)
    ensures
        t.0 != OpenError::Limit ==> next_step(o, Some(ClientError::Target(t))) == NextStep::Fail,
        o matches Outbound::Both(_, b, _) ==> may_try(
            breaker_after(b@, Some(ClientError::Target(t)), now),
            now,
        ),
{
}

/// While the breaker cools down sessions take the fallback. Once the cooldown is
/// over the next session takes the primary path, and those that come while it
/// has not reported take the fallback.
pub proof fn law_open_breaker_uses_fallback(o: Outbound, now: nat, p: Outbound, later: nat)
    requires
        o is Both,
        p is Both,
        o->Both_1@.until is Some,
        o->Both_1@.probe is None,
        p->Both_1@ == after_ask(o->Both_1@, now),
        now <= later < now + o->Both_1@.cooldown,
    ensures
        first_path_spec(o, now) == Path::Fallback <==> cooling(o->Both_1@, now),
        first_path_spec(o, now) == Path::Primary ==> first_path_spec(p, later) == Path::Fallback,
{
}

/// The text begins with a WebSocket scheme.
pub fn is_websocket(url: &str) -> (r: bool)
    ensures
        r == is_ws_url(url@),
{
    let c = text::chars_of(url);
    text::starts_with_text(c.as_slice(), "wss://") || text::starts_with_text(c.as_slice(), "ws://")
}

impl Outbound {
    /// The transports that the configuration names.
    pub fn build(cfg: &ClientConfig) -> (r: Result<Outbound, ClientError>)
        ensures
            match r {
                Ok(o) => match (cfg.wt_url, cfg.fb_url) {
                    (Some(_), Some(f)) => {
                        &&& o matches Outbound::Both(ws, b, last)
                        &&& ws == is_ws_url(f@)
                        &&& b.wf()
                        &&& is_closed(b@)
                        &&& b@.threshold == BREAKER_THRESHOLD
                        &&& b@.cooldown == BREAKER_COOLDOWN
                        &&& last == 0
                    },
                    (Some(_), None) => o is Wt,
                    (None, Some(f)) => o == Outbound::Http(is_ws_url(f@)),
                    (None, None) => false,
                },
                Err(e) => cfg.wt_url is None && cfg.fb_url is None && (e matches ClientError::Transport(
                    m,
                ) && m@ == "no outbound configured"@),
            },
    {
        match (&cfg.wt_url, &cfg.fb_url) {
            (Some(_), Some(f)) => Ok(
                Outbound::Both(
                    is_websocket(f.as_str()),
                    CircuitBreaker::new(BREAKER_THRESHOLD, BREAKER_COOLDOWN),
                    0,
                ),
            ),
            (Some(_), None) => Ok(Outbound::Wt),
            (None, Some(f)) => Ok(Outbound::Http(is_websocket(f.as_str()))),
            (None, None) => Err(ClientError::Transport(text::own("no outbound configured"))),
        }
    }

    pub fn describe(&self) -> (r: &'static str)
        ensures
            r@ == match *self {
                Outbound::Wt => "WebTransport"@,
                Outbound::Http(true) => "WebSocket fallback"@,
                Outbound::Http(false) => "HTTPS POST fallback"@,
                Outbound::Both(_, _, _) => "WebTransport + fallback"@,
            },
    {
        match self {
            Outbound::Wt => "WebTransport",
            Outbound::Http(ws) => if *ws {
                "WebSocket fallback"
            } else {
                "HTTPS POST fallback"
            },
            Outbound::Both(_, _, _) => "WebTransport + fallback",
        }
    }

    /// The path that a new session takes first at `now`. The end of a cooldown
    /// must fit the clock.
    pub fn first_path(&mut self, now: u64) -> (r: Path)
        requires
            *old(self) matches Outbound::Both(_, b, _) ==> b.wf() && now + b@.cooldown <= u64::MAX,
        ensures
            r == first_path_spec(*old(self), now as nat),
            match (*old(self), *final(self)) {
                (Outbound::Both(ws, b, last), Outbound::Both(ws2, b2, last2)) => ws2 == ws && last2
                    == last && b2.wf() && b2@ == after_ask(b@, now as nat),
                (a, b) => a == b && !(a is Both),
            },
    {
        match self {
            Outbound::Wt => Path::Primary,
            Outbound::Http(_) => Path::Fallback,
            Outbound::Both(_, b, _) => if b.ask(now) {
                Path::Primary
            } else {
                Path::Fallback
            },
        }
    }

    /// An attempt on the primary path is over, at `now`: with a failure, or
    /// with a session.
    pub fn primary_over(&mut self, failure: Option<&ClientError>, now: u64) -> (r: NextStep)
        requires
            *old(self) matches Outbound::Both(_, b, _) ==> b.wf() && now + b@.cooldown <= u64::MAX,
        ensures
            r == next_step(*old(self), failure_of(failure)),
            match (*old(self), *final(self)) {
                (Outbound::Both(ws, b, last), Outbound::Both(ws2, b2, last2)) => ws2 == ws && last2
                    == last && b2.wf() && b2@ == breaker_after(
                    b@,
                    failure_of(failure),
                    now as nat,
                ),
                (a, b) => a == b && !(a is Both),
            },
    {
        match self {
            Outbound::Both(_, b, _) => match failure {
                None => {
                    b.record_success();
                    NextStep::Done
                },
                Some(e) => match target_error(e) {
                    Some(t) => {
                        b.record_success();
                        if t.fallback_worthwhile() {
                            NextStep::Fallback
                        } else {
                            NextStep::Fail
                        }
                    },
                    None => {
                        b.record_failure(now);
                        NextStep::Fallback
                    },
                },
            },
            _ => match failure {
                None => NextStep::Done,
                Some(_) => NextStep::Fail,
            },
        }
    }

    /// The fallback has taken over a session at `wall` milliseconds since the
    /// Unix epoch.
    pub fn fallback_used(&mut self, wall: u64)
        ensures
            match (*old(self), *final(self)) {
                (Outbound::Both(ws, b, _), Outbound::Both(ws2, b2, last2)) => ws2 == ws && b2 == b
                    && last2 == wall,
                (a, b) => a == b && !(a is Both),
            },
    {
        match self {
            Outbound::Both(_, _, last) => {
                *last = wall;
            },
            _ => {},
        }
    }
}

/// Three failures in a row stop the first path for a minute; fewer do not, and
/// after the minute it is tried again.
pub proof fn law_three_failures_stop_a_minute(b: Breaker, t1: nat, t2: nat, t3: nat, now: nat)
    requires
        is_closed(b),
        b.threshold == BREAKER_THRESHOLD,
        b.cooldown == BREAKER_COOLDOWN,
        t1 <= t2 <= t3 <= now,
    ensures
        ({
            let one = after_failure(b, t1);
            let two = after_failure(one, t2);
            let three = after_failure(two, t3);
            &&& may_try(one, now) && may_try(two, now)
            &&& one.failures == 1 && two.failures == 2
            &&& may_try(three, now) <==> now >= t3 + 60_000
            &&& may_try(after_success(three), now)
        }),
{
}

/// Asking takes the one try that a stopped path has each minute, and changes
/// nothing of a path that runs or still waits.
pub proof fn law_asking_takes_the_try(b: Breaker, now: nat, later: nat)
    requires
        now <= later,
    ensures
        b.until is None ==> after_ask(b, now) == b && may_try(b, now),
        !may_try(b, now) ==> after_ask(b, now) == b,
        b.until is Some && may_try(b, now) ==> (may_try(after_ask(b, now), later) <==> later >= now
            + b.cooldown),
        after_ask(b, now).until == b.until && after_ask(b, now).failures == b.failures,
        after_ask(b, now).threshold == b.threshold && after_ask(b, now).cooldown == b.cooldown,
{
}

/// With two paths a failure of the transport, and a refusal for want of room,
/// lead to the second path; any other refusal is the target's own and final. One
/// path alone fails as it fails.
pub proof fn law_where_to_turn(o: Outbound, e: ClientError, now: nat)
    ensures
        next_step(o, None) is Done,
        o is Both && e is Transport ==> next_step(o, Some(e)) is Fallback,
        o is Both && e == ClientError::Target(TargetError(OpenError::Limit)) ==> next_step(
            o,
            Some(e),
        ) is Fallback,
        o is Both && (e matches ClientError::Target(t) && t.0 != OpenError::Limit) ==> next_step(
            o,
            Some(e),
        ) is Fail,
        !(o is Both) ==> next_step(o, Some(e)) is Fail,
        o is Wt ==> first_path_spec(o, now) == Path::Primary,
        o is Http ==> first_path_spec(o, now) == Path::Fallback,
        o matches Outbound::Both(_, b, _) ==> (first_path_spec(o, now) == Path::Primary <==> (
        b@.until is None || (b@.until->0 <= now && (b@.probe is Some ==> b@.probe->0 <= now)))),
{
}

/// Only failures of the transport count against a path.
pub proof fn law_what_counts_against_a_path(b: Breaker, e: ClientError, now: nat)
    ensures
        breaker_after(b, None, now) == (Breaker { failures: 0, until: None, probe: None, ..b }),
        e is Target ==> breaker_after(b, Some(e), now) == (Breaker {
            failures: 0,
            until: None,
            probe: None,
            ..b
        }),
        e is Transport && b.until is None && b.failures + 1 < b.threshold ==> breaker_after(
            b,
            Some(e),
            now,
        ) == (Breaker { failures: b.failures + 1, ..b }),
        e is Transport && b.until is None && b.failures + 1 >= b.threshold ==> breaker_after(
            b,
            Some(e),
            now,
        ).until == Some(now + b.cooldown),
{
}

/// The names and texts of the refusals.
pub proof fn law_refusals_by_name(e: OpenError, m: String)
    ensures
        tag_of(ClientError::Target(TargetError(e))) == (match e {
            OpenError::DialFailed => "dial-failed"@,
            OpenError::Limit => "session-limit"@,
            OpenError::BadTarget => "bad-target"@,
            OpenError::Denied => "private-target-denied"@,
        }),
        tag_of(ClientError::Transport(m)) == "transport"@,
        target_of(ClientError::Target(TargetError(e))) == Some(TargetError(e)),
        target_of(ClientError::Transport(m)) is None,
        refusal_text(e) == "target refused: "@ + (match e {
            OpenError::DialFailed => "dial failed"@,
            OpenError::Limit => "session limit reached"@,
            OpenError::BadTarget => "invalid target"@,
            OpenError::Denied => "denied"@,
        }),
{
    reveal_strlit("target refused: ");
    match e {
        OpenError::DialFailed => {
            reveal_strlit("target refused: dial failed");
            reveal_strlit("dial failed");
            assert("target refused: dial failed"@ =~= "target refused: "@ + "dial failed"@);
        },
        OpenError::Limit => {
            reveal_strlit("target refused: session limit reached");
            reveal_strlit("session limit reached");
            assert("target refused: session limit reached"@ =~= "target refused: "@
                + "session limit reached"@);
        },
        OpenError::BadTarget => {
            reveal_strlit("target refused: invalid target");
            reveal_strlit("invalid target");
            assert("target refused: invalid target"@ =~= "target refused: "@ + "invalid target"@);
        },
        OpenError::Denied => {
            reveal_strlit("target refused: denied");
            reveal_strlit("denied");
            assert("target refused: denied"@ =~= "target refused: "@ + "denied"@);
        },
    }
}

} // verus!
