//! Answers of the resolver for UDP targets, kept for a while so that not every
//! datagram to a name asks again.

use vstd::prelude::*;

use crate::net::Ip;
use crate::text;

verus! {

/// How long an answer is used unless configured otherwise, in seconds.
pub const DEFAULT_TTL_SECS: u64 = 3600;

/// An answer of the resolver.
pub struct DnsEntry {
    pub host: String,
    pub ip: Ip,
    /// When it came, in milliseconds of the caller's monotonic clock.
    pub at: u64,
}

/// Answers by name: the address and the time it was learned.
pub type Answers = Map<Seq<char>, (Ip, u64)>;

/// The answers that a list of entries holds.
pub open spec fn answers(s: Seq<DnsEntry>) -> Answers
    decreases s.len(),
{
    if s.len() == 0 {
        Map::empty()
    } else {
        answers(s.drop_last()).insert(s.last().host@, (s.last().ip, s.last().at))
    }
}

/// No name stands twice.
pub open spec fn distinct_hosts(s: Seq<DnsEntry>) -> bool {
    forall|i: int, j: int|
        0 <= i < j < s.len() ==> (#[trigger] s[i]).host@ != (#[trigger] s[j]).host@
}

/// What a cache holds: the answers, and for how many milliseconds each is
/// used.
#[verifier::ext_equal]
pub ghost struct DnsView {
    pub answers: Answers,
    pub ttl: u64,
}

/// An answer of time `at` still holds at `now`. A clock behind `at` counts as
/// standing at it.
pub open spec fn holds(at: u64, now: u64, ttl: u64) -> bool {
    (if now < at {
        0
    } else {
        now - at
    }) < ttl
}

/// The address to use for a name at `now`.
pub open spec fn known(c: DnsView, host: Seq<char>, now: u64) -> Option<Ip> {
    if c.answers.contains_key(host) && holds(c.answers[host].1, now, c.ttl) {
        Some(c.answers[host].0)
    } else {
        None
    }
}

/// What is kept when an answer for `host` comes in at `now`: the answers for
/// other names that still hold.
pub open spec fn kept(m: Answers, ttl: u64, host: Seq<char>, now: u64) -> Answers {
    Map::new(
        |h: Seq<char>| m.contains_key(h) && h != host && holds(m[h].1, now, ttl),
        |h: Seq<char>| m[h],
    )
}

/// A cache after an answer for `host` came in at `now`.
pub open spec fn stored(c: DnsView, host: Seq<char>, ip: Ip, now: u64) -> DnsView {
    DnsView { answers: kept(c.answers, c.ttl, host, now).insert(host, (ip, now)), ttl: c.ttl }
}

/// A cache after several answers came in, each with its name and time.
pub open spec fn stored_all(c: DnsView, run: Seq<(Seq<char>, Ip, u64)>) -> DnsView
    decreases run.len(),
{
    if run.len() == 0 {
        c
    } else {
        stored(stored_all(c, run.drop_last()), run.last().0, run.last().1, run.last().2)
    }
}

proof fn lemma_answers(s: Seq<DnsEntry>)
    requires
        distinct_hosts(s),
    ensures
        forall|i: int|
            0 <= i < s.len() ==> answers(s).contains_key((#[trigger] s[i]).host@) && answers(
                s,
            )[s[i].host@] == (s[i].ip, s[i].at),
        forall|h: Seq<char>| #[trigger]
            answers(s).contains_key(h) ==> exists|i: int|
                0 <= i < s.len() && (#[trigger] s[i]).host@ == h,
    decreases s.len(),
{
    if s.len() > 0 {
        let d = s.drop_last();
        lemma_answers(d);
        assert forall|i: int| 0 <= i < s.len() implies answers(s).contains_key(
            (#[trigger] s[i]).host@,
        ) && answers(s)[s[i].host@] == (s[i].ip, s[i].at) by {
            if i < d.len() {
                assert(d[i] == s[i]);
                assert(s[i].host@ != s[s.len() - 1].host@);
            }
        }
        assert forall|h: Seq<char>| #[trigger] answers(s).contains_key(h) implies exists|i: int|
            0 <= i < s.len() && (#[trigger] s[i]).host@ == h by {
            if h == s.last().host@ {
                assert(s[s.len() - 1].host@ == h);
            } else {
                assert(answers(d).contains_key(h));
                let i = choose|i: int| 0 <= i < d.len() && (#[trigger] d[i]).host@ == h;
                assert(s[i].host@ == h);
            }
        }
    }
}

/// An answer that was just stored is used until its time is over.
pub proof fn law_stored_answer_is_used(c: DnsView, host: Seq<char>, ip: Ip, at: u64, now: u64)
    ensures
        known(stored(c, host, ip, at), host, now) == if holds(at, now, c.ttl) {
            Some(ip)
        } else {
            None
        },
{
}

/// Storing an answer for one name changes nothing for the others.
pub proof fn law_other_names_are_untouched(
    c: DnsView,
    host: Seq<char>,
    ip: Ip,
    at: u64,
    other: Seq<char>,
    now: u64,
)
    requires
        other != host,
        at <= now,
    ensures
        known(stored(c, host, ip, at), other, now) == known(c, other, now),
{
}

/// In a run of answers under a clock that does not go back, the last answer for
/// a name is the one that is used, whatever came in for other names since.
pub proof fn law_last_answer_is_used(
    c: DnsView,
    run: Seq<(Seq<char>, Ip, u64)>,
    i: int,
    now: u64,
)
    requires
        0 <= i < run.len(),
        forall|j: int| i < j < run.len() ==> (#[trigger] run[j]).0 != run[i].0,
        forall|j: int| i <= j < run.len() ==> (#[trigger] run[j]).2 <= now,
    ensures
        stored_all(c, run).ttl == c.ttl,
        known(stored_all(c, run), run[i].0, now) == if now - run[i].2 < c.ttl {
            Some(run[i].1)
        } else {
            None
        },
    decreases run.len(),
{
    let rest = run.drop_last();
    let x = run.last();
    lemma_ttl_stays(c, run);
    lemma_ttl_stays(c, rest);
    assert(run[run.len() - 1].2 <= now);
    if i == run.len() - 1 {
        law_stored_answer_is_used(stored_all(c, rest), x.0, x.1, x.2, now);
    } else {
        assert(run[run.len() - 1].0 != run[i].0);
        assert forall|j: int| i < j < rest.len() implies (#[trigger] rest[j]).0 != rest[i].0 by {
            assert(rest[j] == run[j]);
        }
        assert forall|j: int| i <= j < rest.len() implies (#[trigger] rest[j]).2 <= now by {
            assert(rest[j] == run[j]);
        }
        law_last_answer_is_used(c, rest, i, now);
        law_other_names_are_untouched(stored_all(c, rest), x.0, x.1, x.2, run[i].0, now);
    }
}

proof fn lemma_ttl_stays(c: DnsView, run: Seq<(Seq<char>, Ip, u64)>)
    ensures
        stored_all(c, run).ttl == c.ttl,
    decreases run.len(),
{
    if run.len() > 0 {
        lemma_ttl_stays(c, run.drop_last());
    }
}

/// Whether an answer of time `at` still holds.
fn in_time(at: u64, now: u64, ttl: u64) -> (r: bool)
    ensures
        r == holds(at, now, ttl),
{
    if now < at {
        ttl > 0
    } else {
        now - at < ttl
    }
}

/// The answers that are in use.
pub struct DnsCache {
    entries: Vec<DnsEntry>,
    ttl: u64,
}

impl DnsCache {
    pub closed spec fn view(&self) -> DnsView {
        DnsView { answers: answers(self.entries@), ttl: self.ttl }
    }

    #[verifier::type_invariant]
    spec fn wf(self) -> bool {
        distinct_hosts(self.entries@)
    }

    /// No answers yet; `ttl` is in milliseconds, and none is used when it is 0.
    pub fn new(ttl: u64) -> (r: Self)
        ensures
            r@ == (DnsView { answers: Map::<Seq<char>, (Ip, u64)>::empty(), ttl }),
    {
        DnsCache { entries: Vec::new(), ttl }
    }

    /// The address to use for a name at `now`.
    pub fn lookup(&self, host: &str, now: u64) -> (r: Option<Ip>)
        ensures
            r == known(self@, host@, now),
    {
        proof {
            use_type_invariant(self);
            lemma_answers(self.entries@);
        }
        let mut i: usize = 0;
        while i < self.entries.len()
            invariant
                i <= self.entries.len(),
                forall|k: int| 0 <= k < i ==> (#[trigger] self.entries@[k]).host@ != host@,
                forall|k: int|
                    0 <= k < self.entries.len() ==> self@.answers.contains_key(
                        (#[trigger] self.entries@[k]).host@,
                    ) && self@.answers[self.entries@[k].host@] == (
                        self.entries@[k].ip,
                        self.entries@[k].at,
                    ),
                forall|h: Seq<char>| #[trigger]
                    self@.answers.contains_key(h) ==> exists|k: int|
                        0 <= k < self.entries.len() && (#[trigger] self.entries@[k]).host@ == h,
            decreases self.entries.len() - i,
        {
            let e = &self.entries[i];
            if text::same_text(e.host.as_str(), host) {
                assert(self.entries@[i as int].host@ == host@);
                return if in_time(e.at, now, self.ttl) {
                    Some(e.ip)
                } else {
                    None
                };
            }
            i += 1;
        }
        None
    }

    /// Remember an answer that came at `now`. Answers that no longer hold are
    /// dropped.
    pub fn store(&mut self, host: &str, ip: Ip, now: u64)
        ensures
            final(self)@ == stored(old(self)@, host@, ip, now),
    {
        proof {
            use_type_invariant(&*self);
        }
        let ghost s = self.entries@;
        let ghost ttl = self.ttl;
        let mut out: Vec<DnsEntry> = Vec::new();
        let mut i: usize = 0;
        assert(answers(s.take(0)) =~= Map::<Seq<char>, (Ip, u64)>::empty());
        assert(kept(answers(s.take(0)), ttl, host@, now) =~= Map::<Seq<char>, (Ip, u64)>::empty());
        while i < self.entries.len()
            invariant
                i <= self.entries.len(),
                s == self.entries@,
                ttl == self.ttl,
                distinct_hosts(s),
                distinct_hosts(out@),
                forall|k: int|
                    0 <= k < out.len() ==> exists|j: int|
                        0 <= j < i && (#[trigger] s[j]).host@ == (#[trigger] out@[k]).host@,
                forall|k: int| 0 <= k < out.len() ==> (#[trigger] out@[k]).host@ != host@,
                answers(out@) == kept(answers(s.take(i as int)), ttl, host@, now),
            decreases self.entries.len() - i,
        {
            let e = &self.entries[i];
            let ghost before = out@;
            let ghost m = answers(s.take(i as int));
            proof {
                assert(s.take(i + 1).drop_last() =~= s.take(i as int));
                assert(s.take(i + 1).last() == s[i as int]);
                assert(distinct_hosts(s.take(i as int)));
                lemma_answers(s.take(i as int));
                if m.contains_key(s[i as int].host@) {
                    let j = choose|j: int|
                        0 <= j < i && (#[trigger] s.take(i as int)[j]).host@ == s[i as int].host@;
                    assert(s[j].host@ == s[i as int].host@);
                    assert(false);
                }
            }
            let same = text::same_text(e.host.as_str(), host);
            if !same && in_time(e.at, now, self.ttl) {
                let copy = DnsEntry { host: text::own(e.host.as_str()), ip: e.ip, at: e.at };
                out.push(copy);
                proof {
                    assert(out@.drop_last() =~= before);
                    assert(answers(out@) =~= kept(answers(s.take(i + 1)), ttl, host@, now));
                    assert(distinct_hosts(out@)) by {
                        assert forall|a: int, b: int| 0 <= a < b < out@.len() implies (
                        #[trigger] out@[a]).host@ != (#[trigger] out@[b]).host@ by {
                            assert(out@[a] == before[a]);
                            if b < before.len() {
                                assert(out@[b] == before[b]);
                            } else {
                                let j = choose|j: int|
                                    0 <= j < i && (#[trigger] s[j]).host@ == before[a].host@;
                                assert(s[j].host@ != s[i as int].host@);
                            }
                        }
                    }
                    assert forall|k: int| 0 <= k < out@.len() implies exists|j: int|
                        0 <= j < i + 1 && (#[trigger] s[j]).host@ == (
                        #[trigger] out@[k]).host@ by {
                        if k < before.len() {
                            assert(out@[k] == before[k]);
                            let j = choose|j: int|
                                0 <= j < i && (#[trigger] s[j]).host@ == before[k].host@;
                            assert(s[j].host@ == out@[k].host@);
                        } else {
                            assert(s[i as int].host@ == out@[k].host@);
                        }
                    }
                }
            } else {
                assert(answers(out@) =~= kept(answers(s.take(i + 1)), ttl, host@, now));
            }
            i += 1;
        }
        assert(s.take(i as int) =~= s);
        let ghost before = out@;
        out.push(DnsEntry { host: text::own(host), ip, at: now });
        proof {
            assert(out@.drop_last() =~= before);
            assert forall|a: int, b: int| 0 <= a < b < out@.len() implies (
            #[trigger] out@[a]).host@ != (#[trigger] out@[b]).host@ by {
                assert(out@[a] == before[a]);
                if b < before.len() {
                    assert(out@[b] == before[b]);
                }
            }
        }
        self.entries = out;
    }
}

/// An answer is used for as long as the cache says, counted from when it was
/// learned, and not a millisecond longer; names that were not asked for are not
/// known.
pub proof fn law_answers_grow_old(c: DnsView, host: Seq<char>, now: u64)
    ensures
        known(c, host, now) is Some <==> c.answers.contains_key(host) && c.ttl > 0 && now
            < c.answers[host].1 + c.ttl,
        known(c, host, now) is Some ==> known(c, host, now) == Some(c.answers[host].0),
{
}

/// A new answer replaces the one for its name and throws out those that are too
/// old; the others stay.
pub proof fn law_storing_an_answer(
    c: DnsView,
    host: Seq<char>,
    ip: Ip,
    now: u64,
    other: Seq<char>,
)
    ensures
        stored(c, host, ip, now).answers.contains_key(host),
        stored(c, host, ip, now).answers[host] == (ip, now),
        stored(c, host, ip, now).ttl == c.ttl,
        other != host ==> (stored(c, host, ip, now).answers.contains_key(other)
            <==> c.answers.contains_key(other) && c.ttl > 0 && now < c.answers[other].1 + c.ttl),
        other != host && stored(c, host, ip, now).answers.contains_key(other) ==> stored(
            c,
            host,
            ip,
            now,
        ).answers[other] == c.answers[other],
{
}

/// Answers are used for an hour where nothing else is configured.
pub proof fn law_answers_live_an_hour()
    ensures
        DEFAULT_TTL_SECS == 60 * 60,
{
}

} // verus!
