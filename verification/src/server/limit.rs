//! Admission of connections that have not authenticated yet.

use dashmap::DashMap;
use vstd::prelude::*;

use crate::net::Ip;

verus! {

/// Slots taken per source address, under the address as a pair of its family
/// (true: IPv6) and its bits.
pub uninterp spec fn ip_slots(m: DashMap<(bool, u128), u64>) -> Map<(bool, u128), u64>;

/// `DashMap::new`: no entry.
#[verifier::external_body]
fn slots_new() -> (r: DashMap<(bool, u128), u64>)
    ensures
        ip_slots(r).dom() == Set::<(bool, u128)>::empty(),
{
    DashMap::new()
}

/// `DashMap::get`: the number under the address, when there is one.
#[verifier::external_body]
fn slots_get(m: &DashMap<(bool, u128), u64>, k: (bool, u128)) -> (r: Option<u64>)
    ensures
        r == if ip_slots(*m).contains_key(k) {
            Some(ip_slots(*m)[k])
        } else {
            None
        },
{
    m.get(&k).map(|e| *e.value())
}

/// `DashMap::insert`: the number stands under the address afterwards, and the
/// other entries stay.
#[verifier::external_body]
fn slots_insert(m: &mut DashMap<(bool, u128), u64>, k: (bool, u128), n: u64)
    ensures
        ip_slots(*final(m)) == ip_slots(*old(m)).insert(k, n),
{
    m.insert(k, n);
}

/// `DashMap::remove`: there is no entry under the address afterwards, and the
/// other entries stay.
#[verifier::external_body]
fn slots_remove(m: &mut DashMap<(bool, u128), u64>, k: (bool, u128))
    ensures
        ip_slots(*final(m)) == ip_slots(*old(m)).remove(k),
{
    m.remove(&k);
}

/// The state of the admission limiter.
#[verifier::ext_equal]
pub ghost struct GateView {
    pub global: nat,
    pub per_ip: Map<(bool, u128), u64>,
    pub max_global: nat,
    pub max_per_ip: nat,
}

/// Slots that an address holds.
pub open spec fn held(g: GateView, k: (bool, u128)) -> nat {
    if g.per_ip.contains_key(k) {
        g.per_ip[k] as nat
    } else {
        0
    }
}

/// Within the caps; an address without a slot has no entry.
pub open spec fn gate_ok(g: GateView) -> bool {
    &&& 1 <= g.max_global <= u64::MAX
    &&& 1 <= g.max_per_ip <= u64::MAX
    &&& g.global <= g.max_global
    &&& forall|k: (bool, u128)| #[trigger]
        g.per_ip.contains_key(k) ==> 1 <= g.per_ip[k] <= g.max_per_ip
}

/// A slot is left for a connection from `ip` (an unknown address counts only
/// against the global cap).
pub open spec fn gate_has_room(g: GateView, ip: Option<Ip>) -> bool {
    &&& g.global < g.max_global
    &&& match ip {
        Some(a) => held(g, a.key()) < g.max_per_ip,
        None => true,
    }
}

/// The limiter with one more slot taken from `ip`.
pub open spec fn gate_taken(g: GateView, ip: Option<Ip>) -> GateView {
    GateView {
        global: g.global + 1,
        per_ip: match ip {
            Some(a) => g.per_ip.insert(a.key(), (held(g, a.key()) + 1) as u64),
            None => g.per_ip,
        },
        ..g
    }
}

/// The limiter with one slot of `ip` given back.
pub open spec fn gate_released(g: GateView, ip: Option<Ip>) -> GateView {
    GateView {
        global: (g.global - 1) as nat,
        per_ip: match ip {
            Some(a) => slot_given_back(g.per_ip, a.key()),
            None => g.per_ip,
        },
        ..g
    }
}

pub open spec fn slot_given_back(m: Map<(bool, u128), u64>, k: (bool, u128)) -> Map<
    (bool, u128),
    u64,
> {
    if !m.contains_key(k) {
        m
    } else if m[k] <= 1 {
        m.remove(k)
    } else {
        m.insert(k, (m[k] - 1) as u64)
    }
}

/// Taking a slot and giving it back leaves the limiter as it was.
pub proof fn law_gate_release_undoes_admit(g: GateView, ip: Option<Ip>)
    requires
        gate_ok(g),
        gate_has_room(g, ip),
    ensures
        gate_ok(gate_taken(g, ip)),
        gate_released(gate_taken(g, ip), ip) == g,
{
    let t = gate_taken(g, ip);
    match ip {
        Some(a) => {
            assert(gate_released(t, ip).per_ip =~= g.per_ip);
        },
        None => {},
    }
    assert(gate_released(t, ip) =~= g);
}

/// A slot that is given back makes room: the limiter stays within its caps and
/// takes another connection.
pub proof fn law_gate_release_makes_room(g: GateView, ip: Option<Ip>)
    requires
        gate_ok(g),
        g.global > 0,
    ensures
        gate_ok(gate_released(g, ip)),
        gate_has_room(gate_released(g, ip), None),
{
}

/// Caps concurrent *unauthenticated* connections, globally and (when a peer
/// address is known) per source IP. A [`UnauthGuard`] stands for a slot from
/// connection accept until the in-band AUTH frame verifies; giving it back, on
/// success, failure or abrupt disconnect, frees the slot.
pub struct UnauthGate {
    global: u64,
    per_ip: DashMap<(bool, u128), u64>,
    max_global: u64,
    max_per_ip: u64,
}

/// Slot of one unauthenticated connection.
#[derive(Debug)]
pub struct UnauthGuard {
    pub ip: Option<Ip>,
}

impl UnauthGate {
    pub closed spec fn view(self) -> GateView {
        GateView {
            global: self.global as nat,
            per_ip: ip_slots(self.per_ip),
            max_global: self.max_global as nat,
            max_per_ip: self.max_per_ip as nat,
        }
    }

    /// Both caps are at least one.
    pub fn new(max_global: u64, max_per_ip: u64) -> (r: Self)
        ensures
            gate_ok(r.view()),
            r.view() == (GateView {
                global: 0,
                per_ip: Map::<(bool, u128), u64>::empty(),
                max_global: if max_global < 1 {
                    1
                } else {
                    max_global as nat
                },
                max_per_ip: if max_per_ip < 1 {
                    1
                } else {
                    max_per_ip as nat
                },
            }),
    {
        let per_ip = slots_new();
        assert(ip_slots(per_ip) =~= Map::<(bool, u128), u64>::empty());
        UnauthGate {
            global: 0,
            per_ip,
            max_global: if max_global < 1 {
                1
            } else {
                max_global
            },
            max_per_ip: if max_per_ip < 1 {
                1
            } else {
                max_per_ip
            },
        }
    }

    /// Reserve a slot, or `None` when the global/per-IP cap is reached.
    /// `ip = None` (e.g. a fallback request behind a CDN) skips per-IP.
    pub fn try_admit(&mut self, ip: Option<Ip>) -> (r: Option<UnauthGuard>)
        requires
            gate_ok(old(self).view()),
        ensures
            gate_ok(final(self).view()),
            match r {
                Some(g) => gate_has_room(old(self).view(), ip) && g.ip == ip && final(self).view()
                    == gate_taken(old(self).view(), ip),
                None => !gate_has_room(old(self).view(), ip) && final(self).view() == old(
                    self).view(),
            },
    {
        let ghost before = self.view();
        if let Some(a) = ip {
            let k = a.slot_key();
            let n = match slots_get(&self.per_ip, k) {
                Some(n) => n,
                None => 0,
            };
            if n >= self.max_per_ip {
                return None;
            }
            if self.global >= self.max_global {
                return None;
            }
            slots_insert(&mut self.per_ip, k, n + 1);
        } else if self.global >= self.max_global {
            return None;
        }
        self.global = self.global + 1;
        proof {
            law_gate_release_undoes_admit(before, ip);
            assert(self.view() =~= gate_taken(before, ip));
        }
        Some(UnauthGuard { ip })
    }

    fn release_ip(&mut self, ip: Ip)
        ensures
            final(self).view() == (GateView {
                per_ip: slot_given_back(old(self).view().per_ip, ip.key()),
                ..old(self).view()
            }),
    {
        let k = ip.slot_key();
        if let Some(n) = slots_get(&self.per_ip, k) {
            if n <= 1 {
                slots_remove(&mut self.per_ip, k);
            } else {
                slots_insert(&mut self.per_ip, k, n - 1);
            }
        }
    }

    /// Give a slot back.
    pub fn release(&mut self, guard: UnauthGuard)
        requires
            gate_ok(old(self).view()),
            old(self).view().global > 0,
        ensures
            gate_ok(final(self).view()),
            final(self).view() == gate_released(old(self).view(), guard.ip),
    {
        let ghost before = self.view();
        self.global = self.global - 1;
        if let Some(ip) = guard.ip {
            self.release_ip(ip);
        }
        proof {
            law_gate_release_makes_room(before, guard.ip);
            assert(self.view() =~= gate_released(before, guard.ip));
        }
    }

    /// Connections that hold a slot.
    pub fn pending(&self) -> (r: u64)
        ensures
            r == self.view().global,
    {
        self.global
    }
}

/// There is room where fewer connections than allowed are waiting, in all and
/// from that address; who is let in takes one place of each, and nobody else's.
pub proof fn law_gate_counts(g: GateView, a: Ip, other: (bool, u128))
    requires
        gate_ok(g),
    ensures
        gate_has_room(g, None) <==> g.global < g.max_global,
        gate_has_room(g, Some(a)) <==> g.global < g.max_global && (g.per_ip.contains_key(a.key())
            ==> g.per_ip[a.key()] < g.max_per_ip),
        gate_has_room(g, Some(a)) ==> {
            let t = gate_taken(g, Some(a));
            &&& t.global == g.global + 1
            &&& t.per_ip.contains_key(a.key())
            &&& !g.per_ip.contains_key(a.key()) ==> t.per_ip[a.key()] == 1
            &&& g.per_ip.contains_key(a.key()) ==> t.per_ip[a.key()] == g.per_ip[a.key()] + 1
            &&& other != a.key() ==> (t.per_ip.contains_key(other) <==> g.per_ip.contains_key(
                other,
            ))
            &&& other != a.key() && g.per_ip.contains_key(other) ==> t.per_ip[other]
                == g.per_ip[other]
            &&& t.max_global == g.max_global && t.max_per_ip == g.max_per_ip
            &&& gate_ok(t)
        },
        gate_taken(g, None) == (GateView { global: g.global + 1, ..g }),
{
}

/// Who leaves gives back one place in all and one of the address; an address
/// without connections is forgotten, and the others keep theirs.
pub proof fn law_gate_gives_back(g: GateView, a: Ip, other: (bool, u128))
    requires
        gate_ok(g),
        g.global > 0,
        g.per_ip.contains_key(a.key()),
    ensures
        ({
            let t = gate_released(g, Some(a));
            &&& t.global == g.global - 1
            &&& t.per_ip.contains_key(a.key()) <==> g.per_ip[a.key()] > 1
            &&& g.per_ip[a.key()] > 1 ==> t.per_ip[a.key()] == g.per_ip[a.key()] - 1
            &&& other != a.key() ==> (t.per_ip.contains_key(other) <==> g.per_ip.contains_key(
                other,
            ))
            &&& other != a.key() && g.per_ip.contains_key(other) ==> t.per_ip[other]
                == g.per_ip[other]
            &&& t.max_global == g.max_global && t.max_per_ip == g.max_per_ip
        }),
        gate_released(g, None) == (GateView { global: (g.global - 1) as nat, ..g }),
{
}

} // verus!
