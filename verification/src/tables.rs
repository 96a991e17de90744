//! Concurrent maps of the `dashmap` crate, as the session tables use them.

use dashmap::DashMap;
use vstd::prelude::*;

verus! {

#[verifier::external_type_specification]
#[verifier::external_body]
#[verifier::reject_recursive_types(K)]
#[verifier::reject_recursive_types(V)]
#[verifier::reject_recursive_types(S)]
pub struct ExDashMap<K, V, S>(DashMap<K, V, S>);

/// The session ids that a table holds.
pub uninterp spec fn sids(m: DashMap<u32, ()>) -> Set<u32>;

/// `DashMap::new`: no entry.
#[verifier::external_body]
pub(crate) fn sids_new() -> (r: DashMap<u32, ()>)
    ensures
        sids(r) == Set::<u32>::empty(),
{
    DashMap::new()
}

/// `DashMap::contains_key`: whether there is an entry under the id.
#[verifier::external_body]
pub(crate) fn sids_contains(m: &DashMap<u32, ()>, sid: u32) -> (r: bool)
    ensures
        r == sids(*m).contains(sid),
{
    m.contains_key(&sid)
}

/// `DashMap::insert`: there is an entry under the id afterwards, and the other
/// entries stay.
#[verifier::external_body]
pub(crate) fn sids_insert(m: &mut DashMap<u32, ()>, sid: u32)
    ensures
        sids(*final(m)) == sids(*old(m)).insert(sid),
{
    m.insert(sid, ());
}

/// `DashMap::remove`: there is no entry under the id afterwards, and the other
/// entries stay; the result says whether there was one.
#[verifier::external_body]
pub(crate) fn sids_remove(m: &mut DashMap<u32, ()>, sid: u32) -> (r: bool)
    ensures
        r == sids(*old(m)).contains(sid),
        sids(*final(m)) == sids(*old(m)).remove(sid),
{
    m.remove(&sid).is_some()
}

/// `DashMap::clear`: no entry is left.
#[verifier::external_body]
pub(crate) fn sids_clear(m: &mut DashMap<u32, ()>)
    ensures
        sids(*final(m)) == Set::<u32>::empty(),
{
    m.clear()
}

} // verus!
