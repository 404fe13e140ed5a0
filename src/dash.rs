use dashmap::DashSet;
use vstd::prelude::*;

verus! {

#[verifier::external_type_specification]
#[verifier::external_body]
#[verifier::reject_recursive_types(K)]
#[verifier::reject_recursive_types(S)]
pub struct ExDashSet<K, S>(DashSet<K, S>);

/// The ids a concurrent set holds.
pub uninterp spec fn id_set_contents(s: DashSet<u32>) -> Set<u32>;

/// Relies on dashmap::DashSet::new: a set that holds nothing.
#[verifier::external_body]
pub(crate) fn id_set_new() -> (r: DashSet<u32>)
    ensures
        id_set_contents(r) == Set::<u32>::empty(),
{
    DashSet::new()
}

/// Relies on dashmap::DashSet::insert: afterwards the set also holds `x`.
#[verifier::external_body]
pub(crate) fn id_set_insert(s: &mut DashSet<u32>, x: u32)
    ensures
        id_set_contents(*final(s)) == id_set_contents(*old(s)).insert(x),
{
    s.insert(x);
}

/// Relies on dashmap::DashSet::iter: each id the set holds, once, in no
/// promised order.
#[verifier::external_body]
pub(crate) fn id_set_values(s: &DashSet<u32>) -> (r: Vec<u32>)
    ensures
        r@.no_duplicates(),
        forall|x: u32| #[trigger] r@.contains(x) <==> id_set_contents(*s).contains(x),
{
    s.iter().map(|x| *x).collect()
}

} // verus!
