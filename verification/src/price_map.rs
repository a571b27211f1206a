use vstd::prelude::*;

use rb_tree::RBMap;

use crate::price_level::PriceLevel;

verus! {

#[verifier::external_type_specification]
#[verifier::external_body]
#[verifier::reject_recursive_types(K)]
#[verifier::reject_recursive_types(V)]
pub struct ExRBMap<K: PartialOrd, V>(RBMap<K, V>);

/// What a price-keyed red-black map holds: its entries as a mathematical map
/// from price to price level.
pub uninterp spec fn entries(m: RBMap<u32, PriceLevel>) -> Map<u32, PriceLevel>;

/// Relies on rb_tree::RBMap::new: creates an empty map.
#[verifier::external_body]
pub(crate) fn rb_new() -> (m: RBMap<u32, PriceLevel>)
    ensures
        entries(m).dom() == Set::<u32>::empty(),
{
    RBMap::new()
}

/// Relies on rb_tree::RBMap::insert: stores `value` under `key`, replacing
/// any entry previously stored there.
#[verifier::external_body]
pub(crate) fn rb_insert(m: &mut RBMap<u32, PriceLevel>, key: u32, value: PriceLevel)
    ensures
        entries(*final(m)) == entries(*old(m)).insert(key, value),
{
    m.insert(key, value);
}

/// Relies on rb_tree::RBMap::remove: removes the entry under `key` and
/// returns its value, or returns `None` when no entry has that key.
#[verifier::external_body]
pub(crate) fn rb_remove(m: &mut RBMap<u32, PriceLevel>, key: u32) -> (r: Option<PriceLevel>)
    ensures
        entries(*old(m)).dom().contains(key) ==> {
            &&& r == Some(entries(*old(m))[key])
            &&& entries(*final(m)) == entries(*old(m)).remove(key)
        },
        !entries(*old(m)).dom().contains(key) ==> {
            &&& r is None
            &&& entries(*final(m)) == entries(*old(m))
        },
{
    m.remove(&key)
}

/// Relies on rb_tree::RBMap::get: returns a reference to the value stored
/// under `key`, or `None` when no entry has that key.
#[verifier::external_body]
pub(crate) fn rb_get(m: &RBMap<u32, PriceLevel>, key: u32) -> (r: Option<&PriceLevel>)
    ensures
        entries(*m).dom().contains(key) ==> r is Some,
        !entries(*m).dom().contains(key) ==> r is None,
        r matches Some(v) ==> *v == entries(*m)[key],
{
    m.get(&key)
}

/// Relies on rb_tree::RBMap::peek: returns a reference to the value whose
/// key is the smallest in the map, or `None` when the map is empty.
#[verifier::external_body]
pub(crate) fn rb_peek_min(m: &RBMap<u32, PriceLevel>) -> (r: Option<&PriceLevel>)
    ensures
        entries(*m).dom().is_empty() ==> r is None,
        !entries(*m).dom().is_empty() ==> r is Some,
        r matches Some(v) ==> exists|k: u32|
            {
                &&& #[trigger] entries(*m).dom().contains(k)
                &&& *v == entries(*m)[k]
                &&& forall|k2: u32| entries(*m).dom().contains(k2) ==> k <= k2
            },
{
    m.peek()
}

/// Relies on rb_tree::RBMap::peek_back: returns a reference to the value
/// whose key is the largest in the map, or `None` when the map is empty.
#[verifier::external_body]
pub(crate) fn rb_peek_max(m: &RBMap<u32, PriceLevel>) -> (r: Option<&PriceLevel>)
    ensures
        entries(*m).dom().is_empty() ==> r is None,
        !entries(*m).dom().is_empty() ==> r is Some,
        r matches Some(v) ==> exists|k: u32|
            {
                &&& #[trigger] entries(*m).dom().contains(k)
                &&& *v == entries(*m)[k]
                &&& forall|k2: u32| entries(*m).dom().contains(k2) ==> k2 <= k
            },
{
    m.peek_back()
}

/// Relies on rb_tree::RBMap::len: the number of stored entries.
#[verifier::external_body]
pub(crate) fn rb_len(m: &RBMap<u32, PriceLevel>) -> (r: usize)
    ensures
        r == entries(*m).dom().len(),
{
    m.len()
}

} // verus!
