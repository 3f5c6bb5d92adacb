//! The schemas that were added, by the address they were loaded from.
//!
//! The map is a `dashmap::DashMap` from the address to the number of the
//! schema's handle. What is said of it here is taken on trust, not proved.

use vstd::prelude::*;

verus! {

#[verifier::external_type_specification]
#[verifier::external_body]
#[verifier::reject_recursive_types(K)]
#[verifier::reject_recursive_types(V)]
#[verifier::reject_recursive_types(S)]
pub struct ExDashMap<K, V, S>(dashmap::DashMap<K, V, S>);

/// The map from addresses to numbers.
pub type Addresses = dashmap::DashMap<String, usize>;

/// What a map holds: for each address, a number.
pub uninterp spec fn dash_map_contents(m: Addresses) -> Map<Seq<char>, usize>;

/// `DashMap::new`: a map that holds nothing.
#[verifier::external_body]
pub(crate) fn dash_map_new() -> (m: Addresses)
    ensures
        dash_map_contents(m) == (Map::<Seq<char>, usize>::empty()),
{
    dashmap::DashMap::new()
}

/// `DashMap::insert`: the map holds the value under the key afterwards, and
/// under other keys what it held before. Hands back what the key held
/// before.
#[verifier::external_body]
pub(crate) fn dash_map_insert(m: &mut Addresses, key: String, value: usize) -> (r: Option<usize>)
    ensures
        dash_map_contents(*final(m)) == dash_map_contents(*old(m)).insert(key@, value),
        r == if dash_map_contents(*old(m)).contains_key(key@) {
            Some(dash_map_contents(*old(m))[key@])
        } else {
            None
        },
{
    m.insert(key, value)
}

/// `DashMap::get`: what the map holds under a key.
#[verifier::external_body]
pub(crate) fn dash_map_get(m: &Addresses, key: &str) -> (r: Option<usize>)
    ensures
        r == if dash_map_contents(*m).contains_key(key@) {
            Some(dash_map_contents(*m)[key@])
        } else {
            None
        },
{
    m.get(key).map(|found| *found.value())
}

} // verus!
