//! Sets of handles, as a schema under construction collects them.
//!
//! The sets are `dashmap::DashSet`s of the handles' numbers. What is said of
//! them here is taken on trust, not proved. A set hands its items out in no
//! particular order; the library puts them in ascending order before it
//! works on them.

use vstd::prelude::*;

verus! {

#[verifier::external_type_specification]
#[verifier::external_body]
#[verifier::reject_recursive_types(K)]
#[verifier::reject_recursive_types(S)]
pub struct ExDashSet<K, S>(dashmap::DashSet<K, S>);

/// The numbers that a set holds.
pub uninterp spec fn dash_set_contents(s: dashmap::DashSet<usize>) -> Set<usize>;

/// `DashSet::new`: a set that holds nothing.
#[verifier::external_body]
pub(crate) fn dash_set_new() -> (s: dashmap::DashSet<usize>)
    ensures
        dash_set_contents(s) == Set::<usize>::empty(),
{
    dashmap::DashSet::new()
}

/// `DashSet::insert`: the set holds the key afterwards, and what it held
/// before. Says whether the key is new to the set.
#[verifier::external_body]
pub(crate) fn dash_set_insert(s: &mut dashmap::DashSet<usize>, key: usize) -> (r: bool)
    ensures
        dash_set_contents(*final(s)) == dash_set_contents(*old(s)).insert(key),
        r == !dash_set_contents(*old(s)).contains(key),
{
    s.insert(key)
}

/// `DashSet::iter`: the items of the set, each once, in the order in which
/// the set hands them out.
#[verifier::external_body]
pub(crate) fn dash_set_items(s: &dashmap::DashSet<usize>) -> (r: Vec<usize>)
    ensures
        r@.no_duplicates(),
        forall|k: usize| r@.contains(k) <==> dash_set_contents(*s).contains(k),
{
    s.iter().map(|item| *item.key()).collect()
}

/// Whether a sequence of numbers ascends: each is less than the next.
pub open spec fn ascends(s: Seq<usize>) -> bool {
    forall|i: int, j: int| 0 <= i < j < s.len() ==> s[i] < s[j]
}

/// The numbers of a list without duplicates, in ascending order.
pub(crate) fn ascending(v: &Vec<usize>) -> (r: Vec<usize>)
    requires
        v@.no_duplicates(),
    ensures
        ascends(r@),
        forall|k: usize| r@.contains(k) <==> v@.contains(k),
        r@.len() == v@.len(),
{
    let mut out: Vec<usize> = Vec::new();
    let mut i: usize = 0;
    while i < v.len()
        invariant
            i <= v.len(),
            v@.no_duplicates(),
            out@.len() == i,
            ascends(out@),
            forall|k: usize| out@.contains(k) <==> v@.take(i as int).contains(k),
        decreases v.len() - i,
    {
        let x = v[i];
        let mut p: usize = 0;
        while p < out.len() && out[p] < x
            invariant
                p <= out.len(),
                forall|j: int| 0 <= j < p ==> out@[j] < x,
            decreases out.len() - p,
        {
            p += 1;
        }
        let ghost before = out@;
        proof {
            assert(!before.contains(x)) by {
                if before.contains(x) {
                    assert(v@.take(i as int).contains(x));
                    let j = choose|j: int| 0 <= j < i && v@.take(i as int)[j] == x;
                    assert(v@[j] == v@[i as int]);
                }
            }
            if p < before.len() {
                assert(before.contains(before[p as int]));
                assert(before[p as int] != x);
            }
        }
        out.insert(p, x);
        proof {
            let after = out@;
            assert(after =~= before.insert(p as int, x));
            assert forall|a: int, b: int| 0 <= a < b < after.len() implies after[a] < after[b] by {
                let a0 = if a < p { a } else { a - 1 };
                let b0 = if b < p { b } else { b - 1 };
                if a != p && b != p {
                    assert(after[a] == before[a0]);
                    assert(after[b] == before[b0]);
                } else if a == p {
                    assert(after[b] == before[b0]);
                    if p < before.len() {
                        if b0 > p {
                            assert(before[p as int] < before[b0]);
                        }
                    }
                } else {
                    assert(after[a] == before[a0]);
                }
            }
            let upto = v@.take(i + 1);
            assert(upto =~= v@.take(i as int).push(x));
            assert forall|k: usize| after.contains(k) <==> upto.contains(k) by {
                if after.contains(k) {
                    let m = choose|m: int| 0 <= m < after.len() && after[m] == k;
                    if m == p {
                        assert(upto[i as int] == x);
                    } else {
                        let m0 = if m < p { m } else { m - 1 };
                        assert(before[m0] == k);
                        assert(before.contains(k));
                        let n = choose|n: int| 0 <= n < i && v@.take(i as int)[n] == k;
                        assert(upto[n] == k);
                    }
                }
                if upto.contains(k) {
                    let n = choose|n: int| 0 <= n < upto.len() && upto[n] == k;
                    if n == i {
                        assert(after[p as int] == x);
                    } else {
                        assert(v@.take(i as int)[n] == k);
                        assert(before.contains(k));
                        let m0 = choose|m0: int| 0 <= m0 < before.len() && before[m0] == k;
                        let m = if m0 < p { m0 } else { m0 + 1 };
                        assert(after[m] == k);
                    }
                }
            }
        }
        i += 1;
    }
    assert(v@.take(v.len() as int) =~= v@);
    out
}

} // verus!
