//! Insertion-ordered hash sets of packages, kept by `indexmap::IndexSet`.
//!
//! Nothing in this file is proved. Each function below states what the
//! `indexmap` method that it calls does to the set's items, read in
//! iteration order. A set stores a package as the pair of its name and
//! its version.

use crate::Package;
use indexmap::IndexSet;
use std::hash::RandomState;
use vstd::prelude::*;

verus! {

#[verifier::external_type_specification]
#[verifier::external_body]
#[verifier::reject_recursive_types(T)]
#[verifier::reject_recursive_types(S)]
pub struct ExIndexSet<T, S>(IndexSet<T, S>);

/// A set of packages.
pub type PackageSet = IndexSet<(u64, u64), RandomState>;

/// The items of a set as `(name, version)` pairs, in iteration order.
pub uninterp spec fn set_items(s: IndexSet<(u64, u64), RandomState>) -> Seq<(u64, u64)>;

/// The items of a set as packages, in iteration order.
pub open spec fn packages(s: IndexSet<(u64, u64), RandomState>) -> Seq<Package> {
    set_items(s).map_values(|t: (u64, u64)| Package { name: t.0, version: t.1 })
}

/// `IndexSet::new`: a set without items.
#[verifier::external_body]
pub(crate) fn set_new() -> (s: IndexSet<(u64, u64), RandomState>)
    ensures
        packages(s) == Seq::<Package>::empty(),
{
    IndexSet::new()
}

/// `IndexSet::len`: the number of items.
#[verifier::external_body]
pub(crate) fn set_len(s: &IndexSet<(u64, u64), RandomState>) -> (n: usize)
    ensures
        n == set_items(*s).len(),
{
    s.len()
}

/// `IndexSet::insert`: an item that the set already holds leaves the set as
/// it is and gives `false`; a new one goes to the end and gives `true`.
#[verifier::external_body]
pub(crate) fn set_insert(s: &mut IndexSet<(u64, u64), RandomState>, p: Package) -> (added: bool)
    ensures
        added == !packages(*old(s)).contains(p),
        packages(*final(s)) == if added {
            packages(*old(s)).push(p)
        } else {
            packages(*old(s))
        },
{
    s.insert((p.name, p.version))
}

/// `IndexSet::contains`: whether the set holds the item.
#[verifier::external_body]
pub(crate) fn set_contains(s: &IndexSet<(u64, u64), RandomState>, p: &Package) -> (found: bool)
    ensures
        found == packages(*s).contains(*p),
{
    s.contains(&(p.name, p.version))
}

/// `IndexSet::get_index_of`: a position at which the set holds the item, or
/// `None` where it does not hold it.
#[verifier::external_body]
pub(crate) fn set_index_of(s: &IndexSet<(u64, u64), RandomState>, p: &Package) -> (at: Option<
    usize,
>)
    ensures
        at is Some <==> packages(*s).contains(*p),
        at matches Some(i) ==> i < packages(*s).len() && packages(*s)[i as int] == *p,
{
    s.get_index_of(&(p.name, p.version))
}

/// `IndexSet`'s `Index::index`: the item at a position. Past the end it
/// panics, so the position is to be one of the set.
#[verifier::external_body]
pub(crate) fn set_get(s: &IndexSet<(u64, u64), RandomState>, i: usize) -> (item: Package)
    requires
        i < packages(*s).len(),
    ensures
        item == packages(*s)[i as int],
{
    let pair = s[i];
    Package { name: pair.0, version: pair.1 }
}

/// `IndexSet::sort_unstable`: the same items, rearranged so that no item
/// stands before a smaller one. Pairs compare by their first component,
/// then by their second, which is the order of packages.
#[verifier::external_body]
pub(crate) fn set_sort(s: &mut IndexSet<(u64, u64), RandomState>)
    ensures
        packages(*final(s)).to_multiset() == packages(*old(s)).to_multiset(),
        forall|i: int, j: int|
            0 <= i < j < packages(*final(s)).len() ==> !(#[trigger] packages(*final(s))[j]).precedes(
                #[trigger] packages(*final(s))[i],
            ),
{
    s.sort_unstable()
}

} // verus!
