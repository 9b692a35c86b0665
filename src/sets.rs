//! Sets of cell coordinates (`ahash::AHashSet`) and digit tallies
//! (`counter::Counter`), and what the library relies on from them.
use ahash::AHashSet;
use counter::Counter;
use std::hash::Hash;
use vstd::multiset::Multiset;
use vstd::prelude::*;

verus! {

#[verifier::external_type_specification]
#[verifier::external_body]
#[verifier::reject_recursive_types(T)]
#[verifier::reject_recursive_types(S)]
pub struct ExAHashSet<T, S>(AHashSet<T, S>);

#[verifier::external_type_specification]
#[verifier::external_body]
pub struct ExRandomState(ahash::RandomState);

#[verifier::external_type_specification]
#[verifier::external_body]
#[verifier::reject_recursive_types(T)]
#[verifier::reject_recursive_types(N)]
pub struct ExCounter<T: Hash + Eq, N>(Counter<T, N>);

/// A set of cell coordinates `(x, y)`.
pub type IndexSet = AHashSet<(usize, usize)>;

/// The coordinates an `IndexSet` holds.
pub uninterp spec fn index_set_of(s: IndexSet) -> Set<(usize, usize)>;

/// What a tally of digits holds.
pub uninterp spec fn tally_of(c: Counter<usize>) -> Multiset<usize>;

/// Relies on `AHashSet::new`: an empty set.
#[verifier::external_body]
pub(crate) fn new_index_set() -> (r: IndexSet)
    ensures
        index_set_of(r) == Set::<(usize, usize)>::empty(),
{
    AHashSet::new()
}

/// Relies on `HashSet::insert` (through `AHashSet`'s `DerefMut`): adds `c`.
#[verifier::external_body]
pub(crate) fn index_set_insert(s: &mut IndexSet, c: (usize, usize))
    ensures
        index_set_of(*final(s)) == index_set_of(*old(s)).insert(c),
{
    s.insert(c);
}

/// Relies on `&AHashSet | &AHashSet`: the union of the two sets.
#[verifier::external_body]
pub(crate) fn index_set_union(a: &IndexSet, b: &IndexSet) -> (r: IndexSet)
    ensures
        index_set_of(r) == index_set_of(*a).union(index_set_of(*b)),
{
    a | b
}

/// Relies on `HashSet::iter`: each element once, in no stated order.
#[verifier::external_body]
pub(crate) fn index_set_items(s: &IndexSet) -> (r: Vec<(usize, usize)>)
    ensures
        r@.to_set() == index_set_of(*s),
        r@.no_duplicates(),
{
    s.iter().copied().collect()
}

/// Relies on `Counter::new`: an empty tally.
#[verifier::external_body]
pub(crate) fn new_tally() -> (r: Counter<usize>)
    ensures
        tally_of(r) == Multiset::<usize>::empty(),
{
    Counter::new()
}

/// Relies on `Counter::update`: counts each of `items` once more.
#[verifier::external_body]
pub(crate) fn tally_update(c: &mut Counter<usize>, items: &Vec<usize>)
    ensures
        tally_of(*final(c)) == tally_of(*old(c)).add(items@.to_multiset()),
{
    c.update(items.iter().copied());
}

/// Relies on `Counter`'s `Index`: the count of `v`, zero when absent.
#[verifier::external_body]
pub(crate) fn tally_count(c: &Counter<usize>, v: usize) -> (r: usize)
    ensures
        r == tally_of(*c).count(v),
{
    c[&v]
}

} // verus!
