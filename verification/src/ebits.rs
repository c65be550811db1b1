use vstd::prelude::*;

verus! {

// A per-path bit set tracking which `Eventually` properties have not yet
// been observed true along the current path prefix. Bit `i` set means
// property `i` is still owed a satisfying state. The set is kept in
// `id_set::IdSet`, whose contents are named by `id_set_elems` below.
#[verifier::external_type_specification]
#[verifier::external_body]
pub struct ExIdSet(id_set::IdSet);

/// The set of ids held by an `id_set::IdSet`.
pub uninterp spec fn id_set_elems(s: id_set::IdSet) -> Set<usize>;

/// Relies on id_set::IdSet::new: creates the empty set.
#[verifier::external_body]
pub fn ebits_new() -> (r: id_set::IdSet)
    ensures
        id_set_elems(r) == Set::<usize>::empty(),
{
    id_set::IdSet::new()
}

/// Relies on id_set::IdSet::insert: adds the id, reporting whether it was
/// absent before.
#[verifier::external_body]
pub fn ebits_insert(s: &mut id_set::IdSet, id: usize) -> (r: bool)
    ensures
        id_set_elems(*final(s)) == id_set_elems(*old(s)).insert(id),
        r == !id_set_elems(*old(s)).contains(id),
{
    s.insert(id)
}

/// Relies on id_set::IdSet::remove: takes the id out, reporting whether it
/// was present.
#[verifier::external_body]
pub fn ebits_remove(s: &mut id_set::IdSet, id: usize) -> (r: bool)
    ensures
        id_set_elems(*final(s)) == id_set_elems(*old(s)).remove(id),
        r == id_set_elems(*old(s)).contains(id),
{
    s.remove(id)
}

/// Relies on id_set::IdSet::contains: membership test.
#[verifier::external_body]
pub fn ebits_contains(s: &id_set::IdSet, id: usize) -> (r: bool)
    ensures
        r == id_set_elems(*s).contains(id),
{
    s.contains(id)
}

/// Relies on id_set::IdSet::clone: copies the set.
#[verifier::external_body]
pub fn ebits_clone(s: &id_set::IdSet) -> (r: id_set::IdSet)
    ensures
        id_set_elems(r) == id_set_elems(*s),
{
    s.clone()
}

} // verus!
