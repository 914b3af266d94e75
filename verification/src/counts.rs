//! The tally table of the branching heuristic, backed by a hash map of an
//! outside crate. Verified code sees the table only through `counts_of` and
//! the trusted operations below.
use vstd::prelude::*;

verus! {

/// How often each literal was seen. Opaque to the verifier; its contents
/// are `counts_of`.
#[verifier::external_body]
pub struct LitCounts {
    map: hashbrown::HashMap<isize, usize>,
}

/// The entries that a `LitCounts` table holds.
pub uninterp spec fn counts_of(c: LitCounts) -> Map<isize, usize>;

/// Relies on hashbrown::HashMap::new: a fresh map holds no entry.
#[verifier::external_body]
pub(crate) fn counts_new() -> (r: LitCounts)
    ensures
        counts_of(r).dom() == Set::<isize>::empty(),
{
    LitCounts { map: hashbrown::HashMap::new() }
}

/// Relies on hashbrown::HashMap::get: the value stored under the key, if
/// any entry is stored there.
#[verifier::external_body]
pub(crate) fn counts_get(c: &LitCounts, k: isize) -> (r: Option<usize>)
    ensures
        r == if counts_of(*c).dom().contains(k) {
            Some(counts_of(*c)[k])
        } else {
            None::<usize>
        },
{
    c.map.get(&k).copied()
}

/// Relies on hashbrown::HashMap::insert: stores the value under the key,
/// replacing any entry stored there before.
#[verifier::external_body]
pub(crate) fn counts_insert(c: &mut LitCounts, k: isize, v: usize)
    ensures
        counts_of(*final (c)) == counts_of(*old(c)).insert(k, v),
{
    c.map.insert(k, v);
}

/// Relies on hashbrown::HashMap::into_iter and Iterator::max_by_key: the
/// iterator yields every entry exactly once, in no promised order, and
/// `max_by_key` returns an entry whose value no other entry exceeds — which
/// one of several greatest entries comes back is not promised.
#[verifier::external_body]
pub(crate) fn counts_max(c: LitCounts) -> (r: Option<(isize, usize)>)
    ensures
        match r {
            None => counts_of(c).dom() == Set::<isize>::empty(),
            Some((k, v)) => counts_of(c).dom().contains(k) && counts_of(c)[k] == v && forall|
                k2: isize,
            |
                counts_of(c).dom().contains(k2) ==> counts_of(c)[k2] <= v,
        },
{
    c.map.into_iter().max_by_key(|x| x.1)
}

} // verus!
