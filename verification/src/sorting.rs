use vstd::prelude::*;

verus! {

/// A value with an integer sort key.
pub trait SortKey {
    spec fn key_spec(&self) -> u64;

    fn sort_key(&self) -> (key: u64)
        ensures
            key == self.key_spec(),
    ;
}

/// Keys never decrease along `s`.
pub open spec fn sorted_by_key<T: SortKey>(s: Seq<T>) -> bool {
    forall|i: int, j: int| 0 <= i <= j < s.len() ==> s[i].key_spec() <= s[j].key_spec()
}

/// Sorts `items` by key (`sort_unstable_by_key` of std): the result holds the
/// same items, in non-decreasing order of key; the order of items of equal
/// key is left unsaid.
#[verifier::external_body]
pub(crate) fn sort_by_key<T: SortKey>(items: &mut Vec<T>)
    ensures
        final(items)@.to_multiset() == old(items)@.to_multiset(),
        sorted_by_key(final(items)@),
{
    items.sort_unstable_by_key(|item| item.sort_key());
}

/// An entry of the search: a distance and what it is the distance of.
impl SortKey for (u64, usize) {
    open spec fn key_spec(&self) -> u64 {
        self.0
    }

    fn sort_key(&self) -> (key: u64) {
        self.0
    }
}

} // verus!
