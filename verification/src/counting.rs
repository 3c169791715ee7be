//! Counting the entries of a list of marks that are set.

use vstd::prelude::*;

verus! {

/// The number of entries of `v` that are set.
pub open spec fn count_set(v: Seq<bool>) -> nat
    decreases v.len(),
{
    if v.len() == 0 {
        0
    } else {
        count_set(v.drop_last()) + if v.last() {
            1nat
        } else {
            0nat
        }
    }
}

/// No more entries are set than there are.
pub proof fn lemma_count_set_bound(v: Seq<bool>)
    ensures
        count_set(v) <= v.len(),
    decreases v.len(),
{
    if v.len() > 0 {
        lemma_count_set_bound(v.drop_last());
    }
}

/// Where no entry is set the count is 0.
pub proof fn lemma_count_set_none(v: Seq<bool>)
    requires
        forall|i: int| 0 <= i < v.len() ==> !#[trigger] v[i],
    ensures
        count_set(v) == 0,
    decreases v.len(),
{
    if v.len() > 0 {
        lemma_count_set_none(v.drop_last());
    }
}

/// Setting an entry that was not set adds one to the count.
pub proof fn lemma_count_set_grows(v: Seq<bool>, i: int)
    requires
        0 <= i < v.len(),
        !v[i],
    ensures
        count_set(v.update(i, true)) == count_set(v) + 1,
    decreases v.len(),
{
    let after = v.update(i, true);
    if i == v.len() - 1 {
        assert(after.drop_last() =~= v.drop_last());
    } else {
        lemma_count_set_grows(v.drop_last(), i);
        assert(after.drop_last() =~= v.drop_last().update(i, true));
    }
}

} // verus!
