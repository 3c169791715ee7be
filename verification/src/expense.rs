//! Finds entries of a sorted list that add up to a given sum.

use vstd::prelude::*;

verus! {

/// The list is in ascending order.
pub open spec fn ascending(v: Seq<i32>) -> bool {
    forall|i: int, j: int| 0 <= i < j < v.len() ==> v[i] <= v[j]
}

/// Some entry after index `i` makes up `sum` together with the entry at `i`.
pub open spec fn has_partner(v: Seq<i32>, i: int, sum: int) -> bool {
    exists|j: int| i < j < v.len() && #[trigger] v[j] + v[i] == sum
}

/// Some two entries after index `i` make up `sum` together with the entry at `i`.
pub open spec fn has_partners(v: Seq<i32>, i: int, sum: int) -> bool {
    exists|j: int| i < j < v.len() && #[trigger] has_partner(v, j, sum - v[i])
}

/// Whether `key` is among the entries of `v` from index `from` on.
fn search_from(v: &[i32], from: usize, key: i32) -> (found: bool)
    requires
        ascending(v@),
        from <= v@.len(),
    ensures
        found == exists|j: int| from <= j < v@.len() && v@[j] == key,
{
    let mut lo: usize = from;
    let mut hi: usize = v.len();
    while lo < hi
        invariant
            ascending(v@),
            from <= lo <= hi <= v@.len(),
            forall|j: int| from <= j < lo ==> v@[j] < key,
            forall|j: int| hi <= j < v@.len() ==> v@[j] > key,
        decreases hi - lo,
    {
        let mid = lo + (hi - lo) / 2;
        let x = v[mid];
        if x == key {
            return true;
        } else if x < key {
            lo = mid + 1;
        } else {
            hi = mid;
        }
    }
    false
}

/// The first entry from index `from` on that has a partner after it for
/// `sum`: its index, the entry and the partner.
fn find_pair_from(v: &[i32], from: usize, sum: i64) -> (r: Option<(usize, i32, i32)>)
    requires
        ascending(v@),
        from <= v@.len(),
        -0x2_0000_0000 <= sum <= 0x2_0000_0000,
    ensures
        match r {
            Some((i, a, b)) => from <= i < v@.len() && a == v@[i as int] && a + b == sum
                && has_partner(v@, i as int, sum as int) && forall|k: int|
                from <= k < i ==> !has_partner(v@, k, sum as int),
            None => forall|k: int| from <= k < v@.len() ==> !has_partner(v@, k, sum as int),
        },
{
    let n = v.len();
    if from == n {
        return None;
    }
    let mut i: usize = from + 1;
    while i < n
        invariant
            ascending(v@),
            n == v@.len(),
            from < i <= n,
            -0x2_0000_0000 <= sum <= 0x2_0000_0000,
            forall|k: int| from <= k < i - 1 ==> !has_partner(v@, k, sum as int),
        decreases n - i,
    {
        let a = v[i - 1];
        let rest: i64 = sum - a as i64;
        if rest < a as i64 {
            proof {
                assert forall|k: int| i - 1 <= k < n implies !has_partner(v@, k, sum as int) by {
                    if has_partner(v@, k, sum as int) {
                        let j = choose|j: int| k < j < v@.len() && #[trigger] v@[j] + v@[k] == sum;
                        assert(v@[i - 1] <= v@[j]);
                        if i - 1 < k {
                            assert(v@[i - 1] <= v@[k]);
                        }
                    }
                }
            }
            return None;
        }
        // A partner beyond the range of the entries is not among them.
        if rest <= 0x7fff_ffff {
            let b = rest as i32;
            if search_from(v, i, b) {
                proof {
                    let j = choose|j: int| i <= j < v@.len() && v@[j] == b;
                    assert(v@[j] + v@[i - 1] == sum);
                }
                return Some((i - 1, a, b));
            }
        }
        proof {
            if has_partner(v@, i - 1, sum as int) {
                let j = choose|j: int| i - 1 < j < v@.len() && #[trigger] v@[j] + v@[i - 1] == sum;
                assert(v@[j] == rest);
            }
        }
        i += 1;
    }
    proof {
        assert(!has_partner(v@, n - 1, sum as int));
    }
    None
}

/// Two entries of the sorted list `v`, at different places, that add up to
/// `sum`: the first entry that has such a partner after it, and the partner.
pub fn find_pair(v: &[i32], sum: i32) -> (r: Option<(i32, i32)>)
    requires
        ascending(v@),
    ensures
        match r {
            Some((a, b)) => a + b == sum && exists|i: int|
                0 <= i < v@.len() && a == #[trigger] v@[i] && has_partner(v@, i, sum as int)
                    && forall|k: int| 0 <= k < i ==> !has_partner(v@, k, sum as int),
            None => forall|k: int| 0 <= k < v@.len() ==> !has_partner(v@, k, sum as int),
        },
{
    match find_pair_from(v, 0, sum as i64) {
        Some((_, a, b)) => Some((a, b)),
        None => None,
    }
}

/// Three entries of the sorted list `v`, at different places, that add up
/// to `sum`: the first entry that has two such partners after it, the first
/// entry after it that has a partner for the rest, and that partner.
pub fn find_triple(v: &[i32], sum: i32) -> (r: Option<(i32, i32, i32)>)
    requires
        ascending(v@),
    ensures
        match r {
            Some((a, b, c)) => a + b + c == sum && exists|i: int, j: int|
                #![trigger v@[i], v@[j]]
                {
                    &&& 0 <= i < j < v@.len()
                    &&& a == v@[i]
                    &&& b == v@[j]
                    &&& has_partner(v@, j, sum - a)
                    &&& forall|k: int| 0 <= k < i ==> !has_partners(v@, k, sum as int)
                    &&& forall|k: int| i < k < j ==> !#[trigger] has_partner(v@, k, sum - a)
                },
            None => forall|k: int| 0 <= k < v@.len() ==> !has_partners(v@, k, sum as int),
        },
{
    let n = v.len();
    let mut i: usize = 1;
    while i < n
        invariant
            ascending(v@),
            n == v@.len(),
            1 <= i,
            forall|k: int| 0 <= k < i - 1 && k < n ==> !has_partners(v@, k, sum as int),
        decreases n - i,
    {
        let a = v[i - 1];
        match find_pair_from(v, i, sum as i64 - a as i64) {
            Some((j, b, c)) => {
                proof {
                    assert(has_partner(v@, j as int, sum - v@[i - 1]));
                    assert(a == v@[i - 1] && b == v@[j as int]);
                }
                return Some((a, b, c));
            },
            None => {
                proof {
                    if has_partners(v@, i - 1, sum as int) {
                        let j = choose|j: int|
                            i - 1 < j < v@.len() && #[trigger] has_partner(v@, j, sum - v@[i - 1]);
                        assert(false);
                    }
                }
            },
        }
        i += 1;
    }
    proof {
        if n > 0 {
            assert(!has_partners(v@, n - 1, sum as int));
        }
    }
    None
}

} // verus!
