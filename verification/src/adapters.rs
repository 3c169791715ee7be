//! Counts the steps between adapters in a row, and the ways to leave
//! adapters out of the row.

use vstd::prelude::*;

verus! {

/// The rating at place `k` of the row: 0 for the outlet at place 0, then
/// the adapters.
pub open spec fn rating(numbers: Seq<i32>, k: int) -> int {
    if k <= 0 {
        0
    } else {
        numbers[k - 1] as int
    }
}

/// The number of steps of exactly `size` among the first `k` steps of the row.
pub open spec fn steps_of(numbers: Seq<i32>, size: int, k: int) -> nat
    decreases k,
{
    if k <= 0 {
        0
    } else {
        steps_of(numbers, size, k - 1) + if rating(numbers, k) - rating(numbers, k - 1) == size {
            1nat
        } else {
            0nat
        }
    }
}

/// Every step of the row fits in an `i32`.
pub open spec fn steps_fit(numbers: Seq<i32>) -> bool {
    forall|k: int|
        1 <= k <= numbers.len() ==> i32::MIN <= #[trigger] rating(numbers, k) - rating(
            numbers,
            k - 1,
        ) <= i32::MAX
}

/// The number of steps of 1, and the number of steps of 3 with one more
/// for the step up to the device.
pub fn count_intervals(numbers: &[i32]) -> (r: (usize, usize))
    requires
        steps_fit(numbers@),
        numbers@.len() < usize::MAX,
    ensures
        r.0 == steps_of(numbers@, 1, numbers@.len() as int),
        r.1 == steps_of(numbers@, 3, numbers@.len() as int) + 1,
{
    let mut diffs1: usize = 0;
    let mut diffs3: usize = 0;
    let mut last_jolt: i32 = 0;
    let mut k: usize = 0;
    while k < numbers.len()
        invariant
            steps_fit(numbers@),
            k <= numbers@.len(),
            last_jolt == rating(numbers@, k as int),
            diffs1 == steps_of(numbers@, 1, k as int),
            diffs3 == steps_of(numbers@, 3, k as int),
            diffs1 <= k,
            diffs3 <= k,
        decreases numbers@.len() - k,
    {
        let jolt = numbers[k];
        proof {
            assert(rating(numbers@, k + 1) == jolt);
        }
        let step = jolt - last_jolt;
        if step == 1 {
            diffs1 += 1;
        } else if step == 3 {
            diffs3 += 1;
        }
        last_jolt = jolt;
        k += 1;
    }
    diffs3 += 1;
    (diffs1, diffs3)
}

/// The step from place `k - back` to place `k` is at most 3.
pub open spec fn in_reach(numbers: Seq<i32>, k: int, back: int) -> bool {
    k - back >= 0 && rating(numbers, k) - rating(numbers, k - back) <= 3
}

/// The number of ways to get from the outlet to the adapter at place `k`
/// by steps over at most two adapters: through the place before, and if
/// that is in reach, also through the second and, if that is in reach too,
/// through the third place before.
pub open spec fn ways(numbers: Seq<i32>, k: int) -> nat
    decreases k,
{
    if k <= 0 {
        1
    } else if !in_reach(numbers, k, 1) {
        0
    } else if !in_reach(numbers, k, 2) {
        ways(numbers, k - 1)
    } else if !in_reach(numbers, k, 3) {
        ways(numbers, k - 1) + ways(numbers, k - 2)
    } else {
        ways(numbers, k - 1) + ways(numbers, k - 2) + ways(numbers, k - 3)
    }
}

/// What is asked of the place `k` of the row for the count to fit.
pub open spec fn place_fits(numbers: Seq<i32>, k: int) -> bool {
    &&& ways(numbers, k) <= usize::MAX
    &&& i32::MIN <= rating(numbers, k) - rating(numbers, k - 1) <= i32::MAX
    &&& in_reach(numbers, k, 1) ==> i32::MIN <= rating(numbers, k) - rating(numbers, k - 2)
        <= i32::MAX
    &&& in_reach(numbers, k, 1) && rating(numbers, k) - rating(numbers, k - 2) <= 3 ==> i32::MIN
        <= rating(numbers, k) - rating(numbers, k - 3) <= i32::MAX
}

/// The differences that are looked at fit in an `i32`, and the counts in a
/// `usize`.
pub open spec fn counts_fit(numbers: Seq<i32>) -> bool {
    forall|k: int| 1 <= k <= numbers.len() ==> #[trigger] place_fits(numbers, k)
}

/// The number of ways to leave adapters out of the row, so that no step is
/// more than 3: the ways to get to the last adapter.
pub fn count_arrangements(numbers: &[i32]) -> (r: usize)
    requires
        counts_fit(numbers@),
    ensures
        r == ways(numbers@, numbers@.len() as int),
{
    let mut recent: [i32; 3] = [0, 0, 0];
    let mut counts: [usize; 3] = [1, 0, 0];
    let mut i: usize = 0;
    while i < numbers.len()
        invariant
            counts_fit(numbers@),
            i <= numbers@.len(),
            recent@[0] == rating(numbers@, i as int),
            recent@[1] == rating(numbers@, i - 1),
            recent@[2] == rating(numbers@, i - 2),
            counts@[0] == ways(numbers@, i as int),
            i >= 1 ==> counts@[1] == ways(numbers@, i - 1),
            i >= 2 ==> counts@[2] == ways(numbers@, i - 2),
            i < 1 ==> counts@[1] == 0,
            i < 2 ==> counts@[2] == 0,
        decreases numbers@.len() - i,
    {
        let n = numbers[i];
        let r0 = recent[0];
        let r1 = recent[1];
        let r2 = recent[2];
        let c0 = counts[0];
        let c1 = counts[1];
        let c2 = counts[2];
        let ghost k = i + 1;
        proof {
            assert(rating(numbers@, k) == n);
            assert(place_fits(numbers@, k));
        }
        let mut first: usize = 0;
        if n - r0 <= 3 {
            first = c0;
            if n - r1 <= 3 {
                first = first + c1;
                if n - r2 <= 3 {
                    first = first + c2;
                }
            }
        }
        recent[0] = n;
        counts[0] = first;
        recent[1] = r0;
        counts[1] = c0;
        recent[2] = r1;
        counts[2] = c1;
        i += 1;
    }
    counts[0]
}

/// The number of ways to leave adapters out of the row, or `None` if a
/// difference or a count on the way does not fit.
pub fn try_count_arrangements(numbers: &[i32]) -> (r: Option<usize>)
    ensures
        r is Some <==> counts_fit(numbers@),
        match r {
            Some(n) => n == ways(numbers@, numbers@.len() as int),
            None => true,
        },
{
    let mut recent: [i32; 3] = [0, 0, 0];
    let mut counts: [usize; 3] = [1, 0, 0];
    let mut i: usize = 0;
    while i < numbers.len()
        invariant
            i <= numbers@.len(),
            forall|k: int| 1 <= k <= i ==> #[trigger] place_fits(numbers@, k),
            recent@[0] == rating(numbers@, i as int),
            recent@[1] == rating(numbers@, i - 1),
            recent@[2] == rating(numbers@, i - 2),
            counts@[0] == ways(numbers@, i as int),
            i >= 1 ==> counts@[1] == ways(numbers@, i - 1),
            i >= 2 ==> counts@[2] == ways(numbers@, i - 2),
            i < 1 ==> counts@[1] == 0,
            i < 2 ==> counts@[2] == 0,
        decreases numbers@.len() - i,
    {
        let n = numbers[i];
        let r0 = recent[0];
        let r1 = recent[1];
        let r2 = recent[2];
        let c0 = counts[0];
        let c1 = counts[1];
        let c2 = counts[2];
        let ghost k = i + 1;
        proof {
            assert(rating(numbers@, k) == n);
        }
        let mut first: usize = 0;
        let step = match n.checked_sub(r0) {
            Some(d) => d,
            None => {
                assert(!place_fits(numbers@, k));
                return None;
            },
        };
        if step <= 3 {
            first = c0;
            let two = match n.checked_sub(r1) {
                Some(d) => d,
                None => {
                    assert(!place_fits(numbers@, k));
                    return None;
                },
            };
            if two <= 3 {
                first = match first.checked_add(c1) {
                    Some(sum) => sum,
                    None => {
                        assert(!place_fits(numbers@, k));
                        return None;
                    },
                };
                let three = match n.checked_sub(r2) {
                    Some(d) => d,
                    None => {
                        assert(!place_fits(numbers@, k));
                        return None;
                    },
                };
                if three <= 3 {
                    first = match first.checked_add(c2) {
                        Some(sum) => sum,
                        None => {
                            assert(!place_fits(numbers@, k));
                            return None;
                        },
                    };
                }
            }
        }
        assert(place_fits(numbers@, k));
        recent[0] = n;
        counts[0] = first;
        recent[1] = r0;
        counts[1] = c0;
        recent[2] = r1;
        counts[2] = c1;
        i += 1;
    }
    Some(counts[0])
}

} // verus!
