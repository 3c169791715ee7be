//! Finds the number of a list that is not the sum of two of the numbers
//! before it, and a run of numbers that adds up to it.

use vstd::prelude::*;

verus! {

/// How many numbers before a number are looked at.
pub const PREAMBLE_LENGTH: usize = 25;

/// The least of the numbers, or `u64::MAX` if there is none.
pub fn find_min(numbers: &[u64]) -> (best: u64)
    ensures
        forall|i: int| 0 <= i < numbers@.len() ==> best <= numbers@[i],
        numbers@.len() == 0 ==> best == u64::MAX,
        numbers@.len() > 0 ==> numbers@.contains(best),
{
    let mut best: u64 = u64::MAX;
    let mut k: usize = 0;
    while k < numbers.len()
        invariant
            k <= numbers@.len(),
            forall|i: int| 0 <= i < k ==> best <= numbers@[i],
            k == 0 ==> best == u64::MAX,
            k > 0 ==> best == u64::MAX || exists|i: int| 0 <= i < k && numbers@[i] == best,
        decreases numbers@.len() - k,
    {
        if numbers[k] < best {
            best = numbers[k];
        }
        k += 1;
    }
    proof {
        if numbers@.len() > 0 {
            if !(exists|i: int| 0 <= i < numbers@.len() && numbers@[i] == best) {
                assert(numbers@[0] == u64::MAX);
            }
            let i = choose|i: int| 0 <= i < numbers@.len() && numbers@[i] == best;
            assert(numbers@[i] == best);
        }
    }
    best
}

/// The greatest of the numbers, or 0 if there is none.
pub fn find_max(numbers: &[u64]) -> (best: u64)
    ensures
        forall|i: int| 0 <= i < numbers@.len() ==> best >= numbers@[i],
        numbers@.len() == 0 ==> best == 0,
        numbers@.len() > 0 ==> numbers@.contains(best),
{
    let mut best: u64 = 0;
    let mut k: usize = 0;
    while k < numbers.len()
        invariant
            k <= numbers@.len(),
            forall|i: int| 0 <= i < k ==> best >= numbers@[i],
            k == 0 ==> best == 0,
            k > 0 ==> best == 0 || exists|i: int| 0 <= i < k && numbers@[i] == best,
        decreases numbers@.len() - k,
    {
        if numbers[k] > best {
            best = numbers[k];
        }
        k += 1;
    }
    proof {
        if numbers@.len() > 0 {
            if !(exists|i: int| 0 <= i < numbers@.len() && numbers@[i] == best) {
                assert(numbers@[0] == 0);
            }
            let i = choose|i: int| 0 <= i < numbers@.len() && numbers@[i] == best;
            assert(numbers@[i] == best);
        }
    }
    best
}

/// The numbers at `i` and at `j`, in this order, make up `target`: they add
/// up to it, the first is below it, and it is not twice the first.
pub open spec fn makes_up(p: Seq<u64>, i: int, j: int, target: u64) -> bool {
    &&& 0 <= i < j < p.len()
    &&& p[i] < target
    &&& p[i] + p[i] != target
    &&& p[i] + p[j] == target
}

/// Some two of the numbers make up `target`.
pub open spec fn is_sum_of_two(p: Seq<u64>, target: u64) -> bool {
    exists|i: int, j: int| makes_up(p, i, j, target)
}

/// Whether two of the numbers of `preamble`, an earlier and a later one,
/// make up `target_sum`.
pub fn is_valid(preamble: &[u64], target_sum: u64) -> (r: bool)
    ensures
        r == is_sum_of_two(preamble@, target_sum),
{
    let n = preamble.len();
    let mut i: usize = 0;
    while i < n
        invariant
            n == preamble@.len(),
            i <= n,
            forall|a: int, b: int| a < i ==> !makes_up(preamble@, a, b, target_sum),
        decreases n - i,
    {
        let a = preamble[i];
        if a < target_sum && a != target_sum - a {
            let b = target_sum - a;
            let mut j: usize = i + 1;
            while j < n
                invariant
                    n == preamble@.len(),
                    i < j <= n,
                    a == preamble@[i as int],
                    a < target_sum,
                    a != target_sum - a,
                    b == target_sum - a,
                    forall|k: int| i < k < j ==> !makes_up(preamble@, i as int, k, target_sum),
                decreases n - j,
            {
                if preamble[j] == b {
                    assert(makes_up(preamble@, i as int, j as int, target_sum));
                    return true;
                }
                j += 1;
            }
        }
        i += 1;
    }
    false
}

/// The number at index `i` has a full preamble before it and is not the sum
/// of two numbers of it.
pub open spec fn stands_out(numbers: Seq<u64>, i: int) -> bool {
    PREAMBLE_LENGTH <= i < numbers.len() && !is_sum_of_two(
        numbers.subrange(i - PREAMBLE_LENGTH, i),
        numbers[i],
    )
}

/// The first number that is not the sum of two of the 25 numbers before it.
pub fn find_invalid_num(numbers: &[u64]) -> (r: Option<u64>)
    ensures
        match r {
            Some(n) => exists|i: int|
                #[trigger] stands_out(numbers@, i) && numbers@[i] == n && forall|k: int|
                    k < i ==> !stands_out(numbers@, k),
            None => forall|k: int| !stands_out(numbers@, k),
        },
{
    let mut i: usize = PREAMBLE_LENGTH;
    while i < numbers.len()
        invariant
            PREAMBLE_LENGTH <= i,
            forall|k: int| k < i ==> !stands_out(numbers@, k),
        decreases numbers@.len() - i,
    {
        if !is_valid(&numbers[i - PREAMBLE_LENGTH..i], numbers[i]) {
            assert(stands_out(numbers@, i as int));
            return Some(numbers[i]);
        }
        i += 1;
    }
    None
}

/// The sum of the numbers at the indices `from..to`.
pub open spec fn run_sum(numbers: Seq<u64>, from: int, to: int) -> int
    decreases to - from,
{
    if to <= from {
        0
    } else {
        run_sum(numbers, from, to - 1) + numbers[to - 1]
    }
}

/// A longer run does not add up to less.
pub proof fn lemma_run_grows(numbers: Seq<u64>, from: int, to: int, further: int)
    requires
        from <= to <= further,
    ensures
        run_sum(numbers, from, to) <= run_sum(numbers, from, further),
    decreases further - to,
{
    if to < further {
        lemma_run_grows(numbers, from, to, further - 1);
    }
}

/// The run of at least two numbers from index `a` to index `j`, both
/// counted, adds up to `target`, and the number at `a` alone is below it.
pub open spec fn adds_up(numbers: Seq<u64>, a: int, j: int, target: u64) -> bool {
    &&& 0 <= a < j < numbers.len()
    &&& numbers[a] < target
    &&& run_sum(numbers, a, j + 1) == target
}

/// No sum on the way to `target_sum` goes beyond `u64::MAX`.
pub open spec fn sums_fit(numbers: Seq<u64>, target: u64) -> bool {
    forall|a: int, j: int|
        0 <= a < j < numbers.len() && #[trigger] run_sum(numbers, a, j) < target ==> run_sum(
            numbers,
            a,
            j,
        ) + numbers[j] <= u64::MAX
}

/// The first and the last index of a run of two or more numbers that adds
/// up to `target_sum`: the run that starts first, and of those the shortest.
pub fn find_sequence(numbers: &[u64], target_sum: u64) -> (r: Option<(usize, usize)>)
    requires
        sums_fit(numbers@, target_sum),
    ensures
        match r {
            Some((a, j)) => adds_up(numbers@, a as int, j as int, target_sum) && forall|
                b: int,
                k: int,
            |
                (b < a || (b == a && k < j)) ==> !adds_up(numbers@, b, k, target_sum),
            None => forall|b: int, k: int| !adds_up(numbers@, b, k, target_sum),
        },
{
    let n = numbers.len();
    let mut i: usize = 1;
    while i < n
        invariant
            n == numbers@.len(),
            1 <= i,
            sums_fit(numbers@, target_sum),
            forall|b: int, k: int| b < i - 1 ==> !adds_up(numbers@, b, k, target_sum),
        decreases n - i,
    {
        let mut sum = numbers[i - 1];
        let ghost a: int = i - 1;
        proof {
            reveal_with_fuel(run_sum, 2);
            assert(run_sum(numbers@, a, i as int) == sum);
        }
        if sum < target_sum {
            let mut j: usize = i;
            while j < n
                invariant_except_break
                    sum == run_sum(numbers@, a, j as int),
                    sum < target_sum,
                    forall|k: int| k < j ==> !#[trigger] adds_up(numbers@, a, k, target_sum),
                invariant
                    n == numbers@.len(),
                    1 <= i <= j <= n,
                    a == i - 1,
                    sums_fit(numbers@, target_sum),
                    numbers@[a] < target_sum,
                    forall|b: int, k: int| b < a ==> !adds_up(numbers@, b, k, target_sum),
                ensures
                    forall|k: int| !#[trigger] adds_up(numbers@, a, k, target_sum),
                decreases n - j,
            {
                sum += numbers[j];
                if sum == target_sum {
                    return Some((i - 1, j));
                }
                if sum > target_sum {
                    proof {
                        assert forall|k: int| !#[trigger] adds_up(numbers@, a, k, target_sum) by {
                            if k >= j && k < n {
                                lemma_run_grows(numbers@, a, j + 1, k + 1);
                            }
                        }
                    }
                    break;
                }
                j += 1;
            }
        }
        i += 1;
    }
    None
}

} // verus!
