//! Buses that leave at multiples of their periods: waiting times, prime
//! factors and common multiples.

use vstd::prelude::*;
use vstd::arithmetic::div_mod::{lemma_fundamental_div_mod, lemma_mod_multiples_basic};
use vstd::string::StringExecFns;
use crate::multiples::{law_least_common_multiple, law_no_time_at_all};
use crate::text::{decimal, decimal_string};

verus! {

/// The time to wait from `start_time` for the next bus of period `p`; a
/// bus that leaves at `start_time` is missed.
pub fn compute_wait(start_time: usize, p: usize) -> (wait: usize)
    requires
        p > 0,
    ensures
        wait == p - start_time % p,
        1 <= wait <= p,
{
    p - (start_time % p)
}

/// The period of the bus to wait for least, with the time to wait: of
/// several such buses the first. While no wait is below `usize::MAX`, the
/// period is 0 and the time is `usize::MAX`.
pub fn find_best_period(start_time: usize, periods: &[(usize, usize)]) -> (r: (usize, usize))
    requires
        forall|k: int| 0 <= k < periods@.len() ==> (#[trigger] periods@[k]).1 > 0,
    ensures
        forall|k: int|
            0 <= k < periods@.len() ==> r.1 <= (#[trigger] periods@[k]).1 - start_time % periods@[k].1,
        (r.0 == 0 && r.1 == usize::MAX) || exists|k: int|
            0 <= k < periods@.len() && (#[trigger] periods@[k]).1 == r.0 && r.1 == r.0 - start_time
                % r.0 && forall|j: int|
                0 <= j < k ==> r.1 < (#[trigger] periods@[j]).1 - start_time % periods@[j].1,
{
    let mut best_period: usize = 0;
    let mut best_wait: usize = usize::MAX;
    let mut at: Ghost<int> = Ghost(0);
    let mut i: usize = 0;
    while i < periods.len()
        invariant
            i <= periods@.len(),
            forall|k: int| 0 <= k < periods@.len() ==> (#[trigger] periods@[k]).1 > 0,
            forall|k: int|
                0 <= k < i ==> best_wait <= (#[trigger] periods@[k]).1 - start_time % periods@[k].1,
            (best_period == 0 && best_wait == usize::MAX) || (0 <= at@ < i && periods@[at@].1
                == best_period && best_wait == best_period - start_time % best_period && forall|
                j: int,
            |
                0 <= j < at@ ==> best_wait < (#[trigger] periods@[j]).1 - start_time % periods@[j].1),
        decreases periods@.len() - i,
    {
        let p = periods[i].1;
        let wait = compute_wait(start_time, p);
        if wait < best_wait {
            best_period = p;
            best_wait = wait;
            proof {
                at@ = i as int;
            }
        }
        i += 1;
    }
    (best_period, best_wait)
}

/// A bus: it leaves `i` minutes after the multiples of its period `p`;
/// `n` is a number of periods and `t` the time `p * n - i`.
#[derive(Clone, Copy, Debug, PartialEq, Eq, Structural)]
pub struct Bus {
    pub i: usize,
    pub p: usize,
    pub n: usize,
    pub t: usize,
}

/// `n` is the least number of periods `p` that reach `min_t + i`, and `t`
/// is the time `i` before they are over.
pub open spec fn is_next(i: usize, p: usize, min_t: usize, n: usize, t: usize) -> bool {
    &&& p * n >= min_t + i
    &&& (n > 0 ==> p * (n - 1) < min_t + i)
    &&& t == p * n - i
    &&& min_t <= t < min_t + p
}

/// The least number of periods `p` that reach `from + i`, and the time `i`
/// before they are over.
pub open spec fn next_time(i: usize, p: usize, from: int) -> (int, int) {
    let goal = from + i;
    let n = if goal % (p as int) == 0 {
        goal / (p as int)
    } else {
        goal / (p as int) + 1
    };
    (n, p * n - i)
}

impl Bus {
    /// The least `n` with `p * n - i >= min_t`, and that time.
    pub fn compute_nt(i: usize, p: usize, min_t: usize) -> (r: (usize, usize))
        requires
            p > 0,
            min_t + i + p <= usize::MAX,
        ensures
            is_next(i, p, min_t, r.0, r.1),
            (r.0 as int, r.1 as int) == next_time(i, p, min_t as int),
    {
        let goal = min_t + i;
        let mut n = goal / p;
        proof {
            lemma_fundamental_div_mod(goal as int, p as int);
            assert(p * (goal / p) <= goal) by (nonlinear_arith)
                requires
                    goal == p * (goal / p) + goal % p,
                    0 <= goal % p,
            ;
            assert(p * (goal / p) < goal <==> goal % p != 0) by (nonlinear_arith)
                requires
                    goal == p * (goal / p) + goal % p,
                    0 <= goal % p,
            ;
        }
        if p * n < goal {
            proof {
                assert(p * (n + 1) == p * n + p) by (nonlinear_arith);
                assert(goal % p < p);
            }
            n += 1;
        }
        proof {
            if n > 0 {
                assert(p * (n - 1) == p * n - p) by (nonlinear_arith);
            }
        }
        let t = (p * n) - i;
        (n, t)
    }

    /// The bus at its first time.
    pub fn new(i: usize, p: usize) -> (b: Bus)
        requires
            p > 0,
            i + p <= usize::MAX,
        ensures
            b.i == i,
            b.p == p,
            is_next(i, p, 0, b.n, b.t),
    {
        let (n, t) = Bus::compute_nt(i, p, 0);
        Bus { i, p, n, t }
    }

    /// Moves the bus on to its first time from `min_t` on.
    pub fn next(&mut self, min_t: usize) -> (t: usize)
        requires
            old(self).p > 0,
            min_t + old(self).i + old(self).p <= usize::MAX,
        ensures
            final(self).i == old(self).i,
            final(self).p == old(self).p,
            final(self).t == t,
            is_next(old(self).i, old(self).p, min_t, final(self).n, t),
            (final(self).n as int, t as int) == next_time(old(self).i, old(self).p, min_t as int),
    {
        let (n, t) = Bus::compute_nt(self.i, self.p, min_t);
        self.n = n;
        self.t = t;
        t
    }
}

/// The least number from `d` on that divides `n`, or `n` if there is none
/// below it.
pub open spec fn least_divisor_from(n: nat, d: nat) -> nat
    decreases n - d,
{
    if d >= n || d == 0 {
        n
    } else if n % d == 0 {
        d
    } else {
        least_divisor_from(n, d + 1)
    }
}

/// The least divisor of `n` above 1.
pub open spec fn least_divisor(n: nat) -> nat {
    least_divisor_from(n, 2)
}

/// The prime factors of `n` in ascending order, each as often as it divides `n`.
pub open spec fn factors_of(n: nat) -> Seq<usize>
    decreases n,
{
    if n <= 1 {
        Seq::empty()
    } else {
        let d = least_divisor(n);
        if 2 <= d && n / d < n {
            seq![d as usize] + factors_of(n / d)
        } else {
            seq![n as usize]
        }
    }
}

/// The product of the numbers.
pub open spec fn product(v: Seq<usize>) -> nat
    decreases v.len(),
{
    if v.len() == 0 {
        1
    } else {
        product(v.drop_last()) * (v.last() as nat)
    }
}

/// A divisor of `n` below which nothing from `from` on divides `n` is the
/// least divisor from `from` on.
pub proof fn lemma_least_divisor(n: nat, from: nat, f: nat)
    requires
        1 <= from <= f <= n,
        n % f == 0,
        forall|d: nat| from <= d < f ==> #[trigger] (n % d) != 0,
    ensures
        least_divisor_from(n, from) == f,
    decreases f - from,
{
    if from < f {
        assert(n % from != 0);
        lemma_least_divisor(n, from + 1, f);
    }
}

/// What divides a divisor of `n` divides `n`.
pub proof fn lemma_divides_trans(d: nat, f: nat, n: nat)
    requires
        d > 0,
        f > 0,
        f % d == 0,
        n % f == 0,
    ensures
        n % d == 0,
{
    lemma_fundamental_div_mod(f as int, d as int);
    lemma_fundamental_div_mod(n as int, f as int);
    let a = (f / d) as int;
    let b = (n / f) as int;
    assert(n == (a * b) * d) by (nonlinear_arith)
        requires
            f == d * a,
            n == f * b,
    ;
    lemma_mod_multiples_basic(a * b, d as int);
}

/// What divides `n / f` divides `n`, where `f` divides `n`.
pub proof fn lemma_quotient_divides(d: nat, f: nat, n: nat)
    requires
        d > 0,
        f > 0,
        n % f == 0,
        (n / f) % d == 0,
    ensures
        n % d == 0,
{
    lemma_fundamental_div_mod(n as int, f as int);
    let q = (n / f) as int;
    lemma_fundamental_div_mod(q, d as int);
    let c = q / (d as int);
    assert(n == (f * c) * d) by (nonlinear_arith)
        requires
            n == f * q,
            q == d * c,
    ;
    lemma_mod_multiples_basic(f * c, d as int);
}

/// A number with no divisor from 2 up to a number whose square is beyond
/// it has no divisor but 1 and itself.
pub proof fn lemma_no_large_divisor(n: nat, f: nat, d: nat)
    requires
        n > 1,
        f * f > n,
        forall|e: nat| 2 <= e < f ==> #[trigger] (n % e) != 0,
        2 <= d < n,
    ensures
        n % d != 0,
{
    if n % d == 0 {
        if d >= f {
            lemma_fundamental_div_mod(n as int, d as int);
            let q = n / d;
            assert(q * d == n) by (nonlinear_arith)
                requires
                    n == d * q,
            ;
            assert(q >= 2) by (nonlinear_arith)
                requires
                    q * d == n,
                    d < n,
                    d >= 2,
            ;
            assert(q < f) by (nonlinear_arith)
                requires
                    q * d == n,
                    d >= f,
                    f * f > n,
            ;
            lemma_mod_multiples_basic(d as int, q as int);
            assert(n % q == 0) by {
                assert(d * q == q * d) by (nonlinear_arith);
            }
            assert(n % q != 0);
        }
    }
}

/// The prime factors of `n` in ascending order.
pub fn factor(n: usize) -> (v: Vec<usize>)
    requires
        n > 0,
    ensures
        v@ == factors_of(n as nat),
{
    let mut n = n;
    let ghost whole = n as nat;
    let mut v: Vec<usize> = Vec::new();
    proof {
        assert(v@ + factors_of(n as nat) =~= factors_of(whole));
    }
    while (n & 1) == 0
        invariant
            0 < n <= whole,
            v@ + factors_of(n as nat) =~= factors_of(whole),
        decreases n,
    {
        let ghost before = n;
        assert(before % 2 == 0 && before >> 1 == before / 2) by (bit_vector)
            requires
                (before & 1) == 0,
        ;
        proof {
            assert(least_divisor(n as nat) == 2) by {
                if n > 2 {
                    lemma_least_divisor(n as nat, 2, 2);
                }
            }
            assert(v@.push(2usize) + factors_of((n / 2) as nat) =~= v@ + (seq![2usize]
                + factors_of((n / 2) as nat)));
        }
        v.push(2);
        n >>= 1;
    }
    assert(n % 2 == 1) by (bit_vector)
        requires
            (n & 1) != 0,
    ;
    let mut f: usize = 3;
    loop
        invariant
            0 < n <= whole,
            3 <= f <= whole + 2,
            f % 2 == 1,
            n % 2 == 1,
            v@ + factors_of(n as nat) =~= factors_of(whole),
            forall|d: nat| 2 <= d < f ==> #[trigger] ((n as nat) % d) != 0,
        ensures
            0 < n,
            (f as nat) * (f as nat) > n,
            v@ + factors_of(n as nat) =~= factors_of(whole),
            forall|d: nat| 2 <= d < f ==> #[trigger] ((n as nat) % d) != 0,
        decreases whole + 2 - f,
    {
        assert((f as int) * (f as int) <= u128::MAX) by (nonlinear_arith)
            requires
                0 <= f <= 0xFFFF_FFFF_FFFF_FFFF,
        ;
        if (f as u128) * (f as u128) > n as u128 {
            break;
        }
        proof {
            assert(f <= n && f < 0x1_0000_0000_0000_0000) by (nonlinear_arith)
                requires
                    f * f <= n,
                    f >= 3,
                    n <= usize::MAX,
            ;
            assert(f + 2 <= usize::MAX) by (nonlinear_arith)
                requires
                    f * f <= n,
                    f >= 3,
                    n <= usize::MAX,
            ;
        }
        while (n % f) == 0
            invariant
                0 < n <= whole,
                3 <= f,
                n % 2 == 1,
                v@ + factors_of(n as nat) =~= factors_of(whole),
                forall|d: nat| 2 <= d < f ==> #[trigger] ((n as nat) % d) != 0,
            decreases n,
        {
            let ghost before = n as nat;
            proof {
                lemma_fundamental_div_mod(n as int, f as int);
                assert(n >= f && n / f < n && n / f > 0) by (nonlinear_arith)
                    requires
                        n == f * (n / f),
                        n > 0,
                        f >= 3,
                        n / f >= 0,
                ;
                lemma_least_divisor(before, 2, f as nat);
                assert(v@.push(f) + factors_of(before / (f as nat)) =~= v@ + (seq![f]
                    + factors_of(before / (f as nat))));
                assert forall|d: nat| 2 <= d < f implies #[trigger] ((before / (f as nat)) % d)
                    != 0 by {
                    if (before / (f as nat)) % d == 0 {
                        lemma_quotient_divides(d, f as nat, before);
                        assert(before % d != 0);
                    }
                }
                assert((before / (f as nat)) % 2 != 0);
            }
            v.push(f);
            n /= f;
        }
        proof {
            assert forall|d: nat| 2 <= d < f + 2 implies #[trigger] ((n as nat) % d) != 0 by {
                if d == f + 1 {
                    if (n as nat) % d == 0 {
                        lemma_divides_trans(2, d, n as nat);
                    }
                }
            }
        }
        f += 2;
    }
    if n > 1 {
        proof {
            let m = n as nat;
            assert forall|d: nat| 2 <= d < m implies #[trigger] (m % d) != 0 by {
                lemma_no_large_divisor(m, f as nat, d);
            }
            vstd::arithmetic::div_mod::lemma_mod_self_0(m as int);
            lemma_least_divisor(m, 2, m);
            assert(m / m == 1) by (nonlinear_arith)
                requires
                    m > 1,
            ;
            assert(factors_of(1) =~= Seq::<usize>::empty());
            assert(factors_of(m) =~= seq![n]);
            assert(v@.push(n) =~= v@ + seq![n]);
        }
        v.push(n);
    } else {
        proof {
            assert(factors_of(1) =~= Seq::<usize>::empty());
        }
    }
    v
}

/// The two ascending lists merged into one: what stands in both is taken
/// once, so that each number is there as often as in the list that holds it
/// more often.
pub open spec fn merged(a: Seq<usize>, b: Seq<usize>) -> Seq<usize>
    decreases a.len() + b.len(),
{
    if a.len() == 0 {
        b
    } else if b.len() == 0 {
        a
    } else if a[0] < b[0] {
        seq![a[0]] + merged(a.drop_first(), b)
    } else if a[0] == b[0] {
        seq![a[0]] + merged(a.drop_first(), b.drop_first())
    } else {
        seq![b[0]] + merged(a, b.drop_first())
    }
}

/// No number of the list is smaller than one before it.
pub open spec fn in_order(v: Seq<usize>) -> bool {
    forall|i: int, j: int| 0 <= i < j < v.len() ==> v[i] <= v[j]
}

/// How often `x` stands in `v`.
pub open spec fn times(v: Seq<usize>, x: usize) -> nat
    decreases v.len(),
{
    if v.len() == 0 {
        0
    } else {
        times(v.drop_first(), x) + if v[0] == x {
            1nat
        } else {
            0nat
        }
    }
}

/// A number below the first of a list in order is not in the list.
pub proof fn lemma_times_below(v: Seq<usize>, x: usize)
    requires
        in_order(v),
        v.len() > 0 ==> x < v[0],
    ensures
        times(v, x) == 0,
    decreases v.len(),
{
    if v.len() > 0 {
        let rest = v.drop_first();
        assert forall|i: int, j: int| 0 <= i < j < rest.len() implies rest[i] <= rest[j] by {
            assert(v[i + 1] <= v[j + 1]);
        }
        if rest.len() > 0 {
            assert(v[0] <= v[1]);
        }
        lemma_times_below(rest, x);
    }
}

/// In what two lists in order merge into, each number stands as often as in
/// the list that holds it more often.
pub proof fn law_merged_counts(a: Seq<usize>, b: Seq<usize>, x: usize)
    requires
        in_order(a),
        in_order(b),
    ensures
        times(merged(a, b), x) == if times(a, x) >= times(b, x) {
            times(a, x)
        } else {
            times(b, x)
        },
    decreases a.len() + b.len(),
{
    if a.len() == 0 || b.len() == 0 {
    } else {
        let ra = a.drop_first();
        let rb = b.drop_first();
        assert forall|i: int, j: int| 0 <= i < j < ra.len() implies ra[i] <= ra[j] by {
            assert(a[i + 1] <= a[j + 1]);
        }
        assert forall|i: int, j: int| 0 <= i < j < rb.len() implies rb[i] <= rb[j] by {
            assert(b[i + 1] <= b[j + 1]);
        }
        if a[0] < b[0] {
            let rest = merged(ra, b);
            assert((seq![a[0]] + rest).drop_first() =~= rest);
            law_merged_counts(ra, b, x);
            if x == a[0] {
                lemma_times_below(b, x);
            }
        } else if a[0] == b[0] {
            let rest = merged(ra, rb);
            assert((seq![a[0]] + rest).drop_first() =~= rest);
            law_merged_counts(ra, rb, x);
        } else {
            let rest = merged(a, rb);
            assert((seq![b[0]] + rest).drop_first() =~= rest);
            law_merged_counts(a, rb, x);
            if x == b[0] {
                lemma_times_below(a, x);
            }
        }
    }
}

/// The factors of `a` and of `b` merged.
pub fn get_common_factors(a: &[usize], b: &[usize]) -> (v: Vec<usize>)
    ensures
        v@ == merged(a@, b@),
{
    let mut v: Vec<usize> = Vec::new();
    let mut i: usize = 0;
    let mut j: usize = 0;
    proof {
        assert(a@.skip(0) =~= a@);
        assert(b@.skip(0) =~= b@);
    }
    while i < a.len() && j < b.len()
        invariant
            i <= a@.len(),
            j <= b@.len(),
            v@ + merged(a@.skip(i as int), b@.skip(j as int)) =~= merged(a@, b@),
        decreases a@.len() - i + b@.len() - j,
    {
        let an = a[i];
        let bn = b[j];
        let ghost ra = a@.skip(i as int);
        let ghost rb = b@.skip(j as int);
        proof {
            assert(ra[0] == an && rb[0] == bn);
            assert(ra.drop_first() =~= a@.skip(i + 1));
            assert(rb.drop_first() =~= b@.skip(j + 1));
        }
        if an <= bn {
            v.push(an);
            i += 1;
            if an == bn {
                j += 1;
            }
        } else {
            v.push(bn);
            j += 1;
        }
        proof {
            let rest = merged(a@.skip(i as int), b@.skip(j as int));
            assert(v@ + rest =~= v@.drop_last() + (seq![v@.last()] + rest));
        }
    }
    let ghost so_far = v@;
    if i < a.len() {
        let mut k: usize = i;
        while k < a.len()
            invariant
                i <= k <= a@.len(),
                v@ == so_far + a@.subrange(i as int, k as int),
            decreases a@.len() - k,
        {
            v.push(a[k]);
            proof {
                assert(a@.subrange(i as int, k + 1) =~= a@.subrange(i as int, k as int).push(
                    a@[k as int],
                ));
            }
            k += 1;
        }
        proof {
            assert(a@.subrange(i as int, a@.len() as int) =~= a@.skip(i as int));
            assert(b@.skip(j as int) =~= Seq::<usize>::empty());
        }
    }
    let ghost with_a = v@;
    if j < b.len() {
        let mut k: usize = j;
        while k < b.len()
            invariant
                j <= k <= b@.len(),
                v@ == with_a + b@.subrange(j as int, k as int),
            decreases b@.len() - k,
        {
            v.push(b[k]);
            proof {
                assert(b@.subrange(j as int, k + 1) =~= b@.subrange(j as int, k as int).push(
                    b@[k as int],
                ));
            }
            k += 1;
        }
        proof {
            assert(b@.subrange(j as int, b@.len() as int) =~= b@.skip(j as int));
            assert(a@.skip(i as int) =~= Seq::<usize>::empty());
        }
    }
    proof {
        if i >= a@.len() && j >= b@.len() {
            assert(a@.skip(i as int) =~= Seq::<usize>::empty());
        }
    }
    v
}

/// A beginning of a list of numbers above 0 has no greater product.
pub proof fn lemma_product_grows(v: Seq<usize>, k: int)
    requires
        0 <= k <= v.len(),
        forall|i: int| 0 <= i < v.len() ==> (#[trigger] v[i]) > 0,
    ensures
        product(v.take(k)) <= product(v),
        product(v) > 0,
    decreases v.len(),
{
    if v.len() == 0 {
        assert(v.take(k) =~= v);
    } else {
        let head = v.drop_last();
        assert forall|i: int| 0 <= i < head.len() implies (#[trigger] head[i]) > 0 by {
            assert(head[i] == v[i]);
        }
        lemma_product_grows(head, if k < v.len() {
            k
        } else {
            k - 1
        });
        assert(v[v.len() - 1] > 0);
        assert(product(head) <= product(head) * (v.last() as nat) && product(head) * (
        v.last() as nat) > 0) by (nonlinear_arith)
            requires
                product(head) > 0,
                v.last() > 0,
        ;
        if k == v.len() {
            assert(v.take(k) =~= v);
        } else {
            assert(head.take(k) =~= v.take(k));
        }
    }
}

/// The product of the numbers.
pub fn get_product(v: &[usize]) -> (r: usize)
    requires
        product(v@) <= usize::MAX,
        all_positive(v@),
    ensures
        r == product(v@),
{
    let mut accum: usize = 1;
    let mut i: usize = 0;
    proof {
        assert(v@.take(0) =~= Seq::<usize>::empty());
    }
    while i < v.len()
        invariant
            i <= v@.len(),
            product(v@) <= usize::MAX,
            forall|k: int| 0 <= k < v@.len() ==> (#[trigger] v@[k]) > 0,
            accum == product(v@.take(i as int)),
        decreases v@.len() - i,
    {
        proof {
            assert(v@.take(i + 1).drop_last() =~= v@.take(i as int));
            assert(v@.take(i + 1).last() == v@[i as int]);
            lemma_product_grows(v@, i + 1);
        }
        accum = accum * v[i];
        i += 1;
    }
    proof {
        assert(v@.take(v@.len() as int) =~= v@);
    }
    accum
}

/// The prime factors of the periods of the buses `v`, merged bus by bus.
pub open spec fn common_factors(v: Seq<(usize, usize)>) -> Seq<usize>
    decreases v.len(),
{
    if v.len() == 0 {
        Seq::empty()
    } else if v.len() == 1 {
        factors_of(v[0].1 as nat)
    } else {
        merged(common_factors(v.drop_last()), factors_of(v.last().1 as nat))
    }
}

/// Every period of the buses divides `m`.
pub open spec fn common_multiple(v: Seq<(usize, usize)>, m: nat) -> bool {
    forall|k: int| 0 <= k < v.len() ==> m % ((#[trigger] v[k]).1 as nat) == 0
}

/// `r` is the least common multiple of the periods: every period divides
/// it, and it divides every number that every period divides, so that none
/// of them above 0 is below it.
pub open spec fn is_least(v: Seq<(usize, usize)>, r: nat) -> bool {
    &&& r > 0
    &&& common_multiple(v, r)
    &&& forall|m: nat| #[trigger] common_multiple(v, m) ==> m % r == 0 && (m > 0 ==> r <= m)
}

/// The least common multiple of the periods: the product of their prime
/// factors, each prime as often as in the period that holds it most often.
pub fn least_common_multiple(v: &[(usize, usize)]) -> (r: usize)
    requires
        v@.len() > 0,
        forall|k: int| 0 <= k < v@.len() ==> (#[trigger] v@[k]).1 > 0,
        product(common_factors(v@)) <= usize::MAX,
    ensures
        r == product(common_factors(v@)),
        is_least(v@, r as nat),
{
    proof {
        law_least_common_multiple(v@);
    }
    let mut factors = factor(v[0].1);
    let mut k: usize = 1;
    proof {
        assert(v@.take(1).len() == 1);
        assert(v@.take(1)[0] == v@[0]);
    }
    while k < v.len()
        invariant
            1 <= k <= v@.len(),
            forall|j: int| 0 <= j < v@.len() ==> (#[trigger] v@[j]).1 > 0,
            factors@ == common_factors(v@.take(k as int)),
        decreases v@.len() - k,
    {
        proof {
            assert(v@.take(k + 1).drop_last() =~= v@.take(k as int));
            assert(v@.take(k + 1).last() == v@[k as int]);
        }
        let next = factor(v[k].1);
        factors = get_common_factors(factors.as_slice(), next.as_slice());
        k += 1;
    }
    proof {
        assert(v@.take(v@.len() as int) =~= v@);
        lemma_common_positive(v@);
    }
    get_product(factors.as_slice())
}

/// The sum of the periods of the buses.
pub open spec fn periods_sum(v: Seq<(usize, usize)>) -> nat
    decreases v.len(),
{
    if v.len() == 0 {
        0
    } else {
        periods_sum(v.drop_last()) + (v.last().1 as nat)
    }
}

/// A beginning of a list has no greater sum of periods.
pub proof fn lemma_periods_sum_grows(v: Seq<(usize, usize)>, k: int)
    requires
        0 <= k <= v.len(),
    ensures
        periods_sum(v.take(k)) <= periods_sum(v),
    decreases v.len(),
{
    if k == v.len() {
        assert(v.take(k) =~= v);
    } else {
        lemma_periods_sum_grows(v.drop_last(), k);
        assert(v.drop_last().take(k) =~= v.take(k));
    }
}

/// At the time `t` each bus leaves as many minutes later as its place in
/// the list says: `t + i` is a multiple of its period.
pub open spec fn all_leave_at(v: Seq<(usize, usize)>, t: int) -> bool {
    forall|k: int| 0 <= k < v.len() ==> (t + (#[trigger] v[k]).0) % (v[k].1 as int) == 0
}

/// A period is no greater than the sum of all periods.
pub proof fn lemma_period_in_sum(v: Seq<(usize, usize)>, k: int)
    requires
        0 <= k < v.len(),
    ensures
        v[k].1 <= periods_sum(v),
    decreases v.len(),
{
    if k < v.len() - 1 {
        lemma_period_in_sum(v.drop_last(), k);
    }
}

/// No time from 0 on before `bound` is one at which all buses leave as
/// their places say.
pub open spec fn none_before(v: Seq<(usize, usize)>, bound: int) -> bool {
    forall|t: int| 0 <= t && #[trigger] all_leave_at(v, t) ==> bound <= t
}

/// The first time of a bus from `min_t` on is no later than any time from
/// `min_t` on at which the bus leaves as its place says.
pub proof fn lemma_next_is_least(i: usize, p: usize, min_t: usize, n: usize, t: usize, later: int)
    requires
        p > 0,
        is_next(i, p, min_t, n, t),
        min_t <= later,
        (later + i) % (p as int) == 0,
    ensures
        t <= later,
{
    lemma_fundamental_div_mod(later + i, p as int);
    let m = (later + i) / (p as int);
    assert(later + i == p * m);
    assert(t + i == p * n);
    if n > 0 {
        assert(m >= n) by (nonlinear_arith)
            requires
                later + i == p * m,
                p * (n - 1) < min_t + i,
                min_t <= later,
                p > 0,
        ;
        assert(p * m >= p * n) by (nonlinear_arith)
            requires
                m >= n,
                p > 0,
        ;
    } else {
        assert(p * n == 0) by (nonlinear_arith)
            requires
                n == 0,
        ;
    }
}

/// The least and the greatest time of the buses; `usize::MAX` and 0
/// without any bus.
fn time_span(buses: &Vec<Bus>) -> (r: (usize, usize))
    ensures
        forall|k: int| 0 <= k < buses@.len() ==> r.0 <= (#[trigger] buses@[k]).t <= r.1,
        buses@.len() > 0 ==> exists|k: int| 0 <= k < buses@.len() && (#[trigger] buses@[k]).t == r.1,
        buses@.len() > 0 ==> exists|k: int| 0 <= k < buses@.len() && (#[trigger] buses@[k]).t == r.0,
        buses@.len() == 0 ==> r == (usize::MAX, 0usize),
{
    let mut min_t: usize = usize::MAX;
    let mut max_t: usize = 0;
    let mut at: Ghost<int> = Ghost(0);
    let mut low: Ghost<int> = Ghost(0);
    let mut k: usize = 0;
    while k < buses.len()
        invariant
            k <= buses@.len(),
            forall|j: int| 0 <= j < k ==> min_t <= (#[trigger] buses@[j]).t <= max_t,
            k == 0 ==> min_t == usize::MAX && max_t == 0,
            k > 0 ==> 0 <= at@ < k && buses@[at@].t == max_t,
            k > 0 ==> 0 <= low@ < k && buses@[low@].t == min_t,
        decreases buses@.len() - k,
    {
        let t = buses[k].t;
        if t < min_t || k == 0 {
            min_t = t;
            proof {
                low@ = k as int;
            }
        }
        if t > max_t || k == 0 {
            max_t = t;
            proof {
                at@ = k as int;
            }
        }
        k += 1;
    }
    (min_t, max_t)
}

/// The first time at which each bus leaves as many minutes later as its
/// place in the list says, or `None` if there is no such time: the buses are
/// moved on, each to its first time from the greatest time so far on, until
/// all times are the same, or the least common multiple of the periods is
/// reached; the times looked for repeat with it.
pub fn find_special_time(periods: &[(usize, usize)]) -> (r: Option<usize>)
    requires
        periods@.len() > 0,
        forall|k: int| 0 <= k < periods@.len() ==> (#[trigger] periods@[k]).1 > 0,
        forall|k: int| 0 <= k < periods@.len() ==> #[trigger] time_fits(periods@, k),
    ensures
        match r {
            Some(t) => all_leave_at(periods@, t as int) && none_before(periods@, t as int),
            None => none_before(periods@, product(common_factors(periods@)) as int) && forall|
                t: int,
            |
                0 <= t ==> !#[trigger] all_leave_at(periods@, t),
        },
{
    proof {
        assert(time_fits(periods@, 0));
    }
    let lcm = least_common_multiple(periods);
    let ghost total = periods_sum(periods@);
    proof {
        assert forall|j: int| 0 <= j < periods@.len() implies lcm + 2 * total + (
        #[trigger] periods@[j]).0 + periods@[j].1 <= usize::MAX by {
            assert(time_fits(periods@, j));
        }
    }
    let mut v: Vec<Bus> = Vec::new();
    let mut k: usize = 0;
    while k < periods.len()
        invariant
            k <= periods@.len(),
            v@.len() == k,
            total == periods_sum(periods@),
            forall|j: int| 0 <= j < periods@.len() ==> (#[trigger] periods@[j]).1 > 0,
            forall|j: int|
                0 <= j < periods@.len() ==> lcm + 2 * total + (#[trigger] periods@[j]).0
                    + periods@[j].1 <= usize::MAX,
            forall|j: int|
                0 <= j < k ==> (#[trigger] v@[j]).i == periods@[j].0 && v@[j].p == periods@[j].1
                    && v@[j].t == v@[j].p * v@[j].n - v@[j].i && v@[j].t <= lcm + total,
            forall|j: int| 0 <= j < k ==> none_before(periods@, (#[trigger] v@[j]).t as int),
        decreases periods@.len() - k,
    {
        let (i, p) = periods[k];
        proof {
            lemma_period_in_sum(periods@, k as int);
        }
        let bus = Bus::new(i, p);
        proof {
            assert forall|t: int| 0 <= t && #[trigger] all_leave_at(periods@, t) implies bus.t
                <= t by {
                assert((t + periods@[k as int].0) % (periods@[k as int].1 as int) == 0);
                lemma_next_is_least(i, p, 0, bus.n, bus.t, t);
            }
        }
        v.push(bus);
        k += 1;
    }
    let ghost mut settled = false;
    let mut found: Option<usize> = None;
    loop
        invariant_except_break
            forall|j: int| 0 <= j < v@.len() ==> (#[trigger] v@[j]).t <= lcm + total,
            settled ==> forall|j: int| 0 <= j < v@.len() ==> (#[trigger] v@[j]).t == v@[0].t,
        invariant
            v@.len() == periods@.len(),
            periods@.len() > 0,
            total == periods_sum(periods@),
            forall|j: int| 0 <= j < periods@.len() ==> (#[trigger] periods@[j]).1 > 0,
            forall|j: int|
                0 <= j < periods@.len() ==> lcm + 2 * total + (#[trigger] periods@[j]).0
                    + periods@[j].1 <= usize::MAX,
            forall|j: int|
                0 <= j < v@.len() ==> (#[trigger] v@[j]).i == periods@[j].0 && v@[j].p
                    == periods@[j].1 && v@[j].t == v@[j].p * v@[j].n - v@[j].i,
            forall|j: int| 0 <= j < v@.len() ==> none_before(periods@, (#[trigger] v@[j]).t as int),
            lcm == product(common_factors(periods@)),
        ensures
            match found {
                Some(t) => all_leave_at(periods@, t as int) && none_before(periods@, t as int),
                None => none_before(periods@, lcm as int),
            },
        decreases
            lcm + total - if settled {
                lcm + total
            } else {
                time_top(v@)
            },
            if settled {
                0nat
            } else {
                1nat
            },
    {
        let (min_t, max_t) = time_span(&v);
        if min_t == max_t {
            proof {
                assert forall|j: int| 0 <= j < periods@.len() implies (min_t + (
                #[trigger] periods@[j]).0) % (periods@[j].1 as int) == 0 by {
                    let b = v@[j];
                    assert(b.t == min_t);
                    assert(min_t + b.i == b.p * b.n);
                    assert((b.p * b.n) % (b.p as int) == 0) by {
                        lemma_mod_multiples_basic(b.n as int, b.p as int);
                        assert(b.p * b.n == b.n * b.p) by (nonlinear_arith);
                    }
                }
            }
            proof {
                assert(v@[0].t == min_t);
            }
            found = Some(min_t);
            break;
        }
        proof {
            assert(!settled) by {
                if settled {
                    let a = choose|a: int| 0 <= a < v@.len() && (#[trigger] v@[a]).t == max_t;
                    let b = choose|b: int| 0 <= b < v@.len() && (#[trigger] v@[b]).t == min_t;
                    assert(v@[a].t == v@[0].t);
                    assert(v@[b].t == v@[0].t);
                }
            }
            lemma_time_top(v@, max_t);
            let a = choose|a: int| 0 <= a < v@.len() && (#[trigger] v@[a]).t == max_t;
            assert(none_before(periods@, v@[a].t as int));
        }
        let ghost start = max_t;
        let mut max_t = max_t;
        let mut j: usize = 0;
        proof {
            assert(periods@.take(0) =~= Seq::<(usize, usize)>::empty());
        }
        while j < v.len()
            invariant
                v@.len() == periods@.len(),
                j <= v@.len(),
                total == periods_sum(periods@),
                start <= lcm + total,
                start <= max_t <= start + periods_sum(periods@.take(j as int)),
                forall|a: int| 0 <= a < periods@.len() ==> (#[trigger] periods@[a]).1 > 0,
                forall|a: int|
                    0 <= a < periods@.len() ==> lcm + 2 * total + (#[trigger] periods@[a]).0
                        + periods@[a].1 <= usize::MAX,
                forall|a: int|
                    0 <= a < v@.len() ==> (#[trigger] v@[a]).i == periods@[a].0 && v@[a].p
                        == periods@[a].1 && v@[a].t == v@[a].p * v@[a].n - v@[a].i,
                forall|a: int| j <= a < v@.len() ==> (#[trigger] v@[a]).t <= start,
                forall|a: int| 0 <= a < j ==> start <= (#[trigger] v@[a]).t <= max_t,
                forall|a: int|
                    0 <= a < v@.len() ==> none_before(periods@, (#[trigger] v@[a]).t as int),
                none_before(periods@, max_t as int),
                j > 0 ==> v@[j - 1].t == max_t,
                max_t == start ==> forall|a: int| 0 <= a < j ==> (#[trigger] v@[a]).t == start,
            decreases v@.len() - j,
        {
            proof {
                lemma_periods_sum_grows(periods@, j as int);
                lemma_periods_sum_grows(periods@, j + 1);
                assert(periods@.take(j + 1).drop_last() =~= periods@.take(j as int));
                assert(periods@.take(j + 1).last() == periods@[j as int]);
            }
            let mut bus = v[j];
            let t = bus.next(max_t);
            proof {
                assert forall|later: int| 0 <= later && #[trigger] all_leave_at(
                    periods@,
                    later,
                ) implies t <= later by {
                    assert((later + periods@[j as int].0) % (periods@[j as int].1 as int) == 0);
                    lemma_next_is_least(bus.i, bus.p, max_t, bus.n, t, later);
                }
            }
            v.set(j, bus);
            max_t = t;
            j += 1;
        }
        proof {
            assert(periods@.take(periods@.len() as int) =~= periods@);
            if max_t == start {
                settled = true;
            } else if max_t < lcm {
                lemma_time_top(v@, max_t);
            }
        }
        if max_t >= lcm {
            found = None;
            break;
        }
    }
    proof {
        if found is None {
            law_least_common_multiple(periods@);
            assert forall|t: int| 0 <= t implies !#[trigger] all_leave_at(periods@, t) by {
                law_no_time_at_all(periods@, lcm as nat, t);
            }
        }
    }
    found
}

/// The greatest time of the buses.
pub open spec fn time_top(v: Seq<Bus>) -> int
    decreases v.len(),
{
    if v.len() == 0 {
        0
    } else if v.last().t >= time_top(v.drop_last()) {
        v.last().t as int
    } else {
        time_top(v.drop_last())
    }
}

/// A time that no bus is beyond and that some bus has is the greatest time.
pub proof fn lemma_time_top(v: Seq<Bus>, top: usize)
    requires
        forall|k: int| 0 <= k < v.len() ==> (#[trigger] v[k]).t <= top,
        exists|k: int| 0 <= k < v.len() && (#[trigger] v[k]).t == top,
    ensures
        time_top(v) == top,
    decreases v.len(),
{
    let k = choose|k: int| 0 <= k < v.len() && (#[trigger] v[k]).t == top;
    let head = v.drop_last();
    assert forall|j: int| 0 <= j < head.len() implies (#[trigger] head[j]).t <= top by {
        assert(head[j] == v[j]);
    }
    lemma_time_top_bound(head, top);
    if k < v.len() - 1 {
        assert(head[k].t == top);
        lemma_time_top(head, top);
    }
}

/// No bus is beyond a time: neither is the greatest time.
pub proof fn lemma_time_top_bound(v: Seq<Bus>, top: usize)
    requires
        forall|k: int| 0 <= k < v.len() ==> (#[trigger] v[k]).t <= top,
    ensures
        0 <= time_top(v) <= top,
    decreases v.len(),
{
    if v.len() > 0 {
        let head = v.drop_last();
        assert forall|j: int| 0 <= j < head.len() implies (#[trigger] head[j]).t <= top by {
            assert(head[j] == v[j]);
        }
        lemma_time_top_bound(head, top);
    }
}

/// The start time that the text denotes, 0 if it denotes none.
pub open spec fn start_time_of(s: Seq<char>) -> usize {
    match crate::text::unsigned_within(s, usize::MAX as nat) {
        Some(n) => n as usize,
        None => 0,
    }
}

/// The buses that the fields denote: each field that is a number is the
/// period of a bus, and the place of the field is its place in the list.
pub open spec fn buses_of(fields: Seq<Seq<char>>) -> Seq<(usize, usize)>
    decreases fields.len(),
{
    if fields.len() == 0 {
        Seq::empty()
    } else {
        match crate::text::unsigned_within(fields.last(), usize::MAX as nat) {
            Some(n) => buses_of(fields.drop_last()).push(((fields.len() - 1) as usize, n as usize)),
            None => buses_of(fields.drop_last()),
        }
    }
}

/// Reads the periods of the buses from a line of fields with commas
/// between them.
pub fn parse_periods(line: &str) -> (periods: Vec<(usize, usize)>)
    ensures
        periods@ == buses_of(crate::text::pieces(line@, seq![','])),
{
    let comma = ",";
    proof {
        reveal_strlit(",");
        assert(comma@ =~= seq![',']);
    }
    let fields = crate::text::split_str(line, comma);
    let ghost texts = crate::text::str_views(fields@);
    let mut periods: Vec<(usize, usize)> = Vec::new();
    let mut i: usize = 0;
    proof {
        assert(texts.take(0) =~= Seq::<Seq<char>>::empty());
    }
    while i < fields.len()
        invariant
            texts == crate::text::str_views(fields@),
            i <= fields@.len(),
            periods@ == buses_of(texts.take(i as int)),
        decreases fields@.len() - i,
    {
        proof {
            assert(texts.take(i + 1).drop_last() =~= texts.take(i as int));
            assert(texts.take(i + 1).last() == fields@[i as int]@);
        }
        if let Some(n) = crate::text::usize_of(fields[i]) {
            periods.push((i, n));
        }
        i += 1;
    }
    proof {
        assert(texts.take(fields@.len() as int) =~= texts);
    }
    periods
}

/// Reads the start time: 0 if the line is no number.
pub fn parse_start_time(line: &str) -> (t: usize)
    ensures
        t == start_time_of(line@),
{
    match crate::text::usize_of(line) {
        Some(n) => n,
        None => 0,
    }
}

/// Every number of the list is above 0.
pub open spec fn all_positive(v: Seq<usize>) -> bool {
    forall|i: int| 0 <= i < v.len() ==> (#[trigger] v[i]) > 0
}

/// The least divisor from `d` on is `d` at least.
pub proof fn lemma_least_divisor_bound(n: nat, d: nat)
    requires
        1 <= d,
        2 <= n,
    ensures
        least_divisor_from(n, d) >= 1,
        d <= n ==> d <= least_divisor_from(n, d) <= n,
    decreases n - d,
{
    if d < n && n % d != 0 {
        lemma_least_divisor_bound(n, d + 1);
    }
}

/// Prime factors are above 0.
pub proof fn lemma_factors_positive(n: nat)
    requires
        n <= usize::MAX,
    ensures
        all_positive(factors_of(n)),
    decreases n,
{
    if n > 1 {
        let d = least_divisor(n);
        lemma_least_divisor_bound(n, 2);
        if 2 <= d && n / d < n {
            lemma_factors_positive(n / d);
            let rest = factors_of(n / d);
            let all = seq![d as usize] + rest;
            assert forall|i: int| 0 <= i < all.len() implies (#[trigger] all[i]) > 0 by {
                if i > 0 {
                    assert(all[i] == rest[i - 1]);
                }
            }
        }
    }
}

/// Merging keeps the numbers above 0.
pub proof fn lemma_merged_positive(a: Seq<usize>, b: Seq<usize>)
    requires
        all_positive(a),
        all_positive(b),
    ensures
        all_positive(merged(a, b)),
    decreases a.len() + b.len(),
{
    if a.len() > 0 && b.len() > 0 {
        let ra = a.drop_first();
        let rb = b.drop_first();
        assert forall|i: int| 0 <= i < ra.len() implies (#[trigger] ra[i]) > 0 by {
            assert(ra[i] == a[i + 1]);
        }
        assert forall|i: int| 0 <= i < rb.len() implies (#[trigger] rb[i]) > 0 by {
            assert(rb[i] == b[i + 1]);
        }
        let (head, rest) = if a[0] < b[0] {
            lemma_merged_positive(ra, b);
            (a[0], merged(ra, b))
        } else if a[0] == b[0] {
            lemma_merged_positive(ra, rb);
            (a[0], merged(ra, rb))
        } else {
            lemma_merged_positive(a, rb);
            (b[0], merged(a, rb))
        };
        let all = seq![head] + rest;
        assert(a[0] > 0 && b[0] > 0);
        assert forall|i: int| 0 <= i < all.len() implies (#[trigger] all[i]) > 0 by {
            if i > 0 {
                assert(all[i] == rest[i - 1]);
            }
        }
    }
}

/// The common factors of periods are above 0.
pub proof fn lemma_common_positive(v: Seq<(usize, usize)>)
    ensures
        all_positive(common_factors(v)),
    decreases v.len(),
{
    if v.len() == 1 {
        lemma_factors_positive(v[0].1 as nat);
    } else if v.len() > 1 {
        lemma_common_positive(v.drop_last());
        lemma_factors_positive(v.last().1 as nat);
        lemma_merged_positive(common_factors(v.drop_last()), factors_of(v.last().1 as nat));
    }
}

/// The product of the numbers, or `None` if it does not fit.
pub fn try_get_product(v: &[usize]) -> (r: Option<usize>)
    requires
        all_positive(v@),
    ensures
        match r {
            Some(n) => n == product(v@),
            None => product(v@) > usize::MAX,
        },
{
    let mut accum: usize = 1;
    let mut i: usize = 0;
    proof {
        assert(v@.take(0) =~= Seq::<usize>::empty());
    }
    while i < v.len()
        invariant
            i <= v@.len(),
            all_positive(v@),
            accum == product(v@.take(i as int)),
        decreases v@.len() - i,
    {
        proof {
            assert(v@.take(i + 1).drop_last() =~= v@.take(i as int));
            assert(v@.take(i + 1).last() == v@[i as int]);
            lemma_product_grows(v@, i + 1);
        }
        accum = match accum.checked_mul(v[i]) {
            Some(n) => n,
            None => {
                return None;
            },
        };
        i += 1;
    }
    proof {
        assert(v@.take(v@.len() as int) =~= v@);
    }
    Some(accum)
}

/// The least common multiple of the periods: the product of their prime
/// factors, each prime as often as in the period that holds it most often;
/// or `None` if it does not fit.
pub fn try_least_common_multiple(v: &[(usize, usize)]) -> (r: Option<usize>)
    requires
        v@.len() > 0,
        forall|k: int| 0 <= k < v@.len() ==> (#[trigger] v@[k]).1 > 0,
    ensures
        is_least(v@, product(common_factors(v@))),
        match r {
            Some(n) => n == product(common_factors(v@)),
            None => product(common_factors(v@)) > usize::MAX,
        },
{
    proof {
        law_least_common_multiple(v@);
    }
    let mut factors = factor(v[0].1);
    let mut k: usize = 1;
    proof {
        assert(v@.take(1).len() == 1);
        assert(v@.take(1)[0] == v@[0]);
    }
    while k < v.len()
        invariant
            1 <= k <= v@.len(),
            forall|j: int| 0 <= j < v@.len() ==> (#[trigger] v@[j]).1 > 0,
            factors@ == common_factors(v@.take(k as int)),
        decreases v@.len() - k,
    {
        proof {
            assert(v@.take(k + 1).drop_last() =~= v@.take(k as int));
            assert(v@.take(k + 1).last() == v@[k as int]);
        }
        let next = factor(v[k].1);
        factors = get_common_factors(factors.as_slice(), next.as_slice());
        k += 1;
    }
    proof {
        assert(v@.take(v@.len() as int) =~= v@);
        lemma_common_positive(v@);
    }
    try_get_product(factors.as_slice())
}

/// Whether the search for the special time stays within `usize`: whether
/// the product of the prime factors of the periods, twice the sum of the
/// periods, and the place and the period of any bus together fit.
pub fn special_time_fits(periods: &[(usize, usize)]) -> (b: bool)
    requires
        periods@.len() > 0,
        forall|k: int| 0 <= k < periods@.len() ==> (#[trigger] periods@[k]).1 > 0,
    ensures
        b == forall|k: int|
            0 <= k < periods@.len() ==> #[trigger] time_fits(periods@, k),
{
    let lcm = match try_least_common_multiple(periods) {
        Some(n) => n,
        None => {
            assert(!time_fits(periods@, 0));
            return false;
        },
    };
    let mut sum: usize = 0;
    let mut i: usize = 0;
    proof {
        assert(periods@.take(0) =~= Seq::<(usize, usize)>::empty());
    }
    while i < periods.len()
        invariant
            i <= periods@.len(),
            periods@.len() > 0,
            sum == periods_sum(periods@.take(i as int)),
        decreases periods@.len() - i,
    {
        proof {
            assert(periods@.take(i + 1).drop_last() =~= periods@.take(i as int));
            assert(periods@.take(i + 1).last() == periods@[i as int]);
            lemma_periods_sum_grows(periods@, i + 1);
        }
        sum = match sum.checked_add(periods[i].1) {
            Some(n) => n,
            None => {
                assert(!time_fits(periods@, 0));
                return false;
            },
        };
        i += 1;
    }
    proof {
        assert(periods@.take(periods@.len() as int) =~= periods@);
    }
    let base = match sum.checked_add(sum) {
        Some(twice) => match twice.checked_add(lcm) {
            Some(n) => n,
            None => {
                assert(!time_fits(periods@, 0));
                return false;
            },
        },
        None => {
            assert(!time_fits(periods@, 0));
            return false;
        },
    };
    let mut k: usize = 0;
    while k < periods.len()
        invariant
            k <= periods@.len(),
            lcm == product(common_factors(periods@)),
            sum == periods_sum(periods@),
            base == lcm + 2 * sum,
            forall|j: int| 0 <= j < k ==> #[trigger] time_fits(periods@, j),
        decreases periods@.len() - k,
    {
        let (i, p) = periods[k];
        match base.checked_add(i) {
            Some(n) => {
                if n.checked_add(p).is_none() {
                    assert(!time_fits(periods@, k as int));
                    return false;
                }
            },
            None => {
                assert(!time_fits(periods@, k as int));
                return false;
            },
        }
        assert(time_fits(periods@, k as int));
        k += 1;
    }
    true
}

/// The product of the prime factors of the periods, twice the sum of the
/// periods, and the place and the period of the bus `k` together fit in a
/// `usize`.
pub open spec fn time_fits(periods: Seq<(usize, usize)>, k: int) -> bool {
    product(common_factors(periods)) + 2 * periods_sum(periods) + periods[k].0 + periods[k].1
        <= usize::MAX
}

/// `p` has no divisor but 1 and itself.
pub open spec fn is_prime(p: nat) -> bool {
    p >= 2 && forall|d: nat| 2 <= d < p ==> #[trigger] (p % d) != 0
}

/// The least divisor above 1 of a number above 1 divides it and is prime.
pub proof fn lemma_least_divisor_prime(n: nat, from: nat)
    requires
        2 <= from <= n,
        forall|d: nat| 2 <= d < from ==> #[trigger] (n % d) != 0,
    ensures
        n % least_divisor_from(n, from) == 0,
        from <= least_divisor_from(n, from) <= n,
        is_prime(least_divisor_from(n, from)),
    decreases n - from,
{
    let f = least_divisor_from(n, from);
    if from == n {
        vstd::arithmetic::div_mod::lemma_mod_self_0(n as int);
    } else if n % from == 0 {
        assert forall|d: nat| 2 <= d < from implies #[trigger] (from % d) != 0 by {
            if from % d == 0 {
                lemma_divides_trans(d, from, n);
            }
        }
    } else {
        lemma_least_divisor_prime(n, from + 1);
    }
}

/// The product of two lists in a row is the product of their products.
pub proof fn lemma_product_concat(a: Seq<usize>, b: Seq<usize>)
    ensures
        product(a + b) == product(a) * product(b),
    decreases b.len(),
{
    if b.len() == 0 {
        assert(a + b =~= a);
        assert(product(a) * 1 == product(a)) by (nonlinear_arith);
    } else {
        lemma_product_concat(a, b.drop_last());
        assert((a + b).drop_last() =~= a + b.drop_last());
        assert((a + b).last() == b.last());
        assert(product(a) * product(b.drop_last()) * (b.last() as nat) == product(a) * (product(
            b.drop_last(),
        ) * (b.last() as nat))) by (nonlinear_arith);
    }
}

/// The prime factors of a number are prime, and their product is the number.
pub proof fn law_factors(n: nat)
    requires
        1 <= n <= usize::MAX,
    ensures
        product(factors_of(n)) == n,
        forall|i: int| 0 <= i < factors_of(n).len() ==> is_prime(#[trigger] factors_of(n)[i] as nat),
    decreases n,
{
    if n > 1 {
        let d = least_divisor(n);
        lemma_least_divisor_prime(n, 2);
        lemma_fundamental_div_mod(n as int, d as int);
        let q = n / d;
        assert(n == d * q);
        assert(1 <= q < n) by (nonlinear_arith)
            requires
                n == d * q,
                d >= 2,
                n >= 2,
                q >= 0,
        ;
        law_factors(q);
        let rest = factors_of(q);
        let one = seq![d as usize];
        lemma_product_concat(one, rest);
        assert(one.drop_last() =~= Seq::<usize>::empty());
        assert(product(one) == d) by {
            assert(product(one.drop_last()) == 1);
            assert(1 * d == d) by (nonlinear_arith);
        }
        let all = one + rest;
        assert forall|i: int| 0 <= i < all.len() implies is_prime(#[trigger] all[i] as nat) by {
            if i > 0 {
                assert(all[i] == rest[i - 1]);
            }
        }
    }
}

/// The product of a list with a number put before it.
pub proof fn lemma_product_front(x: usize, s: Seq<usize>)
    ensures
        product(seq![x] + s) == x * product(s),
{
    let one = seq![x];
    lemma_product_concat(one, s);
    assert(one.drop_last() =~= Seq::<usize>::empty());
    assert(product(one) == x) by {
        assert(product(one.drop_last()) == 1);
        assert(1 * x == x) by (nonlinear_arith);
    }
}

/// What a number divides, it divides many times over.
pub proof fn lemma_divides_multiple(d: nat, x: nat, c: nat)
    requires
        d > 0,
        x % d == 0,
    ensures
        (c * x) % d == 0,
{
    lemma_fundamental_div_mod(x as int, d as int);
    let q = (x / d) as int;
    assert(c * x == (c * q) * d) by (nonlinear_arith)
        requires
            x == d * q,
    ;
    lemma_mod_multiples_basic(c * q, d as int);
}

/// The product of two merged lists is a multiple of the product of each.
pub proof fn lemma_merged_multiple(a: Seq<usize>, b: Seq<usize>)
    requires
        all_positive(a),
        all_positive(b),
    ensures
        product(merged(a, b)) % product(a) == 0,
        product(merged(a, b)) % product(b) == 0,
        product(a) > 0,
        product(b) > 0,
    decreases a.len() + b.len(),
{
    lemma_product_grows(a, 0);
    lemma_product_grows(b, 0);
    if a.len() == 0 {
        assert(product(a) == 1);
        vstd::arithmetic::div_mod::lemma_mod_self_0(product(b) as int);
    } else if b.len() == 0 {
        assert(product(b) == 1);
        vstd::arithmetic::div_mod::lemma_mod_self_0(product(a) as int);
    } else {
        let ra = a.drop_first();
        let rb = b.drop_first();
        assert forall|i: int| 0 <= i < ra.len() implies (#[trigger] ra[i]) > 0 by {
            assert(ra[i] == a[i + 1]);
        }
        assert forall|i: int| 0 <= i < rb.len() implies (#[trigger] rb[i]) > 0 by {
            assert(rb[i] == b[i + 1]);
        }
        assert(a =~= seq![a[0]] + ra);
        assert(b =~= seq![b[0]] + rb);
        lemma_product_front(a[0], ra);
        lemma_product_front(b[0], rb);
        lemma_product_grows(ra, 0);
        lemma_product_grows(rb, 0);
        assert(a[0] > 0 && b[0] > 0);
        if a[0] < b[0] {
            lemma_merged_multiple(ra, b);
            let m = product(merged(ra, b));
            lemma_product_front(a[0], merged(ra, b));
            lemma_scaled_divides(a[0] as nat, product(ra), m);
            lemma_divides_multiple(product(b), m, a[0] as nat);
        } else if a[0] == b[0] {
            lemma_merged_multiple(ra, rb);
            let m = product(merged(ra, rb));
            lemma_product_front(a[0], merged(ra, rb));
            lemma_scaled_divides(a[0] as nat, product(ra), m);
            lemma_scaled_divides(b[0] as nat, product(rb), m);
        } else {
            lemma_merged_multiple(a, rb);
            let m = product(merged(a, rb));
            lemma_product_front(b[0], merged(a, rb));
            lemma_scaled_divides(b[0] as nat, product(rb), m);
            lemma_divides_multiple(product(a), m, b[0] as nat);
        }
    }
}

/// What divides a number divides it still when both are taken as many times.
pub proof fn lemma_scaled_divides(c: nat, d: nat, x: nat)
    requires
        c > 0,
        d > 0,
        x % d == 0,
    ensures
        (c * x) % (c * d) == 0,
{
    lemma_fundamental_div_mod(x as int, d as int);
    let q = (x / d) as int;
    assert(c * x == q * (c * d)) by (nonlinear_arith)
        requires
            x == d * q,
    ;
    assert(c * d > 0) by (nonlinear_arith)
        requires
            c > 0,
            d > 0,
    ;
    lemma_mod_multiples_basic(q, (c * d) as int);
}

/// The product of the prime factors of the periods, each prime as often
/// as in the period that holds it most often, is a multiple of every period.
pub proof fn law_common_multiple(v: Seq<(usize, usize)>, k: int)
    requires
        0 <= k < v.len(),
        forall|j: int| 0 <= j < v.len() ==> (#[trigger] v[j]).1 > 0,
    ensures
        product(common_factors(v)) % (v[k].1 as nat) == 0,
    decreases v.len(),
{
    if v.len() == 1 {
        law_factors(v[0].1 as nat);
        vstd::arithmetic::div_mod::lemma_mod_self_0(v[0].1 as int);
    } else {
        let head = v.drop_last();
        let last = v.last().1 as nat;
        assert forall|j: int| 0 <= j < head.len() implies (#[trigger] head[j]).1 > 0 by {
            assert(head[j] == v[j]);
        }
        assert(v[v.len() - 1].1 > 0);
        lemma_common_positive(head);
        lemma_factors_positive(last);
        lemma_merged_multiple(common_factors(head), factors_of(last));
        law_factors(last);
        if k < v.len() - 1 {
            law_common_multiple(head, k);
            assert(head[k] == v[k]);
            lemma_divides_trans(
                v[k].1 as nat,
                product(common_factors(head)),
                product(common_factors(v)),
            );
        }
    }
}

/// What a round of the search writes about a bus: its period, the number
/// of periods, its place and its time.
pub open spec fn bus_text(b: Bus) -> Seq<char> {
    decimal(b.p as nat) + seq![' ', '*', ' '] + decimal(b.n as nat) + seq![' ', '-', ' '] + decimal(
        b.i as nat,
    ) + seq![' ', '=', ' '] + decimal(b.t as nat) + seq![',']
}

/// What a round writes about the buses, one after the other.
pub open spec fn buses_text(v: Seq<Bus>) -> Seq<char>
    decreases v.len(),
{
    if v.len() == 0 {
        Seq::empty()
    } else {
        buses_text(v.drop_last()) + bus_text(v.last())
    }
}

/// The line that a round writes.
pub open spec fn times_line(v: Seq<Bus>) -> Seq<char> {
    buses_text(v) + seq!['\n']
}

/// There are buses, and all of them are at the time `t`.
pub open spec fn all_at(v: Seq<Bus>, t: usize) -> bool {
    v.len() > 0 && forall|k: int| 0 <= k < v.len() ==> (#[trigger] v[k]).t == t
}

/// There are buses, and all of them are at one time.
pub open spec fn at_one_time(v: Seq<Bus>) -> bool {
    exists|t: usize| all_at(v, t)
}

/// The time from which bus `k` moves on in a round: the greatest time
/// `top` of the round before for the first bus, and for each other bus the
/// new time of the bus before it.
pub open spec fn round_time(v: Seq<Bus>, top: int, k: int) -> int
    decreases k,
{
    if k <= 0 {
        top
    } else {
        next_time(v[k - 1].i, v[k - 1].p, round_time(v, top, k - 1)).1
    }
}

/// Every bus can move on in the round: its period is not 0, and the time it
/// moves from, its place and its period together fit in a `usize`.
pub open spec fn round_fits(v: Seq<Bus>, top: int) -> bool {
    forall|k: int|
        0 <= k < v.len() ==> (#[trigger] v[k]).p > 0 && round_time(v, top, k) + v[k].i + v[k].p
            <= usize::MAX
}

/// The buses after the round.
pub open spec fn moved(v: Seq<Bus>, top: int) -> Seq<Bus> {
    Seq::new(
        v.len(),
        |k: int|
            Bus {
                i: v[k].i,
                p: v[k].p,
                n: next_time(v[k].i, v[k].p, round_time(v, top, k)).0 as usize,
                t: round_time(v, top, k + 1) as usize,
            },
    )
}

/// How the search goes on after a round.
pub enum Step {
    /// All buses are at this time: it is the time looked for.
    Found(usize),
    /// The buses have moved on, as far as the bound or further: the search is over.
    Over(Vec<Bus>),
    /// The buses have moved on: another round follows.
    Go(Vec<Bus>),
}

/// What a round of the search decides, without the line it writes: if all
/// buses are at one time, that time is found; else each bus moves on to its
/// first time from the time of the bus before it on, the first from the
/// greatest time of all, and the search is over if the last bus comes as far
/// as `bound`.
pub open spec fn step_of(v: Seq<Bus>, bound: usize, step: Step) -> bool {
    let top = time_top(v);
    match step {
        Step::Found(t) => all_at(v, t),
        Step::Over(next) => !at_one_time(v) && next@ == moved(v, top) && round_time(
            v,
            top,
            v.len() as int,
        ) >= bound,
        Step::Go(next) => !at_one_time(v) && next@ == moved(v, top) && round_time(
            v,
            top,
            v.len() as int,
        ) < bound,
    }
}

/// What a round writes about one bus.
pub fn bus_line(b: &Bus) -> (r: String)
    ensures
        r@ == bus_text(*b),
{
    proof {
        reveal_strlit(" * ");
        reveal_strlit(" - ");
        reveal_strlit(" = ");
        reveal_strlit(",");
        assert(" * "@ =~= seq![' ', '*', ' ']);
        assert(" - "@ =~= seq![' ', '-', ' ']);
        assert(" = "@ =~= seq![' ', '=', ' ']);
        assert(","@ =~= seq![',']);
    }
    let mut r = decimal_string(b.p as u64);
    r.append(" * ");
    let n = decimal_string(b.n as u64);
    r.append(n.as_str());
    r.append(" - ");
    let i = decimal_string(b.i as u64);
    r.append(i.as_str());
    r.append(" = ");
    let t = decimal_string(b.t as u64);
    r.append(t.as_str());
    r.append(",");
    r
}

/// One round of the search for the time at which every bus leaves as its
/// place says: the line to write about the buses as they stand, and how the
/// search goes on. There is no step if a bus cannot move on within the
/// range of `usize`.
pub fn try_round(buses: &Vec<Bus>, bound: usize) -> (r: (String, Option<Step>))
    ensures
        r.0@ == times_line(buses@),
        r.1 is Some <==> at_one_time(buses@) || round_fits(buses@, time_top(buses@)),
        match r.1 {
            Some(step) => step_of(buses@, bound, step),
            None => true,
        },
{
    let mut line = String::new();
    let mut k: usize = 0;
    proof {
        assert(buses@.take(0) =~= Seq::<Bus>::empty());
    }
    while k < buses.len()
        invariant
            k <= buses@.len(),
            line@ == buses_text(buses@.take(k as int)),
        decreases buses@.len() - k,
    {
        proof {
            assert(buses@.take(k + 1).drop_last() =~= buses@.take(k as int));
            assert(buses@.take(k + 1).last() == buses@[k as int]);
        }
        let text = bus_line(&buses[k]);
        line.append(text.as_str());
        k += 1;
    }
    proof {
        assert(buses@.take(buses@.len() as int) =~= buses@);
        reveal_strlit("\n");
        assert("\n"@ =~= seq!['\n']);
    }
    line.append("\n");
    let (min_t, max_t) = time_span(buses);
    if min_t == max_t {
        if buses.len() > 0 {
            proof {
                assert(all_at(buses@, min_t));
            }
            return (line, Some(Step::Found(min_t)));
        }
    }
    proof {
        if buses@.len() > 0 {
            lemma_time_top(buses@, max_t);
        }
        if at_one_time(buses@) {
            let t = choose|t: usize| all_at(buses@, t);
            let a = choose|a: int| 0 <= a < buses@.len() && (#[trigger] buses@[a]).t == max_t;
            let b = choose|b: int| 0 <= b < buses@.len() && (#[trigger] buses@[b]).t == min_t;
            assert(buses@[a].t == t);
            assert(buses@[b].t == t);
        }
    }
    let ghost top = max_t as int;
    let mut next: Vec<Bus> = Vec::new();
    let mut from: usize = max_t;
    let mut j: usize = 0;
    while j < buses.len()
        invariant
            j <= buses@.len(),
            next@.len() == j,
            line@ == times_line(buses@),
            top == time_top(buses@),
            !at_one_time(buses@),
            from == round_time(buses@, top, j as int),
            forall|a: int|
                0 <= a < j ==> (#[trigger] buses@[a]).p > 0 && round_time(buses@, top, a)
                    + buses@[a].i + buses@[a].p <= usize::MAX,
            forall|a: int| 0 <= a < j ==> #[trigger] next@[a] == moved(buses@, top)[a],
        decreases buses@.len() - j,
    {
        let bus = buses[j];
        let fits = bus.p > 0 && match from.checked_add(bus.i) {
            Some(goal) => goal.checked_add(bus.p).is_some(),
            None => false,
        };
        if !fits {
            proof {
                assert(!(buses@[j as int].p > 0 && round_time(buses@, top, j as int)
                    + buses@[j as int].i + buses@[j as int].p <= usize::MAX));
            }
            return (line, None);
        }
        let mut bus = bus;
        from = bus.next(from);
        next.push(bus);
        j += 1;
    }
    proof {
        assert(next@ =~= moved(buses@, top));
    }
    if from >= bound {
        (line, Some(Step::Over(next)))
    } else {
        (line, Some(Step::Go(next)))
    }
}

} // verus!
