//! Why the product of the merged prime factors of some numbers is their
//! least common multiple: it divides every common multiple.

use vstd::prelude::*;
use vstd::arithmetic::div_mod::{
    lemma_fundamental_div_mod, lemma_mod_multiples_basic, lemma_small_mod,
};
use crate::bus::{
    all_leave_at, all_positive, common_factors, common_multiple, factors_of, in_order, is_least,
    is_prime, law_common_multiple, law_factors, least_divisor, least_divisor_from,
    lemma_divides_trans, lemma_least_divisor_prime, lemma_product_front, lemma_product_grows,
    lemma_quotient_divides, lemma_scaled_divides, merged, none_before, product,
};

verus! {

/// A number that `d` divides is `d` times the quotient.
pub proof fn lemma_quotient(n: nat, d: nat)
    requires
        d > 0,
        n % d == 0,
    ensures
        n == d * (n / d),
{
    lemma_fundamental_div_mod(n as int, d as int);
}

/// `d` divides its multiples.
pub proof fn lemma_multiple(d: nat, k: nat)
    requires
        d > 0,
    ensures
        (d * k) % d == 0,
{
    lemma_mod_multiples_basic(k as int, d as int);
    assert(d * k == k * d) by (nonlinear_arith);
}

/// If `q * y` divides `q * x`, then `y` divides `x`.
pub proof fn lemma_cancel(q: nat, x: nat, y: nat)
    requires
        q > 0,
        y > 0,
        (q * x) % (q * y) == 0,
    ensures
        x % y == 0,
{
    assert(q * y > 0) by (nonlinear_arith)
        requires
            q > 0,
            y > 0,
    ;
    lemma_quotient(q * x, q * y);
    let k = (q * x) / (q * y);
    assert(x == y * k) by (nonlinear_arith)
        requires
            q * x == (q * y) * k,
            q > 0,
    ;
    lemma_multiple(y, k);
}

/// A prime that divides a product divides one of the two numbers.
pub proof fn lemma_prime_divides_product(p: nat, a: nat, b: nat)
    requires
        is_prime(p),
        (a * b) % p == 0,
    ensures
        a % p == 0 || b % p == 0,
    decreases a,
{
    lemma_quotient(a * b, p);
    let k = (a * b) / p;
    if a == 0 {
        lemma_small_mod(0, p);
    } else if a >= p {
        let r = a % p;
        let q = a / p;
        lemma_fundamental_div_mod(a as int, p as int);
        assert(r * b == p * (k - q * b)) by (nonlinear_arith)
            requires
                a == p * q + r,
                a * b == p * k,
        ;
        assert(k - q * b >= 0) by (nonlinear_arith)
            requires
                r * b == p * (k - q * b),
                p > 0,
                r * b >= 0,
        ;
        lemma_multiple(p, (k - q * b) as nat);
        lemma_prime_divides_product(p, r, b);
        if r % p == 0 {
            lemma_small_mod(r, p);
        }
    } else if a == 1 {
        assert(a * b == b) by (nonlinear_arith)
            requires
                a == 1,
        ;
    } else {
        let r = p % a;
        let q = p / a;
        lemma_fundamental_div_mod(p as int, a as int);
        assert(p % a != 0);
        assert(r * b == p * (b - q * k)) by (nonlinear_arith)
            requires
                p == a * q + r,
                a * b == p * k,
        ;
        assert(b - q * k >= 0) by (nonlinear_arith)
            requires
                r * b == p * (b - q * k),
                p > 0,
                r * b >= 0,
        ;
        lemma_multiple(p, (b - q * k) as nat);
        lemma_prime_divides_product(p, r, b);
        if r % p == 0 {
            lemma_small_mod(r, p);
        }
    }
}

/// Every number of the list is prime.
pub open spec fn primes(v: Seq<usize>) -> bool {
    forall|i: int| 0 <= i < v.len() ==> is_prime(#[trigger] v[i] as nat)
}

/// The list without its first number keeps its order and its primes, and
/// its product times the first number is the product of the list.
pub proof fn lemma_rest(v: Seq<usize>)
    requires
        v.len() > 0,
        primes(v),
    ensures
        primes(v.drop_first()),
        in_order(v) ==> in_order(v.drop_first()),
        product(v) == v[0] * product(v.drop_first()),
        product(v.drop_first()) > 0,
        product(v) > 0,
        all_positive(v),
{
    let rest = v.drop_first();
    assert forall|i: int| 0 <= i < rest.len() implies is_prime(#[trigger] rest[i] as nat) by {
        assert(rest[i] == v[i + 1]);
    }
    if in_order(v) {
        assert forall|i: int, j: int| 0 <= i < j < rest.len() implies rest[i] <= rest[j] by {
            assert(v[i + 1] <= v[j + 1]);
        }
    }
    assert(v =~= seq![v[0]] + rest);
    lemma_product_front(v[0], rest);
    assert forall|i: int| 0 <= i < v.len() implies (#[trigger] v[i]) > 0 by {
        assert(is_prime(v[i] as nat));
    }
    assert forall|i: int| 0 <= i < rest.len() implies (#[trigger] rest[i]) > 0 by {
        assert(is_prime(rest[i] as nat));
    }
    lemma_product_grows(v, 0);
    lemma_product_grows(rest, 0);
}

/// If the product of primes other than `p` divides `p * m`, it divides `m`.
pub proof fn lemma_other_primes_cancel(p: nat, list: Seq<usize>, m: nat)
    requires
        is_prime(p),
        primes(list),
        forall|i: int| 0 <= i < list.len() ==> (#[trigger] list[i]) != p,
        product(list) > 0,
        (p * m) % product(list) == 0,
    ensures
        m % product(list) == 0,
    decreases list.len(),
{
    if list.len() == 0 {
        assert(product(list) == 1);
        lemma_multiple(1, m);
        assert(1 * m == m) by (nonlinear_arith);
    } else {
        let q = list[0] as nat;
        let rest = list.drop_first();
        lemma_rest(list);
        let tail = product(rest);
        assert(is_prime(list[0] as nat));
        // `q` divides `p * m`, and not `p`: so it divides `m`.
        lemma_multiple(q, tail);
        lemma_divides_trans(q, product(list), p * m);
        lemma_prime_divides_product(q, p, m);
        if p % q == 0 {
            if q < p {
                assert(p % q != 0);
            } else {
                lemma_small_mod(p, q);
            }
        }
        lemma_quotient(m, q);
        let less = m / q;
        // What is left of the product divides `p * less`.
        assert(p * m == q * (p * less)) by (nonlinear_arith)
            requires
                m == q * less,
        ;
        lemma_cancel(q, p * less, tail);
        assert forall|i: int| 0 <= i < rest.len() implies (#[trigger] rest[i]) != p by {
            assert(rest[i] == list[i + 1]);
        }
        lemma_other_primes_cancel(p, rest, less);
        lemma_scaled_divides(q, tail, less);
    }
}

/// What the products of two lists of primes in order both divide, the
/// product of the merged list divides.
pub proof fn lemma_merged_divides(a: Seq<usize>, b: Seq<usize>, m: nat)
    requires
        primes(a),
        primes(b),
        in_order(a),
        in_order(b),
        product(a) > 0,
        product(b) > 0,
        m % product(a) == 0,
        m % product(b) == 0,
    ensures
        product(merged(a, b)) > 0,
        m % product(merged(a, b)) == 0,
    decreases a.len() + b.len(),
{
    if a.len() == 0 || b.len() == 0 {
    } else {
        lemma_rest(a);
        lemma_rest(b);
        let ra = a.drop_first();
        let rb = b.drop_first();
        if a[0] < b[0] {
            lemma_first_out(a, b, m);
            let less = m / (a[0] as nat);
            lemma_merged_divides(ra, b, less);
            let rest = merged(ra, b);
            lemma_product_front(a[0], rest);
            lemma_scaled_divides(a[0] as nat, product(rest), less);
            assert(a[0] * product(rest) > 0) by (nonlinear_arith)
                requires
                    a[0] > 0,
                    product(rest) > 0,
            ;
        } else if a[0] == b[0] {
            let x = a[0] as nat;
            lemma_multiple(x, product(ra));
            lemma_divides_trans(x, product(a), m);
            lemma_quotient(m, x);
            let less = m / x;
            lemma_cancel(x, less, product(ra));
            lemma_cancel(x, less, product(rb));
            lemma_merged_divides(ra, rb, less);
            let rest = merged(ra, rb);
            lemma_product_front(a[0], rest);
            lemma_scaled_divides(x, product(rest), less);
            assert(x * product(rest) > 0) by (nonlinear_arith)
                requires
                    x > 0,
                    product(rest) > 0,
            ;
        } else {
            lemma_first_out(b, a, m);
            let less = m / (b[0] as nat);
            lemma_merged_divides(a, rb, less);
            let rest = merged(a, rb);
            lemma_product_front(b[0], rest);
            lemma_scaled_divides(b[0] as nat, product(rest), less);
            assert(b[0] * product(rest) > 0) by (nonlinear_arith)
                requires
                    b[0] > 0,
                    product(rest) > 0,
            ;
        }
    }
}

/// Where the first prime of `a` is below all of `b`, the products of the
/// rest of `a` and of `b` both divide what is left of a common multiple
/// without that prime.
pub proof fn lemma_first_out(a: Seq<usize>, b: Seq<usize>, m: nat)
    requires
        a.len() > 0,
        b.len() > 0,
        primes(a),
        primes(b),
        in_order(b),
        a[0] < b[0],
        product(a) > 0,
        product(b) > 0,
        m % product(a) == 0,
        m % product(b) == 0,
    ensures
        m == a[0] * (m / (a[0] as nat)),
        (m / (a[0] as nat)) % product(a.drop_first()) == 0,
        (m / (a[0] as nat)) % product(b) == 0,
{
    lemma_rest(a);
    let x = a[0] as nat;
    lemma_multiple(x, product(a.drop_first()));
    lemma_divides_trans(x, product(a), m);
    lemma_quotient(m, x);
    let less = m / x;
    lemma_cancel(x, less, product(a.drop_first()));
    assert forall|i: int| 0 <= i < b.len() implies (#[trigger] b[i]) != x by {
        if i > 0 {
            assert(b[0] <= b[i]);
        }
    }
    lemma_other_primes_cancel(x, b, less);
}

/// The least divisor of `n` from `from` on is no greater than any divisor
/// of `n` from `from` on.
pub proof fn lemma_least_divisor_least(n: nat, from: nat, f: nat)
    requires
        1 <= from <= f <= n,
        n % f == 0,
    ensures
        least_divisor_from(n, from) <= f,
    decreases n - from,
{
    if from < n && n % from != 0 {
        lemma_least_divisor_least(n, from + 1, f);
    }
}

/// The prime factors of a number are primes that divide it, in order.
pub proof fn lemma_factors_shape(n: nat)
    requires
        1 <= n <= usize::MAX,
    ensures
        primes(factors_of(n)),
        in_order(factors_of(n)),
        forall|i: int| 0 <= i < factors_of(n).len() ==> n % (#[trigger] factors_of(n)[i] as nat) == 0,
    decreases n,
{
    law_factors(n);
    if n > 1 {
        let d = least_divisor(n);
        lemma_least_divisor_prime(n, 2);
        lemma_quotient(n, d);
        let q = n / d;
        if 2 <= d && q < n {
            assert(q >= 1) by (nonlinear_arith)
                requires
                    n == d * q,
                    n >= 1,
            ;
            lemma_factors_shape(q);
            let rest = factors_of(q);
            let all = factors_of(n);
            assert(all =~= seq![d as usize] + rest);
            assert forall|i: int| 0 <= i < all.len() implies n % (#[trigger] all[i] as nat)
                == 0 && d <= all[i] by {
                if i > 0 {
                    assert(all[i] == rest[i - 1]);
                    assert(is_prime(rest[i - 1] as nat));
                    lemma_quotient_divides(rest[i - 1] as nat, d, n);
                    if rest[i - 1] > q {
                        lemma_small_mod(q, rest[i - 1] as nat);
                    }
                    lemma_least_divisor_least(n, 2, rest[i - 1] as nat);
                }
            }
            assert forall|i: int, j: int| 0 <= i < j < all.len() implies all[i] <= all[j] by {
                if i > 0 {
                    assert(rest[i - 1] <= rest[j - 1]);
                }
            }
        } else {
            vstd::arithmetic::div_mod::lemma_mod_self_0(n as int);
        }
    }
}

/// What two lists of primes in order merge into is a list of primes in
/// order, and none of them is below the first of both lists.
pub proof fn lemma_merged_shape(a: Seq<usize>, b: Seq<usize>, low: usize)
    requires
        primes(a),
        primes(b),
        in_order(a),
        in_order(b),
        forall|i: int| 0 <= i < a.len() ==> low <= #[trigger] a[i],
        forall|i: int| 0 <= i < b.len() ==> low <= #[trigger] b[i],
    ensures
        primes(merged(a, b)),
        in_order(merged(a, b)),
        forall|i: int| 0 <= i < merged(a, b).len() ==> low <= #[trigger] merged(a, b)[i],
    decreases a.len() + b.len(),
{
    if a.len() == 0 || b.len() == 0 {
    } else {
        lemma_rest(a);
        lemma_rest(b);
        let ra = a.drop_first();
        let rb = b.drop_first();
        let first = if a[0] <= b[0] {
            a[0]
        } else {
            b[0]
        };
        let (x, y) = if a[0] < b[0] {
            (ra, b)
        } else if a[0] == b[0] {
            (ra, rb)
        } else {
            (a, rb)
        };
        assert forall|i: int| 0 <= i < x.len() implies first <= #[trigger] x[i] by {
            if a[0] <= b[0] {
                assert(x[i] == a[i + 1]);
                assert(a[0] <= a[i + 1]);
            } else {
                if i > 0 {
                    assert(a[0] <= a[i]);
                }
            }
        }
        assert forall|i: int| 0 <= i < y.len() implies first <= #[trigger] y[i] by {
            if a[0] < b[0] {
                if i > 0 {
                    assert(b[0] <= b[i]);
                }
            } else {
                assert(y[i] == b[i + 1]);
                assert(b[0] <= b[i + 1]);
            }
        }
        lemma_merged_shape(x, y, first);
        let rest = merged(x, y);
        let all = merged(a, b);
        assert(all =~= seq![first] + rest);
        assert(is_prime(a[0] as nat) && is_prime(b[0] as nat));
        assert(low <= a[0] && low <= b[0]);
        assert forall|i: int| 0 <= i < all.len() implies is_prime(#[trigger] all[i] as nat) && low
            <= all[i] && first <= all[i] by {
            if i > 0 {
                assert(all[i] == rest[i - 1]);
            }
        }
        assert forall|i: int, j: int| 0 <= i < j < all.len() implies all[i] <= all[j] by {
            assert(all[j] == rest[j - 1]);
            if i > 0 {
                assert(all[i] == rest[i - 1]);
            }
        }
    }
}

/// The merged prime factors of periods above 0 are primes in order.
pub proof fn lemma_common_shape(v: Seq<(usize, usize)>)
    requires
        forall|k: int| 0 <= k < v.len() ==> (#[trigger] v[k]).1 > 0,
    ensures
        primes(common_factors(v)),
        in_order(common_factors(v)),
        product(common_factors(v)) > 0,
    decreases v.len(),
{
    if v.len() == 0 {
        assert(product(common_factors(v)) == 1);
    } else if v.len() == 1 {
        lemma_factors_shape(v[0].1 as nat);
        law_factors(v[0].1 as nat);
    } else {
        let head = v.drop_last();
        assert forall|k: int| 0 <= k < head.len() implies (#[trigger] head[k]).1 > 0 by {
            assert(head[k] == v[k]);
        }
        assert(v[v.len() - 1].1 > 0);
        lemma_common_shape(head);
        let last = v.last().1 as nat;
        lemma_factors_shape(last);
        law_factors(last);
        lemma_merged_shape(common_factors(head), factors_of(last), 0);
        lemma_merged_divides(common_factors(head), factors_of(last), 0);
    }
}

/// The product of the merged prime factors of the periods divides every
/// number that all the periods divide, so no such number above 0 is below
/// it.
pub proof fn law_divides_common_multiples(v: Seq<(usize, usize)>, m: nat)
    requires
        forall|k: int| 0 <= k < v.len() ==> (#[trigger] v[k]).1 > 0,
        common_multiple(v, m),
    ensures
        product(common_factors(v)) > 0,
        m % product(common_factors(v)) == 0,
        m > 0 ==> product(common_factors(v)) <= m,
    decreases v.len(),
{
    lemma_common_shape(v);
    let all = product(common_factors(v));
    if v.len() == 0 {
        lemma_multiple(1, m);
        assert(1 * m == m) by (nonlinear_arith);
    } else if v.len() == 1 {
        law_factors(v[0].1 as nat);
    } else {
        let head = v.drop_last();
        assert forall|k: int| 0 <= k < head.len() implies (#[trigger] head[k]).1 > 0 && m % (
        head[k].1 as nat) == 0 by {
            assert(head[k] == v[k]);
        }
        assert(v[v.len() - 1].1 > 0);
        law_divides_common_multiples(head, m);
        lemma_common_shape(head);
        let last = v.last().1 as nat;
        lemma_factors_shape(last);
        law_factors(last);
        lemma_merged_divides(common_factors(head), factors_of(last), m);
    }
    if m > 0 {
        lemma_quotient(m, all);
        assert(all <= m) by (nonlinear_arith)
            requires
                m == all * (m / all),
                m > 0,
                all > 0,
        ;
    }
}

/// The product of the merged prime factors of the periods is their least
/// common multiple.
pub proof fn law_least_common_multiple(v: Seq<(usize, usize)>)
    requires
        forall|k: int| 0 <= k < v.len() ==> (#[trigger] v[k]).1 > 0,
    ensures
        is_least(v, product(common_factors(v))),
{
    let all = product(common_factors(v));
    lemma_common_shape(v);
    assert forall|k: int| 0 <= k < v.len() implies all % ((#[trigger] v[k]).1 as nat) == 0 by {
        law_common_multiple(v, k);
    }
    assert forall|m: nat| #[trigger] common_multiple(v, m) implies m % all == 0 && (m > 0 ==> all
        <= m) by {
        law_divides_common_multiples(v, m);
    }
}

/// Where all buses leave as their places say at the time `t`, they do so
/// a common multiple of their periods earlier.
pub proof fn lemma_time_repeats(v: Seq<(usize, usize)>, t: int, step: nat)
    requires
        forall|k: int| 0 <= k < v.len() ==> (#[trigger] v[k]).1 > 0,
        common_multiple(v, step),
        all_leave_at(v, t),
    ensures
        all_leave_at(v, t - step),
{
    assert forall|k: int| 0 <= k < v.len() implies (t - step + (#[trigger] v[k]).0) % (
    v[k].1 as int) == 0 by {
        let p = v[k].1 as int;
        let x = t + v[k].0;
        assert(x % p == 0);
        assert(step % (v[k].1 as nat) == 0);
        lemma_fundamental_div_mod(x, p);
        lemma_fundamental_div_mod(step as int, p);
        let a = x / p;
        let b = (step as int) / p;
        assert(x - step == (a - b) * p) by (nonlinear_arith)
            requires
                x == p * a,
                step == p * b,
        ;
        lemma_mod_multiples_basic(a - b, p);
    }
}

/// The times at which all buses leave as their places say repeat with
/// every common multiple of the periods: if there is none before one, there
/// is none at all.
pub proof fn law_no_time_at_all(v: Seq<(usize, usize)>, bound: nat, t: int)
    requires
        forall|k: int| 0 <= k < v.len() ==> (#[trigger] v[k]).1 > 0,
        bound > 0,
        common_multiple(v, bound),
        none_before(v, bound as int),
        0 <= t,
    ensures
        !all_leave_at(v, t),
    decreases t,
{
    if all_leave_at(v, t) {
        lemma_time_repeats(v, t, bound);
        law_no_time_at_all(v, bound, t - bound);
    }
}

} // verus!
