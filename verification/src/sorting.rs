//! The order in which an automaton lists its transitions, and a sort by it.

use vstd::prelude::*;
use vstd::seq_lib::{to_multiset_build, to_multiset_insert};
use crate::grammar::Token;
use crate::paths::Transition;

verus! {

/// The place of a token among the tokens: `Nil`, then `A`, then `B`.
pub open spec fn token_rank(t: Token) -> int {
    match t {
        Token::Nil => 0,
        Token::A => 1,
        Token::B => 2,
    }
}

/// `a` comes strictly before `b`: by source state, then by token, then by
/// destination state.
pub open spec fn transition_lt(a: Transition, b: Transition) -> bool {
    a.0 < b.0 || (a.0 == b.0 && (token_rank(a.1) < token_rank(b.1) || (a.1 == b.1 && a.2 < b.2)))
}

/// `a` comes before `b` or is equal to it.
pub open spec fn transition_le(a: Transition, b: Transition) -> bool {
    a == b || transition_lt(a, b)
}

/// `ts` lists its transitions in ascending order.
pub open spec fn sorted(ts: Seq<Transition>) -> bool {
    forall|i: int, j: int| 0 <= i < j < ts.len() ==> transition_le(ts[i], ts[j])
}

/// The place of the token among the tokens.
fn rank_of(t: Token) -> (r: u8)
    ensures
        r == token_rank(t),
{
    match t {
        Token::Nil => 0,
        Token::A => 1,
        Token::B => 2,
    }
}

/// Whether `a` comes strictly before `b`.
pub fn comes_before(a: (usize, Token, usize), b: (usize, Token, usize)) -> (r: bool)
    ensures
        r == transition_lt(a, b),
{
    if a.0 != b.0 {
        a.0 < b.0
    } else {
        let ra = rank_of(a.1);
        let rb = rank_of(b.1);
        if ra != rb {
            ra < rb
        } else {
            a.2 < b.2
        }
    }
}

/// Sorts `v` in ascending order. The result holds the same transitions, each
/// as often as before.
pub fn sort_transitions(v: &mut Vec<(usize, Token, usize)>)
    ensures
        sorted(final(v)@),
        final(v)@.to_multiset() == old(v)@.to_multiset(),
{
    let mut out: Vec<(usize, Token, usize)> = Vec::new();
    let n = v.len();
    let mut i: usize = 0;
    proof {
        assert(v@.take(0) =~= out@);
    }
    while i < n
        invariant
            n == v@.len(),
            i <= n,
            sorted(out@),
            out@.len() == i,
            out@.to_multiset() == v@.take(i as int).to_multiset(),
        decreases n - i,
    {
        let x = v[i];
        let mut j: usize = 0;
        while j < out.len() && comes_before(out[j], x)
            invariant
                j <= out@.len(),
                forall|k: int| 0 <= k < j ==> transition_lt(#[trigger] out@[k], x),
            decreases out@.len() - j,
        {
            j += 1;
        }
        let ghost prior = out@;
        out.insert(j, x);
        proof {
            to_multiset_insert(prior, j as int, x);
            to_multiset_build(v@.take(i as int), x);
            assert(v@.take(i + 1) =~= v@.take(i as int).push(x));
            assert forall|a: int, b: int| 0 <= a < b < out@.len() implies transition_le(
                out@[a],
                out@[b],
            ) by {
                if b < j {
                    assert(out@[a] == prior[a] && out@[b] == prior[b]);
                } else if b == j {
                    assert(out@[a] == prior[a]);
                } else if a < j {
                    assert(out@[a] == prior[a] && out@[b] == prior[b - 1]);
                    assert(transition_le(prior[j as int], prior[b - 1]));
                } else if a == j {
                    assert(out@[b] == prior[b - 1]);
                    assert(transition_le(prior[j as int], prior[b - 1]));
                } else {
                    assert(out@[a] == prior[a - 1] && out@[b] == prior[b - 1]);
                }
            }
        }
        i += 1;
    }
    proof {
        assert(v@.take(n as int) =~= v@);
    }
    *v = out;
}

} // verus!
