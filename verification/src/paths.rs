//! Paths through a set of labelled transitions, and how the paths of a
//! compound automaton fragment decompose into paths of its parts.

use vstd::prelude::*;
use crate::grammar::Token;
use crate::derivation::token_word;

verus! {

/// An edge of the automaton: source state, symbol (`Nil` consumes nothing),
/// destination state.
pub type Transition = (usize, Token, usize);

/// `p` is a chain of transitions of `ts` that leads from state `s` to state `e`.
pub open spec fn is_path(ts: Seq<Transition>, p: Seq<Transition>, s: usize, e: usize) -> bool {
    &&& forall|i: int| 0 <= i < p.len() ==> ts.contains(#[trigger] p[i])
    &&& forall|i: int| 0 <= i < p.len() - 1 ==> (#[trigger] p[i]).2 == p[i + 1].0
    &&& if p.len() == 0 {
        s == e
    } else {
        p[0].0 == s && p.last().2 == e
    }
}

/// The word that is consumed along `p`.
pub open spec fn label(p: Seq<Transition>) -> Seq<char>
    decreases p.len(),
{
    if p.len() == 0 {
        Seq::empty()
    } else {
        label(p.drop_last()) + token_word(p.last().1)
    }
}

/// Some path of `ts` leads from `s` to `e` and consumes exactly `w`.
pub open spec fn reaches(ts: Seq<Transition>, s: usize, e: usize, w: Seq<char>) -> bool {
    exists|p: Seq<Transition>| #[trigger] is_path(ts, p, s, e) && label(p) =~= w
}

/// The state in which `p`, started in `s`, is after `j` steps.
pub open spec fn state_after(p: Seq<Transition>, s: usize, j: int) -> usize {
    if j == 0 {
        s
    } else {
        p[j - 1].2
    }
}

/// `x` is the entry state `entry` or one of the states `lo..hi`.
pub open spec fn in_region(x: usize, entry: usize, lo: usize, hi: usize) -> bool {
    x == entry || lo <= x < hi
}

/// The word along two paths in a row is the words along them in a row.
pub proof fn lemma_label_concat(p: Seq<Transition>, q: Seq<Transition>)
    ensures
        label(p + q) =~= label(p) + label(q),
    decreases q.len(),
{
    if q.len() == 0 {
        assert(p + q =~= p);
    } else {
        lemma_label_concat(p, q.drop_last());
        assert((p + q).drop_last() =~= p + q.drop_last());
        assert((p + q).last() == q.last());
    }
}

/// The word along a path is the word along its first `j` steps and the
/// word along the rest.
pub proof fn lemma_label_split(p: Seq<Transition>, j: int)
    requires
        0 <= j <= p.len(),
    ensures
        label(p) =~= label(p.take(j)) + label(p.skip(j)),
{
    lemma_label_concat(p.take(j), p.skip(j));
    assert(p.take(j) + p.skip(j) =~= p);
}

/// The word along one transition is the word of its token.
pub proof fn lemma_label_single(t: Transition)
    ensures
        label(seq![t]) =~= token_word(t.1),
{
    let p = seq![t];
    assert(p.drop_last() =~= Seq::<Transition>::empty());
    assert(label(p.drop_last()) =~= Seq::<char>::empty());
}

/// Two paths in a row, the second from where the first ends, are a path.
pub proof fn lemma_path_concat(
    ts: Seq<Transition>,
    p: Seq<Transition>,
    q: Seq<Transition>,
    s: usize,
    m: usize,
    e: usize,
)
    requires
        is_path(ts, p, s, m),
        is_path(ts, q, m, e),
    ensures
        is_path(ts, p + q, s, e),
{
    let r = p + q;
    assert forall|i: int| 0 <= i < r.len() implies ts.contains(#[trigger] r[i]) by {
        if i < p.len() {
            assert(r[i] == p[i]);
        } else {
            assert(r[i] == q[i - p.len()]);
        }
    }
    assert forall|i: int| 0 <= i < r.len() - 1 implies (#[trigger] r[i]).2 == r[i + 1].0 by {
        if i + 1 < p.len() {
            assert(r[i] == p[i]);
            assert(r[i + 1] == p[i + 1]);
        } else if i + 1 == p.len() {
            assert(r[i] == p[i]);
            assert(r[i + 1] == q[0]);
        } else {
            assert(r[i] == q[i - p.len()]);
            assert(r[i + 1] == q[i - p.len() + 1]);
        }
    }
}

/// The first `j` steps of a path are a path, and so is the rest.
pub proof fn lemma_path_split(
    ts: Seq<Transition>,
    p: Seq<Transition>,
    s: usize,
    e: usize,
    j: int,
)
    requires
        is_path(ts, p, s, e),
        0 <= j <= p.len(),
    ensures
        is_path(ts, p.take(j), s, state_after(p, s, j)),
        is_path(ts, p.skip(j), state_after(p, s, j), e),
{
    let a = p.take(j);
    let b = p.skip(j);
    assert forall|i: int| 0 <= i < a.len() implies ts.contains(#[trigger] a[i]) by {
        assert(a[i] == p[i]);
    }
    assert forall|i: int| 0 <= i < a.len() - 1 implies (#[trigger] a[i]).2 == a[i + 1].0 by {
        assert(a[i] == p[i]);
        assert(a[i + 1] == p[i + 1]);
    }
    assert forall|i: int| 0 <= i < b.len() implies ts.contains(#[trigger] b[i]) by {
        assert(b[i] == p[i + j]);
    }
    assert forall|i: int| 0 <= i < b.len() - 1 implies (#[trigger] b[i]).2 == b[i + 1].0 by {
        assert(b[i] == p[i + j]);
        assert(b[i + 1] == p[i + j + 1]);
    }
    if 0 < j && j < p.len() {
        assert(p[j - 1].2 == p[j - 1 + 1].0);
    }
}

/// A path that ends inside a region which no transition enters from outside
/// stays inside it, and uses only the transitions that end there.
pub proof fn lemma_confined_backward(
    ts: Seq<Transition>,
    sub: Seq<Transition>,
    p: Seq<Transition>,
    s: usize,
    e: usize,
    entry: usize,
    lo: usize,
    hi: usize,
)
    requires
        is_path(ts, p, s, e),
        in_region(e, entry, lo, hi),
        forall|t: Transition| #[trigger]
            ts.contains(t) && in_region(t.2, entry, lo, hi) ==> sub.contains(t) && in_region(
                t.0,
                entry,
                lo,
                hi,
            ),
    ensures
        is_path(sub, p, s, e),
{
    assert forall|i: int| 0 <= i < p.len() implies sub.contains(#[trigger] p[i]) by {
        lemma_ends_in_region(ts, sub, p, s, e, entry, lo, hi, i);
    }
}

/// Step `i` of such a path ends inside the region.
proof fn lemma_ends_in_region(
    ts: Seq<Transition>,
    sub: Seq<Transition>,
    p: Seq<Transition>,
    s: usize,
    e: usize,
    entry: usize,
    lo: usize,
    hi: usize,
    i: int,
)
    requires
        is_path(ts, p, s, e),
        in_region(e, entry, lo, hi),
        forall|t: Transition| #[trigger]
            ts.contains(t) && in_region(t.2, entry, lo, hi) ==> sub.contains(t) && in_region(
                t.0,
                entry,
                lo,
                hi,
            ),
        0 <= i < p.len(),
    ensures
        in_region(p[i].2, entry, lo, hi),
        sub.contains(p[i]),
    decreases p.len() - i,
{
    assert(ts.contains(p[i]));
    if i < p.len() - 1 {
        lemma_ends_in_region(ts, sub, p, s, e, entry, lo, hi, i + 1);
        assert(ts.contains(p[i + 1]));
        assert(p[i].2 == p[i + 1].0);
    }
}

/// A path that starts inside a region which no transition leaves stays inside
/// it, and uses only the transitions that start there.
pub proof fn lemma_confined_forward(
    ts: Seq<Transition>,
    sub: Seq<Transition>,
    p: Seq<Transition>,
    s: usize,
    e: usize,
    entry: usize,
    lo: usize,
    hi: usize,
)
    requires
        is_path(ts, p, s, e),
        in_region(s, entry, lo, hi),
        forall|t: Transition| #[trigger]
            ts.contains(t) && in_region(t.0, entry, lo, hi) ==> sub.contains(t) && in_region(
                t.2,
                entry,
                lo,
                hi,
            ),
    ensures
        is_path(sub, p, s, e),
{
    assert forall|i: int| 0 <= i < p.len() implies sub.contains(#[trigger] p[i]) by {
        lemma_starts_in_region(ts, sub, p, s, e, entry, lo, hi, i);
    }
}

/// Step `i` of such a path starts inside the region.
proof fn lemma_starts_in_region(
    ts: Seq<Transition>,
    sub: Seq<Transition>,
    p: Seq<Transition>,
    s: usize,
    e: usize,
    entry: usize,
    lo: usize,
    hi: usize,
    i: int,
)
    requires
        is_path(ts, p, s, e),
        in_region(s, entry, lo, hi),
        forall|t: Transition| #[trigger]
            ts.contains(t) && in_region(t.0, entry, lo, hi) ==> sub.contains(t) && in_region(
                t.2,
                entry,
                lo,
                hi,
            ),
        0 <= i < p.len(),
    ensures
        in_region(p[i].0, entry, lo, hi),
        sub.contains(p[i]),
    decreases i,
{
    assert(ts.contains(p[i]));
    if i > 0 {
        lemma_starts_in_region(ts, sub, p, s, e, entry, lo, hi, i - 1);
        assert(ts.contains(p[i - 1]));
        assert(p[i - 1].2 == p[i - 1 + 1].0);
    }
}

/// Two lists that hold the same transitions have the same paths.
pub proof fn lemma_same_elements(
    ts1: Seq<Transition>,
    ts2: Seq<Transition>,
    s: usize,
    e: usize,
    w: Seq<char>,
)
    requires
        ts1.to_multiset() == ts2.to_multiset(),
    ensures
        reaches(ts1, s, e, w) <==> reaches(ts2, s, e, w),
{
    broadcast use vstd::seq_lib::to_multiset_contains;

    assert forall|t: Transition| ts1.contains(t) <==> ts2.contains(t) by {
        assert(ts1.contains(t) <==> ts1.to_multiset().count(t) > 0);
        assert(ts2.contains(t) <==> ts2.to_multiset().count(t) > 0);
    }
    if reaches(ts1, s, e, w) {
        let p = choose|p: Seq<Transition>| #[trigger] is_path(ts1, p, s, e) && label(p) =~= w;
        assert(is_path(ts2, p, s, e));
    }
    if reaches(ts2, s, e, w) {
        let p = choose|p: Seq<Transition>| #[trigger] is_path(ts2, p, s, e) && label(p) =~= w;
        assert(is_path(ts1, p, s, e));
    }
}

/// Every letter along a path is `a` or `b`.
pub proof fn lemma_label_alphabet(p: Seq<Transition>, i: int)
    requires
        0 <= i < label(p).len(),
    ensures
        label(p)[i] == 'a' || label(p)[i] == 'b',
    decreases p.len(),
{
    if p.len() > 0 {
        if i < label(p.drop_last()).len() {
            lemma_label_alphabet(p.drop_last(), i);
        }
    }
}

/// A transition followed by a path is a path.
pub proof fn lemma_step(ts: Seq<Transition>, t: Transition, e: usize, rest: Seq<char>)
    requires
        ts.contains(t),
        reaches(ts, t.2, e, rest),
    ensures
        reaches(ts, t.0, e, token_word(t.1) + rest),
{
    let q = choose|q: Seq<Transition>| #[trigger] is_path(ts, q, t.2, e) && label(q) =~= rest;
    let one = seq![t];
    assert(one[0] == t);
    assert(is_path(ts, one, t.0, t.2));
    lemma_path_concat(ts, one, q, t.0, t.2, e);
    lemma_label_concat(one, q);
    lemma_label_single(t);
    assert(is_path(ts, one + q, t.0, e));
}

/// The first transition of a path that is not empty: it leaves `s`, consumes
/// a prefix of `w`, and the rest of `w` leads on from its destination.
pub proof fn lemma_unfold_first(ts: Seq<Transition>, s: usize, e: usize, w: Seq<char>) -> (i: int)
    requires
        reaches(ts, s, e, w),
        s != e || w.len() > 0,
    ensures
        0 <= i < ts.len(),
        ts[i].0 == s,
        token_word(ts[i].1).len() <= w.len(),
        w.take(token_word(ts[i].1).len() as int) =~= token_word(ts[i].1),
        reaches(ts, ts[i].2, e, w.skip(token_word(ts[i].1).len() as int)),
{
    let p = choose|p: Seq<Transition>| #[trigger] is_path(ts, p, s, e) && label(p) =~= w;
    assert(p.len() > 0);
    assert(ts.contains(p[0]));
    let i = choose|i: int| 0 <= i < ts.len() && ts[i] == p[0];
    lemma_path_split(ts, p, s, e, 1);
    lemma_label_split(p, 1);
    assert(p.take(1) =~= seq![p[0]]);
    lemma_label_single(p[0]);
    let n = token_word(p[0].1).len() as int;
    assert(w.skip(n) =~= label(p.skip(1)));
    assert(is_path(ts, p.skip(1), p[0].2, e));
    i
}

} // verus!
