//! The automaton that a rule table is compiled into, as a mathematical
//! value, and the proof that it accepts what the table derives.

use vstd::prelude::*;
use crate::derivation::{
    all_expand_within, derivable, derives, expands_within, lemma_derivable_within, rule_at,
    seq_derives, seq_states_needed, states_needed,
};
use crate::fragments::{
    fragment, joins, lemma_choice_fragment, lemma_choice_reaches, lemma_empty_fragment,
    lemma_linked_to_accept, lemma_series_fragment, lemma_series_reaches, lemma_single_fragment,
    series_reaches,
};
use crate::grammar::{RuleView, Token};
use crate::paths::{lemma_same_elements, reaches, Transition};

verus! {

/// What the compilation of a rule gives: the transitions it adds, the state
/// in which they are left, and the number of the next free state.
pub struct Built {
    pub edges: Seq<Transition>,
    pub exit: usize,
    pub next: usize,
}

/// The fragment for rule `r`, entered at `entry`, with `next` as the first
/// free state: for an unset rule, or one that is not in the table, a new
/// state that no transition leads to; one transition to a new state for a
/// terminal; the fragments of its members in a row for a sequence; and for
/// a choice the fragments of its two alternatives, both entered at `entry`,
/// with silent transitions from their exits to a new state.
pub open spec fn build(g: Seq<RuleView>, r: int, entry: usize, next: usize, d: nat) -> Built
    decreases d, 0nat,
{
    if d == 0 {
        Built { edges: Seq::empty(), exit: entry, next }
    } else {
        match rule_at(g, r) {
            RuleView::Void => Built {
                edges: Seq::empty(),
                exit: next,
                next: (next + 1) as usize,
            },
            RuleView::Terminal(t) => Built {
                edges: seq![(entry, t, next)],
                exit: next,
                next: (next + 1) as usize,
            },
            RuleView::Sequence(v) => build_seq(g, v, entry, next, (d - 1) as nat),
            RuleView::Choice(a, b) => {
                let x = build_seq(g, a, entry, next, (d - 1) as nat);
                let y = build_seq(g, b, entry, x.next, (d - 1) as nat);
                Built {
                    edges: x.edges + y.edges + joins(x.exit, y.exit, y.next),
                    exit: y.next,
                    next: (y.next + 1) as usize,
                }
            },
        }
    }
}

/// The fragments for the rules listed in `v` in a row: each is entered at
/// the exit of the one before it, and the first at `entry`.
pub open spec fn build_seq(g: Seq<RuleView>, v: Seq<usize>, entry: usize, next: usize, d: nat) -> Built
    decreases d, v.len() + 1,
{
    if v.len() == 0 {
        Built { edges: Seq::empty(), exit: entry, next }
    } else {
        let x = build_seq(g, v.drop_last(), entry, next, d);
        let y = build(g, v.last() as int, x.exit, x.next, d);
        Built { edges: x.edges + y.edges, exit: y.exit, next: y.next }
    }
}

/// The transitions of the automaton for the table `g`: the fragment for
/// rule 0, entered at the start state 0 with 2 as the first free state, and
/// a silent transition from its exit to the accepting state 1.
pub open spec fn compiled(g: Seq<RuleView>, d: nat) -> Seq<Transition> {
    let b = build(g, 0, 0, 2, d);
    b.edges.push((b.exit, Token::Nil, 1))
}

/// What is built for a rule is a fragment that takes as many states as the
/// rule needs and is passed on exactly the words that the rule derives.
pub proof fn lemma_build(g: Seq<RuleView>, r: int, entry: usize, next: usize, d: nat)
    requires
        expands_within(g, r, d),
        entry < next,
        next + states_needed(g, r, d) <= usize::MAX,
    ensures
        build(g, r, entry, next, d).next == next + states_needed(g, r, d),
        fragment(
            build(g, r, entry, next, d).edges,
            entry,
            next,
            build(g, r, entry, next, d).next,
            build(g, r, entry, next, d).exit,
        ),
        forall|w: Seq<char>|
            reaches(
                build(g, r, entry, next, d).edges,
                entry,
                build(g, r, entry, next, d).exit,
                w,
            ) <==> derives(g, r, w, d),
    decreases d, 0nat,
{
    let b = build(g, r, entry, next, d);
    match rule_at(g, r) {
        RuleView::Void => {
            assert forall|w: Seq<char>| reaches(b.edges, entry, b.exit, w) <==> derives(
                g,
                r,
                w,
                d,
            ) by {
                lemma_empty_fragment(entry, next, w);
            }
        },
        RuleView::Terminal(t) => {
            assert forall|w: Seq<char>| reaches(b.edges, entry, b.exit, w) <==> derives(
                g,
                r,
                w,
                d,
            ) by {
                lemma_single_fragment(entry, t, next, w);
            }
            lemma_single_fragment(entry, t, next, Seq::empty());
        },
        RuleView::Sequence(v) => {
            let e = (d - 1) as nat;
            lemma_build_seq(g, v, entry, next, e);
            let x = build_seq(g, v, entry, next, e);
            assert forall|w: Seq<char>| reaches(b.edges, entry, b.exit, w) <==> derives(
                g,
                r,
                w,
                d,
            ) by {
                assert(reaches(x.edges, entry, x.exit, w) <==> seq_derives(g, v, w, e));
            }
        },
        RuleView::Choice(a, c) => {
            let e = (d - 1) as nat;
            lemma_build_seq(g, a, entry, next, e);
            let x = build_seq(g, a, entry, next, e);
            lemma_build_seq(g, c, entry, x.next, e);
            let y = build_seq(g, c, entry, x.next, e);
            lemma_choice_fragment(x.edges, y.edges, entry, next, x.next, y.next, x.exit, y.exit);
            assert forall|w: Seq<char>| reaches(b.edges, entry, b.exit, w) <==> derives(
                g,
                r,
                w,
                d,
            ) by {
                lemma_choice_reaches(
                    x.edges,
                    y.edges,
                    entry,
                    next,
                    x.next,
                    y.next,
                    x.exit,
                    y.exit,
                    w,
                );
                assert(reaches(x.edges, entry, x.exit, w) <==> seq_derives(g, a, w, e));
                assert(reaches(y.edges, entry, y.exit, w) <==> seq_derives(g, c, w, e));
            }
        },
    }
}

/// The same for a list of rules.
pub proof fn lemma_build_seq(g: Seq<RuleView>, v: Seq<usize>, entry: usize, next: usize, d: nat)
    requires
        all_expand_within(g, v, d),
        entry < next,
        next + seq_states_needed(g, v, d) <= usize::MAX,
    ensures
        build_seq(g, v, entry, next, d).next == next + seq_states_needed(g, v, d),
        fragment(
            build_seq(g, v, entry, next, d).edges,
            entry,
            next,
            build_seq(g, v, entry, next, d).next,
            build_seq(g, v, entry, next, d).exit,
        ),
        forall|w: Seq<char>|
            reaches(
                build_seq(g, v, entry, next, d).edges,
                entry,
                build_seq(g, v, entry, next, d).exit,
                w,
            ) <==> seq_derives(g, v, w, d),
    decreases d, v.len() + 1,
{
    let b = build_seq(g, v, entry, next, d);
    if v.len() == 0 {
        assert forall|w: Seq<char>| reaches(b.edges, entry, b.exit, w) <==> seq_derives(
            g,
            v,
            w,
            d,
        ) by {
            lemma_empty_fragment(entry, entry, w);
        }
    } else {
        let head = v.drop_last();
        assert forall|i: int| 0 <= i < head.len() implies expands_within(
            g,
            #[trigger] head[i] as int,
            d,
        ) by {
            assert(head[i] == v[i]);
        }
        assert(expands_within(g, v[v.len() - 1] as int, d));
        lemma_build_seq(g, head, entry, next, d);
        let x = build_seq(g, head, entry, next, d);
        lemma_build(g, v.last() as int, x.exit, x.next, d);
        let y = build(g, v.last() as int, x.exit, x.next, d);
        lemma_series_fragment(x.edges, y.edges, entry, next, x.next, y.next, x.exit, y.exit);
        assert forall|w: Seq<char>| reaches(b.edges, entry, b.exit, w) <==> seq_derives(
            g,
            v,
            w,
            d,
        ) by {
            lemma_series_reaches(
                x.edges,
                y.edges,
                entry,
                next,
                x.next,
                y.next,
                x.exit,
                y.exit,
                w,
            );
            if series_reaches(x.edges, y.edges, entry, x.exit, y.exit, w) {
                let k = choose|k: int|
                    0 <= k <= w.len() && #[trigger] reaches(x.edges, entry, x.exit, w.take(k))
                        && reaches(y.edges, x.exit, y.exit, w.skip(k));
                assert(seq_derives(g, head, w.take(k), d));
                assert(derives(g, v.last() as int, w.skip(k), d));
            }
            if seq_derives(g, v, w, d) {
                let k = choose|k: int|
                    0 <= k <= w.len() && seq_derives(g, head, #[trigger] w.take(k), d) && derives(
                        g,
                        v.last() as int,
                        w.skip(k),
                        d,
                    );
                assert(reaches(x.edges, entry, x.exit, w.take(k)));
                assert(reaches(y.edges, x.exit, y.exit, w.skip(k)));
            }
        }
    }
}

/// What is built for a rule does not depend on the depth allowed, as long
/// as the rule expands within it.
pub proof fn lemma_build_settled(g: Seq<RuleView>, r: int, entry: usize, next: usize, d: nat, e: nat)
    requires
        expands_within(g, r, d),
        expands_within(g, r, e),
    ensures
        build(g, r, entry, next, d) == build(g, r, entry, next, e),
    decreases d, 0nat,
{
    match rule_at(g, r) {
        RuleView::Void => {},
        RuleView::Terminal(_) => {},
        RuleView::Sequence(v) => {
            lemma_build_seq_settled(g, v, entry, next, (d - 1) as nat, (e - 1) as nat);
        },
        RuleView::Choice(a, b) => {
            lemma_build_seq_settled(g, a, entry, next, (d - 1) as nat, (e - 1) as nat);
            let x = build_seq(g, a, entry, next, (d - 1) as nat);
            lemma_build_seq_settled(g, b, entry, x.next, (d - 1) as nat, (e - 1) as nat);
        },
    }
}

/// The same for a list of rules.
pub proof fn lemma_build_seq_settled(
    g: Seq<RuleView>,
    v: Seq<usize>,
    entry: usize,
    next: usize,
    d: nat,
    e: nat,
)
    requires
        all_expand_within(g, v, d),
        all_expand_within(g, v, e),
    ensures
        build_seq(g, v, entry, next, d) == build_seq(g, v, entry, next, e),
    decreases d, v.len() + 1,
{
    if v.len() > 0 {
        let head = v.drop_last();
        assert forall|i: int| 0 <= i < head.len() implies expands_within(
            g,
            #[trigger] head[i] as int,
            d,
        ) && expands_within(g, head[i] as int, e) by {
            assert(head[i] == v[i]);
        }
        lemma_build_seq_settled(g, head, entry, next, d, e);
        let x = build_seq(g, head, entry, next, d);
        assert(expands_within(g, v[v.len() - 1] as int, d));
        assert(expands_within(g, v[v.len() - 1] as int, e));
        lemma_build_settled(g, v.last() as int, x.exit, x.next, d, e);
    }
}

/// The compiled automaton leads from the start state to the accepting
/// state on exactly the words that rule 0 derives; and so does every list
/// of the same transitions in another order.
pub proof fn theorem_compiled_accepts(g: Seq<RuleView>, d: nat, ts: Seq<Transition>, w: Seq<char>)
    requires
        expands_within(g, 0, d),
        states_needed(g, 0, d) + 2 <= usize::MAX,
        ts.to_multiset() == compiled(g, d).to_multiset(),
    ensures
        reaches(ts, 0, 1, w) <==> derivable(g, 0, w),
{
    let b = build(g, 0, 0, 2, d);
    lemma_build(g, 0, 0, 2, d);
    lemma_linked_to_accept(b.edges, b.next, b.exit, w);
    lemma_same_elements(compiled(g, d), ts, 0, 1, w);
    lemma_derivable_within(g, 0, w, d);
}

} // verus!
