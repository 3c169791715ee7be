//! What a rule table means: which words each rule derives.

use vstd::prelude::*;
use crate::grammar::{RuleView, Token};

verus! {

/// The word that a token stands for: one letter, or nothing for `Nil`.
pub open spec fn token_word(t: Token) -> Seq<char> {
    match t {
        Token::Nil => Seq::empty(),
        Token::A => seq!['a'],
        Token::B => seq!['b'],
    }
}

/// Rule `r` of the table; a rule that is not in the table counts as unset.
pub open spec fn rule_at(g: Seq<RuleView>, r: int) -> RuleView {
    if 0 <= r < g.len() {
        g[r]
    } else {
        RuleView::Void
    }
}

/// Rule `r` derives the word `w` by a derivation tree of height at most `d`.
///
/// A terminal derives its own letter, a sequence derives the concatenation of
/// what its members derive, in order, and a choice derives what either of its
/// alternatives derives. An unset rule derives nothing, and so does every
/// sequence or alternative that runs through one; a rule that is not in the
/// table counts as unset.
pub open spec fn derives(g: Seq<RuleView>, r: int, w: Seq<char>, d: nat) -> bool
    decreases d, 0nat,
{
    &&& d > 0
    &&& match rule_at(g, r) {
        RuleView::Void => false,
        RuleView::Terminal(t) => w =~= token_word(t),
        RuleView::Sequence(v) => seq_derives(g, v, w, (d - 1) as nat),
        RuleView::Choice(a, b) => seq_derives(g, a, w, (d - 1) as nat) || seq_derives(
            g,
            b,
            w,
            (d - 1) as nat,
        ),
    }
}

/// The rules listed in `v` derive, one after the other, the pieces of some
/// split of `w`, each by a tree of height at most `d`.
pub open spec fn seq_derives(g: Seq<RuleView>, v: Seq<usize>, w: Seq<char>, d: nat) -> bool
    decreases d, v.len() + 1,
{
    if v.len() == 0 {
        w.len() == 0
    } else {
        exists|k: int|
            0 <= k <= w.len() && seq_derives(g, v.drop_last(), #[trigger] w.take(k), d) && derives(
                g,
                v.last() as int,
                w.skip(k),
                d,
            )
    }
}

/// Rule `r` derives `w` by some finite derivation tree.
pub open spec fn derivable(g: Seq<RuleView>, r: int, w: Seq<char>) -> bool {
    exists|d: nat| derives(g, r, w, d)
}

/// Expanding rule `r` ends within `d` levels of nesting: no rule that it
/// reaches needs itself.
pub open spec fn expands_within(g: Seq<RuleView>, r: int, d: nat) -> bool
    decreases d, 0nat,
{
    &&& d > 0
    &&& match rule_at(g, r) {
        RuleView::Void => true,
        RuleView::Terminal(_) => true,
        RuleView::Sequence(v) => all_expand_within(g, v, (d - 1) as nat),
        RuleView::Choice(a, b) => all_expand_within(g, a, (d - 1) as nat) && all_expand_within(
            g,
            b,
            (d - 1) as nat,
        ),
    }
}

/// Every rule listed in `v` expands within `d` levels.
pub open spec fn all_expand_within(g: Seq<RuleView>, v: Seq<usize>, d: nat) -> bool
    decreases d, v.len() + 1,
{
    forall|i: int| 0 <= i < v.len() ==> expands_within(g, #[trigger] v[i] as int, d)
}

/// The number of automaton states that the expansion of rule `r` takes: one
/// for each terminal, each unset rule and each choice that is met on the way.
pub open spec fn states_needed(g: Seq<RuleView>, r: int, d: nat) -> nat
    decreases d, 0nat,
{
    if d > 0 {
        match rule_at(g, r) {
            RuleView::Void => 1,
            RuleView::Terminal(_) => 1,
            RuleView::Sequence(v) => seq_states_needed(g, v, (d - 1) as nat),
            RuleView::Choice(a, b) => seq_states_needed(g, a, (d - 1) as nat) + seq_states_needed(
                g,
                b,
                (d - 1) as nat,
            ) + 1,
        }
    } else {
        0
    }
}

/// The number of states that the rules listed in `v` take together.
pub open spec fn seq_states_needed(g: Seq<RuleView>, v: Seq<usize>, d: nat) -> nat
    decreases d, v.len() + 1,
{
    if v.len() == 0 {
        0
    } else {
        seq_states_needed(g, v.drop_last(), d) + states_needed(g, v.last() as int, d)
    }
}

/// The table can be compiled: the expansion of rule 0 ends, and the states
/// it takes, with the two reserved ones, can be numbered in a `usize`.
pub open spec fn compilable(g: Seq<RuleView>) -> bool {
    exists|d: nat| #[trigger] expands_within(g, 0, d) && states_needed(g, 0, d) + 2 <= usize::MAX
}

/// A prefix of a list of rules takes no more states than the whole list.
pub proof fn lemma_prefix_states(g: Seq<RuleView>, v: Seq<usize>, d: nat, i: int)
    requires
        0 <= i <= v.len(),
    ensures
        seq_states_needed(g, v.take(i), d) <= seq_states_needed(g, v, d),
    decreases v.len(),
{
    if i == v.len() {
        assert(v.take(i) =~= v);
    } else {
        lemma_prefix_states(g, v.drop_last(), d, i);
        assert(v.drop_last().take(i) =~= v.take(i));
    }
}

/// Where a rule expands within `d` levels, a derivation tree of any height
/// fits into `d` levels.
pub proof fn lemma_derives_within(g: Seq<RuleView>, r: int, w: Seq<char>, d: nat, h: nat)
    requires
        expands_within(g, r, d),
        derives(g, r, w, h),
    ensures
        derives(g, r, w, d),
    decreases h, 0nat,
{
    match rule_at(g, r) {
        RuleView::Void => {},
        RuleView::Terminal(_) => {},
        RuleView::Sequence(v) => {
            lemma_seq_derives_within(g, v, w, (d - 1) as nat, (h - 1) as nat);
        },
        RuleView::Choice(a, b) => {
            if seq_derives(g, a, w, (h - 1) as nat) {
                lemma_seq_derives_within(g, a, w, (d - 1) as nat, (h - 1) as nat);
            } else {
                lemma_seq_derives_within(g, b, w, (d - 1) as nat, (h - 1) as nat);
            }
        },
    }
}

/// The same for a list of rules.
pub proof fn lemma_seq_derives_within(g: Seq<RuleView>, v: Seq<usize>, w: Seq<char>, d: nat, h: nat)
    requires
        all_expand_within(g, v, d),
        seq_derives(g, v, w, h),
    ensures
        seq_derives(g, v, w, d),
    decreases h, v.len() + 1,
{
    if v.len() > 0 {
        let k = choose|k: int|
            0 <= k <= w.len() && seq_derives(g, v.drop_last(), #[trigger] w.take(k), h) && derives(
                g,
                v.last() as int,
                w.skip(k),
                h,
            );
        assert forall|i: int| 0 <= i < v.drop_last().len() implies expands_within(
            g,
            #[trigger] v.drop_last()[i] as int,
            d,
        ) by {
            assert(v.drop_last()[i] == v[i]);
        }
        lemma_seq_derives_within(g, v.drop_last(), w.take(k), d, h);
        assert(expands_within(g, v[v.len() - 1] as int, d));
        lemma_derives_within(g, v.last() as int, w.skip(k), d, h);
    }
}

/// Where rule `r` expands within `d` levels, it derives by a tree of height
/// at most `d` whatever it derives at all.
pub proof fn lemma_derivable_within(g: Seq<RuleView>, r: int, w: Seq<char>, d: nat)
    requires
        expands_within(g, r, d),
    ensures
        derivable(g, r, w) <==> derives(g, r, w, d),
{
    if derivable(g, r, w) {
        let h = choose|h: nat| derives(g, r, w, h);
        lemma_derives_within(g, r, w, d, h);
    }
}

/// A rule that expands within `d` levels expands within any more.
pub proof fn lemma_expands_deeper(g: Seq<RuleView>, r: int, d: nat, e: nat)
    requires
        expands_within(g, r, d),
        d <= e,
    ensures
        expands_within(g, r, e),
    decreases d, 0nat,
{
    match rule_at(g, r) {
        RuleView::Void => {},
        RuleView::Terminal(_) => {},
        RuleView::Sequence(v) => {
            lemma_all_expand_deeper(g, v, (d - 1) as nat, (e - 1) as nat);
        },
        RuleView::Choice(a, b) => {
            lemma_all_expand_deeper(g, a, (d - 1) as nat, (e - 1) as nat);
            lemma_all_expand_deeper(g, b, (d - 1) as nat, (e - 1) as nat);
        },
    }
}

/// The same for a list of rules.
pub proof fn lemma_all_expand_deeper(g: Seq<RuleView>, v: Seq<usize>, d: nat, e: nat)
    requires
        all_expand_within(g, v, d),
        d <= e,
    ensures
        all_expand_within(g, v, e),
    decreases d, 1nat,
{
    assert forall|i: int| 0 <= i < v.len() implies expands_within(g, #[trigger] v[i] as int, e) by {
        assert(expands_within(g, v[i] as int, d));
        lemma_expands_deeper(g, v[i] as int, d, e);
    }
}

/// The states that a rule takes do not depend on the depth allowed, as long
/// as the rule expands within it.
pub proof fn lemma_states_settled(g: Seq<RuleView>, r: int, d: nat, e: nat)
    requires
        expands_within(g, r, d),
        expands_within(g, r, e),
    ensures
        states_needed(g, r, d) == states_needed(g, r, e),
    decreases d, 0nat,
{
    match rule_at(g, r) {
        RuleView::Void => {},
        RuleView::Terminal(_) => {},
        RuleView::Sequence(v) => {
            lemma_seq_states_settled(g, v, (d - 1) as nat, (e - 1) as nat);
        },
        RuleView::Choice(a, b) => {
            lemma_seq_states_settled(g, a, (d - 1) as nat, (e - 1) as nat);
            lemma_seq_states_settled(g, b, (d - 1) as nat, (e - 1) as nat);
        },
    }
}

/// The same for a list of rules.
pub proof fn lemma_seq_states_settled(g: Seq<RuleView>, v: Seq<usize>, d: nat, e: nat)
    requires
        all_expand_within(g, v, d),
        all_expand_within(g, v, e),
    ensures
        seq_states_needed(g, v, d) == seq_states_needed(g, v, e),
    decreases d, v.len() + 1,
{
    if v.len() > 0 {
        let head = v.drop_last();
        assert forall|i: int| 0 <= i < head.len() implies expands_within(
            g,
            #[trigger] head[i] as int,
            d,
        ) && expands_within(g, head[i] as int, e) by {
            assert(head[i] == v[i]);
        }
        lemma_seq_states_settled(g, head, d, e);
        assert(expands_within(g, v[v.len() - 1] as int, d));
        assert(expands_within(g, v[v.len() - 1] as int, e));
        lemma_states_settled(g, v.last() as int, d, e);
    }
}

/// Every rule of the table that is set stands for at least one letter: no
/// terminal is `Nil`, and no list of a sequence or a choice is empty.
pub open spec fn letters_only(g: Seq<RuleView>) -> bool {
    forall|r: int|
        0 <= r < g.len() ==> match #[trigger] g[r] {
            RuleView::Void => true,
            RuleView::Terminal(t) => t != Token::Nil,
            RuleView::Sequence(v) => v.len() > 0,
            RuleView::Choice(a, b) => a.len() > 0 && b.len() > 0,
        }
}

/// In a table of letters only, no rule derives the empty word.
pub proof fn lemma_letters_derive_letters(g: Seq<RuleView>, r: int, w: Seq<char>, d: nat)
    requires
        letters_only(g),
        derives(g, r, w, d),
    ensures
        w.len() > 0,
    decreases d, 0nat,
{
    match rule_at(g, r) {
        RuleView::Void => {},
        RuleView::Terminal(_) => {},
        RuleView::Sequence(v) => {
            lemma_letters_seq(g, v, w, (d - 1) as nat);
        },
        RuleView::Choice(a, b) => {
            if seq_derives(g, a, w, (d - 1) as nat) {
                lemma_letters_seq(g, a, w, (d - 1) as nat);
            } else {
                lemma_letters_seq(g, b, w, (d - 1) as nat);
            }
        },
    }
}

/// The same for a list of rules that is not empty.
proof fn lemma_letters_seq(g: Seq<RuleView>, v: Seq<usize>, w: Seq<char>, d: nat)
    requires
        letters_only(g),
        v.len() > 0,
        seq_derives(g, v, w, d),
    ensures
        w.len() > 0,
    decreases d, 1nat,
{
    let k = choose|k: int|
        0 <= k <= w.len() && seq_derives(g, v.drop_last(), #[trigger] w.take(k), d) && derives(
            g,
            v.last() as int,
            w.skip(k),
            d,
        );
    lemma_letters_derive_letters(g, v.last() as int, w.skip(k), d);
}

/// The rules listed in `v` derive, one after the other, the pieces of some
/// split of `w`, by some finite derivation trees.
pub open spec fn seq_derivable(g: Seq<RuleView>, v: Seq<usize>, w: Seq<char>) -> bool {
    exists|d: nat| seq_derives(g, v, w, d)
}

/// What a tree of some height derives, a tree of any greater height derives.
pub proof fn lemma_derives_deeper(g: Seq<RuleView>, r: int, w: Seq<char>, d: nat, e: nat)
    requires
        derives(g, r, w, d),
        d <= e,
    ensures
        derives(g, r, w, e),
    decreases d, 0nat,
{
    match rule_at(g, r) {
        RuleView::Void => {},
        RuleView::Terminal(_) => {},
        RuleView::Sequence(v) => {
            lemma_seq_derives_deeper(g, v, w, (d - 1) as nat, (e - 1) as nat);
        },
        RuleView::Choice(a, b) => {
            if seq_derives(g, a, w, (d - 1) as nat) {
                lemma_seq_derives_deeper(g, a, w, (d - 1) as nat, (e - 1) as nat);
            } else {
                lemma_seq_derives_deeper(g, b, w, (d - 1) as nat, (e - 1) as nat);
            }
        },
    }
}

/// The same for a list of rules.
pub proof fn lemma_seq_derives_deeper(g: Seq<RuleView>, v: Seq<usize>, w: Seq<char>, d: nat, e: nat)
    requires
        seq_derives(g, v, w, d),
        d <= e,
    ensures
        seq_derives(g, v, w, e),
    decreases d, v.len() + 1,
{
    if v.len() > 0 {
        let k = choose|k: int|
            0 <= k <= w.len() && seq_derives(g, v.drop_last(), #[trigger] w.take(k), d) && derives(
                g,
                v.last() as int,
                w.skip(k),
                d,
            );
        lemma_seq_derives_deeper(g, v.drop_last(), w.take(k), d, e);
        lemma_derives_deeper(g, v.last() as int, w.skip(k), d, e);
    }
}

/// What a rule derives, said without heights: an unset rule derives
/// nothing, a terminal its letter, a sequence what its members derive one
/// after the other, and a choice what one of its alternatives derives.
pub proof fn law_derivable_unfolds(g: Seq<RuleView>, r: int, w: Seq<char>)
    ensures
        derivable(g, r, w) <==> match rule_at(g, r) {
            RuleView::Void => false,
            RuleView::Terminal(t) => w =~= token_word(t),
            RuleView::Sequence(v) => seq_derivable(g, v, w),
            RuleView::Choice(a, b) => seq_derivable(g, a, w) || seq_derivable(g, b, w),
        },
{
    if derivable(g, r, w) {
        let d = choose|d: nat| derives(g, r, w, d);
        match rule_at(g, r) {
            RuleView::Void => {},
            RuleView::Terminal(_) => {},
            RuleView::Sequence(v) => {
                assert(seq_derives(g, v, w, (d - 1) as nat));
            },
            RuleView::Choice(a, b) => {
                assert(seq_derives(g, a, w, (d - 1) as nat) || seq_derives(
                    g,
                    b,
                    w,
                    (d - 1) as nat,
                ));
            },
        }
    }
    {
        match rule_at(g, r) {
            RuleView::Void => {},
            RuleView::Terminal(t) => {
                if w =~= token_word(t) {
                    assert(derives(g, r, w, 1));
                }
            },
            RuleView::Sequence(v) => {
                if seq_derivable(g, v, w) {
                    let d = choose|d: nat| seq_derives(g, v, w, d);
                    assert(derives(g, r, w, d + 1));
                }
            },
            RuleView::Choice(a, b) => {
                if seq_derivable(g, a, w) {
                    let d = choose|d: nat| seq_derives(g, a, w, d);
                    assert(derives(g, r, w, d + 1));
                }
                if seq_derivable(g, b, w) {
                    let d = choose|d: nat| seq_derives(g, b, w, d);
                    assert(derives(g, r, w, d + 1));
                }
            },
        }
    }
}

/// Rule `r` is unset, or is not in the table.
pub open spec fn unset(g: Seq<RuleView>, r: int) -> bool {
    rule_at(g, r) is Void
}

/// A list of rules that holds an unset rule derives nothing.
pub proof fn lemma_unset_member(g: Seq<RuleView>, v: Seq<usize>, i: int, w: Seq<char>, d: nat)
    requires
        0 <= i < v.len(),
        unset(g, v[i] as int),
    ensures
        !seq_derives(g, v, w, d),
    decreases v.len(),
{
    if seq_derives(g, v, w, d) {
        let k = choose|k: int|
            0 <= k <= w.len() && seq_derives(g, v.drop_last(), #[trigger] w.take(k), d) && derives(
                g,
                v.last() as int,
                w.skip(k),
                d,
            );
        if i < v.len() - 1 {
            assert(v.drop_last()[i] == v[i]);
            lemma_unset_member(g, v.drop_last(), i, w.take(k), d);
        }
    }
}

/// Nothing passes an unset rule: it derives no word, and neither does a
/// sequence or an alternative of a choice that lists one.
pub proof fn law_unset_is_dead(g: Seq<RuleView>, r: int, w: Seq<char>)
    ensures
        unset(g, r) ==> !derivable(g, r, w),
        forall|v: Seq<usize>, i: int|
            0 <= i < v.len() && unset(g, #[trigger] v[i] as int) ==> !seq_derivable(g, v, w),
{
    assert forall|v: Seq<usize>, i: int|
        0 <= i < v.len() && unset(g, #[trigger] v[i] as int) implies !seq_derivable(g, v, w) by {
        if seq_derivable(g, v, w) {
            let d = choose|d: nat| seq_derives(g, v, w, d);
            lemma_unset_member(g, v, i, w, d);
        }
    }
}

/// What a list of rules derives, said without heights: the empty list
/// derives the empty word, and any other list the words that split into a
/// word that the list without its last rule derives and a word that the
/// last rule derives.
pub proof fn law_seq_derivable_unfolds(g: Seq<RuleView>, v: Seq<usize>, w: Seq<char>)
    ensures
        seq_derivable(g, v, w) <==> if v.len() == 0 {
            w.len() == 0
        } else {
            exists|k: int|
                0 <= k <= w.len() && seq_derivable(g, v.drop_last(), #[trigger] w.take(k))
                    && derivable(g, v.last() as int, w.skip(k))
        },
{
    if v.len() == 0 {
        if w.len() == 0 {
            assert(seq_derives(g, v, w, 0));
        }
    } else {
        if seq_derivable(g, v, w) {
            let d = choose|d: nat| seq_derives(g, v, w, d);
            let k = choose|k: int|
                0 <= k <= w.len() && seq_derives(g, v.drop_last(), #[trigger] w.take(k), d)
                    && derives(g, v.last() as int, w.skip(k), d);
            assert(seq_derivable(g, v.drop_last(), w.take(k)));
            assert(derivable(g, v.last() as int, w.skip(k)));
        }
        if exists|k: int|
            0 <= k <= w.len() && seq_derivable(g, v.drop_last(), #[trigger] w.take(k))
                && derivable(g, v.last() as int, w.skip(k)) {
            let k = choose|k: int|
                0 <= k <= w.len() && seq_derivable(g, v.drop_last(), #[trigger] w.take(k))
                    && derivable(g, v.last() as int, w.skip(k));
            let d1 = choose|d: nat| seq_derives(g, v.drop_last(), w.take(k), d);
            let d2 = choose|d: nat| derives(g, v.last() as int, w.skip(k), d);
            let d = if d1 >= d2 {
                d1
            } else {
                d2
            };
            lemma_seq_derives_deeper(g, v.drop_last(), w.take(k), d1, d);
            lemma_derives_deeper(g, v.last() as int, w.skip(k), d2, d);
            assert(seq_derives(g, v, w, d));
        }
    }
}

} // verus!
