//! Derivation by rewriting: the rule table taken as a context-free grammar
//! whose rules are applied, one at a time, to a string of letters and rule
//! references. What a rule derives in this way is what it derives by trees.

use vstd::prelude::*;
use crate::derivation::{
    derivable, derives, law_derivable_unfolds, law_seq_derivable_unfolds, seq_derivable,
    seq_derives, token_word,
};
use crate::grammar::RuleView;

verus! {

/// A letter, held as the number of its character, or a reference to a rule.
pub enum Symbol {
    Letter(u32),
    Call(usize),
}

/// The word `w` as symbols.
pub open spec fn letters(w: Seq<char>) -> Seq<Symbol> {
    Seq::new(w.len(), |i: int| Symbol::Letter(w[i] as u32))
}

/// The references to the rules listed in `v`.
pub open spec fn calls(v: Seq<usize>) -> Seq<Symbol> {
    Seq::new(v.len(), |i: int| Symbol::Call(v[i]))
}

/// `rhs` is a right-hand side of rule `r`: the letter of a terminal, the
/// members of a sequence, or the members of one alternative of a choice. An
/// unset rule has none.
pub open spec fn rewrites_to(g: Seq<RuleView>, r: int, rhs: Seq<Symbol>) -> bool {
    0 <= r < g.len() && match g[r] {
        RuleView::Void => false,
        RuleView::Terminal(t) => rhs =~= letters(token_word(t)),
        RuleView::Sequence(v) => rhs =~= calls(v),
        RuleView::Choice(a, b) => rhs =~= calls(a) || rhs =~= calls(b),
    }
}

/// `y` comes from `x` by one step: the reference at index `i` gives way to
/// the right-hand side `rhs` of its rule.
pub open spec fn step_at(
    g: Seq<RuleView>,
    x: Seq<Symbol>,
    y: Seq<Symbol>,
    i: int,
    rhs: Seq<Symbol>,
) -> bool {
    &&& 0 <= i < x.len()
    &&& x[i] is Call
    &&& rewrites_to(g, x[i]->Call_0 as int, rhs)
    &&& y =~= x.take(i) + rhs + x.skip(i + 1)
}

/// `y` comes from `x` by one step.
pub open spec fn step(g: Seq<RuleView>, x: Seq<Symbol>, y: Seq<Symbol>) -> bool {
    exists|i: int, rhs: Seq<Symbol>| #[trigger] step_at(g, x, y, i, rhs)
}

/// `y` comes from `x` by at most `n` steps.
pub open spec fn reduces(g: Seq<RuleView>, x: Seq<Symbol>, y: Seq<Symbol>, n: nat) -> bool
    decreases n,
{
    x =~= y || (n > 0 && exists|z: Seq<Symbol>| #[trigger]
        step(g, x, z) && reduces(g, z, y, (n - 1) as nat))
}

/// The reference to rule `r` alone.
pub open spec fn one_call(r: int) -> Seq<Symbol> {
    seq![Symbol::Call(r as usize)]
}

/// The word `w` comes from rule `r` by rewriting.
pub open spec fn generates(g: Seq<RuleView>, r: int, w: Seq<char>) -> bool {
    exists|n: nat| #[trigger] reduces(g, one_call(r), letters(w), n)
}

/// The symbol stands for the word `w`: a letter for itself, and a reference
/// for what its rule derives.
pub open spec fn symbol_derives(g: Seq<RuleView>, s: Symbol, w: Seq<char>) -> bool {
    match s {
        Symbol::Letter(c) => w.len() == 1 && w[0] as u32 == c,
        Symbol::Call(r) => derivable(g, r as int, w),
    }
}

/// The symbols of `x` stand, one after the other, for the pieces of some
/// split of `w`.
pub open spec fn form_derives(g: Seq<RuleView>, x: Seq<Symbol>, w: Seq<char>) -> bool
    decreases x.len(),
{
    if x.len() == 0 {
        w.len() == 0
    } else {
        exists|k: int|
            0 <= k <= w.len() && form_derives(g, x.drop_last(), #[trigger] w.take(k))
                && symbol_derives(g, x.last(), w.skip(k))
    }
}

/// A step stays a step with symbols after it.
pub proof fn lemma_step_before(g: Seq<RuleView>, x: Seq<Symbol>, y: Seq<Symbol>, u: Seq<Symbol>)
    requires
        step(g, x, y),
    ensures
        step(g, x + u, y + u),
{
    let (i, rhs) = choose|i: int, rhs: Seq<Symbol>| #[trigger] step_at(g, x, y, i, rhs);
    let xu = x + u;
    assert(xu[i] == x[i]);
    assert(xu.take(i) =~= x.take(i));
    assert(xu.skip(i + 1) =~= x.skip(i + 1) + u);
    assert(step_at(g, xu, y + u, i, rhs));
}

/// A step stays a step with symbols before it.
pub proof fn lemma_step_after(g: Seq<RuleView>, x: Seq<Symbol>, y: Seq<Symbol>, u: Seq<Symbol>)
    requires
        step(g, x, y),
    ensures
        step(g, u + x, u + y),
{
    let (i, rhs) = choose|i: int, rhs: Seq<Symbol>| #[trigger] step_at(g, x, y, i, rhs);
    let ux = u + x;
    let j = u.len() + i;
    assert(ux[j] == x[i]);
    assert(ux.take(j) =~= u + x.take(i));
    assert(ux.skip(j + 1) =~= x.skip(i + 1));
    assert(step_at(g, ux, u + y, j, rhs));
}

/// Steps stay steps with symbols after them.
pub proof fn lemma_reduces_before(
    g: Seq<RuleView>,
    x: Seq<Symbol>,
    y: Seq<Symbol>,
    u: Seq<Symbol>,
    n: nat,
)
    requires
        reduces(g, x, y, n),
    ensures
        reduces(g, x + u, y + u, n),
    decreases n,
{
    if !(x =~= y) {
        let z = choose|z: Seq<Symbol>| #[trigger] step(g, x, z) && reduces(g, z, y, (n - 1) as nat);
        lemma_step_before(g, x, z, u);
        lemma_reduces_before(g, z, y, u, (n - 1) as nat);
        assert(step(g, x + u, z + u) && reduces(g, z + u, y + u, (n - 1) as nat));
    }
}

/// Steps stay steps with symbols before them.
pub proof fn lemma_reduces_after(
    g: Seq<RuleView>,
    x: Seq<Symbol>,
    y: Seq<Symbol>,
    u: Seq<Symbol>,
    n: nat,
)
    requires
        reduces(g, x, y, n),
    ensures
        reduces(g, u + x, u + y, n),
    decreases n,
{
    if !(x =~= y) {
        let z = choose|z: Seq<Symbol>| #[trigger] step(g, x, z) && reduces(g, z, y, (n - 1) as nat);
        lemma_step_after(g, x, z, u);
        lemma_reduces_after(g, z, y, u, (n - 1) as nat);
        assert(step(g, u + x, u + z) && reduces(g, u + z, u + y, (n - 1) as nat));
    }
}

/// Steps after steps are steps.
pub proof fn lemma_reduces_then(
    g: Seq<RuleView>,
    x: Seq<Symbol>,
    y: Seq<Symbol>,
    z: Seq<Symbol>,
    n: nat,
    m: nat,
)
    requires
        reduces(g, x, y, n),
        reduces(g, y, z, m),
    ensures
        reduces(g, x, z, n + m),
    decreases n,
{
    if x =~= y {
        lemma_reduces_more(g, x, z, m, n + m);
    } else {
        let v = choose|v: Seq<Symbol>| #[trigger] step(g, x, v) && reduces(g, v, y, (n - 1) as nat);
        lemma_reduces_then(g, v, y, z, (n - 1) as nat, m);
        assert(step(g, x, v) && reduces(g, v, z, (n + m - 1) as nat));
    }
}

/// What comes by some steps comes by any more.
pub proof fn lemma_reduces_more(g: Seq<RuleView>, x: Seq<Symbol>, y: Seq<Symbol>, n: nat, m: nat)
    requires
        reduces(g, x, y, n),
        n <= m,
    ensures
        reduces(g, x, y, m),
    decreases n,
{
    if !(x =~= y) {
        let z = choose|z: Seq<Symbol>| #[trigger] step(g, x, z) && reduces(g, z, y, (n - 1) as nat);
        lemma_reduces_more(g, z, y, (n - 1) as nat, (m - 1) as nat);
        assert(step(g, x, z) && reduces(g, z, y, (m - 1) as nat));
    }
}

/// The symbols of a word are those of its beginning and those of its rest.
pub proof fn lemma_letters_split(w: Seq<char>, k: int)
    requires
        0 <= k <= w.len(),
    ensures
        letters(w.take(k)) + letters(w.skip(k)) =~= letters(w),
{
    let a = letters(w.take(k));
    let b = letters(w.skip(k));
    let all = letters(w);
    assert forall|i: int| 0 <= i < all.len() implies (a + b)[i] == all[i] by {
        if i < k {
            assert((a + b)[i] == a[i]);
            assert(w.take(k)[i] == w[i]);
        } else {
            assert((a + b)[i] == b[i - k]);
            assert(w.skip(k)[i - k] == w[i]);
        }
    }
}

/// Some steps lead from the symbols `x` to the word `w`.
pub open spec fn leads_to(g: Seq<RuleView>, x: Seq<Symbol>, w: Seq<char>) -> bool {
    exists|n: nat| #[trigger] reduces(g, x, letters(w), n)
}

/// One step leads from a reference to a right-hand side of its rule.
pub proof fn lemma_first_step(g: Seq<RuleView>, r: int, rhs: Seq<Symbol>)
    requires
        0 <= r < g.len(),
        r <= usize::MAX,
        rewrites_to(g, r, rhs),
    ensures
        step(g, one_call(r), rhs),
{
    let x = one_call(r);
    assert(x[0] == Symbol::Call(r as usize));
    assert(x.take(0) + rhs + x.skip(1) =~= rhs);
    assert(step_at(g, x, rhs, 0, rhs));
}

/// What a rule derives by a tree comes from it by rewriting.
pub proof fn lemma_tree_generates(g: Seq<RuleView>, r: int, w: Seq<char>, d: nat)
    requires
        derives(g, r, w, d),
        g.len() <= usize::MAX,
    ensures
        leads_to(g, one_call(r), w),
    decreases d, 0nat,
{
    let target = letters(w);
    match g[r] {
        RuleView::Void => {},
        RuleView::Terminal(t) => {
            let rhs = letters(token_word(t));
            lemma_first_step(g, r, rhs);
            assert(rhs =~= target);
            assert(reduces(g, rhs, target, 0));
            assert(reduces(g, one_call(r), target, 1));
        },
        RuleView::Sequence(v) => {
            lemma_list_generates(g, v, w, (d - 1) as nat);
            let n = choose|n: nat| #[trigger] reduces(g, calls(v), target, n);
            lemma_first_step(g, r, calls(v));
            assert(reduces(g, one_call(r), target, n + 1));
        },
        RuleView::Choice(a, b) => {
            let v = if seq_derives(g, a, w, (d - 1) as nat) {
                a
            } else {
                b
            };
            lemma_list_generates(g, v, w, (d - 1) as nat);
            let n = choose|n: nat| #[trigger] reduces(g, calls(v), target, n);
            lemma_first_step(g, r, calls(v));
            assert(reduces(g, one_call(r), target, n + 1));
        },
    }
}

/// What a list of rules derives by trees comes from their references by
/// rewriting.
pub proof fn lemma_list_generates(g: Seq<RuleView>, v: Seq<usize>, w: Seq<char>, d: nat)
    requires
        seq_derives(g, v, w, d),
        g.len() <= usize::MAX,
    ensures
        leads_to(g, calls(v), w),
    decreases d, v.len() + 1,
{
    let target = letters(w);
    if v.len() == 0 {
        assert(w.len() == 0);
        assert(calls(v) =~= target);
        assert(reduces(g, calls(v), target, 0));
    } else {
        let k = choose|k: int|
            0 <= k <= w.len() && seq_derives(g, v.drop_last(), #[trigger] w.take(k), d) && derives(
                g,
                v.last() as int,
                w.skip(k),
                d,
            );
        let head = v.drop_last();
        let last = v.last() as int;
        lemma_list_generates(g, head, w.take(k), d);
        lemma_tree_generates(g, last, w.skip(k), d);
        let n1 = choose|n: nat| #[trigger] reduces(g, calls(head), letters(w.take(k)), n);
        let n2 = choose|n: nat| #[trigger] reduces(g, one_call(last), letters(w.skip(k)), n);
        lemma_reduces_before(g, calls(head), letters(w.take(k)), one_call(last), n1);
        lemma_reduces_after(g, one_call(last), letters(w.skip(k)), letters(w.take(k)), n2);
        lemma_reduces_then(
            g,
            calls(head) + one_call(last),
            letters(w.take(k)) + one_call(last),
            letters(w.take(k)) + letters(w.skip(k)),
            n1,
            n2,
        );
        assert(calls(v) =~= calls(head) + one_call(last));
        lemma_letters_split(w, k);
        assert(reduces(g, calls(v), target, n1 + n2));
    }
}

/// One symbol alone stands for what it derives.
pub proof fn lemma_single_form(g: Seq<RuleView>, s: Symbol, w: Seq<char>)
    ensures
        form_derives(g, seq![s], w) <==> symbol_derives(g, s, w),
{
    let x = seq![s];
    assert(x.drop_last() =~= Seq::<Symbol>::empty());
    assert(x.last() == s);
    if form_derives(g, x, w) {
        let k = choose|k: int|
            0 <= k <= w.len() && form_derives(g, x.drop_last(), #[trigger] w.take(k))
                && symbol_derives(g, x.last(), w.skip(k));
        assert(w.take(k).len() == 0);
        assert(w.skip(k) =~= w);
    }
    if symbol_derives(g, s, w) {
        assert(w.take(0).len() == 0);
        assert(w.skip(0) =~= w);
        assert(form_derives(g, x.drop_last(), w.take(0)));
    }
}

/// What two lists of symbols stand for, one after the other, the lists in
/// a row stand for in a row.
pub proof fn lemma_form_join(
    g: Seq<RuleView>,
    a: Seq<Symbol>,
    b: Seq<Symbol>,
    w1: Seq<char>,
    w2: Seq<char>,
)
    requires
        form_derives(g, a, w1),
        form_derives(g, b, w2),
    ensures
        form_derives(g, a + b, w1 + w2),
    decreases b.len(),
{
    if b.len() == 0 {
        assert(a + b =~= a);
        assert(w1 + w2 =~= w1);
    } else {
        let k = choose|k: int|
            0 <= k <= w2.len() && form_derives(g, b.drop_last(), #[trigger] w2.take(k))
                && symbol_derives(g, b.last(), w2.skip(k));
        lemma_form_join(g, a, b.drop_last(), w1, w2.take(k));
        let w = w1 + w2;
        let j = w1.len() + k;
        assert(w.take(j) =~= w1 + w2.take(k));
        assert(w.skip(j) =~= w2.skip(k));
        assert((a + b).drop_last() =~= a + b.drop_last());
        assert((a + b).last() == b.last());
        assert(form_derives(g, (a + b).drop_last(), w.take(j)));
    }
}

/// What two lists of symbols in a row stand for splits into what the first
/// stands for and what the second stands for.
pub proof fn lemma_form_split(g: Seq<RuleView>, a: Seq<Symbol>, b: Seq<Symbol>, w: Seq<char>) -> (j:
    int)
    requires
        form_derives(g, a + b, w),
    ensures
        0 <= j <= w.len(),
        form_derives(g, a, w.take(j)),
        form_derives(g, b, w.skip(j)),
    decreases b.len(),
{
    if b.len() == 0 {
        assert(a + b =~= a);
        assert(w.take(w.len() as int) =~= w);
        assert(w.skip(w.len() as int).len() == 0);
        w.len() as int
    } else {
        let x = a + b;
        let k = choose|k: int|
            0 <= k <= w.len() && form_derives(g, x.drop_last(), #[trigger] w.take(k))
                && symbol_derives(g, x.last(), w.skip(k));
        assert(x.drop_last() =~= a + b.drop_last());
        assert(x.last() == b.last());
        let j = lemma_form_split(g, a, b.drop_last(), w.take(k));
        assert(w.take(k).take(j) =~= w.take(j));
        let rest = w.skip(j);
        assert(rest.take(k - j) =~= w.take(k).skip(j));
        assert(rest.skip(k - j) =~= w.skip(k));
        assert(form_derives(g, b.drop_last(), rest.take(k - j)));
        j
    }
}

/// Characters with the same number are the same.
pub proof fn lemma_same_code(a: char, b: char)
    requires
        a as u32 == b as u32,
    ensures
        a == b,
{
}

/// The symbols of a word stand for that word only.
pub proof fn lemma_form_of_letters(g: Seq<RuleView>, u: Seq<char>, w: Seq<char>)
    ensures
        form_derives(g, letters(u), w) <==> w =~= u,
    decreases u.len(),
{
    let x = letters(u);
    if u.len() > 0 {
        let head = u.drop_last();
        assert(x.drop_last() =~= letters(head));
        assert(x.last() == Symbol::Letter(u.last() as u32));
        if form_derives(g, x, w) {
            let k = choose|k: int|
                0 <= k <= w.len() && form_derives(g, x.drop_last(), #[trigger] w.take(k))
                    && symbol_derives(g, x.last(), w.skip(k));
            lemma_form_of_letters(g, head, w.take(k));
            lemma_same_code(w.skip(k)[0], u.last());
            assert(w =~= w.take(k) + w.skip(k));
            assert(w =~= u);
        }
        if w =~= u {
            let k = u.len() - 1;
            lemma_form_of_letters(g, head, w.take(k));
            assert(w.take(k) =~= head);
            assert(w.skip(k).len() == 1 && w.skip(k)[0] == u.last());
        }
    }
}

/// The references to a list of rules stand for what the rules derive, one
/// after the other.
pub proof fn lemma_form_of_calls(g: Seq<RuleView>, v: Seq<usize>, w: Seq<char>)
    ensures
        form_derives(g, calls(v), w) <==> seq_derivable(g, v, w),
    decreases v.len(),
{
    let x = calls(v);
    law_seq_derivable_unfolds(g, v, w);
    if v.len() > 0 {
        let head = v.drop_last();
        assert(x.drop_last() =~= calls(head));
        assert(x.last() == Symbol::Call(v.last()));
        if form_derives(g, x, w) {
            let k = choose|k: int|
                0 <= k <= w.len() && form_derives(g, x.drop_last(), #[trigger] w.take(k))
                    && symbol_derives(g, x.last(), w.skip(k));
            lemma_form_of_calls(g, head, w.take(k));
            assert(seq_derivable(g, head, w.take(k)) && derivable(g, v.last() as int, w.skip(k)));
        }
        if seq_derivable(g, v, w) {
            let k = choose|k: int|
                0 <= k <= w.len() && seq_derivable(g, head, #[trigger] w.take(k)) && derivable(
                    g,
                    v.last() as int,
                    w.skip(k),
                );
            lemma_form_of_calls(g, head, w.take(k));
            assert(form_derives(g, x.drop_last(), w.take(k)));
        }
    }
}

/// What a right-hand side of a rule stands for, the rule derives.
pub proof fn lemma_rule_derives(g: Seq<RuleView>, r: int, rhs: Seq<Symbol>, w: Seq<char>)
    requires
        rewrites_to(g, r, rhs),
        form_derives(g, rhs, w),
    ensures
        derivable(g, r, w),
{
    law_derivable_unfolds(g, r, w);
    match g[r] {
        RuleView::Void => {},
        RuleView::Terminal(t) => {
            lemma_form_of_letters(g, token_word(t), w);
        },
        RuleView::Sequence(v) => {
            lemma_form_of_calls(g, v, w);
        },
        RuleView::Choice(a, b) => {
            lemma_form_of_calls(g, a, w);
            lemma_form_of_calls(g, b, w);
        },
    }
}

/// What the symbols stand for after a step, they stood for before it.
pub proof fn lemma_step_back(g: Seq<RuleView>, x: Seq<Symbol>, z: Seq<Symbol>, w: Seq<char>)
    requires
        step(g, x, z),
        form_derives(g, z, w),
    ensures
        form_derives(g, x, w),
{
    let (i, rhs) = choose|i: int, rhs: Seq<Symbol>| #[trigger] step_at(g, x, z, i, rhs);
    let a = x.take(i);
    let c = x.skip(i + 1);
    let r = x[i]->Call_0 as int;
    assert(z =~= (a + rhs) + c);
    let j2 = lemma_form_split(g, a + rhs, c, w);
    let j1 = lemma_form_split(g, a, rhs, w.take(j2));
    let w1 = w.take(j2).take(j1);
    let w2 = w.take(j2).skip(j1);
    let w3 = w.skip(j2);
    lemma_rule_derives(g, r, rhs, w2);
    let call = seq![x[i]];
    lemma_single_form(g, x[i], w2);
    lemma_form_join(g, a, call, w1, w2);
    lemma_form_join(g, a + call, c, w1 + w2, w3);
    assert(x =~= (a + call) + c);
    assert(w =~= (w1 + w2) + w3);
}

/// What comes from symbols by rewriting, the symbols stand for.
pub proof fn lemma_reduces_derives(g: Seq<RuleView>, x: Seq<Symbol>, w: Seq<char>, n: nat)
    requires
        reduces(g, x, letters(w), n),
    ensures
        form_derives(g, x, w),
    decreases n,
{
    if x =~= letters(w) {
        lemma_form_of_letters(g, w, w);
    } else {
        let z = choose|z: Seq<Symbol>| #[trigger]
            step(g, x, z) && reduces(g, z, letters(w), (n - 1) as nat);
        lemma_reduces_derives(g, z, w, (n - 1) as nat);
        lemma_step_back(g, x, z, w);
    }
}

/// A rule derives a word by trees if and only if the word comes from the
/// rule by rewriting: from the reference to the rule, by steps that put a
/// right-hand side of a rule in the place of a reference to it, until only
/// the letters of the word are left.
pub proof fn theorem_trees_are_rewriting(g: Seq<RuleView>, r: int, w: Seq<char>)
    requires
        g.len() <= usize::MAX,
        0 <= r <= usize::MAX,
    ensures
        derivable(g, r, w) <==> generates(g, r, w),
{
    if derivable(g, r, w) {
        let d = choose|d: nat| derives(g, r, w, d);
        lemma_tree_generates(g, r, w, d);
    }
    if generates(g, r, w) {
        let n = choose|n: nat| #[trigger] reduces(g, one_call(r), letters(w), n);
        lemma_reduces_derives(g, one_call(r), w, n);
        lemma_single_form(g, Symbol::Call(r as usize), w);
    }
}

} // verus!
