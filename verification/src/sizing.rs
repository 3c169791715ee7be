//! Decides whether a rule table can be compiled, and how many automaton
//! states the compilation takes.

use vstd::prelude::*;
use crate::derivation::{
    all_expand_within, compilable, expands_within, lemma_expands_deeper, lemma_states_settled,
    rule_at, seq_states_needed, states_needed,
};
use crate::grammar::{table, Rule, RuleView};

verus! {

/// The most states that a rule may take, so that two more can be numbered.
pub const STATE_CAP: usize = usize::MAX - 2;

/// `n`, or one more than the cap if `n` is above it.
pub open spec fn capped(n: nat) -> nat {
    if n <= STATE_CAP {
        n
    } else {
        (STATE_CAP + 1) as nat
    }
}

/// Each size that is known is the size of a rule that expands within `d`
/// levels, capped.
pub open spec fn sizes_hold(g: Seq<RuleView>, known: Seq<Option<usize>>, d: nat) -> bool {
    &&& known.len() == g.len()
    &&& forall|r: int|
        0 <= r < g.len() ==> match #[trigger] known[r] {
            Some(s) => expands_within(g, r, d) && s == capped(states_needed(g, r, d)),
            None => true,
        }
}

/// The size of every rule listed in `v` is known: that of a rule outside
/// the table is always 1.
pub open spec fn all_known(known: Seq<Option<usize>>, v: Seq<usize>) -> bool {
    forall|i: int|
        0 <= i < v.len() ==> (#[trigger] v[i]) >= known.len() || known[v[i] as int] is Some
}

/// The size of rule `r` follows from the sizes that are known.
pub open spec fn ready(g: Seq<RuleView>, known: Seq<Option<usize>>, r: int) -> bool {
    match rule_at(g, r) {
        RuleView::Void => true,
        RuleView::Terminal(_) => true,
        RuleView::Sequence(v) => all_known(known, v),
        RuleView::Choice(a, b) => all_known(known, a) && all_known(known, b),
    }
}

/// No size that is still unknown follows from those that are known.
pub open spec fn stable(g: Seq<RuleView>, known: Seq<Option<usize>>) -> bool {
    forall|r: int| 0 <= r < g.len() && (#[trigger] known[r]) is None ==> !ready(g, known, r)
}

/// The number of sizes that are not known.
pub open spec fn unknown_count(known: Seq<Option<usize>>) -> nat
    decreases known.len(),
{
    if known.len() == 0 {
        0
    } else {
        unknown_count(known.drop_last()) + if known.last() is None {
            1nat
        } else {
            0nat
        }
    }
}

/// Learning one size leaves one unknown fewer.
pub proof fn lemma_one_fewer(known: Seq<Option<usize>>, r: int, s: usize)
    requires
        0 <= r < known.len(),
        known[r] is None,
    ensures
        unknown_count(known.update(r, Some(s))) + 1 == unknown_count(known),
    decreases known.len(),
{
    let after = known.update(r, Some(s));
    if r == known.len() - 1 {
        assert(after.drop_last() =~= known.drop_last());
    } else {
        lemma_one_fewer(known.drop_last(), r, s);
        assert(after.drop_last() =~= known.drop_last().update(r, Some(s)));
    }
}

/// Where nothing more can be learnt, the size of every rule that expands at
/// all is known.
pub proof fn lemma_stable_knows(g: Seq<RuleView>, known: Seq<Option<usize>>, r: int, d: nat)
    requires
        known.len() == g.len(),
        stable(g, known),
        expands_within(g, r, d),
        0 <= r < g.len(),
    ensures
        known[r] is Some,
    decreases d, 1nat,
{
    match rule_at(g, r) {
        RuleView::Void => {},
        RuleView::Terminal(_) => {},
        RuleView::Sequence(v) => {
            lemma_stable_knows_all(g, known, v, (d - 1) as nat);
        },
        RuleView::Choice(a, b) => {
            lemma_stable_knows_all(g, known, a, (d - 1) as nat);
            lemma_stable_knows_all(g, known, b, (d - 1) as nat);
        },
    }
}

/// The same for a list of rules.
proof fn lemma_stable_knows_all(g: Seq<RuleView>, known: Seq<Option<usize>>, v: Seq<usize>, d: nat)
    requires
        known.len() == g.len(),
        stable(g, known),
        all_expand_within(g, v, d),
    ensures
        all_known(known, v),
    decreases d, 2nat,
{
    assert forall|i: int| 0 <= i < v.len() implies (#[trigger] v[i]) >= known.len()
        || known[v[i] as int] is Some by {
        assert(expands_within(g, v[i] as int, d));
        if v[i] < known.len() {
            lemma_stable_knows(g, known, v[i] as int, d);
        }
    }
}

/// Sizes that hold at one depth hold at any greater depth.
pub proof fn lemma_sizes_deeper(g: Seq<RuleView>, known: Seq<Option<usize>>, d: nat, e: nat)
    requires
        sizes_hold(g, known, d),
        d <= e,
    ensures
        sizes_hold(g, known, e),
{
    assert forall|r: int| 0 <= r < g.len() implies match #[trigger] known[r] {
        Some(s) => expands_within(g, r, e) && s == capped(states_needed(g, r, e)),
        None => true,
    } by {
        if known[r] is Some {
            lemma_expands_deeper(g, r, d, e);
            lemma_states_settled(g, r, d, e);
        }
    }
}

/// The sum of two capped numbers, capped.
fn add_capped(a: usize, b: usize) -> (r: usize)
    requires
        a <= STATE_CAP + 1,
        b <= STATE_CAP + 1,
    ensures
        r == capped((a + b) as nat),
{
    if a > STATE_CAP || b > STATE_CAP - a {
        STATE_CAP + 1
    } else {
        a + b
    }
}

/// The states that the rules listed in `v` take together, capped, if the
/// size of each of them is known.
fn members_size(
    rules: &[Rule],
    known: &Vec<Option<usize>>,
    v: &Vec<usize>,
    Ghost(d): Ghost<nat>,
) -> (r: Option<usize>)
    requires
        sizes_hold(table(rules@), known@, d),
        d > 0,
    ensures
        r is Some <==> all_known(known@, v@),
        match r {
            Some(s) => all_expand_within(table(rules@), v@, d) && s == capped(
                seq_states_needed(table(rules@), v@, d),
            ),
            None => true,
        },
{
    let ghost g = table(rules@);
    let mut total: usize = 0;
    let mut i: usize = 0;
    proof {
        assert(v@.take(0) =~= Seq::<usize>::empty());
    }
    while i < v.len()
        invariant
            g == table(rules@),
            sizes_hold(g, known@, d),
            d > 0,
            i <= v@.len(),
            all_known(known@, v@.take(i as int)),
            all_expand_within(g, v@.take(i as int), d),
            total == capped(seq_states_needed(g, v@.take(i as int), d)),
        decreases v@.len() - i,
    {
        let member = v[i];
        let ghost head = v@.take(i as int);
        let ghost next = v@.take(i + 1);
        proof {
            assert(next.drop_last() =~= head);
            assert(next.last() == member);
        }
        // A rule outside the table counts as unset: it takes one state.
        let size = if member >= known.len() {
            Some(1)
        } else {
            known[member]
        };
        match size {
            Some(s) => {
                total = add_capped(total, s);
                proof {
                    if member >= known@.len() {
                        assert(rule_at(g, member as int) is Void);
                        assert(expands_within(g, member as int, d));
                        assert(states_needed(g, member as int, d) == 1);
                    }
                    assert forall|j: int| 0 <= j < next.len() implies ((#[trigger] next[j])
                        >= known@.len() || known@[next[j] as int] is Some) && expands_within(
                        g,
                        next[j] as int,
                        d,
                    ) by {
                        if j < i {
                            assert(next[j] == head[j]);
                        }
                    }
                }
            },
            None => {
                return None;
            },
        }
        i += 1;
    }
    proof {
        assert(v@.take(v@.len() as int) =~= v@);
    }
    Some(total)
}

/// The states that rule `r` takes, capped, if the size of each rule that
/// it lists is known.
fn rule_size(rules: &[Rule], known: &Vec<Option<usize>>, r: usize, Ghost(d): Ghost<nat>) -> (size:
    Option<usize>)
    requires
        sizes_hold(table(rules@), known@, d),
        d > 0,
        r < rules@.len(),
    ensures
        size is Some <==> ready(table(rules@), known@, r as int),
        match size {
            Some(s) => expands_within(table(rules@), r as int, d + 1) && s == capped(
                states_needed(table(rules@), r as int, d + 1),
            ),
            None => true,
        },
{
    match &rules[r] {
        Rule::Void => Some(1),
        Rule::Terminal(_) => Some(1),
        Rule::Sequence(v) => members_size(rules, known, v, Ghost(d)),
        Rule::Choice(a, b) => match members_size(rules, known, a, Ghost(d)) {
            Some(sa) => match members_size(rules, known, b, Ghost(d)) {
                Some(sb) => Some(add_capped(add_capped(sa, sb), 1)),
                None => None,
            },
            None => None,
        },
    }
}

/// The number of states that compiling `rules` takes beside the two reserved
/// ones, or `None` if the table cannot be compiled: if a rule that rule 0
/// reaches needs itself, or the states cannot be numbered.
pub fn state_demand(rules: &[Rule]) -> (r: Option<usize>)
    ensures
        r is Some <==> compilable(table(rules@)),
        match r {
            Some(s) => forall|d: nat| #[trigger]
                expands_within(table(rules@), 0, d) ==> states_needed(table(rules@), 0, d) == s,
            None => true,
        },
{
    let ghost g = table(rules@);
    let n = rules.len();
    if n == 0 {
        // Rule 0 is not in the table: it counts as unset.
        proof {
            assert(expands_within(g, 0, 1));
        }
        return Some(1);
    }
    let mut known: Vec<Option<usize>> = Vec::new();
    while known.len() < n
        invariant
            known@.len() <= n,
            forall|r: int| 0 <= r < known@.len() ==> (#[trigger] known@[r]) is None,
        decreases n - known@.len(),
    {
        known.push(None);
    }
    let ghost mut depth: nat = 1;
    loop
        invariant
            n == rules@.len(),
            n > 0,
            depth > 0,
            g == table(rules@),
            sizes_hold(g, known@, depth),
        ensures
            sizes_hold(g, known@, depth),
            stable(g, known@),
        decreases unknown_count(known@),
    {
        let ghost at_start = known@;
        let mut changed = false;
        let mut r: usize = 0;
        while r < n
            invariant
                n == rules@.len(),
                g == table(rules@),
                r <= n,
                depth > 0,
                sizes_hold(g, known@, depth),
                changed ==> unknown_count(known@) < unknown_count(at_start),
                !changed ==> known@ == at_start && forall|q: int|
                    0 <= q < r && (#[trigger] known@[q]) is None ==> !ready(g, known@, q),
            decreases n - r,
        {
            if known[r].is_none() {
                match rule_size(rules, &known, r, Ghost(depth)) {
                    Some(s) => {
                        let ghost before = known@;
                        known.set(r, Some(s));
                        proof {
                            lemma_one_fewer(before, r as int, s);
                            lemma_sizes_deeper(g, before, depth, depth + 1);
                            depth = depth + 1;
                        }
                        changed = true;
                    },
                    None => {},
                }
            }
            r += 1;
        }
        if !changed {
            break;
        }
    }
    match known[0] {
        Some(s) => {
            proof {
                assert forall|d: nat| #[trigger] expands_within(g, 0, d) implies states_needed(
                    g,
                    0,
                    d,
                ) == states_needed(g, 0, depth) by {
                    lemma_states_settled(g, 0, d, depth);
                }
            }
            if s <= STATE_CAP {
                Some(s)
            } else {
                None
            }
        },
        None => {
            proof {
                if compilable(g) {
                    let d = choose|d: nat| #[trigger]
                        expands_within(g, 0, d) && states_needed(g, 0, d) + 2 <= usize::MAX;
                    lemma_stable_knows(g, known@, 0, d);
                }
            }
            None
        },
    }
}

} // verus!
