//! Compiles a rule table into a nondeterministic automaton with silent
//! transitions, and matches words against it.

use vstd::prelude::*;
use vstd::string::StringExecFns;
use crate::text::line_texts;
use crate::text::{decimal, decimal_string};
use crate::construction::{
    build, build_seq, compiled, lemma_build, lemma_build_seq, lemma_build_settled,
    theorem_compiled_accepts,
};
use crate::derivation::{
    all_expand_within, compilable, derivable, expands_within, lemma_prefix_states,
    lemma_states_settled, seq_states_needed, states_needed, token_word,
};
use crate::fragments::joins;
use crate::grammar::{table, Rule, RuleView, Token};
use crate::sizing::state_demand;
use crate::paths::{
    is_path, label, lemma_label_alphabet, lemma_step, lemma_unfold_first, reaches, Transition,
};
use crate::sorting::{sort_transitions, sorted};

verus! {

/// The state in which every match starts.
pub const START_STATE: usize = 0;

/// The one accepting state.
pub const END_STATE: usize = 1;

/// A nondeterministic automaton over the letters `a` and `b`.
pub struct Nfa {
    pub state_count: usize,
    pub transitions: Vec<(usize, Token, usize)>,
    pub transition_ranges: Vec<(usize, usize)>,
}

/// The transition joins two of the `count` states.
pub open spec fn edge_ok(t: Transition, count: usize) -> bool {
    t.0 < count && t.2 < count
}

/// The ranks give each of the `count` states a number that goes down along
/// every silent transition of `ts`.
pub open spec fn ranked(ts: Seq<Transition>, ranks: Seq<nat>, count: usize) -> bool {
    &&& ranks.len() == count
    &&& forall|i: int|
        0 <= i < ts.len() && (#[trigger] ts[i]).1 == Token::Nil && ts[i].0 < count && ts[i].2
            < count ==> ranks[ts[i].2 as int] < ranks[ts[i].0 as int]
}

/// The index range `r` holds exactly the transitions of `ts` that leave state `s`.
pub open spec fn range_ok(ts: Seq<Transition>, s: int, r: (usize, usize)) -> bool {
    &&& r.0 <= r.1 <= ts.len()
    &&& forall|k: int| 0 <= k < ts.len() ==> ((#[trigger] ts[k]).0 == s <==> r.0 <= k < r.1)
}

/// Each range that holds no transition is `(0, 0)`.
pub open spec fn empty_at_zero(ranges: Seq<(usize, usize)>) -> bool {
    forall|s: int|
        0 <= s < ranges.len() && (#[trigger] ranges[s]).0 == ranges[s].1 ==> ranges[s] == (
            0usize,
            0usize,
        )
}

/// The automaton is one that the rules are compiled into.
pub open spec fn compiled_of(nfa: Nfa, rules: Seq<Rule>) -> bool {
    forall|d: nat| #[trigger]
        expands_within(table(rules), 0, d) ==> nfa.compiled_from(table(rules), d)
}

/// The line that lists the transition `t`: source, symbol and destination
/// with `, ` between them; for `Nil` the symbol is left out.
pub open spec fn line_of(t: Transition) -> Seq<char> {
    decimal(t.0 as nat) + seq![',', ' '] + token_word(t.1) + seq![',', ' '] + decimal(t.2 as nat)
        + seq!['\n']
}

/// The lines of the transitions `ts`, one after the other.
pub open spec fn listing(ts: Seq<Transition>) -> Seq<char>
    decreases ts.len(),
{
    if ts.len() == 0 {
        Seq::empty()
    } else {
        listing(ts.drop_last()) + line_of(ts.last())
    }
}

/// The line that lists the transition `t`.
pub fn transition_line(t: (usize, Token, usize)) -> (r: String)
    ensures
        r@ == line_of(t),
{
    proof {
        reveal_strlit(", ");
        reveal_strlit("a");
        reveal_strlit("b");
        reveal_strlit("");
        reveal_strlit("\n");
    }
    let mut r = decimal_string(t.0 as u64);
    r.append(", ");
    let symbol = match t.1 {
        Token::A => "a",
        Token::B => "b",
        Token::Nil => "",
    };
    assert(symbol@ =~= token_word(t.1));
    assert(", "@ =~= seq![',', ' ']);
    assert("\n"@ =~= seq!['\n']);
    r.append(symbol);
    r.append(", ");
    let to = decimal_string(t.2 as u64);
    r.append(to.as_str());
    r.append("\n");
    r
}

impl Nfa {
    /// The automaton is passed from the start state to the accepting state on `w`.
    pub open spec fn accepts(&self, w: Seq<char>) -> bool {
        reaches(self.transitions@, START_STATE, END_STATE, w)
    }

    /// The automaton accepts exactly the words that rule 0 of `g` derives.
    pub open spec fn recognizes(&self, g: Seq<RuleView>) -> bool {
        forall|w: Seq<char>| self.accepts(w) <==> derivable(g, 0, w)
    }

    /// The automaton is well formed: its transitions join its states, no
    /// silent transitions lead round in a circle, and for each state
    /// `transition_ranges` gives the place of its outgoing transitions in
    /// `transitions`.
    pub open spec fn wf(&self) -> bool {
        &&& self.state_count > START_STATE
        &&& self.transition_ranges@.len() == self.state_count
        &&& forall|i: int|
            0 <= i < self.transitions@.len() ==> edge_ok(
                #[trigger] self.transitions@[i],
                self.state_count,
            )
        &&& forall|s: int|
            0 <= s < self.state_count ==> range_ok(
                self.transitions@,
                s,
                #[trigger] self.transition_ranges@[s],
            )
        &&& exists|ranks: Seq<nat>| ranked(self.transitions@, ranks, self.state_count)
    }

    /// The ranks of the states of a compiled automaton: the accepting state
    /// is the lowest, and of the others a state is the lower the higher its
    /// number is.
    pub open spec fn ranks_by_number(count: usize) -> Seq<nat> {
        Seq::new(
            count as nat,
            |s: int|
                if s == END_STATE {
                    0nat
                } else {
                    (count - s + 1) as nat
                },
        )
    }

    /// The automaton holds the transitions that the table `g` is compiled
    /// into, in ascending order, with the places of the transitions of each
    /// state, `(0, 0)` for a state that none leaves, and as many states as
    /// the table needs.
    pub open spec fn compiled_from(&self, g: Seq<RuleView>, d: nat) -> bool {
        &&& self.wf()
        &&& sorted(self.transitions@)
        &&& empty_at_zero(self.transition_ranges@)
        &&& self.transitions@.to_multiset() == compiled(g, d).to_multiset()
        &&& self.state_count == 2 + states_needed(g, 0, d)
    }

    /// The number of the words `lines` that the automaton accepts.
    pub open spec fn accepted_count(&self, lines: Seq<Seq<char>>) -> nat
        decreases lines.len(),
    {
        if lines.len() == 0 {
            0
        } else {
            self.accepted_count(lines.drop_last()) + if self.accepts(lines.last()) {
                1nat
            } else {
                0nat
            }
        }
    }

    /// Compiles the rule table into an automaton that accepts exactly the
    /// words that rule 0 derives. Nothing passes a rule that is unset or not
    /// in the table: its fragment is left in a state that no transition
    /// leads to.
    pub fn new(rules: &[Rule]) -> (nfa: Nfa)
        requires
            compilable(table(rules@)),
        ensures
            nfa.wf(),
            compiled_of(nfa, rules@),
            nfa.recognizes(table(rules@)),
    {
        let ghost g = table(rules@);
        let mut nfa = Nfa {
            state_count: 2,
            transitions: Vec::new(),
            transition_ranges: Vec::new(),
        };
        let ghost d = choose|d: nat| #[trigger]
            expands_within(g, 0, d) && states_needed(g, 0, d) + 2 <= usize::MAX;
        let ghost built = build(g, 0, START_STATE, 2, d);
        proof {
            lemma_build(g, 0, START_STATE, 2, d);
        }
        let end_state = nfa.add_states(rules, 0, START_STATE, Ghost(d));
        proof {
            assert(nfa.transitions@ =~= built.edges);
        }
        nfa.add_transition(end_state, Token::Nil, END_STATE);
        let ghost linked = nfa.transitions@;
        proof {
            assert(linked == compiled(g, d));
            let ranks = Nfa::ranks_by_number(nfa.state_count);
            assert forall|i: int| 0 <= i < linked.len() implies edge_ok(
                #[trigger] linked[i],
                nfa.state_count,
            ) && ranks[linked[i].2 as int] < ranks[linked[i].0 as int] by {
                if i < built.edges.len() {
                    assert(linked[i] == built.edges[i]);
                    assert(crate::fragments::edge_inside(
                        built.edges[i],
                        START_STATE,
                        2,
                        nfa.state_count,
                        end_state,
                    ));
                }
            }
            assert(ranked(linked, ranks, nfa.state_count));
        }
        nfa.finalize(Ghost(Nfa::ranks_by_number(nfa.state_count)));
        proof {
            assert forall|e: nat| #[trigger] expands_within(g, 0, e) implies nfa.compiled_from(
                g,
                e,
            ) by {
                lemma_states_settled(g, 0, e, d);
                lemma_build_settled(g, 0, START_STATE, 2, e, d);
            }
            assert forall|w: Seq<char>| nfa.accepts(w) <==> derivable(g, 0, w) by {
                theorem_compiled_accepts(g, d, nfa.transitions@, w);
            }
        }
        nfa
    }

    /// Compiles the rule table if it can be compiled: if the expansion of
    /// rule 0 ends, none of its rules needing itself, and its states can be
    /// numbered. A rule that is named and is not in the table counts as unset.
    pub fn compile(rules: &[Rule]) -> (r: Option<Nfa>)
        ensures
            r is Some <==> compilable(table(rules@)),
            match r {
                Some(nfa) => nfa.wf() && compiled_of(nfa, rules@) && nfa.recognizes(
                    table(rules@),
                ),
                None => true,
            },
    {
        match state_demand(rules) {
            Some(_) => Some(Nfa::new(rules)),
            None => None,
        }
    }

    /// Adds the states and transitions for the rule `rule_index`, entered at
    /// `prev_state`, and gives the state in which they are left.
    fn add_states(
        &mut self,
        rules: &[Rule],
        rule_index: usize,
        prev_state: usize,
        Ghost(d): Ghost<nat>,
    ) -> (end: usize)
        requires
            expands_within(table(rules@), rule_index as int, d),
            prev_state < old(self).state_count,
            old(self).state_count + states_needed(table(rules@), rule_index as int, d) <= usize::MAX,
        ensures
            final(self).transition_ranges == old(self).transition_ranges,
            final(self).transitions@ == old(self).transitions@ + build(
                table(rules@),
                rule_index as int,
                prev_state,
                old(self).state_count,
                d,
            ).edges,
            final(self).state_count == build(
                table(rules@),
                rule_index as int,
                prev_state,
                old(self).state_count,
                d,
            ).next,
            end == build(table(rules@), rule_index as int, prev_state, old(self).state_count, d).exit,
        decreases d, 0nat,
    {
        let ghost g = table(rules@);
        let ghost before = self.transitions@;
        let ghost c0 = self.state_count;
        proof {
            lemma_build(g, rule_index as int, prev_state, c0, d);
        }
        if rule_index >= rules.len() {
            // A rule that is not in the table counts as unset.
            let new_state = self.state_count;
            self.state_count += 1;
            proof {
                assert(before =~= before + Seq::<Transition>::empty());
            }
            return new_state;
        }
        match &rules[rule_index] {
            Rule::Void => {
                // A new state that no transition leads to: nothing passes
                // an unset rule.
                let new_state = self.state_count;
                self.state_count += 1;
                proof {
                    assert(before =~= before + Seq::<Transition>::empty());
                }
                new_state
            },
            Rule::Terminal(token) => {
                // A new state, and a transition to it from the state before.
                let new_state = self.state_count;
                self.state_count += 1;
                self.add_transition(prev_state, *token, new_state);
                proof {
                    assert(before.push((prev_state, *token, new_state)) =~= before + seq![
                        (prev_state, *token, new_state),
                    ]);
                }
                new_state
            },
            Rule::Sequence(v) => self.add_sequence(rules, v, prev_state, Ghost((d - 1) as nat)),
            Rule::Choice(a, b) => {
                // The states of both alternatives. Both are entered at the
                // state before, which makes the automaton nondeterministic.
                let ghost e = (d - 1) as nat;
                let ghost x = build_seq(g, a@, prev_state, c0, e);
                proof {
                    lemma_build_seq(g, a@, prev_state, c0, e);
                    lemma_build_seq(g, b@, prev_state, x.next, e);
                }
                let end1 = self.add_sequence(rules, a, prev_state, Ghost(e));
                let end2 = self.add_sequence(rules, b, prev_state, Ghost(e));
                let ghost y = build_seq(g, b@, prev_state, x.next, e);

                // The state in which the alternatives meet.
                let new_state = self.state_count;
                self.state_count += 1;
                self.add_transition(end1, Token::Nil, new_state);
                self.add_transition(end2, Token::Nil, new_state);
                proof {
                    assert(self.transitions@ =~= before + (x.edges + y.edges + joins(
                        end1,
                        end2,
                        new_state,
                    )));
                }
                new_state
            },
        }
    }

    /// Adds one transition.
    fn add_transition(&mut self, from: usize, token: Token, to: usize)
        ensures
            final(self).state_count == old(self).state_count,
            final(self).transition_ranges == old(self).transition_ranges,
            final(self).transitions@ == old(self).transitions@.push((from, token, to)),
    {
        self.transitions.push((from, token, to));
    }

    /// Adds the states and transitions for the rules `rule_indices` in a row,
    /// the first entered at `prev_state`, and gives the state in which they
    /// are left.
    fn add_sequence(
        &mut self,
        rules: &[Rule],
        rule_indices: &[usize],
        prev_state: usize,
        Ghost(d): Ghost<nat>,
    ) -> (end: usize)
        requires
            all_expand_within(table(rules@), rule_indices@, d),
            prev_state < old(self).state_count,
            old(self).state_count + seq_states_needed(table(rules@), rule_indices@, d) <= usize::MAX,
        ensures
            final(self).transition_ranges == old(self).transition_ranges,
            final(self).transitions@ == old(self).transitions@ + build_seq(
                table(rules@),
                rule_indices@,
                prev_state,
                old(self).state_count,
                d,
            ).edges,
            final(self).state_count == build_seq(
                table(rules@),
                rule_indices@,
                prev_state,
                old(self).state_count,
                d,
            ).next,
            end == build_seq(table(rules@), rule_indices@, prev_state, old(self).state_count, d).exit,
        decreases d, 1nat,
    {
        let ghost g = table(rules@);
        let ghost before = self.transitions@;
        let ghost c0 = self.state_count;
        let ghost ranges = self.transition_ranges;
        let mut last_state = prev_state;
        proof {
            assert(rule_indices@.take(0) =~= Seq::<usize>::empty());
            assert(before =~= before + Seq::<Transition>::empty());
        }
        let n = rule_indices.len();
        let mut i: usize = 0;
        while i < n
            invariant
                n == rule_indices@.len(),
                0 <= i <= n,
                g == table(rules@),
                all_expand_within(g, rule_indices@, d),
                prev_state < c0,
                c0 + seq_states_needed(g, rule_indices@, d) <= usize::MAX,
                self.transition_ranges == ranges,
                self.transitions@ == before + build_seq(
                    g,
                    rule_indices@.take(i as int),
                    prev_state,
                    c0,
                    d,
                ).edges,
                self.state_count == build_seq(g, rule_indices@.take(i as int), prev_state, c0, d).next,
                last_state == build_seq(g, rule_indices@.take(i as int), prev_state, c0, d).exit,
            decreases n - i,
        {
            let ghost head = rule_indices@.take(i as int);
            let ghost next = rule_indices@.take(i + 1);
            let ghost x = build_seq(g, head, prev_state, c0, d);
            let rule_index = rule_indices[i];
            proof {
                lemma_prefix_states(g, rule_indices@, d, i as int);
                lemma_prefix_states(g, rule_indices@, d, i + 1);
                assert(next.drop_last() =~= head);
                assert(next.last() == rule_index);
                assert forall|j: int| 0 <= j < head.len() implies expands_within(
                    g,
                    #[trigger] head[j] as int,
                    d,
                ) by {
                    assert(head[j] == rule_indices@[j]);
                }
                lemma_build_seq(g, head, prev_state, c0, d);
            }
            last_state = self.add_states(rules, rule_index, last_state, Ghost(d));
            proof {
                let y = build(g, rule_index as int, x.exit, x.next, d);
                assert(self.transitions@ =~= before + (x.edges + y.edges));
            }
            i += 1;
        }
        proof {
            assert(rule_indices@.take(n as int) =~= rule_indices@);
        }
        last_state
    }

    /// Sorts the transitions and notes for each state where its transitions
    /// stand; for a state that none leaves that is `(0, 0)`.
    fn finalize(&mut self, Ghost(ranks): Ghost<Seq<nat>>)
        requires
            old(self).state_count >= 2,
            old(self).transitions@.len() > 0,
            forall|i: int|
                0 <= i < old(self).transitions@.len() ==> edge_ok(
                    #[trigger] old(self).transitions@[i],
                    old(self).state_count,
                ),
            ranked(old(self).transitions@, ranks, old(self).state_count),
        ensures
            final(self).wf(),
            final(self).state_count == old(self).state_count,
            sorted(final(self).transitions@),
            empty_at_zero(final(self).transition_ranges@),
            final(self).transitions@.to_multiset() == old(self).transitions@.to_multiset(),
    {
        broadcast use vstd::seq_lib::to_multiset_contains;

        let ghost unsorted = self.transitions@;
        let count = self.state_count;

        // One empty range for each state.
        let mut ranges: Vec<(usize, usize)> = Vec::new();
        while ranges.len() < count
            invariant
                ranges@.len() <= count,
                forall|s: int| 0 <= s < ranges@.len() ==> #[trigger] ranges@[s] == (0usize, 0usize),
            decreases count - ranges@.len(),
        {
            ranges.push((0, 0));
        }

        // Sort the transitions, so that they are grouped by source state.
        sort_transitions(&mut self.transitions);
        let ghost ts = self.transitions@;
        proof {
            vstd::seq_lib::to_multiset_len(ts);
            vstd::seq_lib::to_multiset_len(unsorted);
            assert forall|i: int| 0 <= i < ts.len() implies edge_ok(#[trigger] ts[i], count) && (
            ts[i].1 == Token::Nil ==> ranks[ts[i].2 as int] < ranks[ts[i].0 as int]) by {
                assert(ts.contains(ts[i]));
                assert(unsorted.to_multiset().count(ts[i]) > 0);
                assert(unsorted.contains(ts[i]));
                let j = choose|j: int| 0 <= j < unsorted.len() && unsorted[j] == ts[i];
                assert(edge_ok(unsorted[j], count));
            }
            assert(ranked(ts, ranks, count));
            assert forall|a: int, b: int| 0 <= a < b < ts.len() implies ts[a].0 <= ts[b].0 by {
                assert(crate::sorting::transition_le(ts[a], ts[b]));
            }
        }

        let n = self.transitions.len();
        let mut current_range_start: usize = 0;
        let mut current_state: usize = self.transitions[0].0;
        let mut i: usize = 1;
        while i < n
            invariant
                self.transitions@ == ts,
                self.state_count == count,
                ranked(ts, ranks, count),
                n == ts.len(),
                1 <= i <= n,
                ranges@.len() == count,
                forall|k: int| 0 <= k < ts.len() ==> (#[trigger] ts[k]).0 < count,
                forall|a: int, b: int| 0 <= a < b < ts.len() ==> ts[a].0 <= ts[b].0,
                current_range_start < i,
                current_state == ts[i - 1].0,
                forall|k: int| current_range_start <= k < i ==> (#[trigger] ts[k]).0 == current_state,
                forall|k: int| 0 <= k < current_range_start ==> (#[trigger] ts[k]).0 < current_state,
                forall|s: int|
                    0 <= s < current_state ==> range_ok(ts, s, #[trigger] ranges@[s]),
                forall|s: int|
                    current_state <= s < count ==> #[trigger] ranges@[s] == (0usize, 0usize),
                empty_at_zero(ranges@),
            decreases n - i,
        {
            let state = self.transitions[i].0;
            if state != current_state {
                proof {
                    assert(ts[i - 1].0 <= ts[i as int].0);
                    assert forall|s: int| 0 <= s < state implies range_ok(
                        ts,
                        s,
                        #[trigger] ranges@.update(
                            current_state as int,
                            (current_range_start, i),
                        )[s],
                    ) by {
                        if s == current_state {
                            assert forall|k: int| 0 <= k < ts.len() implies ((#[trigger] ts[k]).0
                                == s <==> current_range_start <= k < i) by {
                                if k >= i {
                                    assert(ts[i as int].0 <= ts[k].0);
                                }
                            }
                        } else if s > current_state {
                            assert forall|k: int| 0 <= k < ts.len() implies (#[trigger] ts[k]).0
                                != s by {
                                if k >= i {
                                    assert(ts[i as int].0 <= ts[k].0);
                                } else if k >= current_range_start {
                                } else {
                                }
                            }
                        }
                    }
                }
                ranges.set(current_state, (current_range_start, i));
                current_range_start = i;
                current_state = state;
            }
            i += 1;
        }
        proof {
            assert forall|s: int| 0 <= s < count implies range_ok(
                ts,
                s,
                #[trigger] ranges@.update(current_state as int, (current_range_start, n))[s],
            ) by {
                if s > current_state {
                    assert forall|k: int| 0 <= k < ts.len() implies (#[trigger] ts[k]).0 != s by {
                        if k < n - 1 {
                            assert(ts[k].0 <= ts[n - 1].0);
                        }
                    }
                }
            }
        }
        ranges.set(current_state, (current_range_start, n));
        self.transition_ranges = ranges;
        proof {
            assert(ranked(self.transitions@, ranks, self.state_count));
        }
    }

    /// The transitions that leave the state.
    fn find_transitions(&self, state_index: usize) -> (found: &[(usize, Token, usize)])
        requires
            self.wf(),
            state_index < self.state_count,
        ensures
            found@ == self.transitions@.subrange(
                self.transition_ranges@[state_index as int].0 as int,
                self.transition_ranges@[state_index as int].1 as int,
            ),
    {
        let (begin, end) = self.transition_ranges[state_index];
        &self.transitions[begin..end]
    }

    /// Whether the automaton accepts `input`.
    pub fn is_match(&self, input: &str) -> (m: bool)
        requires
            self.wf(),
        ensures
            m == self.accepts(input@),
    {
        let chars = crate::text::chars_of(input);
        let ghost ranks = choose|ranks: Seq<nat>|
            ranked(self.transitions@, ranks, self.state_count);
        proof {
            assert(chars@.skip(0) =~= input@);
        }
        self.match_rule(START_STATE, &chars, 0, Ghost(ranks))
    }

    /// Whether the accepting state is reached from the state on the input from
    /// `pos` on: by a transition that takes the next letter, or by a silent one.
    fn match_rule(
        &self,
        state_index: usize,
        input: &Vec<char>,
        pos: usize,
        Ghost(ranks): Ghost<Seq<nat>>,
    ) -> (m: bool)
        requires
            self.wf(),
            ranked(self.transitions@, ranks, self.state_count),
            state_index < self.state_count,
            pos <= input@.len(),
        ensures
            m == reaches(self.transitions@, state_index, END_STATE, input@.skip(pos as int)),
        decreases input@.len() - pos, ranks[state_index as int],
    {
        if pos == input.len() {
            proof {
                assert(input@.skip(pos as int) =~= Seq::<char>::empty());
            }
            self.match_end(state_index, Ghost(ranks))
        } else {
            let ghost w = input@.skip(pos as int);
            let ghost rest = input@.skip(pos + 1);
            proof {
                assert(w.skip(1) =~= rest);
                assert(w[0] == input@[pos as int]);
            }
            let t = match input[pos] {
                'a' => Token::A,
                'b' => Token::B,
                _ => {
                    proof {
                        if reaches(self.transitions@, state_index, END_STATE, w) {
                            let p = choose|p: Seq<Transition>| #[trigger]
                                is_path(self.transitions@, p, state_index, END_STATE) && label(p)
                                    =~= w;
                            lemma_label_alphabet(p, 0);
                        }
                    }
                    return false;
                },
            };
            let found = self.find_transitions(state_index);
            let ghost begin = self.transition_ranges@[state_index as int].0;
            let mut k: usize = 0;
            while k < found.len()
                invariant
                    self.wf(),
                    ranked(self.transitions@, ranks, self.state_count),
                    state_index < self.state_count,
                    pos < input.len(),
                    w == input@.skip(pos as int),
                    rest == input@.skip(pos + 1),
                    w.len() > 0,
                    w.skip(1) =~= rest,
                    token_word(t) =~= seq![w[0]],
                    t != Token::Nil,
                    range_ok(
                        self.transitions@,
                        state_index as int,
                        self.transition_ranges@[state_index as int],
                    ),
                    begin == self.transition_ranges@[state_index as int].0,
                    found@ == self.transitions@.subrange(
                        begin as int,
                        self.transition_ranges@[state_index as int].1 as int,
                    ),
                    k <= found@.len(),
                    forall|j: int|
                        0 <= j < k ==> {
                            let tr = #[trigger] found@[j];
                            &&& !(tr.1 == t && reaches(self.transitions@, tr.2, END_STATE, rest))
                            &&& !(tr.1 == Token::Nil && reaches(
                                self.transitions@,
                                tr.2,
                                END_STATE,
                                w,
                            ))
                        },
                decreases found@.len() - k,
            {
                let (from, token, to) = found[k];
                proof {
                    assert(found@[k as int] == self.transitions@[begin + k]);
                    assert(edge_ok(self.transitions@[begin + k], self.state_count));
                    assert(self.transitions@.contains(self.transitions@[begin + k]));
                    assert(from == state_index);
                }
                if token == t && self.match_rule(to, input, pos + 1, Ghost(ranks)) {
                    proof {
                        lemma_step(self.transitions@, (from, token, to), END_STATE, rest);
                        assert(token_word(t) + rest =~= w);
                    }
                    return true;
                } else if token == Token::Nil && self.match_rule(to, input, pos, Ghost(ranks)) {
                    proof {
                        lemma_step(self.transitions@, (from, token, to), END_STATE, w);
                        assert(token_word(Token::Nil) + w =~= w);
                    }
                    return true;
                }
                k += 1;
            }
            proof {
                if reaches(self.transitions@, state_index, END_STATE, w) {
                    let i = lemma_unfold_first(self.transitions@, state_index, END_STATE, w);
                    let tr = self.transitions@[i];
                    assert(found@[i - begin] == tr);
                    if tr.1 == Token::Nil {
                        assert(w.skip(0) =~= w);
                    } else {
                        assert(w.take(1) =~= seq![w[0]]);
                        assert(token_word(tr.1)[0] == w.take(1)[0]);
                    }
                }
            }
            false
        }
    }

    /// Whether the accepting state is reached from the state by silent
    /// transitions alone.
    fn match_end(&self, state_index: usize, Ghost(ranks): Ghost<Seq<nat>>) -> (m: bool)
        requires
            self.wf(),
            ranked(self.transitions@, ranks, self.state_count),
            state_index < self.state_count,
        ensures
            m == reaches(self.transitions@, state_index, END_STATE, Seq::<char>::empty()),
        decreases ranks[state_index as int],
    {
        let ghost none = Seq::<char>::empty();
        if state_index == END_STATE {
            proof {
                let p = Seq::<Transition>::empty();
                assert(is_path(self.transitions@, p, state_index, END_STATE));
                assert(label(p) =~= none);
            }
            return true;
        }
        let found = self.find_transitions(state_index);
        let ghost begin = self.transition_ranges@[state_index as int].0;
        let mut k: usize = 0;
        while k < found.len()
            invariant
                self.wf(),
                ranked(self.transitions@, ranks, self.state_count),
                state_index < self.state_count,
                none == Seq::<char>::empty(),
                range_ok(
                    self.transitions@,
                    state_index as int,
                    self.transition_ranges@[state_index as int],
                ),
                begin == self.transition_ranges@[state_index as int].0,
                found@ == self.transitions@.subrange(
                    begin as int,
                    self.transition_ranges@[state_index as int].1 as int,
                ),
                k <= found@.len(),
                forall|j: int|
                    0 <= j < k ==> {
                        let tr = #[trigger] found@[j];
                        !(tr.1 == Token::Nil && reaches(self.transitions@, tr.2, END_STATE, none))
                    },
            decreases found@.len() - k,
        {
            let (from, token, to) = found[k];
            proof {
                assert(found@[k as int] == self.transitions@[begin + k]);
                assert(edge_ok(self.transitions@[begin + k], self.state_count));
                assert(self.transitions@.contains(self.transitions@[begin + k]));
                assert(from == state_index);
            }
            if token == Token::Nil && self.match_end(to, Ghost(ranks)) {
                proof {
                    lemma_step(self.transitions@, (from, token, to), END_STATE, none);
                    assert(token_word(Token::Nil) + none =~= none);
                }
                return true;
            }
            k += 1;
        }
        proof {
            if reaches(self.transitions@, state_index, END_STATE, none) {
                let i = lemma_unfold_first(self.transitions@, state_index, END_STATE, none);
                let tr = self.transitions@[i];
                assert(found@[i - begin] == tr);
                assert(none.skip(0) =~= none);
            }
        }
        false
    }

    /// Counts the words that the automaton accepts.
    pub fn count_matches(&self, input: &Vec<String>) -> (count: usize)
        requires
            self.wf(),
        ensures
            count == self.accepted_count(line_texts(input@)),
    {
        let ghost all = line_texts(input@);
        let mut match_count: usize = 0;
        let mut i: usize = 0;
        proof {
            assert(all.take(0) =~= Seq::<Seq<char>>::empty());
        }
        while i < input.len()
            invariant
                self.wf(),
                all == line_texts(input@),
                i <= input@.len(),
                match_count == self.accepted_count(all.take(i as int)),
                match_count <= i,
            decreases input@.len() - i,
        {
            proof {
                assert(all.take(i + 1).drop_last() =~= all.take(i as int));
                assert(all.take(i + 1).last() == input@[i as int]@);
            }
            if self.is_match(input[i].as_str()) {
                match_count += 1;
            }
            i += 1;
        }
        proof {
            assert(all.take(input@.len() as int) =~= all);
        }
        match_count
    }

    /// The transitions, one line each, in the order in which they are held.
    pub fn transitions_text(&self) -> (text: String)
        ensures
            text@ == listing(self.transitions@),
    {
        let mut text = String::new();
        let mut i: usize = 0;
        proof {
            assert(self.transitions@.take(0) =~= Seq::<Transition>::empty());
        }
        while i < self.transitions.len()
            invariant
                i <= self.transitions@.len(),
                text@ == listing(self.transitions@.take(i as int)),
            decreases self.transitions@.len() - i,
        {
            proof {
                assert(self.transitions@.take(i + 1).drop_last() =~= self.transitions@.take(
                    i as int,
                ));
                assert(self.transitions@.take(i + 1).last() == self.transitions@[i as int]);
            }
            let line = transition_line(self.transitions[i]);
            text.append(line.as_str());
            i += 1;
        }
        proof {
            assert(self.transitions@.take(self.transitions@.len() as int) =~= self.transitions@);
        }
        text
    }
}

} // verus!
