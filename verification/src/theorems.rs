//! What holds of every compiled automaton.

use vstd::prelude::*;
use crate::construction::theorem_compiled_accepts;
use crate::derivation::{
    compilable, derivable, derives, expands_within, law_derivable_unfolds, law_unset_is_dead,
    lemma_letters_derive_letters, letters_only, states_needed, unset,
};
use crate::grammar::{table, Rule, RuleView};
use crate::nfa::{compiled_of, Nfa};
use crate::rewriting::{generates, theorem_trees_are_rewriting};

verus! {

/// An automaton compiled from a rule table accepts a word if and only if
/// the start rule of the table derives the word.
pub proof fn theorem_match_iff_derivable(rules: Seq<Rule>, nfa: Nfa, input: Seq<char>)
    requires
        compilable(table(rules)),
        compiled_of(nfa, rules),
    ensures
        nfa.accepts(input) <==> derivable(table(rules), 0, input),
{
    let g = table(rules);
    let d = choose|d: nat| #[trigger] expands_within(g, 0, d) && states_needed(g, 0, d) + 2
        <= usize::MAX;
    theorem_compiled_accepts(g, d, nfa.transitions@, input);
}

/// An automaton compiled from a rule table accepts a word if and only if
/// the word comes from the start rule by rewriting, the table taken as a
/// context-free grammar.
pub proof fn theorem_match_iff_generated(rules: Seq<Rule>, nfa: Nfa, input: Seq<char>)
    requires
        rules.len() <= usize::MAX,
        compilable(table(rules)),
        compiled_of(nfa, rules),
    ensures
        nfa.accepts(input) <==> generates(table(rules), 0, input),
{
    theorem_match_iff_derivable(rules, nfa, input);
    theorem_trees_are_rewriting(table(rules), 0, input);
}

/// Nothing passes an unset rule: an automaton compiled from a table whose
/// start rule is a sequence that lists an unset rule accepts no word.
pub proof fn theorem_unset_rule_blocks(rules: Seq<Rule>, nfa: Nfa, i: int, w: Seq<char>)
    requires
        compilable(table(rules)),
        compiled_of(nfa, rules),
        table(rules)[0] is Sequence,
        0 <= i < table(rules)[0]->Sequence_0.len(),
        unset(table(rules), table(rules)[0]->Sequence_0[i] as int),
    ensures
        !nfa.accepts(w),
{
    let g = table(rules);
    theorem_match_iff_derivable(rules, nfa, w);
    law_derivable_unfolds(g, 0, w);
    law_unset_is_dead(g, 0, w);
    match g[0] {
        RuleView::Sequence(v) => {
            assert(unset(g, v[i] as int));
        },
        _ => {},
    }
}

/// Two automata compiled from the same rule table accept the same words.
pub proof fn theorem_same_table_same_words(rules: Seq<Rule>, first: Nfa, second: Nfa, w: Seq<char>)
    requires
        compilable(table(rules)),
        compiled_of(first, rules),
        compiled_of(second, rules),
    ensures
        first.accepts(w) == second.accepts(w),
{
    theorem_match_iff_derivable(rules, first, w);
    theorem_match_iff_derivable(rules, second, w);
}

/// An automaton compiled from a rule table accepts the empty word if and
/// only if the start rule derives it; and it does not where every rule of
/// the table that is set stands for at least one letter.
pub proof fn theorem_empty_word(rules: Seq<Rule>, nfa: Nfa)
    requires
        compilable(table(rules)),
        compiled_of(nfa, rules),
    ensures
        nfa.accepts(Seq::empty()) <==> derivable(table(rules), 0, Seq::empty()),
        letters_only(table(rules)) ==> !nfa.accepts(Seq::empty()),
{
    let g = table(rules);
    let none = Seq::<char>::empty();
    theorem_match_iff_derivable(rules, nfa, none);
    if letters_only(g) && derivable(g, 0, none) {
        let h = choose|h: nat| derives(g, 0, none, h);
        lemma_letters_derive_letters(g, 0, none, h);
    }
}

} // verus!
