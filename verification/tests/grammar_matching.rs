use advent_puzzles::grammar::{load, Grammar, Rule, Token};
use advent_puzzles::nfa::Nfa;

fn lines(text: &[&str]) -> Vec<String> {
    text.iter().map(|s| s.to_string()).collect()
}

fn compile(text: &[&str]) -> Nfa {
    let (rules, _) = load(&lines(text)).ok().expect("the rules load");
    Nfa::new(&rules)
}

#[test]
fn sequence_of_two_terminals() {
    let nfa = compile(&["0: 1 2", "1: \"a\"", "2: \"b\""]);
    assert!(nfa.is_match("ab"));
    assert!(!nfa.is_match("ba"));
    assert!(!nfa.is_match("a"));
}

#[test]
fn choice_of_two_terminals() {
    let nfa = compile(&["0: 1 | 2", "1: \"a\"", "2: \"b\""]);
    assert!(nfa.is_match("a"));
    assert!(nfa.is_match("b"));
    assert!(!nfa.is_match("ab"));
    assert!(!nfa.is_match(""));
}

#[test]
fn malformed_line_is_named() {
    let r = load(&lines(&["0 1: a", "", "ab"]));
    match r {
        Err(e) => {
            assert_eq!(e.line, "0 1: a");
            assert_eq!(e.message(), "Invalid rule: 0 1: a");
        }
        Ok(_) => panic!("the line denotes no rule"),
    }
}

#[test]
fn rules_may_come_in_any_order() {
    let mut g = Grammar::new();
    assert!(g.add_rule("2: \"b\"").is_some());
    assert_eq!(g.rules.len(), 3);
    assert!(matches!(g.rules[0], Rule::Void));
    assert!(matches!(g.rules[1], Rule::Void));
    assert!(matches!(g.rules[2], Rule::Terminal(Token::B)));
    assert!(g.add_rule("0: 2 2").is_some());
    assert_eq!(g.rules.len(), 3);
    match &g.rules[0] {
        Rule::Sequence(v) => assert_eq!(v, &vec![2, 2]),
        _ => panic!("rule 0 is a sequence"),
    }
}

use advent_puzzles::nfa::{transition_line, END_STATE, START_STATE};
use advent_puzzles::sizing::state_demand;
use advent_puzzles::sorting::{comes_before, sort_transitions};

const SAMPLE: [&str; 12] = [
    "0: 4 1 5",
    "1: 2 3 | 3 2",
    "2: 4 4 | 5 5",
    "3: 4 5 | 5 4",
    "4: \"a\"",
    "5: \"b\"",
    "",
    "ababbb",
    "bababa",
    "abbbab",
    "aaabbb",
    "aaaabbb",
];

#[test]
fn counts_the_words_that_match() {
    let (rules, input) = load(&lines(&SAMPLE)).ok().expect("the rules load");
    assert_eq!(rules.len(), 6);
    assert_eq!(input, lines(&SAMPLE[7..]));
    let nfa = Nfa::new(&rules);
    assert_eq!(nfa.count_matches(&input), 2);
    assert!(nfa.is_match("ababbb"));
    assert!(nfa.is_match("abbbab"));
    assert!(!nfa.is_match("bababa"));
    assert!(!nfa.is_match("aaabbb"));
    assert!(!nfa.is_match("aaaabbb"));
    assert!(!nfa.is_match(""));
    assert!(!nfa.is_match("ababbc"));
    assert!(!nfa.is_match("ababbb "));
    assert_eq!(nfa.count_matches(&Vec::new()), 0);
}

#[test]
fn compiling_twice_accepts_the_same_words() {
    let (rules, input) = load(&lines(&SAMPLE)).ok().expect("the rules load");
    let first = Nfa::new(&rules);
    let second = Nfa::compile(&rules).expect("the table can be compiled");
    for word in &input {
        assert_eq!(first.is_match(word), second.is_match(word));
    }
    assert_eq!(first.transitions, second.transitions);
}

#[test]
fn the_automaton_is_laid_out_by_state() {
    let nfa = compile(&["0: 1 | 2", "1: \"a\"", "2: \"b\""]);
    assert_eq!((START_STATE, END_STATE), (0, 1));
    assert_eq!(nfa.state_count, 5);
    assert_eq!(
        nfa.transitions,
        vec![
            (0, Token::A, 2),
            (0, Token::B, 3),
            (2, Token::Nil, 4),
            (3, Token::Nil, 4),
            (4, Token::Nil, 1),
        ]
    );
    assert_eq!(nfa.transition_ranges, vec![(0, 2), (0, 0), (2, 3), (3, 4), (4, 5)]);
    assert_eq!(nfa.transitions_text(), "0, a, 2\n0, b, 3\n2, , 4\n3, , 4\n4, , 1\n");
    assert_eq!(transition_line((12, Token::B, 345)), "12, b, 345\n");

    let (rules, _) = load(&lines(&SAMPLE)).ok().expect("the rules load");
    let big = Nfa::new(&rules);
    let mut sorted = big.transitions.clone();
    sorted.sort_unstable();
    assert_eq!(big.transitions, sorted);
    assert_eq!(big.transition_ranges.len(), big.state_count);
    for (state, &(begin, end)) in big.transition_ranges.iter().enumerate() {
        for (i, t) in big.transitions.iter().enumerate() {
            assert_eq!(t.0 == state, begin <= i && i < end);
        }
    }
}

#[test]
fn sorts_transitions_as_std_does() {
    let mut v = vec![
        (3, Token::B, 1),
        (0, Token::A, 9),
        (3, Token::Nil, 7),
        (3, Token::A, 2),
        (0, Token::A, 4),
        (3, Token::B, 1),
        (2, Token::Nil, 0),
    ];
    let mut expected = v.clone();
    expected.sort_unstable();
    sort_transitions(&mut v);
    assert_eq!(v, expected);
    for a in &expected {
        for b in &expected {
            assert_eq!(comes_before(*a, *b), a < b);
        }
    }
    let mut empty: Vec<(usize, Token, usize)> = Vec::new();
    sort_transitions(&mut empty);
    assert!(empty.is_empty());
}

#[test]
fn tables_that_cannot_be_compiled_are_told() {
    // A rule that needs itself.
    assert!(Nfa::compile(&[Rule::Sequence(vec![1]), Rule::Choice(vec![2], vec![0]), Rule::Void])
        .is_none());
    assert!(Nfa::compile(&[Rule::Sequence(vec![0])]).is_none());
    // What rule 0 does not reach does not matter.
    let apart = [Rule::Terminal(Token::A), Rule::Sequence(vec![1]), Rule::Sequence(vec![9])];
    assert_eq!(state_demand(&apart), Some(1));
    assert!(Nfa::compile(&apart).expect("rule 0 stands alone").is_match("a"));
    let (rules, _) = load(&lines(&SAMPLE)).ok().expect("the rules load");
    assert_eq!(state_demand(&rules), Some(Nfa::new(&rules).state_count - 2));
}

#[test]
fn nothing_passes_an_unset_rule() {
    // An unset rule derives nothing: its exit is a state that nothing reaches.
    let void = Nfa::new(&[Rule::Void]);
    assert!(!void.is_match(""));
    assert!(!void.is_match("a"));
    assert_eq!(void.state_count, 3);
    assert_eq!(void.transitions, vec![(2, Token::Nil, 1)]);
    assert_eq!(void.transition_ranges, vec![(0, 0), (0, 0), (0, 1)]);
    // A sequence that runs through an unset rule derives nothing either.
    let cut = Nfa::new(&[Rule::Sequence(vec![1, 2]), Rule::Terminal(Token::A), Rule::Void]);
    for word in ["", "a", "aa", "ab", "b"] {
        assert!(!cut.is_match(word), "{:?}", word);
    }
    let around = Nfa::new(&[Rule::Sequence(vec![1, 2, 1]), Rule::Void, Rule::Terminal(Token::B)]);
    for word in ["", "b", "bb"] {
        assert!(!around.is_match(word), "{:?}", word);
    }
    // The other alternative of a choice is still open.
    let beside = Nfa::new(&[Rule::Choice(vec![1, 2], vec![1]), Rule::Terminal(Token::A), Rule::Void]);
    assert!(beside.is_match("a"));
    assert!(!beside.is_match(""));
    assert!(!beside.is_match("aa"));
    // A rule that is named and never given is unset.
    let (rules, _) =
        load(&lines(&["0: 1 3", "1: \"a\"", "4: \"b\""])).ok().expect("the rules load");
    assert_eq!(rules.len(), 5);
    assert!(matches!(rules[3], Rule::Void));
    assert_eq!(state_demand(&rules), Some(2));
    let dead = Nfa::compile(&rules).expect("the table can be compiled");
    for word in words_up_to(3) {
        assert!(!dead.is_match(&word), "{:?}", word);
    }
}

#[test]
fn a_rule_outside_the_table_counts_as_unset() {
    // The table ends before the rule that is named.
    let (rules, _) = load(&lines(&["0: 1 3 | 1", "1: \"a\""])).ok().expect("the rules load");
    assert_eq!(rules.len(), 2);
    assert_eq!(state_demand(&rules), Some(4));
    let nfa = Nfa::compile(&rules).expect("the table can be compiled");
    assert_eq!(nfa.state_count, 6);
    for word in words_up_to(3) {
        assert_eq!(nfa.is_match(&word), word == "a", "{:?}", word);
    }
    let beyond = Nfa::compile(&[Rule::Sequence(vec![1])]).expect("the table can be compiled");
    assert_eq!(beyond.transitions, vec![(2, Token::Nil, 1)]);
    assert!(!beyond.is_match(""));
    // Without any rule the start rule is unset.
    assert_eq!(state_demand(&[]), Some(1));
    let empty = Nfa::compile(&[]).expect("the table can be compiled");
    assert_eq!(empty.state_count, 3);
    assert_eq!(empty.transitions, vec![(2, Token::Nil, 1)]);
    assert!(!empty.is_match(""));
    assert!(!empty.is_match("a"));
}

#[test]
fn states_without_transitions_have_the_range_zero() {
    let nfa = compile(&["0: 1 2", "1: \"a\"", "2: \"b\""]);
    assert_eq!(nfa.state_count, 4);
    assert_eq!(nfa.transitions, vec![(0, Token::A, 2), (2, Token::B, 3), (3, Token::Nil, 1)]);
    assert_eq!(nfa.transition_ranges, vec![(0, 1), (0, 0), (1, 2), (2, 3)]);
}

#[test]
fn rules_without_letters_take_no_input() {
    let silent = Nfa::new(&[Rule::Choice(vec![1], vec![2]), Rule::Terminal(Token::Nil), Rule::Terminal(Token::A)]);
    assert!(silent.is_match(""));
    assert!(silent.is_match("a"));
    assert!(!silent.is_match("aa"));
    let nothing = Nfa::new(&[Rule::Sequence(vec![])]);
    assert!(nothing.is_match(""));
    // The same rule may be used many times.
    let twice = Nfa::new(&[Rule::Sequence(vec![1, 1, 1]), Rule::Choice(vec![2], vec![2, 2]), Rule::Terminal(Token::A)]);
    for (word, expected) in [("aa", false), ("aaa", true), ("aaaaaa", true), ("aaaaaaa", false)] {
        assert_eq!(twice.is_match(word), expected);
    }
}

#[test]
fn reads_rule_bodies() {
    assert!(matches!(Rule::parse("\"a\""), Some(Rule::Terminal(Token::A))));
    assert!(matches!(Rule::parse("\"b\""), Some(Rule::Terminal(Token::B))));
    // A terminal is one letter between two quotes, and nothing more.
    assert!(Rule::parse("\"b").is_none());
    assert!(Rule::parse("\"a").is_none());
    assert!(Rule::parse("\"ab\"").is_none());
    assert!(Rule::parse("\"a\" ").is_none());
    assert!(Rule::parse("\"a\"b").is_none());
    assert!(Rule::parse("\"\"").is_none());
    assert!(Rule::parse("\"c\"").is_none());
    assert!(Rule::parse("\"").is_none());
    assert!(Rule::parse("").is_none());
    match Rule::parse("1 22 | 3") {
        Some(Rule::Choice(a, b)) => assert_eq!((a, b), (vec![1, 22], vec![3])),
        _ => panic!("a choice"),
    }
    match Rule::parse(" 4 5 ") {
        Some(Rule::Sequence(v)) => assert_eq!(v, vec![4, 5]),
        _ => panic!("a sequence"),
    }
    assert!(Rule::parse("1 | 2 | 3").is_none());
    assert!(Rule::parse("1 |").is_none());
    assert!(Rule::parse("1  2").is_none());
    assert!(Rule::parse("a").is_none());
    assert_eq!(Rule::parse_sequence("7"), Some(vec![7]));
    assert_eq!(Rule::parse_sequence("+7 08"), Some(vec![7, 8]));
    assert_eq!(Rule::parse_sequence(""), None);
    assert_eq!(Rule::parse_sequence("-1"), None);
    assert_eq!(Rule::parse_sequence("99999999999999999999999"), None);
}

#[test]
fn reads_rule_lines() {
    let mut g = Grammar::new();
    assert!(g.add_rule("no colon").is_none());
    assert!(g.add_rule("0 : 1").is_none());
    assert!(g.add_rule(" 0: 1").is_none());
    assert!(g.add_rule("x: 1").is_none());
    assert!(g.add_rule("0: ").is_none());
    assert!(g.add_rule("0:").is_none());
    assert!(g.add_rule("18446744073709551615: 1").is_none());
    assert!(g.rules.is_empty());
    assert!(g.add_rule("1:\t2 | 3  ").is_some());
    assert_eq!(g.rules.len(), 2);
    assert!(g.add_rule("1: \"a\"").is_some());
    assert!(matches!(g.rules[1], Rule::Terminal(Token::A)));
}

#[test]
fn loads_rules_and_words() {
    let (rules, input) =
        load(&lines(&["1: \"a\"", "0: 1", "", "a", "", "", "b", ""])).ok().expect("the rules load");
    assert_eq!(rules.len(), 2);
    assert_eq!(input, lines(&["a", "b"]));
    let (rules, input) = load(&lines(&["0: \"b\""])).ok().expect("the rules load");
    assert_eq!((rules.len(), input.len()), (1, 0));
    let (rules, input) = load(&Vec::new()).ok().expect("nothing loads");
    assert!(rules.is_empty() && input.is_empty());
    // The first line that is no rule is named; lines after the empty line are not rules.
    match load(&lines(&["0: 1", "1: a", "2: b", "", "3: c"])) {
        Err(e) => assert_eq!(e.line, "1: a"),
        Ok(_) => panic!("a line denotes no rule"),
    }
    assert!(load(&lines(&["0: \"a\"", "", "0 1: a"])).is_ok());
}

// Whether the rules listed in `v` derive the pieces of some split of `w`.
fn sequence_derives(rules: &[Rule], v: &[usize], w: &[char]) -> bool {
    match v.split_last() {
        None => w.is_empty(),
        Some((&last, head)) => (0..=w.len())
            .any(|k| sequence_derives(rules, head, &w[..k]) && rule_derives(rules, last, &w[k..])),
    }
}

// Whether rule `r` derives `w`, by the meaning of the rules alone.
fn rule_derives(rules: &[Rule], r: usize, w: &[char]) -> bool {
    if r >= rules.len() {
        return false;
    }
    match &rules[r] {
        Rule::Void => false,
        Rule::Terminal(Token::Nil) => w.is_empty(),
        Rule::Terminal(Token::A) => w == ['a'],
        Rule::Terminal(Token::B) => w == ['b'],
        Rule::Sequence(v) => sequence_derives(rules, v, w),
        Rule::Choice(a, b) => sequence_derives(rules, a, w) || sequence_derives(rules, b, w),
    }
}

fn words_up_to(len: usize) -> Vec<String> {
    let mut all = vec![String::new()];
    let mut last = vec![String::new()];
    for _ in 0..len {
        let mut next = Vec::new();
        for w in &last {
            for c in ['a', 'b'] {
                next.push(format!("{}{}", w, c));
            }
        }
        all.extend(next.iter().cloned());
        last = next;
    }
    all
}

#[test]
fn matches_exactly_what_the_rules_derive() {
    let tables: [&[&str]; 4] = [
        &SAMPLE[..6],
        &["0: 1 2", "1: \"a\"", "2: \"b\""],
        &["0: 1 | 2", "1: \"a\"", "2: \"b\""],
        &["0: 2 1 | 1 3", "1: 2 2 | 3", "2: \"a\"", "3: 2 4 | 4 4 4", "4: \"b\""],
    ];
    for text in tables {
        let (rules, _) = load(&lines(text)).ok().expect("the rules load");
        let nfa = Nfa::compile(&rules).expect("the table can be compiled");
        for word in words_up_to(7) {
            let chars: Vec<char> = word.chars().collect();
            assert_eq!(nfa.is_match(&word), rule_derives(&rules, 0, &chars), "{:?}", word);
        }
    }
    // Rules that are unset or silent among the others.
    let odd = [
        Rule::Choice(vec![1, 2, 3], vec![4, 9]),
        Rule::Void,
        Rule::Terminal(Token::A),
        Rule::Sequence(vec![]),
        Rule::Sequence(vec![5, 2, 5, 6]),
        Rule::Terminal(Token::Nil),
        Rule::Choice(vec![2], vec![7, 7]),
        Rule::Terminal(Token::B),
    ];
    let nfa = Nfa::compile(&odd).expect("the table can be compiled");
    for word in words_up_to(5) {
        assert!(!nfa.is_match(&word), "{:?}", word);
    }
    let odd = [
        Rule::Choice(vec![1, 2, 3], vec![4]),
        Rule::Void,
        Rule::Terminal(Token::A),
        Rule::Sequence(vec![]),
        Rule::Sequence(vec![5, 2, 5, 6]),
        Rule::Terminal(Token::Nil),
        Rule::Choice(vec![2], vec![7, 7]),
        Rule::Terminal(Token::B),
    ];
    let nfa = Nfa::compile(&odd).expect("the table can be compiled");
    let mut matched = 0;
    for word in words_up_to(5) {
        let chars: Vec<char> = word.chars().collect();
        assert_eq!(nfa.is_match(&word), rule_derives(&odd, 0, &chars), "{:?}", word);
        if nfa.is_match(&word) {
            matched += 1;
        }
    }
    // The first alternative runs through the unset rule; the second
    // derives `aa` and `abb`.
    assert_eq!(matched, 2);
    assert!(nfa.is_match("aa") && nfa.is_match("abb"));
}

#[test]
fn the_empty_word_needs_a_silent_way() {
    // Where every rule stands for a letter, the empty word is not matched.
    for text in [&SAMPLE[..6], &["0: 1 | 1 1", "1: \"a\""][..]] {
        let (rules, _) = load(&lines(text)).ok().expect("the rules load");
        assert!(!Nfa::new(&rules).is_match(""));
    }
    assert!(Nfa::new(&[Rule::Choice(vec![1], vec![]), Rule::Terminal(Token::A)]).is_match(""));
}

#[test]
fn matches_against_an_automaton_made_by_hand() {
    // Any number of `a`, then one `b`: a loop of a letter is no silent circle.
    let nfa = Nfa {
        state_count: 3,
        transitions: vec![(0, Token::A, 0), (0, Token::B, 2), (2, Token::Nil, 1)],
        transition_ranges: vec![(0, 2), (0, 0), (2, 3)],
    };
    for (word, expected) in
        [("b", true), ("ab", true), ("aaaab", true), ("", false), ("a", false), ("ba", false)]
    {
        assert_eq!(nfa.is_match(word), expected, "{:?}", word);
    }
    assert_eq!(nfa.count_matches(&lines(&["b", "bb", "aab"])), 2);
}
