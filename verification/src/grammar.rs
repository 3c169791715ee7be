//! The rule table of a small line-oriented grammar.

use vstd::prelude::*;
use vstd::string::StringExecFns;
use crate::text::{
    chars_of, find_char, first_match, line_texts, parse_usize, pieces, slice_of, split, trim,
    trimmed, unsigned_within, views,
};

verus! {

/// A terminal symbol, or `Nil` for "no symbol".
#[derive(Clone, Copy, Debug, PartialEq, Eq, Structural, PartialOrd, Ord)]
pub enum Token {
    Nil,
    A,
    B,
}

/// One entry of the rule table. The lists hold indices into the table.
#[derive(Clone, Debug)]
pub enum Rule {
    Void,
    Terminal(Token),
    Sequence(Vec<usize>),
    Choice(Vec<usize>, Vec<usize>),
}

/// A rule as a mathematical value: the lists are sequences.
pub enum RuleView {
    Void,
    Terminal(Token),
    Sequence(Seq<usize>),
    Choice(Seq<usize>, Seq<usize>),
}

impl View for Rule {
    type V = RuleView;

    /// The rule with its lists as sequences.
    open spec fn view(&self) -> RuleView {
        match *self {
            Rule::Void => RuleView::Void,
            Rule::Terminal(t) => RuleView::Terminal(t),
            Rule::Sequence(v) => RuleView::Sequence(v@),
            Rule::Choice(a, b) => RuleView::Choice(a@, b@),
        }
    }
}

/// The rule table that a list of rules stands for.
pub open spec fn table(rules: Seq<Rule>) -> Seq<RuleView> {
    rules.map_values(|r: Rule| r@)
}

/// The rule indices that `s` lists: numbers with single blanks between
/// them, white space around the whole list ignored.
pub open spec fn sequence_of(s: Seq<char>) -> Option<Seq<usize>> {
    let parts = pieces(trimmed(s), seq![' ']);
    if forall|i: int| 0 <= i < parts.len() ==> unsigned_within(
        #[trigger] parts[i],
        usize::MAX as nat,
    ) is Some {
        Some(Seq::new(parts.len(), |i: int| unsigned_within(parts[i], usize::MAX as nat)->0 as usize))
    } else {
        None
    }
}

/// The rule that the body `s` of a line denotes: the letter `a` or `b`
/// between two double quotes and nothing else, two lists of indices with a
/// bar between them, or one list of indices.
pub open spec fn rule_of(s: Seq<char>) -> Option<RuleView> {
    if s.len() == 0 {
        None
    } else if s[0] == '"' {
        if s =~= seq!['"', 'a', '"'] {
            Some(RuleView::Terminal(Token::A))
        } else if s =~= seq!['"', 'b', '"'] {
            Some(RuleView::Terminal(Token::B))
        } else {
            None
        }
    } else {
        match first_match(s, seq!['|']) {
            Some(i) => match (sequence_of(s.take(i)), sequence_of(s.skip(i + 1))) {
                (Some(a), Some(b)) => Some(RuleView::Choice(a, b)),
                _ => None,
            },
            None => match sequence_of(s) {
                Some(v) => Some(RuleView::Sequence(v)),
                None => None,
            },
        }
    }
}

/// The index and the rule that a line `<index>: <body>` denotes. The index
/// stands directly before the colon and is below `usize::MAX`.
pub open spec fn rule_line(s: Seq<char>) -> Option<(usize, RuleView)> {
    match first_match(s, seq![':']) {
        Some(i) => match (
            unsigned_within(s.take(i), (usize::MAX - 1) as nat),
            rule_of(trimmed(s.skip(i + 1))),
        ) {
            (Some(n), Some(r)) => Some((n as usize, r)),
            _ => None,
        },
        None => None,
    }
}

/// The table `t` with `rule` at index `n`, grown with unset rules as far as
/// needed.
pub open spec fn placed(t: Seq<RuleView>, n: usize, rule: RuleView) -> Seq<RuleView> {
    if n < t.len() {
        t.update(n as int, rule)
    } else {
        (t + Seq::new((n - t.len()) as nat, |i: int| RuleView::Void)).push(rule)
    }
}

/// Reads a list of rule indices.
fn sequence_in(chars: &Vec<char>) -> (r: Option<Vec<usize>>)
    ensures
        match r {
            Some(v) => sequence_of(chars@) == Some(v@),
            None => sequence_of(chars@) is None,
        },
{
    let body = trim(chars);
    let blank: Vec<char> = vec![' '];
    proof {
        assert(blank@ =~= seq![' ']);
    }
    let parts = split(&body, &blank);
    let ghost texts = pieces(trimmed(chars@), seq![' ']);
    let mut vec: Vec<usize> = Vec::new();
    let mut i: usize = 0;
    while i < parts.len()
        invariant
            i <= parts@.len(),
            views(parts@) == texts,
            texts == pieces(trimmed(chars@), seq![' ']),
            vec@.len() == i,
            forall|j: int|
                0 <= j < i ==> unsigned_within(#[trigger] texts[j], usize::MAX as nat) == Some(
                    vec@[j] as nat,
                ),
        decreases parts@.len() - i,
    {
        proof {
            assert(views(parts@)[i as int] == parts@[i as int]@);
        }
        match parse_usize(&parts[i]) {
            Some(n) => {
                vec.push(n);
            },
            None => {
                return None;
            },
        }
        i += 1;
    }
    proof {
        assert(views(parts@).len() == parts@.len());
        assert(vec@ =~= Seq::new(
            texts.len(),
            |i: int| unsigned_within(texts[i], usize::MAX as nat)->0 as usize,
        ));
    }
    if vec.is_empty() {
        None
    } else {
        Some(vec)
    }
}

/// Reads the body of a rule line.
fn rule_in(chars: &Vec<char>) -> (r: Option<Rule>)
    ensures
        match r {
            Some(rule) => rule_of(chars@) == Some(rule@),
            None => rule_of(chars@) is None,
        },
{
    if chars.len() == 0 {
        return None;
    }
    if chars[0] == '"' {
        if chars.len() != 3 || chars[2] != '"' {
            return None;
        }
        if chars[1] == 'a' {
            Some(Rule::Terminal(Token::A))
        } else if chars[1] == 'b' {
            Some(Rule::Terminal(Token::B))
        } else {
            None
        }
    } else {
        match find_char(chars, '|') {
            Some(i) => {
                proof {
                    crate::text::lemma_first_match(chars@, seq!['|'], 0);
                }
                let left = slice_of(chars, 0, i);
                let right = slice_of(chars, i + 1, chars.len());
                proof {
                    assert(left@ =~= chars@.take(i as int));
                    assert(right@ =~= chars@.skip(i + 1));
                }
                match sequence_in(&left) {
                    Some(a) => match sequence_in(&right) {
                        Some(b) => Some(Rule::Choice(a, b)),
                        None => None,
                    },
                    None => None,
                }
            },
            None => match sequence_in(chars) {
                Some(v) => Some(Rule::Sequence(v)),
                None => None,
            },
        }
    }
}

impl Rule {
    /// Reads the body of a rule line.
    pub fn parse(input: &str) -> (r: Option<Rule>)
        ensures
            match r {
                Some(rule) => rule_of(input@) == Some(rule@),
                None => rule_of(input@) is None,
            },
    {
        let chars = chars_of(input);
        rule_in(&chars)
    }

    /// Reads a list of rule indices.
    pub fn parse_sequence(input: &str) -> (r: Option<Vec<usize>>)
        ensures
            match r {
                Some(v) => sequence_of(input@) == Some(v@),
                None => sequence_of(input@) is None,
            },
    {
        let chars = chars_of(input);
        sequence_in(&chars)
    }
}

/// A rule table under construction.
pub struct Grammar {
    pub rules: Vec<Rule>,
}

impl Grammar {
    /// An empty table.
    pub fn new() -> (g: Grammar)
        ensures
            g.rules@.len() == 0,
    {
        Grammar { rules: Vec::new() }
    }

    /// Reads the line `<index>: <body>` and puts its rule into the table at
    /// that index. A line that denotes no rule leaves the table as it is.
    pub fn add_rule(&mut self, input: &str) -> (r: Option<()>)
        ensures
            match rule_line(input@) {
                Some((n, rule)) => r is Some && table(final(self).rules@) == placed(
                    table(old(self).rules@),
                    n,
                    rule,
                ),
                None => r is None && final(self).rules == old(self).rules,
            },
    {
        let chars = chars_of(input);
        let i = match find_char(&chars, ':') {
            Some(i) => i,
            None => {
                return None;
            },
        };
        proof {
            crate::text::lemma_first_match(chars@, seq![':'], 0);
        }
        let head = slice_of(&chars, 0, i);
        let tail = slice_of(&chars, i + 1, chars.len());
        proof {
            assert(head@ =~= chars@.take(i as int));
            assert(tail@ =~= chars@.skip(i + 1));
        }
        let rule_num = match parse_usize(&head) {
            Some(n) => n,
            None => {
                return None;
            },
        };
        if rule_num == usize::MAX {
            return None;
        }
        let body = trim(&tail);
        let rule = match rule_in(&body) {
            Some(rule) => rule,
            None => {
                return None;
            },
        };
        let ghost before = table(self.rules@);
        while self.rules.len() <= rule_num
            invariant
                rule_num < usize::MAX,
                before.len() <= self.rules@.len(),
                before.len() <= rule_num ==> self.rules@.len() <= rule_num + 1,
                before.len() > rule_num ==> table(self.rules@) == before,
                before.len() <= rule_num ==> table(self.rules@) =~= before + Seq::new(
                    (self.rules@.len() - before.len()) as nat,
                    |i: int| RuleView::Void,
                ),
            decreases rule_num + 1 - self.rules@.len(),
        {
            let ghost shorter = table(self.rules@);
            self.rules.push(Rule::Void);
            proof {
                assert(table(self.rules@) =~= shorter.push(RuleView::Void));
            }
        }
        let ghost grown = table(self.rules@);
        self.rules.set(rule_num, rule);
        proof {
            assert(table(self.rules@) =~= grown.update(rule_num as int, rule@));
            assert(table(self.rules@) =~= placed(before, rule_num, rule@));
        }
        Some(())
    }
}

/// Why a text could not be loaded: a line of its rule part denotes no rule.
#[derive(Clone, Debug)]
pub struct ParseError {
    /// The offending line.
    pub line: String,
}

impl ParseError {
    /// The error in words: `Invalid rule: ` and the offending line.
    pub fn message(&self) -> (m: String)
        ensures
            m@ == "Invalid rule: "@ + self.line@,
    {
        String::from_str("Invalid rule: ").concat(self.line.as_str())
    }
}

/// The number of lines before the first empty line.
pub open spec fn rule_part_len(lines: Seq<Seq<char>>) -> nat
    decreases lines.len(),
{
    if lines.len() == 0 || lines[0].len() == 0 {
        0
    } else {
        1 + rule_part_len(lines.drop_first())
    }
}

/// The table that the rule lines `lines` build, read from first to last, if
/// each of them denotes a rule.
pub open spec fn table_after(lines: Seq<Seq<char>>) -> Option<Seq<RuleView>>
    decreases lines.len(),
{
    if lines.len() == 0 {
        Some(Seq::empty())
    } else {
        match (table_after(lines.drop_last()), rule_line(lines.last())) {
            (Some(t), Some((n, rule))) => Some(placed(t, n, rule)),
            _ => None,
        }
    }
}

/// The lines of `lines` that are not empty, in order.
pub open spec fn non_empty(lines: Seq<Seq<char>>) -> Seq<Seq<char>>
    decreases lines.len(),
{
    if lines.len() == 0 {
        Seq::empty()
    } else if lines.last().len() == 0 {
        non_empty(lines.drop_last())
    } else {
        non_empty(lines.drop_last()).push(lines.last())
    }
}

/// `bad` is the first of `lines` that denotes no rule.
pub open spec fn first_bad_line(lines: Seq<Seq<char>>, bad: Seq<char>) -> bool {
    exists|i: int|
        0 <= i < lines.len() && #[trigger] lines[i] == bad && rule_line(bad) is None && forall|
            j: int,
        |
            0 <= j < i ==> rule_line(#[trigger] lines[j]) is Some
}

/// The rule part ends at the first empty line.
pub proof fn lemma_rule_part_len(lines: Seq<Seq<char>>, n: int)
    requires
        0 <= n <= lines.len(),
        forall|i: int| 0 <= i < n ==> (#[trigger] lines[i]).len() > 0,
        n < lines.len() ==> lines[n].len() == 0,
    ensures
        rule_part_len(lines) == n,
    decreases n,
{
    if n > 0 {
        let t = lines.drop_first();
        assert forall|i: int| 0 <= i < n - 1 implies (#[trigger] t[i]).len() > 0 by {
            assert(t[i] == lines[i + 1]);
        }
        lemma_rule_part_len(t, n - 1);
    }
}

/// A table is built only if every line denotes a rule.
pub proof fn lemma_table_after(lines: Seq<Seq<char>>)
    ensures
        table_after(lines) is Some <==> forall|j: int|
            0 <= j < lines.len() ==> rule_line(#[trigger] lines[j]) is Some,
    decreases lines.len(),
{
    if lines.len() > 0 {
        let head = lines.drop_last();
        lemma_table_after(head);
        if table_after(lines) is Some {
            assert forall|j: int| 0 <= j < lines.len() implies rule_line(
                #[trigger] lines[j],
            ) is Some by {
                if j < head.len() {
                    assert(head[j] == lines[j]);
                }
            }
        }
        if forall|j: int| 0 <= j < lines.len() ==> rule_line(#[trigger] lines[j]) is Some {
            assert forall|j: int| 0 <= j < head.len() implies rule_line(
                #[trigger] head[j],
            ) is Some by {
                assert(head[j] == lines[j]);
            }
            assert(rule_line(lines[lines.len() - 1]) is Some);
        }
    }
}

/// Reads a text of rule lines, an empty line, and words to match. Gives the
/// rule table and the words, or the first rule line that denotes no rule.
/// Empty lines after the first are passed over.
pub fn load(lines: &Vec<String>) -> (r: Result<(Vec<Rule>, Vec<String>), ParseError>)
    ensures
        ({
            let all = line_texts(lines@);
            let k = rule_part_len(all) as int;
            match r {
                Ok((rules, input)) => table_after(all.take(k)) == Some(table(rules@)) && line_texts(
                    input@,
                ) == non_empty(all.skip(k)),
                Err(e) => table_after(all.take(k)) is None && first_bad_line(all.take(k), e.line@),
            }
        }),
{
    let mut grammar = Grammar::new();
    let mut input: Vec<String> = Vec::new();
    let mut in_grammar = true;
    let ghost all = line_texts(lines@);
    let ghost mut k: int = 0;
    let n = lines.len();
    let mut i: usize = 0;
    proof {
        assert(all.take(0) =~= Seq::<Seq<char>>::empty());
        assert(table(grammar.rules@) =~= Seq::<RuleView>::empty());
        assert(line_texts(input@) =~= Seq::<Seq<char>>::empty());
    }
    while i < n
        invariant
            n == lines@.len(),
            all == line_texts(lines@),
            i <= n,
            in_grammar ==> k == i && forall|j: int| 0 <= j < i ==> (#[trigger] all[j]).len() > 0,
            !in_grammar ==> 0 <= k < i && rule_part_len(all) == k,
            table_after(all.take(k)) == Some(table(grammar.rules@)),
            line_texts(input@) == non_empty(all.subrange(k, i as int)),
        decreases n - i,
    {
        let s = &lines[i];
        let ghost seen = all.subrange(k, i as int);
        let ghost more = all.subrange(k, i + 1);
        proof {
            assert(all[i as int] == s@);
            assert(more.drop_last() =~= seen);
            assert(more.last() == s@);
        }
        if s.as_str().is_empty() {
            if in_grammar {
                proof {
                    lemma_rule_part_len(all, i as int);
                    assert(all.subrange(k, i + 1) =~= seq![s@]);
                    assert(seq![s@].drop_last() =~= Seq::<Seq<char>>::empty());
                }
            }
            in_grammar = false;
        } else if in_grammar {
            let ghost head = all.take(i as int);
            let ghost next = all.take(i + 1);
            proof {
                assert(next.drop_last() =~= head);
                assert(next.last() == s@);
                assert(all.subrange(i + 1, i + 1) =~= Seq::<Seq<char>>::empty());
            }
            if grammar.add_rule(s.as_str()).is_none() {
                proof {
                    lemma_bad_line_in_rule_part(all, i as int);
                }
                return Err(ParseError { line: s.clone() });
            }
            proof {
                k = k + 1;
            }
        } else {
            let ghost shorter = line_texts(input@);
            input.push(s.clone());
            proof {
                assert(line_texts(input@) =~= shorter.push(s@));
            }
        }
        i += 1;
    }
    proof {
        if in_grammar {
            lemma_rule_part_len(all, n as int);
        }
        assert(all.subrange(k, n as int) =~= all.skip(k));
    }
    Ok((grammar.rules, input))
}

/// If the lines before `i` are not empty and denote rules, and line `i` is
/// not empty and denotes none, it is the first bad line of the rule part.
pub proof fn lemma_bad_line_in_rule_part(all: Seq<Seq<char>>, i: int)
    requires
        0 <= i < all.len(),
        forall|j: int| 0 <= j <= i ==> (#[trigger] all[j]).len() > 0,
        table_after(all.take(i)) is Some,
        rule_line(all[i]) is None,
    ensures
        table_after(all.take(rule_part_len(all) as int)) is None,
        first_bad_line(all.take(rule_part_len(all) as int), all[i]),
        i < rule_part_len(all) <= all.len(),
{
    lemma_rule_part_bounds(all, i);
    let k = rule_part_len(all) as int;
    let part = all.take(k);
    lemma_table_after(part);
    lemma_table_after(all.take(i));
    assert(part[i] == all[i]);
    assert forall|j: int| 0 <= j < i implies rule_line(#[trigger] part[j]) is Some by {
        assert(all.take(i)[j] == all[j]);
        assert(rule_line(all.take(i)[j]) is Some);
    }
}

/// The rule part holds every line up to the first empty one.
pub proof fn lemma_rule_part_bounds(all: Seq<Seq<char>>, i: int)
    requires
        0 <= i < all.len(),
        forall|j: int| 0 <= j <= i ==> (#[trigger] all[j]).len() > 0,
    ensures
        i < rule_part_len(all) <= all.len(),
    decreases i,
{
    assert(all[0].len() > 0);
    let t = all.drop_first();
    if i > 0 {
        assert forall|j: int| 0 <= j <= i - 1 implies (#[trigger] t[j]).len() > 0 by {
            assert(t[j] == all[j + 1]);
        }
        lemma_rule_part_bounds(t, i - 1);
    } else {
        lemma_rule_part_upper(t);
    }
}

/// The rule part is no longer than the text.
pub proof fn lemma_rule_part_upper(all: Seq<Seq<char>>)
    ensures
        rule_part_len(all) <= all.len(),
    decreases all.len(),
{
    if all.len() > 0 && all[0].len() > 0 {
        lemma_rule_part_upper(all.drop_first());
    }
}

} // verus!
