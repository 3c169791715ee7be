//! Helpers for reading characters, fields and numbers out of text.

use vstd::prelude::*;
use vstd::string::{StrSliceExecFns, StringExecFns};

verus! {

/// Collects the characters of `s` into a vector.
pub fn chars_of(s: &str) -> (v: Vec<char>)
    ensures
        v@ == s@,
{
    let mut v: Vec<char> = Vec::new();
    for c in it: s.chars()
        invariant
            v@ == it.seq().take(it.index()),
    {
        v.push(c);
    }
    v
}

/// `c` is white space: a character with the Unicode property `White_Space`.
pub open spec fn is_space(c: char) -> bool {
    ||| '\u{9}' <= c <= '\u{d}'
    ||| c == ' '
    ||| c == '\u{85}'
    ||| c == '\u{a0}'
    ||| c == '\u{1680}'
    ||| '\u{2000}' <= c <= '\u{200a}'
    ||| c == '\u{2028}'
    ||| c == '\u{2029}'
    ||| c == '\u{202f}'
    ||| c == '\u{205f}'
    ||| c == '\u{3000}'
}

/// Whether `c` is white space.
pub fn space(c: char) -> (r: bool)
    ensures
        r == is_space(c),
{
    ('\u{9}' <= c && c <= '\u{d}') || c == ' ' || c == '\u{85}' || c == '\u{a0}' || c == '\u{1680}'
        || ('\u{2000}' <= c && c <= '\u{200a}') || c == '\u{2028}' || c == '\u{2029}' || c
        == '\u{202f}' || c == '\u{205f}' || c == '\u{3000}'
}

/// The number of white-space characters at the start of `s`.
pub open spec fn leading_spaces(s: Seq<char>) -> nat
    decreases s.len(),
{
    if s.len() == 0 || !is_space(s[0]) {
        0
    } else {
        1 + leading_spaces(s.drop_first())
    }
}

/// The number of white-space characters at the end of `s`.
pub open spec fn trailing_spaces(s: Seq<char>) -> nat
    decreases s.len(),
{
    if s.len() == 0 || !is_space(s.last()) {
        0
    } else {
        1 + trailing_spaces(s.drop_last())
    }
}

/// `s` without the white space at its start and at its end.
pub open spec fn trimmed(s: Seq<char>) -> Seq<char> {
    if leading_spaces(s) == s.len() {
        Seq::empty()
    } else {
        s.subrange(leading_spaces(s) as int, s.len() - trailing_spaces(s))
    }
}

/// The leading white space of `s` goes on as long as white space follows.
pub proof fn lemma_leading_spaces(s: Seq<char>, n: int)
    requires
        0 <= n <= s.len(),
        forall|i: int| 0 <= i < n ==> is_space(#[trigger] s[i]),
        n < s.len() ==> !is_space(s[n]),
    ensures
        leading_spaces(s) == n,
    decreases n,
{
    if n > 0 {
        let t = s.drop_first();
        assert forall|i: int| 0 <= i < n - 1 implies is_space(#[trigger] t[i]) by {
            assert(t[i] == s[i + 1]);
        }
        lemma_leading_spaces(t, n - 1);
    }
}

/// The trailing white space of `s` begins where only white space follows.
pub proof fn lemma_trailing_spaces(s: Seq<char>, n: int)
    requires
        0 <= n <= s.len(),
        forall|i: int| s.len() - n <= i < s.len() ==> is_space(#[trigger] s[i]),
        n < s.len() ==> !is_space(s[s.len() - n - 1]),
    ensures
        trailing_spaces(s) == n,
    decreases n,
{
    if n > 0 {
        let t = s.drop_last();
        assert forall|i: int| t.len() - (n - 1) <= i < t.len() implies is_space(
            #[trigger] t[i],
        ) by {
            assert(t[i] == s[i]);
        }
        lemma_trailing_spaces(t, n - 1);
    }
}

/// A copy of the characters `from..to` of `s`.
pub fn slice_of(s: &Vec<char>, from: usize, to: usize) -> (v: Vec<char>)
    requires
        from <= to <= s@.len(),
    ensures
        v@ == s@.subrange(from as int, to as int),
{
    let mut v: Vec<char> = Vec::new();
    let mut i: usize = from;
    while i < to
        invariant
            from <= i <= to <= s@.len(),
            v@ == s@.subrange(from as int, i as int),
        decreases to - i,
    {
        v.push(s[i]);
        proof {
            assert(s@.subrange(from as int, i + 1) =~= s@.subrange(from as int, i as int).push(
                s@[i as int],
            ));
        }
        i += 1;
    }
    v
}

/// `s` without the white space at its start and at its end.
pub fn trim(s: &Vec<char>) -> (v: Vec<char>)
    ensures
        v@ == trimmed(s@),
{
    let n = s.len();
    let mut a: usize = 0;
    while a < n && space(s[a])
        invariant
            a <= n == s@.len(),
            forall|i: int| 0 <= i < a ==> is_space(#[trigger] s@[i]),
        decreases n - a,
    {
        a += 1;
    }
    proof {
        lemma_leading_spaces(s@, a as int);
    }
    if a == n {
        return Vec::new();
    }
    let mut b: usize = n;
    while b > a && space(s[b - 1])
        invariant
            a <= b <= n == s@.len(),
            a < n,
            !is_space(s@[a as int]),
            forall|i: int| b <= i < n ==> is_space(#[trigger] s@[i]),
        decreases b,
    {
        b -= 1;
    }
    proof {
        lemma_trailing_spaces(s@, n - b);
    }
    slice_of(s, a, b)
}

/// `pat` stands in `s` at index `i`.
pub open spec fn occurs_at(s: Seq<char>, pat: Seq<char>, i: int) -> bool {
    0 <= i && i + pat.len() <= s.len() && s.subrange(i, i + pat.len()) =~= pat
}

/// The first index at or after `from` at which `pat` stands in `s`.
pub open spec fn first_match_from(s: Seq<char>, pat: Seq<char>, from: int) -> Option<int>
    decreases s.len() - from,
{
    if from < 0 || from + pat.len() > s.len() {
        None
    } else if occurs_at(s, pat, from) {
        Some(from)
    } else {
        first_match_from(s, pat, from + 1)
    }
}

/// The first index at which `pat` stands in `s`.
pub open spec fn first_match(s: Seq<char>, pat: Seq<char>) -> Option<int> {
    first_match_from(s, pat, 0)
}

/// What `first_match_from` finds is the first occurrence, and it finds one
/// if there is any.
pub proof fn lemma_first_match(s: Seq<char>, pat: Seq<char>, from: int)
    requires
        0 <= from,
    ensures
        match first_match_from(s, pat, from) {
            Some(i) => from <= i && occurs_at(s, pat, i) && forall|j: int|
                from <= j < i ==> !occurs_at(s, pat, j),
            None => forall|j: int| from <= j ==> !occurs_at(s, pat, j),
        },
    decreases s.len() - from,
{
    if from + pat.len() <= s.len() && !occurs_at(s, pat, from) {
        lemma_first_match(s, pat, from + 1);
    }
}

/// Whether `pat` stands in `s` at index `i`.
fn matches_at(s: &Vec<char>, pat: &Vec<char>, i: usize) -> (r: bool)
    requires
        i + pat@.len() <= s@.len(),
    ensures
        r == occurs_at(s@, pat@, i as int),
{
    let m = pat.len();
    let mut k: usize = 0;
    while k < m
        invariant
            m == pat@.len(),
            i + m <= s.len(),
            k <= m,
            forall|j: int| 0 <= j < k ==> s@[i + j] == pat@[j],
        decreases m - k,
    {
        if s[i + k] != pat[k] {
            proof {
                assert(s@.subrange(i as int, i + m)[k as int] == s@[i + k]);
            }
            return false;
        }
        k += 1;
    }
    true
}

/// The first index at which `pat` stands in `s`, if there is one.
pub fn find(s: &Vec<char>, pat: &Vec<char>) -> (r: Option<usize>)
    ensures
        match r {
            Some(i) => first_match(s@, pat@) == Some(i as int),
            None => first_match(s@, pat@) is None,
        },
{
    let n = s.len();
    let m = pat.len();
    if m > n {
        return None;
    }
    let mut i: usize = 0;
    while i <= n - m
        invariant
            n == s@.len(),
            m == pat@.len(),
            m <= n,
            i <= n - m + 1,
            first_match(s@, pat@) == first_match_from(s@, pat@, i as int),
        decreases n - m + 1 - i,
    {
        if matches_at(s, pat, i) {
            return Some(i);
        }
        i += 1;
    }
    None
}

/// The first index at which the character `c` stands in `s`, if there is one.
pub fn find_char(s: &Vec<char>, c: char) -> (r: Option<usize>)
    ensures
        match r {
            Some(i) => first_match(s@, seq![c]) == Some(i as int) && i < s@.len() && s@[i as int]
                == c && forall|j: int| 0 <= j < i ==> s@[j] != c,
            None => first_match(s@, seq![c]) is None && forall|j: int|
                0 <= j < s@.len() ==> s@[j] != c,
        },
{
    let mut pat: Vec<char> = Vec::new();
    pat.push(c);
    proof {
        assert(pat@ =~= seq![c]);
        lemma_first_match(s@, seq![c], 0);
        assert forall|j: int| 0 <= j < s@.len() && !occurs_at(s@, seq![c], j) implies s@[j]
            != c by {
            if s@[j] == c {
                assert(s@.subrange(j, j + 1) =~= seq![c]);
            }
        }
        assert forall|j: int| occurs_at(s@, seq![c], j) implies 0 <= j < s@.len() && s@[j]
            == c by {
            assert(s@.subrange(j, j + 1)[0] == s@[j]);
        }
    }
    find(s, &pat)
}

/// The first index at or after `from` at which `pat` stands in `s`, if there is one.
pub fn find_from(s: &Vec<char>, pat: &Vec<char>, from: usize) -> (r: Option<usize>)
    requires
        from <= s@.len(),
    ensures
        match r {
            Some(i) => first_match_from(s@, pat@, from as int) == Some(i as int) && from <= i
                && i + pat@.len() <= s@.len(),
            None => first_match_from(s@, pat@, from as int) is None,
        },
{
    let n = s.len();
    let m = pat.len();
    if m > n - from {
        return None;
    }
    let mut i: usize = from;
    while i <= n - m
        invariant
            n == s@.len(),
            m == pat@.len(),
            from <= i,
            m <= n,
            i <= n - m + 1,
            first_match_from(s@, pat@, from as int) == first_match_from(s@, pat@, i as int),
        decreases n - m + 1 - i,
    {
        if matches_at(s, pat, i) {
            return Some(i);
        }
        i += 1;
    }
    None
}

/// The views of a list of character vectors.
pub open spec fn views(v: Seq<Vec<char>>) -> Seq<Seq<char>> {
    v.map_values(|x: Vec<char>| x@)
}

/// The pieces into which the occurrences of `pat` cut `s` from index `from`
/// on, taken from left to right without overlap.
pub open spec fn pieces_from(s: Seq<char>, pat: Seq<char>, from: int) -> Seq<Seq<char>>
    decreases s.len() - from,
{
    match first_match_from(s, pat, from) {
        Some(i) => if pat.len() > 0 && from <= i && i + pat.len() <= s.len() {
            seq![s.subrange(from, i)] + pieces_from(s, pat, i + pat.len())
        } else {
            seq![s.skip(from)]
        },
        None => seq![s.skip(from)],
    }
}

/// The pieces into which the occurrences of `pat` cut `s`.
pub open spec fn pieces(s: Seq<char>, pat: Seq<char>) -> Seq<Seq<char>> {
    pieces_from(s, pat, 0)
}

/// Cuts `s` at each occurrence of `pat`.
pub fn split(s: &Vec<char>, pat: &Vec<char>) -> (out: Vec<Vec<char>>)
    requires
        pat@.len() > 0,
    ensures
        views(out@) == pieces(s@, pat@),
        out@.len() >= 1,
{
    let mut out: Vec<Vec<char>> = Vec::new();
    let n = s.len();
    let mut from: usize = 0;
    proof {
        assert(views(out@) =~= Seq::<Seq<char>>::empty());
    }
    loop
        invariant_except_break
            from <= n,
            views(out@) + pieces_from(s@, pat@, from as int) =~= pieces(s@, pat@),
        invariant
            n == s@.len(),
            pat@.len() > 0,
        ensures
            views(out@) == pieces(s@, pat@),
            out@.len() >= 1,
        decreases n - from,
    {
        let ghost done = out@;
        match find_from(s, pat, from) {
            Some(i) => {
                let piece = slice_of(s, from, i);
                out.push(piece);
                proof {
                    assert(views(out@) =~= views(done).push(piece@));
                    assert(views(done).push(piece@) + pieces_from(s@, pat@, i + pat@.len())
                        =~= views(done) + (seq![piece@] + pieces_from(
                        s@,
                        pat@,
                        i + pat@.len(),
                    )));
                }
                from = i + pat.len();
            },
            None => {
                let piece = slice_of(s, from, n);
                out.push(piece);
                proof {
                    assert(s@.subrange(from as int, n as int) =~= s@.skip(from as int));
                    assert(views(out@) =~= views(done).push(piece@));
                    assert(views(done).push(piece@) =~= views(done) + seq![piece@]);
                }
                break;
            },
        }
    }
    out
}

/// `c` is a decimal digit.
pub open spec fn is_digit(c: char) -> bool {
    '0' <= c <= '9'
}

/// The value of the decimal digit `c`.
pub open spec fn digit_value(c: char) -> nat {
    (c as int - '0' as int) as nat
}

/// Every character of `s` is a decimal digit.
pub open spec fn all_digits(s: Seq<char>) -> bool {
    forall|i: int| 0 <= i < s.len() ==> is_digit(#[trigger] s[i])
}

/// The number that the digits `s` denote in decimal.
pub open spec fn digits_value(s: Seq<char>) -> nat
    decreases s.len(),
{
    if s.len() == 0 {
        0
    } else {
        digits_value(s.drop_last()) * 10 + digit_value(s.last())
    }
}

/// The number that `s` denotes: decimal digits, at least one, after at most
/// one `+`. Anything else denotes no number.
pub open spec fn unsigned_value(s: Seq<char>) -> Option<nat> {
    let body = if s.len() > 0 && s[0] == '+' {
        s.drop_first()
    } else {
        s
    };
    if body.len() > 0 && all_digits(body) {
        Some(digits_value(body))
    } else {
        None
    }
}

/// The number that `s` denotes if it is at most `max`.
pub open spec fn unsigned_within(s: Seq<char>, max: nat) -> Option<nat> {
    match unsigned_value(s) {
        Some(n) => if n <= max {
            Some(n)
        } else {
            None
        },
        None => None,
    }
}

/// The integer that `s` denotes: decimal digits, at least one, after at most
/// one sign.
pub open spec fn signed_value(s: Seq<char>) -> Option<int> {
    if s.len() > 0 && s[0] == '-' {
        let body = s.drop_first();
        if body.len() > 0 && all_digits(body) {
            Some(-(digits_value(body) as int))
        } else {
            None
        }
    } else {
        match unsigned_value(s) {
            Some(n) => Some(n as int),
            None => None,
        }
    }
}

/// The integer that `s` denotes if it lies in `min..=max`.
pub open spec fn signed_within(s: Seq<char>, min: int, max: int) -> Option<int> {
    match signed_value(s) {
        Some(n) => if min <= n <= max {
            Some(n)
        } else {
            None
        },
        None => None,
    }
}

/// More digits denote no smaller a number.
pub proof fn lemma_digits_grow(s: Seq<char>, i: int)
    requires
        0 <= i <= s.len(),
    ensures
        digits_value(s.take(i)) <= digits_value(s),
    decreases s.len() - i,
{
    if i < s.len() {
        lemma_digits_grow(s, i + 1);
        assert(s.take(i + 1).drop_last() =~= s.take(i));
    } else {
        assert(s.take(i) =~= s);
    }
}

/// The value of the digit `c`, if it is one.
pub fn digit_of(c: char) -> (r: Option<u8>)
    ensures
        match r {
            Some(d) => is_digit(c) && d == digit_value(c),
            None => !is_digit(c),
        },
{
    if '0' <= c && c <= '9' {
        Some(((c as u32) - ('0' as u32)) as u8)
    } else {
        None
    }
}

/// Reads the digits `s[from..]` as a number of at most `max`.
fn parse_digits(s: &Vec<char>, from: usize, max: u64) -> (r: Option<u64>)
    requires
        from <= s@.len(),
    ensures
        ({
            let body = s@.skip(from as int);
            r == if body.len() > 0 && all_digits(body) && digits_value(body) <= max {
                Some(digits_value(body) as u64)
            } else {
                None::<u64>
            }
        }),
{
    let n = s.len();
    let ghost body = s@.skip(from as int);
    if from == n {
        return None;
    }
    let mut acc: u64 = 0;
    let mut i: usize = from;
    proof {
        assert(body.take(0) =~= Seq::<char>::empty());
    }
    while i < n
        invariant
            from <= i <= n == s@.len(),
            body == s@.skip(from as int),
            all_digits(body.take(i - from)),
            acc == digits_value(body.take(i - from)),
            acc <= max,
        decreases n - i,
    {
        let ghost head = body.take(i - from);
        let ghost next = body.take(i - from + 1);
        proof {
            assert(next.drop_last() =~= head);
            assert(next.last() == s@[i as int]);
            lemma_digits_grow(body, i - from + 1);
        }
        match digit_of(s[i]) {
            Some(d) => {
                let wide: u128 = (acc as u128) * 10 + (d as u128);
                if wide > max as u128 {
                    return None;
                }
                acc = wide as u64;
                proof {
                    assert forall|j: int| 0 <= j < next.len() implies is_digit(
                        #[trigger] next[j],
                    ) by {
                        if j < head.len() {
                            assert(next[j] == head[j]);
                        }
                    }
                }
            },
            None => {
                proof {
                    assert(body[i - from] == s@[i as int]);
                }
                return None;
            },
        }
        i += 1;
    }
    proof {
        assert(body.take(n - from) =~= body);
    }
    Some(acc)
}

/// Reads `s` as a number of at most `max`.
pub fn parse_unsigned(s: &Vec<char>, max: u64) -> (r: Option<u64>)
    ensures
        match r {
            Some(n) => unsigned_within(s@, max as nat) == Some(n as nat),
            None => unsigned_within(s@, max as nat) is None,
        },
{
    let from: usize = if s.len() > 0 && s[0] == '+' {
        1
    } else {
        0
    };
    proof {
        assert(s@.skip(1) =~= s@.drop_first());
        assert(s@.skip(0) =~= s@);
    }
    parse_digits(s, from, max)
}

/// Reads `s` as a `u64`.
pub fn parse_u64(s: &Vec<char>) -> (r: Option<u64>)
    ensures
        match r {
            Some(n) => unsigned_within(s@, u64::MAX as nat) == Some(n as nat),
            None => unsigned_within(s@, u64::MAX as nat) is None,
        },
{
    parse_unsigned(s, u64::MAX)
}

/// Reads `s` as a `u32`.
pub fn parse_u32(s: &Vec<char>) -> (r: Option<u32>)
    ensures
        match r {
            Some(n) => unsigned_within(s@, u32::MAX as nat) == Some(n as nat),
            None => unsigned_within(s@, u32::MAX as nat) is None,
        },
{
    match parse_unsigned(s, u32::MAX as u64) {
        Some(n) => Some(n as u32),
        None => None,
    }
}

/// Reads `s` as a `usize`.
pub fn parse_usize(s: &Vec<char>) -> (r: Option<usize>)
    ensures
        match r {
            Some(n) => unsigned_within(s@, usize::MAX as nat) == Some(n as nat),
            None => unsigned_within(s@, usize::MAX as nat) is None,
        },
{
    match parse_unsigned(s, usize::MAX as u64) {
        Some(n) => Some(n as usize),
        None => None,
    }
}

/// Reads `s` as an `i32`.
pub fn parse_i32(s: &Vec<char>) -> (r: Option<i32>)
    ensures
        match r {
            Some(n) => signed_within(s@, i32::MIN as int, i32::MAX as int) == Some(n as int),
            None => signed_within(s@, i32::MIN as int, i32::MAX as int) is None,
        },
{
    if s.len() > 0 && s[0] == '-' {
        proof {
            assert(s@.skip(1) =~= s@.drop_first());
        }
        match parse_digits(s, 1, 0x8000_0000) {
            Some(n) => Some((-(n as i64)) as i32),
            None => None,
        }
    } else {
        match parse_unsigned(s, 0x7fff_ffff) {
            Some(n) => Some(n as i32),
            None => None,
        }
    }
}

/// The character of the decimal digit `d`.
pub open spec fn digit_char(d: nat) -> char {
    if d == 0 {
        '0'
    } else if d == 1 {
        '1'
    } else if d == 2 {
        '2'
    } else if d == 3 {
        '3'
    } else if d == 4 {
        '4'
    } else if d == 5 {
        '5'
    } else if d == 6 {
        '6'
    } else if d == 7 {
        '7'
    } else if d == 8 {
        '8'
    } else {
        '9'
    }
}

/// `n` written in decimal, without leading zeros.
pub open spec fn decimal(n: nat) -> Seq<char>
    decreases n,
{
    if n < 10 {
        seq![digit_char(n)]
    } else {
        decimal(n / 10).push(digit_char(n % 10))
    }
}

/// What is written in decimal is read back as the same number.
pub proof fn law_decimal_read_back(n: nat)
    ensures
        decimal(n).len() > 0,
        all_digits(decimal(n)),
        digits_value(decimal(n)) == n,
        unsigned_value(decimal(n)) == Some(n),
    decreases n,
{
    let s = decimal(n);
    if n < 10 {
        assert(s.drop_last() =~= Seq::<char>::empty());
        assert(digits_value(s.drop_last()) == 0);
        assert(s.last() == digit_char(n));
    } else {
        law_decimal_read_back(n / 10);
        assert(s.drop_last() =~= decimal(n / 10));
        assert(s.last() == digit_char(n % 10));
        assert forall|i: int| 0 <= i < s.len() implies is_digit(#[trigger] s[i]) by {
            if i < s.len() - 1 {
                assert(s[i] == decimal(n / 10)[i]);
            }
        }
    }
    assert(s[0] != '+');
}

/// The decimal digit `d` as a string.
fn digit_str(d: u64) -> (r: &'static str)
    requires
        d < 10,
    ensures
        r@ == seq![digit_char(d as nat)],
{
    proof {
        reveal_strlit("0");
        reveal_strlit("1");
        reveal_strlit("2");
        reveal_strlit("3");
        reveal_strlit("4");
        reveal_strlit("5");
        reveal_strlit("6");
        reveal_strlit("7");
        reveal_strlit("8");
        reveal_strlit("9");
    }
    let r = if d == 0 {
        "0"
    } else if d == 1 {
        "1"
    } else if d == 2 {
        "2"
    } else if d == 3 {
        "3"
    } else if d == 4 {
        "4"
    } else if d == 5 {
        "5"
    } else if d == 6 {
        "6"
    } else if d == 7 {
        "7"
    } else if d == 8 {
        "8"
    } else {
        "9"
    };
    assert(r@ =~= seq![digit_char(d as nat)]);
    r
}

/// `n` written in decimal.
pub fn decimal_string(n: u64) -> (r: String)
    ensures
        r@ == decimal(n as nat),
    decreases n,
{
    if n < 10 {
        String::from_str(digit_str(n))
    } else {
        let head = decimal_string(n / 10);
        let r = head.concat(digit_str(n % 10));
        proof {
            assert(r@ =~= decimal((n / 10) as nat).push(digit_char((n % 10) as nat)));
        }
        r
    }
}

/// Whether `s` reads the same as `word`.
pub fn same_text(s: &Vec<char>, word: &str) -> (r: bool)
    ensures
        r == (s@ == word@),
{
    let w = chars_of(word);
    if s.len() != w.len() {
        return false;
    }
    let mut i: usize = 0;
    while i < s.len()
        invariant
            w@ == word@,
            s@.len() == w@.len(),
            i <= s@.len(),
            forall|j: int| 0 <= j < i ==> s@[j] == w@[j],
        decreases s@.len() - i,
    {
        if s[i] != w[i] {
            return false;
        }
        i += 1;
    }
    proof {
        assert(s@ =~= w@);
    }
    true
}

/// The texts of a list of string slices.
pub open spec fn str_views(v: Seq<&str>) -> Seq<Seq<char>> {
    v.map_values(|x: &str| x@)
}

/// What stands before and after the first occurrence of `pat` in `s`.
pub open spec fn split_first(s: Seq<char>, pat: Seq<char>) -> Option<(Seq<char>, Seq<char>)> {
    match first_match(s, pat) {
        Some(i) => Some((s.take(i), s.skip(i + pat.len()))),
        None => None,
    }
}

/// `s` up to the first occurrence of `pat`, or all of it if there is none.
pub open spec fn cut_at(s: Seq<char>, pat: Seq<char>) -> Seq<char> {
    match first_match(s, pat) {
        Some(i) => s.take(i),
        None => s,
    }
}

/// Splits `s` at the first occurrence of `delim`.
pub fn split2<'a>(s: &'a str, delim: &str) -> (r: Option<(&'a str, &'a str)>)
    ensures
        match r {
            Some((a, b)) => split_first(s@, delim@) == Some((a@, b@)),
            None => split_first(s@, delim@) is None,
        },
{
    let chars = chars_of(s);
    let pat = chars_of(delim);
    match find_from(&chars, &pat, 0) {
        Some(i) => {
            let n = chars.len();
            let m = pat.len();
            assert(i + m <= n);
            let a = s.substring_char(0, i);
            let b = s.substring_char(i + m, n);
            proof {
                assert(a@ =~= s@.take(i as int));
                assert(b@ =~= s@.skip(i + pat@.len()));
            }
            Some((a, b))
        },
        None => None,
    }
}

/// `s` up to the first occurrence of `suffix`.
pub fn trim_from<'a>(s: &'a str, suffix: &str) -> (r: &'a str)
    ensures
        r@ == cut_at(s@, suffix@),
{
    let chars = chars_of(s);
    let pat = chars_of(suffix);
    match find_from(&chars, &pat, 0) {
        Some(i) => {
            let a = s.substring_char(0, i);
            proof {
                assert(a@ =~= s@.take(i as int));
            }
            a
        },
        None => s,
    }
}

/// Cuts `s` at each occurrence of `pat`.
pub fn split_str<'a>(s: &'a str, pat: &str) -> (out: Vec<&'a str>)
    requires
        pat@.len() > 0,
    ensures
        str_views(out@) == pieces(s@, pat@),
        out@.len() >= 1,
{
    let chars = chars_of(s);
    let p = chars_of(pat);
    let mut out: Vec<&'a str> = Vec::new();
    let n = chars.len();
    let mut from: usize = 0;
    proof {
        assert(str_views(out@) =~= Seq::<Seq<char>>::empty());
    }
    loop
        invariant_except_break
            from <= n,
            str_views(out@) + pieces_from(s@, pat@, from as int) =~= pieces(s@, pat@),
        invariant
            chars@ == s@,
            p@ == pat@,
            n == s@.len(),
            pat@.len() > 0,
        ensures
            str_views(out@) == pieces(s@, pat@),
            out@.len() >= 1,
        decreases n - from,
    {
        let ghost done = out@;
        match find_from(&chars, &p, from) {
            Some(i) => {
                let piece = s.substring_char(from, i);
                out.push(piece);
                proof {
                    assert(str_views(out@) =~= str_views(done).push(piece@));
                    assert(str_views(done).push(piece@) + pieces_from(s@, pat@, i + pat@.len())
                        =~= str_views(done) + (seq![piece@] + pieces_from(
                        s@,
                        pat@,
                        i + pat@.len(),
                    )));
                }
                let m = p.len();
                assert(i + m <= n);
                from = i + m;
            },
            None => {
                let piece = s.substring_char(from, n);
                out.push(piece);
                proof {
                    assert(s@.subrange(from as int, n as int) =~= s@.skip(from as int));
                    assert(str_views(out@) =~= str_views(done).push(piece@));
                    assert(str_views(done).push(piece@) =~= str_views(done) + seq![piece@]);
                }
                break;
            },
        }
    }
    out
}

/// Reads `s` as a `u32`.
pub fn u32_of(s: &str) -> (r: Option<u32>)
    ensures
        match r {
            Some(n) => unsigned_within(s@, u32::MAX as nat) == Some(n as nat),
            None => unsigned_within(s@, u32::MAX as nat) is None,
        },
{
    parse_u32(&chars_of(s))
}

/// Reads `s` as a `u64`.
pub fn u64_of(s: &str) -> (r: Option<u64>)
    ensures
        match r {
            Some(n) => unsigned_within(s@, u64::MAX as nat) == Some(n as nat),
            None => unsigned_within(s@, u64::MAX as nat) is None,
        },
{
    parse_u64(&chars_of(s))
}

/// Reads `s` as a `usize`.
pub fn usize_of(s: &str) -> (r: Option<usize>)
    ensures
        match r {
            Some(n) => unsigned_within(s@, usize::MAX as nat) == Some(n as nat),
            None => unsigned_within(s@, usize::MAX as nat) is None,
        },
{
    parse_usize(&chars_of(s))
}

/// Reads `s` as an `i32`.
pub fn i32_of(s: &str) -> (r: Option<i32>)
    ensures
        match r {
            Some(n) => signed_within(s@, i32::MIN as int, i32::MAX as int) == Some(n as int),
            None => signed_within(s@, i32::MIN as int, i32::MAX as int) is None,
        },
{
    parse_i32(&chars_of(s))
}

/// `s` without the white space at its start and at its end.
pub fn trim_str<'a>(s: &'a str) -> (r: &'a str)
    ensures
        r@ == trimmed(s@),
{
    let chars = chars_of(s);
    let n = chars.len();
    let mut a: usize = 0;
    while a < n && space(chars[a])
        invariant
            a <= n == chars@.len(),
            forall|i: int| 0 <= i < a ==> is_space(#[trigger] chars@[i]),
        decreases n - a,
    {
        a += 1;
    }
    proof {
        lemma_leading_spaces(chars@, a as int);
    }
    if a == n {
        let r = s.substring_char(n, n);
        proof {
            assert(r@ =~= Seq::<char>::empty());
        }
        return r;
    }
    let mut b: usize = n;
    while b > a && space(chars[b - 1])
        invariant
            a <= b <= n == chars@.len(),
            a < n,
            !is_space(chars@[a as int]),
            forall|i: int| b <= i < n ==> is_space(#[trigger] chars@[i]),
        decreases b,
    {
        b -= 1;
    }
    proof {
        lemma_trailing_spaces(chars@, n - b);
    }
    s.substring_char(a, b)
}

/// Splits `s` at the first occurrence of the character `delim`.
pub fn split_string<'a>(s: &'a str, delim: char) -> (r: Option<(&'a str, &'a str)>)
    ensures
        match r {
            Some((a, b)) => split_first(s@, seq![delim]) == Some((a@, b@)),
            None => split_first(s@, seq![delim]) is None,
        },
{
    let chars = chars_of(s);
    match find_char(&chars, delim) {
        Some(i) => {
            let n = chars.len();
            let a = s.substring_char(0, i);
            let b = s.substring_char(i + 1, n);
            proof {
                assert(a@ =~= s@.take(i as int));
                assert(b@ =~= s@.skip(i + 1));
            }
            Some((a, b))
        },
        None => None,
    }
}

/// The number of times that `c` occurs in `s`.
pub open spec fn count_of(s: Seq<char>, c: char) -> nat
    decreases s.len(),
{
    if s.len() == 0 {
        0
    } else {
        count_of(s.drop_last(), c) + if s.last() == c {
            1nat
        } else {
            0nat
        }
    }
}

/// The texts of a list of strings.
pub open spec fn line_texts(lines: Seq<String>) -> Seq<Seq<char>> {
    lines.map_values(|s: String| s@)
}

/// The numbers that the lines denote, in order; lines that denote no
/// number within `min..=max` are passed over.
pub open spec fn signed_in(lines: Seq<Seq<char>>, min: int, max: int) -> Seq<int>
    decreases lines.len(),
{
    if lines.len() == 0 {
        Seq::empty()
    } else {
        match signed_within(lines.last(), min, max) {
            Some(n) => signed_in(lines.drop_last(), min, max).push(n),
            None => signed_in(lines.drop_last(), min, max),
        }
    }
}

/// The numbers that the lines denote, in order; lines that denote no
/// number of at most `max` are passed over.
pub open spec fn unsigned_in(lines: Seq<Seq<char>>, max: nat) -> Seq<nat>
    decreases lines.len(),
{
    if lines.len() == 0 {
        Seq::empty()
    } else {
        match unsigned_within(lines.last(), max) {
            Some(n) => unsigned_in(lines.drop_last(), max).push(n),
            None => unsigned_in(lines.drop_last(), max),
        }
    }
}

/// Reads the lines that are numbers.
pub fn numbers_i32(lines: &Vec<String>) -> (v: Vec<i32>)
    ensures
        v@.map_values(|n: i32| n as int) == signed_in(
            line_texts(lines@),
            i32::MIN as int,
            i32::MAX as int,
        ),
{
    let ghost all = line_texts(lines@);
    let mut v: Vec<i32> = Vec::new();
    let mut i: usize = 0;
    proof {
        assert(all.take(0) =~= Seq::<Seq<char>>::empty());
        assert(v@.map_values(|n: i32| n as int) =~= Seq::<int>::empty());
    }
    while i < lines.len()
        invariant
            all == line_texts(lines@),
            i <= lines@.len(),
            v@.map_values(|n: i32| n as int) == signed_in(
                all.take(i as int),
                i32::MIN as int,
                i32::MAX as int,
            ),
        decreases lines@.len() - i,
    {
        proof {
            assert(all.take(i + 1).drop_last() =~= all.take(i as int));
            assert(all.take(i + 1).last() == lines@[i as int]@);
        }
        if let Some(n) = i32_of(lines[i].as_str()) {
            let ghost before = v@;
            v.push(n);
            proof {
                assert(v@.map_values(|n: i32| n as int) =~= before.map_values(
                    |n: i32| n as int,
                ).push(n as int));
            }
        }
        i += 1;
    }
    proof {
        assert(all.take(lines@.len() as int) =~= all);
    }
    v
}

/// Reads the lines that are numbers.
pub fn numbers_u64(lines: &Vec<String>) -> (v: Vec<u64>)
    ensures
        v@.map_values(|n: u64| n as nat) == unsigned_in(line_texts(lines@), u64::MAX as nat),
{
    let ghost all = line_texts(lines@);
    let mut v: Vec<u64> = Vec::new();
    let mut i: usize = 0;
    proof {
        assert(all.take(0) =~= Seq::<Seq<char>>::empty());
        assert(v@.map_values(|n: u64| n as nat) =~= Seq::<nat>::empty());
    }
    while i < lines.len()
        invariant
            all == line_texts(lines@),
            i <= lines@.len(),
            v@.map_values(|n: u64| n as nat) == unsigned_in(all.take(i as int), u64::MAX as nat),
        decreases lines@.len() - i,
    {
        proof {
            assert(all.take(i + 1).drop_last() =~= all.take(i as int));
            assert(all.take(i + 1).last() == lines@[i as int]@);
        }
        if let Some(n) = u64_of(lines[i].as_str()) {
            let ghost before = v@;
            v.push(n);
            proof {
                assert(v@.map_values(|n: u64| n as nat) =~= before.map_values(
                    |n: u64| n as nat,
                ).push(n as nat));
            }
        }
        i += 1;
    }
    proof {
        assert(all.take(lines@.len() as int) =~= all);
    }
    v
}

} // verus!
