//! Answers to 26 questions, held as the bits of a number.

use vstd::prelude::*;
use crate::text::chars_of;

verus! {

/// The number of bits of `n` that are set.
pub open spec fn bits_set(n: u32) -> nat
    decreases n,
{
    if n == 0 {
        0
    } else {
        (n % 2) as nat + bits_set(n / 2)
    }
}

/// Clearing the lowest bit that is set leaves one bit fewer.
pub proof fn lemma_lowest_bit(n: u32)
    requires
        n > 0,
    ensures
        bits_set(n) == 1 + bits_set(n & ((n - 1) as u32)),
    decreases n,
{
    let m = (n - 1) as u32;
    let cleared = n & m;
    if n % 2 == 1 {
        assert(cleared == m) by (bit_vector)
            requires
                n % 2 == 1,
                m == n - 1,
                cleared == n & m,
        ;
        assert(m % 2 == 0 && m / 2 == n / 2);
        if m > 0 {
        } else {
            assert(bits_set(0) == 0);
        }
    } else {
        let h = n / 2;
        let hm = (h - 1) as u32;
        assert(cleared % 2 == 0 && cleared / 2 == (h & hm)) by (bit_vector)
            requires
                n % 2 == 0,
                n > 0,
                m == n - 1,
                cleared == n & m,
                h == n / 2,
                hm == h - 1,
        ;
        lemma_lowest_bit(h);
        if cleared == 0 {
            assert(bits_set(h & hm) == 0);
        }
    }
}

/// No more bits are set than the number says.
pub proof fn lemma_bits_bound(n: u32)
    ensures
        bits_set(n) <= n,
    decreases n,
{
    if n != 0 {
        lemma_bits_bound(n / 2);
    }
}

/// The number of bits of `n` that are set.
pub fn count_bits(n: u32) -> (c: u32)
    ensures
        c == bits_set(n),
{
    let mut bits: u32 = n;
    let mut c: u32 = 0;
    proof {
        lemma_bits_bound(n);
    }
    while bits != 0
        invariant
            c + bits_set(bits) == bits_set(n),
            bits_set(n) <= u32::MAX,
        decreases bits_set(bits),
    {
        proof {
            lemma_lowest_bit(bits);
        }
        c += 1;
        bits &= bits - 1;
    }
    c
}

/// The number of bits that are set in all of `groups` together.
pub open spec fn total_bits(groups: Seq<u32>) -> nat
    decreases groups.len(),
{
    if groups.len() == 0 {
        0
    } else {
        total_bits(groups.drop_last()) + bits_set(groups.last())
    }
}

/// A beginning of a list has no more bits set than the list.
pub proof fn lemma_total_grows(groups: Seq<u32>, k: int)
    requires
        0 <= k <= groups.len(),
    ensures
        total_bits(groups.take(k)) <= total_bits(groups),
    decreases groups.len(),
{
    if k == groups.len() {
        assert(groups.take(k) =~= groups);
    } else {
        lemma_total_grows(groups.drop_last(), k);
        assert(groups.drop_last().take(k) =~= groups.take(k));
    }
}

/// The number of answers of all groups together.
pub fn count_answers(groups: &[u32]) -> (total: u32)
    requires
        total_bits(groups@) <= u32::MAX,
    ensures
        total == total_bits(groups@),
{
    let mut sum: u32 = 0;
    let mut i: usize = 0;
    proof {
        assert(groups@.take(0) =~= Seq::<u32>::empty());
    }
    while i < groups.len()
        invariant
            i <= groups@.len(),
            total_bits(groups@) <= u32::MAX,
            sum == total_bits(groups@.take(i as int)),
        decreases groups@.len() - i,
    {
        proof {
            assert(groups@.take(i + 1).drop_last() =~= groups@.take(i as int));
            assert(groups@.take(i + 1).last() == groups@[i as int]);
            lemma_total_grows(groups@, i + 1);
        }
        sum = sum + count_bits(groups[i]);
        i += 1;
    }
    proof {
        assert(groups@.take(groups@.len() as int) =~= groups@);
    }
    sum
}

/// The answers that the letters of `s` give: bit 0 for `a`, bit 1 for `b`,
/// and so on to `z`. Other characters give no answer.
pub open spec fn answers_of(s: Seq<char>) -> u32
    decreases s.len(),
{
    if s.len() == 0 {
        0
    } else if 'a' <= s.last() <= 'z' {
        answers_of(s.drop_last()) | (1u32 << ((s.last() as u32 - 'a' as u32) as u32))
    } else {
        answers_of(s.drop_last())
    }
}

/// Reads the answers of one person.
pub fn answer_bits(line: &str) -> (bits: u32)
    ensures
        bits == answers_of(line@),
{
    let chars = chars_of(line);
    let mut answer_bits: u32 = 0;
    let mut i: usize = 0;
    proof {
        assert(chars@.take(0) =~= Seq::<char>::empty());
    }
    while i < chars.len()
        invariant
            chars@ == line@,
            i <= chars@.len(),
            answer_bits == answers_of(chars@.take(i as int)),
        decreases chars@.len() - i,
    {
        proof {
            assert(chars@.take(i + 1).drop_last() =~= chars@.take(i as int));
            assert(chars@.take(i + 1).last() == chars@[i as int]);
        }
        let ch = chars[i];
        if ch >= 'a' && ch <= 'z' {
            let shift: u32 = ch as u32 - 'a' as u32;
            answer_bits |= 1u32 << shift;
        }
        i += 1;
    }
    proof {
        assert(chars@.take(chars@.len() as int) =~= chars@);
    }
    answer_bits
}

/// What has been read of the groups: the groups that are complete, with the
/// answers that anyone and that everyone of the group gave, and the same for
/// the group that is being read.
pub struct Groups {
    pub any: Seq<u32>,
    pub all: Seq<u32>,
    pub any_now: u32,
    pub all_now: u32,
    pub in_group: bool,
}

/// The groups after the lines `lines`: a line that is not empty is a
/// person of the group, and an empty line ends the group.
pub open spec fn groups_after(lines: Seq<Seq<char>>) -> Groups
    decreases lines.len(),
{
    if lines.len() == 0 {
        Groups { any: Seq::empty(), all: Seq::empty(), any_now: 0, all_now: 0xFFFFFFFF, in_group: false }
    } else {
        let g = groups_after(lines.drop_last());
        let line = lines.last();
        if line.len() > 0 {
            Groups {
                any_now: g.any_now | answers_of(line),
                all_now: g.all_now & answers_of(line),
                in_group: true,
                ..g
            }
        } else if g.in_group {
            Groups {
                any: g.any.push(g.any_now),
                all: g.all.push(g.all_now),
                any_now: 0,
                all_now: 0xFFFFFFFF,
                in_group: false,
            }
        } else {
            g
        }
    }
}

/// The answers of each group: those that anyone and those that everyone of
/// the group gave. The last group need not end with an empty line.
pub open spec fn groups_of(lines: Seq<Seq<char>>) -> (Seq<u32>, Seq<u32>) {
    let g = groups_after(lines);
    if g.in_group {
        (g.any.push(g.any_now), g.all.push(g.all_now))
    } else {
        (g.any, g.all)
    }
}

/// Reads the answers of all groups.
pub fn group_answers(lines: &Vec<String>) -> (r: (Vec<u32>, Vec<u32>))
    ensures
        (r.0@, r.1@) == groups_of(crate::text::line_texts(lines@)),
{
    let ghost all = crate::text::line_texts(lines@);
    let mut answers_and: u32 = 0xFFFFFFFF;
    let mut answers_or: u32 = 0;
    let mut in_group = false;
    let mut groups_or: Vec<u32> = Vec::new();
    let mut groups_and: Vec<u32> = Vec::new();
    let mut i: usize = 0;
    proof {
        assert(all.take(0) =~= Seq::<Seq<char>>::empty());
    }
    while i < lines.len()
        invariant
            all == crate::text::line_texts(lines@),
            i <= lines@.len(),
            groups_after(all.take(i as int)) == (Groups {
                any: groups_or@,
                all: groups_and@,
                any_now: answers_or,
                all_now: answers_and,
                in_group,
            }),
        decreases lines@.len() - i,
    {
        proof {
            assert(all.take(i + 1).drop_last() =~= all.take(i as int));
            assert(all.take(i + 1).last() == lines@[i as int]@);
        }
        let s = lines[i].as_str();
        if !s.is_empty() {
            let answer_bits = answer_bits(s);
            answers_or |= answer_bits;
            answers_and &= answer_bits;
            in_group = true;
        } else if in_group {
            groups_or.push(answers_or);
            groups_and.push(answers_and);
            answers_and = 0xFFFFFFFF;
            answers_or = 0;
            in_group = false;
        }
        i += 1;
    }
    proof {
        assert(all.take(lines@.len() as int) =~= all);
    }
    if in_group {
        groups_or.push(answers_or);
        groups_and.push(answers_and);
    }
    (groups_or, groups_and)
}

} // verus!
