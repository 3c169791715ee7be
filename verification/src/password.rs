//! Passwords and the policies they are held to.

use vstd::prelude::*;
use crate::text::{
    chars_of, count_of, split_first, split_string, trim_str, trimmed, u32_of,
    unsigned_within,
};

verus! {

/// A character and two numbers: how often the character may occur, or the
/// two places at one of which it has to stand.
#[derive(Clone, Copy, Debug, PartialEq, Eq, Structural)]
pub struct PasswordPolicy {
    pub ch: char,
    pub min_count: u32,
    pub max_count: u32,
}

/// Whether the character of the policy occurs in the password at least
/// `min_count` and at most `max_count` times.
pub fn is_valid_password(policy: &PasswordPolicy, password: &str) -> (r: bool)
    requires
        password@.len() <= u32::MAX,
    ensures
        r == (policy.min_count <= count_of(password@, policy.ch) <= policy.max_count),
{
    let chars = chars_of(password);
    let mut actual_count: u32 = 0;
    let mut i: usize = 0;
    proof {
        assert(chars@.take(0) =~= Seq::<char>::empty());
    }
    while i < chars.len()
        invariant
            chars@ == password@,
            chars@.len() <= u32::MAX,
            i <= chars@.len(),
            actual_count == count_of(chars@.take(i as int), policy.ch),
            actual_count <= i,
        decreases chars@.len() - i,
    {
        proof {
            assert(chars@.take(i + 1).drop_last() =~= chars@.take(i as int));
            assert(chars@.take(i + 1).last() == chars@[i as int]);
        }
        if chars[i] == policy.ch {
            actual_count += 1;
        }
        i += 1;
    }
    proof {
        assert(chars@.take(chars@.len() as int) =~= chars@);
    }
    actual_count >= policy.min_count && actual_count <= policy.max_count
}

/// Whether the character of the policy stands at exactly one of the places
/// `min_count` and `max_count` of the password, counted from 1. A place
/// beyond the end of the password makes the password invalid.
pub fn is_valid_password2(policy: &PasswordPolicy, password: &str) -> (r: bool)
    requires
        policy.min_count >= 1,
        policy.max_count >= 1,
    ensures
        r == {
            let i = policy.min_count - 1;
            let j = policy.max_count - 1;
            &&& i < password@.len()
            &&& j < password@.len()
            &&& (password@[i] == policy.ch) != (password@[j] == policy.ch)
        },
{
    let i = (policy.min_count - 1) as usize;
    let j = (policy.max_count - 1) as usize;
    let chars = chars_of(password);
    if i < chars.len() {
        let ch1 = chars[i];
        if j < chars.len() {
            let ch2 = chars[j];
            return (ch1 == policy.ch) != (ch2 == policy.ch);
        }
    }
    false
}

/// The first character of `s`.
pub fn string_to_char(s: &str) -> (r: Option<char>)
    ensures
        r == if s@.len() > 0 {
            Some(s@[0])
        } else {
            None
        },
{
    let chars = chars_of(s);
    if chars.len() > 0 {
        Some(chars[0])
    } else {
        None
    }
}

/// The policy that `<min>-<max> <ch>` denotes.
pub open spec fn policy_of(s: Seq<char>) -> Option<PasswordPolicy> {
    match split_first(s, seq!['-']) {
        Some((field_min, right)) => match split_first(right, seq![' ']) {
            Some((field_max, field_ch)) => match (
                unsigned_within(field_min, u32::MAX as nat),
                unsigned_within(field_max, u32::MAX as nat),
            ) {
                (Some(lo), Some(hi)) => if field_ch.len() > 0 {
                    Some(
                        PasswordPolicy {
                            ch: field_ch[0],
                            min_count: lo as u32,
                            max_count: hi as u32,
                        },
                    )
                } else {
                    None
                },
                _ => None,
            },
            None => None,
        },
        None => None,
    }
}

/// Reads a policy of the form `<min>-<max> <ch>`.
pub fn parse_password_policy(s: &str) -> (r: Option<PasswordPolicy>)
    ensures
        r == policy_of(s@),
{
    let (field_min, right) = match split_string(s, '-') {
        Some(p) => p,
        None => {
            return None;
        },
    };
    let (field_max, field_ch) = match split_string(right, ' ') {
        Some(p) => p,
        None => {
            return None;
        },
    };
    let ch = match string_to_char(field_ch) {
        Some(ch) => ch,
        None => {
            return None;
        },
    };
    let min_count = match u32_of(field_min) {
        Some(n) => n,
        None => {
            return None;
        },
    };
    let max_count = match u32_of(field_max) {
        Some(n) => n,
        None => {
            return None;
        },
    };
    Some(PasswordPolicy { ch, min_count, max_count })
}

/// The policy and the password that `<policy>: <password>` denotes.
pub open spec fn line_of(line: Seq<char>) -> Option<(PasswordPolicy, Seq<char>)> {
    match split_first(line, seq![':']) {
        Some((policy, password)) => match policy_of(trimmed(policy)) {
            Some(p) => Some((p, trimmed(password))),
            None => None,
        },
        None => None,
    }
}

/// Reads a line of the form `<policy>: <password>`.
pub fn parse_line<'a>(line: &'a str) -> (r: Option<(PasswordPolicy, &'a str)>)
    ensures
        match r {
            Some((policy, password)) => line_of(line@) == Some((policy, password@)),
            None => line_of(line@) is None,
        },
{
    let (policy, password) = match split_string(line, ':') {
        Some(p) => p,
        None => {
            return None;
        },
    };
    match parse_password_policy(trim_str(policy)) {
        Some(p) => Some((p, trim_str(password))),
        None => None,
    }
}

} // verus!
