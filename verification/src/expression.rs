//! Evaluates sums and products with brackets, with a stack of tokens.
//!
//! Without precedence the operators are applied from left to right. With
//! precedence a sum is worked out before a product.

use vstd::prelude::*;
use crate::text::chars_of;

verus! {

/// An operator.
#[derive(Clone, Copy, Debug, PartialEq, Eq, Structural)]
pub enum OpType {
    Add,
    Mul,
}

/// What the stack holds.
#[derive(Clone, Copy, Debug, PartialEq, Eq, Structural)]
pub enum Token {
    /// No token: what lies below the bottom of the stack.
    Empty,
    Operator(OpType),
    Number(u64),
    Open,
    Close,
}

/// Why an expression has no value.
#[derive(Clone, Copy, Debug, PartialEq, Eq, Structural)]
pub enum Fault {
    /// The expression is not well formed.
    Invalid,
    /// A sum or a product on the way does not fit in a `u64`.
    TooBig,
}

/// What the operator makes of two numbers.
pub open spec fn op_value(op: OpType, lhs: u64, rhs: u64) -> int {
    match op {
        OpType::Add => lhs + rhs,
        OpType::Mul => lhs * rhs,
    }
}

impl OpType {
    /// Applies the operator.
    pub fn eval(&self, lhs: u64, rhs: u64) -> (r: u64)
        requires
            op_value(*self, lhs, rhs) <= u64::MAX,
        ensures
            r == op_value(*self, lhs, rhs),
    {
        match self {
            OpType::Add => lhs + rhs,
            OpType::Mul => lhs * rhs,
        }
    }

    /// Applies the operator if the result fits.
    pub fn checked_eval(&self, lhs: u64, rhs: u64) -> (r: Option<u64>)
        ensures
            match r {
                Some(v) => v == op_value(*self, lhs, rhs),
                None => op_value(*self, lhs, rhs) > u64::MAX,
            },
    {
        match self {
            OpType::Add => lhs.checked_add(rhs),
            OpType::Mul => lhs.checked_mul(rhs),
        }
    }
}

/// The token `index` places below the top of `s`, or `Empty` below the bottom.
pub open spec fn frame_of(s: Seq<Token>, index: int) -> Token {
    if 0 <= index < s.len() {
        s[s.len() - 1 - index]
    } else {
        Token::Empty
    }
}

/// Where working out the top of the stack ends, and the fault that ended
/// it, if one did: while a number lies on an operator, the operator is
/// applied to the number below it and that number. Unless `force` is set, a
/// product is left standing. An operator without a number below it is a
/// fault, and so is a result that does not fit.
pub open spec fn reduced(s: Seq<Token>, force: bool) -> (Seq<Token>, Option<Fault>)
    decreases s.len(),
{
    match (frame_of(s, 0), frame_of(s, 1)) {
        (Token::Number(rhs), Token::Operator(op)) => {
            if !force && op == OpType::Mul {
                (s, None)
            } else {
                match frame_of(s, 2) {
                    Token::Number(lhs) => if op_value(op, lhs, rhs) > u64::MAX {
                        (s, Some(Fault::TooBig))
                    } else if s.len() >= 3 {
                        reduced(
                            s.take(s.len() - 3).push(Token::Number(op_value(op, lhs, rhs) as u64)),
                            force,
                        )
                    } else {
                        (s, Some(Fault::Invalid))
                    },
                    _ => (s, Some(Fault::Invalid)),
                }
            }
        },
        _ => (s, None),
    }
}

/// The stack after a closing bracket: everything down to the opening bracket
/// is worked out, and the bracket gives way to the value.
pub open spec fn group_closed(s: Seq<Token>, use_precedence: bool) -> (Seq<Token>, Option<Fault>) {
    let (t, fault) = reduced(s, true);
    if fault is Some {
        (t, fault)
    } else {
        match (frame_of(t, 0), frame_of(t, 1)) {
            (Token::Number(value), Token::Open) => reduced(
                t.take(t.len() - 2).push(Token::Number(value)),
                !use_precedence,
            ),
            _ => (t, Some(Fault::Invalid)),
        }
    }
}

/// The stack after an operator has been pushed. With precedence, a product
/// waits until what stands before it is worked out, as far as that goes.
pub open spec fn op_pushed(s: Seq<Token>, op: OpType, use_precedence: bool) -> (
    Seq<Token>,
    Option<Fault>,
) {
    if use_precedence && op == OpType::Mul {
        let (t, fault) = reduced(s, true);
        if fault == Some(Fault::TooBig) {
            (t, fault)
        } else {
            (t.push(Token::Operator(op)), None)
        }
    } else {
        (s.push(Token::Operator(op)), None)
    }
}

/// The stack after the token `tok` has been taken in.
pub open spec fn token_added(s: Seq<Token>, tok: Token, use_precedence: bool) -> (
    Seq<Token>,
    Option<Fault>,
) {
    match tok {
        Token::Empty => (s, Some(Fault::Invalid)),
        Token::Operator(op) => op_pushed(s, op, use_precedence),
        Token::Number(value) => reduced(s.push(Token::Number(value)), !use_precedence),
        Token::Open => (s.push(Token::Open), None),
        Token::Close => group_closed(s, use_precedence),
    }
}

/// The token that the character stands for: an operator, a bracket or a
/// digit. A blank stands for nothing, and so does any other character, which
/// makes the expression invalid.
pub open spec fn token_of(c: char) -> Token {
    if c == '+' {
        Token::Operator(OpType::Add)
    } else if c == '*' {
        Token::Operator(OpType::Mul)
    } else if c == '(' {
        Token::Open
    } else if c == ')' {
        Token::Close
    } else if '0' <= c <= '9' {
        Token::Number((c as int - '0' as int) as u64)
    } else {
        Token::Empty
    }
}

/// The stack after the characters `expr` have been read, from an empty
/// stack, or the first fault on the way. Blanks are passed over.
pub open spec fn stack_after(expr: Seq<char>, use_precedence: bool) -> Result<Seq<Token>, Fault>
    decreases expr.len(),
{
    if expr.len() == 0 {
        Ok(Seq::empty())
    } else {
        match stack_after(expr.drop_last(), use_precedence) {
            Ok(s) => if expr.last() == ' ' {
                Ok(s)
            } else {
                let (t, fault) = token_added(s, token_of(expr.last()), use_precedence);
                match fault {
                    Some(f) => Err(f),
                    None => Ok(t),
                }
            },
            Err(f) => Err(f),
        }
    }
}

/// The value that is left when the stack is worked out: the one number on it.
pub open spec fn result_of(s: Seq<Token>) -> Result<u64, Fault> {
    let (t, fault) = reduced(s, true);
    match fault {
        Some(f) => Err(f),
        None => if t.len() == 1 {
            match t[0] {
                Token::Number(n) => Ok(n),
                _ => Err(Fault::Invalid),
            }
        } else {
            Err(Fault::Invalid)
        },
    }
}

/// The value of the expression, or why it has none.
pub open spec fn value_of(expr: Seq<char>, use_precedence: bool) -> Result<u64, Fault> {
    match stack_after(expr, use_precedence) {
        Ok(s) => result_of(s),
        Err(f) => Err(f),
    }
}

/// What an operation on the stack gives back for a fault or none.
pub open spec fn outcome(fault: Option<Fault>) -> Result<(), Fault> {
    match fault {
        Some(f) => Err(f),
        None => Ok(()),
    }
}

/// The stack of the evaluator.
pub struct Stack {
    pub stack: Vec<Token>,
    pub use_precedence: bool,
}

impl Stack {
    /// An empty stack.
    pub fn new(use_precedence: bool) -> (s: Stack)
        ensures
            s.stack@.len() == 0,
            s.use_precedence == use_precedence,
    {
        Stack { stack: Vec::new(), use_precedence }
    }

    /// The token `index` places below the top, or `Empty` below the bottom.
    pub fn frame(&self, index: usize) -> (t: Token)
        ensures
            t == frame_of(self.stack@, index as int),
    {
        let c = self.stack.len();
        if index < c {
            self.stack[c - 1 - index]
        } else {
            Token::Empty
        }
    }

    /// The token on top of the stack.
    pub fn top(&self) -> (t: Token)
        ensures
            t == frame_of(self.stack@, 0),
    {
        self.frame(0)
    }

    /// Puts a number on the stack.
    pub fn push_number(&mut self, value: u64)
        ensures
            final(self).use_precedence == old(self).use_precedence,
            final(self).stack@ == old(self).stack@.push(Token::Number(value)),
    {
        self.stack.push(Token::Number(value));
    }

    /// Puts an operator on the stack. With precedence, what stands before a
    /// product is worked out first.
    pub fn push_op(&mut self, op: OpType) -> (r: Result<(), Fault>)
        ensures
            final(self).use_precedence == old(self).use_precedence,
            final(self).stack@ == op_pushed(old(self).stack@, op, old(self).use_precedence).0,
            r == outcome(op_pushed(old(self).stack@, op, old(self).use_precedence).1),
    {
        if self.use_precedence && op == OpType::Mul {
            match self.reduce_all() {
                Err(Fault::TooBig) => {
                    return Err(Fault::TooBig);
                },
                _ => {},
            }
        }
        self.stack.push(Token::Operator(op));
        Ok(())
    }

    /// Puts an opening bracket on the stack.
    pub fn push_group(&mut self)
        ensures
            final(self).use_precedence == old(self).use_precedence,
            final(self).stack@ == old(self).stack@.push(Token::Open),
    {
        self.stack.push(Token::Open);
    }

    /// Takes `count` tokens off the top.
    pub fn pop(&mut self, count: usize)
        requires
            count <= old(self).stack@.len(),
        ensures
            final(self).use_precedence == old(self).use_precedence,
            final(self).stack@ == old(self).stack@.take(old(self).stack@.len() - count),
    {
        let n = self.stack.len() - count;
        self.stack.truncate(n);
    }

    /// Works the stack out and gives the one number that is left.
    pub fn result(&mut self) -> (r: Result<u64, Fault>)
        ensures
            final(self).use_precedence == old(self).use_precedence,
            final(self).stack@ == reduced(old(self).stack@, true).0,
            r == result_of(old(self).stack@),
    {
        match self.reduce_all() {
            Ok(()) => {},
            Err(f) => {
                return Err(f);
            },
        }
        if self.stack.len() == 1 {
            if let Token::Number(n) = self.stack[0] {
                return Ok(n);
            }
        }
        Err(Fault::Invalid)
    }

    /// Takes in one token.
    pub fn add_token(&mut self, tok: Token) -> (r: Result<(), Fault>)
        ensures
            final(self).use_precedence == old(self).use_precedence,
            final(self).stack@ == token_added(old(self).stack@, tok, old(self).use_precedence).0,
            r == outcome(token_added(old(self).stack@, tok, old(self).use_precedence).1),
    {
        match tok {
            Token::Empty => Err(Fault::Invalid),
            Token::Operator(op) => self.push_op(op),
            Token::Number(value) => {
                self.push_number(value);
                self.reduce()
            },
            Token::Open => {
                self.push_group();
                Ok(())
            },
            Token::Close => self.close_group(),
        }
    }

    /// Works out what lies on the last opening bracket, and puts the value in
    /// the place of the bracket.
    pub fn close_group(&mut self) -> (r: Result<(), Fault>)
        ensures
            final(self).use_precedence == old(self).use_precedence,
            final(self).stack@ == group_closed(old(self).stack@, old(self).use_precedence).0,
            r == outcome(group_closed(old(self).stack@, old(self).use_precedence).1),
    {
        match self.reduce_all() {
            Ok(()) => {},
            Err(f) => {
                return Err(f);
            },
        }
        if let Token::Number(value) = self.top() {
            if self.frame(1) == Token::Open {
                self.pop(2);
                self.push_number(value);
                return self.reduce();
            }
        }
        Err(Fault::Invalid)
    }

    /// Works out the top of the stack, products too.
    pub fn reduce_all(&mut self) -> (r: Result<(), Fault>)
        ensures
            final(self).use_precedence == old(self).use_precedence,
            final(self).stack@ == reduced(old(self).stack@, true).0,
            r == outcome(reduced(old(self).stack@, true).1),
    {
        self.reduce_impl(true)
    }

    /// Works out the top of the stack; with precedence, a product is left
    /// standing.
    pub fn reduce(&mut self) -> (r: Result<(), Fault>)
        ensures
            final(self).use_precedence == old(self).use_precedence,
            final(self).stack@ == reduced(old(self).stack@, !old(self).use_precedence).0,
            r == outcome(reduced(old(self).stack@, !old(self).use_precedence).1),
    {
        let force = !self.use_precedence;
        self.reduce_impl(force)
    }

    /// Works out the top of the stack; unless `force` is set, a product is
    /// left standing.
    pub fn reduce_impl(&mut self, force: bool) -> (r: Result<(), Fault>)
        ensures
            final(self).use_precedence == old(self).use_precedence,
            final(self).stack@ == reduced(old(self).stack@, force).0,
            r == outcome(reduced(old(self).stack@, force).1),
    {
        loop
            invariant
                self.use_precedence == old(self).use_precedence,
                reduced(self.stack@, force) == reduced(old(self).stack@, force),
                self.stack@.len() <= old(self).stack@.len(),
            ensures
                self.use_precedence == old(self).use_precedence,
                reduced(old(self).stack@, force) == (self.stack@, None::<Fault>),
            decreases self.stack@.len(),
        {
            let rhs = match self.top() {
                Token::Number(rhs) => rhs,
                _ => {
                    break;
                },
            };
            let op = match self.frame(1) {
                Token::Operator(op) => op,
                _ => {
                    break;
                },
            };
            if !force && op == OpType::Mul {
                break;
            }
            let lhs = match self.frame(2) {
                Token::Number(lhs) => lhs,
                _ => {
                    return Err(Fault::Invalid);
                },
            };
            let value = match op.checked_eval(lhs, rhs) {
                Some(value) => value,
                None => {
                    return Err(Fault::TooBig);
                },
            };
            self.pop(3);
            self.push_number(value);
        }
        Ok(())
    }
}

/// The token that the character stands for.
pub fn token_for(ch: char) -> (t: Token)
    ensures
        t == token_of(ch),
{
    if ch == '+' {
        Token::Operator(OpType::Add)
    } else if ch == '*' {
        Token::Operator(OpType::Mul)
    } else if ch == '(' {
        Token::Open
    } else if ch == ')' {
        Token::Close
    } else if ch >= '0' && ch <= '9' {
        Token::Number((ch as u32 - '0' as u32) as u64)
    } else {
        Token::Empty
    }
}

/// The value of the expression, or why it has none.
pub fn try_eval(expr: &str, use_precedence: bool) -> (r: Result<u64, Fault>)
    ensures
        r == value_of(expr@, use_precedence),
{
    let chars = chars_of(expr);
    let mut stack = Stack::new(use_precedence);
    let mut i: usize = 0;
    proof {
        assert(chars@.take(0) =~= Seq::<char>::empty());
        assert(stack.stack@ =~= Seq::<Token>::empty());
    }
    while i < chars.len()
        invariant
            chars@ == expr@,
            i <= chars@.len(),
            stack.use_precedence == use_precedence,
            stack_after(chars@.take(i as int), use_precedence) == Ok::<Seq<Token>, Fault>(
                stack.stack@,
            ),
        decreases chars@.len() - i,
    {
        let ch = chars[i];
        proof {
            assert(chars@.take(i + 1).drop_last() =~= chars@.take(i as int));
            assert(chars@.take(i + 1).last() == ch);
        }
        if ch != ' ' {
            match stack.add_token(token_for(ch)) {
                Ok(()) => {},
                Err(f) => {
                    proof {
                        lemma_fault_stays(chars@, i + 1, use_precedence);
                    }
                    return Err(f);
                },
            }
        }
        i += 1;
    }
    proof {
        assert(chars@.take(chars@.len() as int) =~= chars@);
    }
    stack.result()
}

/// Once the beginning of an expression has no value, the whole has none,
/// for the same reason.
pub proof fn lemma_fault_stays(expr: Seq<char>, k: int, use_precedence: bool)
    requires
        0 <= k <= expr.len(),
        stack_after(expr.take(k), use_precedence) is Err,
    ensures
        stack_after(expr, use_precedence) == stack_after(expr.take(k), use_precedence),
    decreases expr.len(),
{
    if k == expr.len() {
        assert(expr.take(k) =~= expr);
    } else {
        assert(expr.drop_last().take(k) =~= expr.take(k));
        lemma_fault_stays(expr.drop_last(), k, use_precedence);
    }
}

/// The value of the expression, or `None` if it is not well formed.
pub fn eval(expr: &str, use_precedence: bool) -> (r: Option<u64>)
    requires
        value_of(expr@, use_precedence) != Err::<u64, Fault>(Fault::TooBig),
    ensures
        match r {
            Some(n) => value_of(expr@, use_precedence) == Ok::<u64, Fault>(n),
            None => value_of(expr@, use_precedence) is Err,
        },
{
    match try_eval(expr, use_precedence) {
        Ok(n) => Some(n),
        Err(_) => None,
    }
}

/// The sum of the values of the expressions, or the first fault on the way:
/// that of an expression, or `TooBig` for a sum that does not fit.
pub open spec fn total_of(lines: Seq<Seq<char>>, use_precedence: bool) -> Result<u64, Fault>
    decreases lines.len(),
{
    if lines.len() == 0 {
        Ok(0)
    } else {
        match total_of(lines.drop_last(), use_precedence) {
            Ok(sum) => match value_of(lines.last(), use_precedence) {
                Ok(n) => if sum + n > u64::MAX {
                    Err(Fault::TooBig)
                } else {
                    Ok((sum + n) as u64)
                },
                Err(f) => Err(f),
            },
            Err(f) => Err(f),
        }
    }
}

/// Once the total of the first lines is a fault, so is the total of all.
pub proof fn lemma_total_fault_stays(lines: Seq<Seq<char>>, k: int, use_precedence: bool)
    requires
        0 <= k <= lines.len(),
        total_of(lines.take(k), use_precedence) is Err,
    ensures
        total_of(lines, use_precedence) == total_of(lines.take(k), use_precedence),
    decreases lines.len(),
{
    if k == lines.len() {
        assert(lines.take(k) =~= lines);
    } else {
        assert(lines.drop_last().take(k) =~= lines.take(k));
        lemma_total_fault_stays(lines.drop_last(), k, use_precedence);
    }
}

/// The sum of the values of the expressions, or the first fault on the way.
pub fn try_get_total(input: &Vec<String>, use_precedence: bool) -> (r: Result<u64, Fault>)
    ensures
        r == total_of(crate::text::line_texts(input@), use_precedence),
{
    let ghost all = crate::text::line_texts(input@);
    let mut total: u64 = 0;
    let mut i: usize = 0;
    proof {
        assert(all.take(0) =~= Seq::<Seq<char>>::empty());
    }
    while i < input.len()
        invariant
            all == crate::text::line_texts(input@),
            i <= input@.len(),
            total_of(all.take(i as int), use_precedence) == Ok::<u64, Fault>(total),
        decreases input@.len() - i,
    {
        proof {
            assert(all.take(i + 1).drop_last() =~= all.take(i as int));
            assert(all.take(i + 1).last() == input@[i as int]@);
        }
        let n = match try_eval(input[i].as_str(), use_precedence) {
            Ok(n) => n,
            Err(f) => {
                proof {
                    lemma_total_fault_stays(all, i + 1, use_precedence);
                }
                return Err(f);
            },
        };
        total = match total.checked_add(n) {
            Some(sum) => sum,
            None => {
                proof {
                    lemma_total_fault_stays(all, i + 1, use_precedence);
                }
                return Err(Fault::TooBig);
            },
        };
        i += 1;
    }
    proof {
        assert(all.take(input@.len() as int) =~= all);
    }
    Ok(total)
}

/// The sum of the values of the expressions, or `None` if one of them is
/// not well formed.
pub fn get_total(input: &Vec<String>, use_precedence: bool) -> (r: Option<u64>)
    requires
        total_of(crate::text::line_texts(input@), use_precedence) != Err::<u64, Fault>(Fault::TooBig),
    ensures
        match r {
            Some(n) => total_of(crate::text::line_texts(input@), use_precedence) == Ok::<u64, Fault>(
                n,
            ),
            None => total_of(crate::text::line_texts(input@), use_precedence) is Err,
        },
{
    match try_get_total(input, use_precedence) {
        Ok(n) => Some(n),
        Err(_) => None,
    }
}

} // verus!
