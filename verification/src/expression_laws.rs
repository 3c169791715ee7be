//! What the evaluator computes: the value of sums and products without
//! brackets, and the value of an expression in brackets in the place of the
//! brackets.

use vstd::prelude::*;
use crate::expression::{
    frame_of, op_value, reduced, result_of, stack_after, token_added, token_of, value_of, Fault,
    OpType, Token,
};

verus! {

/// The tokens of the expression: one for each character that is no blank.
pub open spec fn tokens_of(expr: Seq<char>) -> Seq<Token>
    decreases expr.len(),
{
    if expr.len() == 0 {
        Seq::empty()
    } else if expr.last() == ' ' {
        tokens_of(expr.drop_last())
    } else {
        tokens_of(expr.drop_last()).push(token_of(expr.last()))
    }
}

/// The stack after the tokens `toks` have been taken in, one after the
/// other, on top of the stack `start`, or the first fault on the way.
pub open spec fn stack_from(start: Seq<Token>, toks: Seq<Token>, use_precedence: bool) -> Result<
    Seq<Token>,
    Fault,
>
    decreases toks.len(),
{
    if toks.len() == 0 {
        Ok(start)
    } else {
        match stack_from(start, toks.drop_last(), use_precedence) {
            Ok(s) => {
                let (t, fault) = token_added(s, toks.last(), use_precedence);
                match fault {
                    Some(f) => Err(f),
                    None => Ok(t),
                }
            },
            Err(f) => Err(f),
        }
    }
}

/// The value of the tokens, or why they have none.
pub open spec fn tokens_value(toks: Seq<Token>, use_precedence: bool) -> Result<u64, Fault> {
    match stack_from(Seq::empty(), toks, use_precedence) {
        Ok(s) => result_of(s),
        Err(f) => Err(f),
    }
}

/// The value of an expression is the value of its tokens.
pub proof fn law_value_of_tokens(expr: Seq<char>, use_precedence: bool)
    ensures
        stack_after(expr, use_precedence) == stack_from(
            Seq::empty(),
            tokens_of(expr),
            use_precedence,
        ),
        value_of(expr, use_precedence) == tokens_value(tokens_of(expr), use_precedence),
    decreases expr.len(),
{
    if expr.len() > 0 {
        law_value_of_tokens(expr.drop_last(), use_precedence);
        if expr.last() != ' ' {
            let toks = tokens_of(expr);
            assert(toks.drop_last() =~= tokens_of(expr.drop_last()));
        }
    }
}

/// Taking in tokens one list after the other is taking in both lists in a row.
pub proof fn lemma_stack_from_concat(
    start: Seq<Token>,
    x: Seq<Token>,
    y: Seq<Token>,
    use_precedence: bool,
)
    ensures
        stack_from(start, x + y, use_precedence) == match stack_from(start, x, use_precedence) {
            Ok(t) => stack_from(t, y, use_precedence),
            Err(f) => Err(f),
        },
    decreases y.len(),
{
    if y.len() == 0 {
        assert(x + y =~= x);
    } else {
        lemma_stack_from_concat(start, x, y.drop_last(), use_precedence);
        assert((x + y).drop_last() =~= x + y.drop_last());
        assert((x + y).last() == y.last());
    }
}

/// Working out the top of a stack does not reach below an opening bracket.
pub proof fn lemma_reduced_frame(base: Seq<Token>, t: Seq<Token>, force: bool)
    requires
        base.len() > 0,
        base.last() == Token::Open,
    ensures
        reduced(base + t, force) == (base + reduced(t, force).0, reduced(t, force).1),
    decreases t.len(),
{
    let s = base + t;
    assert(frame_of(s, 0) == if t.len() >= 1 {
        frame_of(t, 0)
    } else {
        Token::Open
    });
    assert(frame_of(s, 1) == if t.len() >= 2 {
        frame_of(t, 1)
    } else if t.len() == 1 {
        Token::Open
    } else {
        frame_of(base, 1)
    });
    assert(frame_of(s, 2) == if t.len() >= 3 {
        frame_of(t, 2)
    } else if t.len() == 2 {
        Token::Open
    } else {
        frame_of(s, 2)
    });
    match (frame_of(t, 0), frame_of(t, 1)) {
        (Token::Number(rhs), Token::Operator(op)) => {
            if !force && op == OpType::Mul {
            } else {
                match frame_of(t, 2) {
                    Token::Number(lhs) => {
                        if op_value(op, lhs, rhs) <= u64::MAX {
                            let r = Token::Number(op_value(op, lhs, rhs) as u64);
                            let t2 = t.take(t.len() - 3).push(r);
                            lemma_reduced_frame(base, t2, force);
                            assert(s.take(s.len() - 3).push(r) =~= base + t2);
                        }
                    },
                    _ => {},
                }
            }
        },
        _ => {},
    }
}

/// Taking in a token does not reach below an opening bracket, as long as
/// what lies on the bracket takes the token in without a fault.
pub proof fn lemma_token_frame(base: Seq<Token>, t: Seq<Token>, tok: Token, use_precedence: bool)
    requires
        base.len() > 0,
        base.last() == Token::Open,
        token_added(t, tok, use_precedence).1 is None,
    ensures
        token_added(base + t, tok, use_precedence) == (
            base + token_added(t, tok, use_precedence).0,
            None::<Fault>,
        ),
{
    let s = base + t;
    match tok {
        Token::Empty => {},
        Token::Operator(op) => {
            if use_precedence && op == OpType::Mul {
                lemma_reduced_frame(base, t, true);
                let r = reduced(t, true).0;
                assert((base + r).push(tok) =~= base + r.push(tok));
            } else {
                assert(s.push(tok) =~= base + t.push(tok));
            }
        },
        Token::Number(value) => {
            assert(s.push(tok) =~= base + t.push(tok));
            lemma_reduced_frame(base, t.push(tok), !use_precedence);
        },
        Token::Open => {
            assert(s.push(tok) =~= base + t.push(tok));
        },
        Token::Close => {
            lemma_reduced_frame(base, t, true);
            let r = reduced(t, true).0;
            let sr = base + r;
            // What lies on the bracket holds the bracket that is closed.
            assert(r.len() >= 2);
            assert(frame_of(sr, 0) == frame_of(r, 0));
            assert(frame_of(sr, 1) == frame_of(r, 1));
            match frame_of(r, 0) {
                Token::Number(value) => {
                    let inner = r.take(r.len() - 2).push(Token::Number(value));
                    assert(sr.take(sr.len() - 2).push(Token::Number(value)) =~= base + inner);
                    lemma_reduced_frame(base, inner, !use_precedence);
                },
                _ => {},
            }
        },
    }
}

/// Taking in tokens does not reach below an opening bracket, as long as
/// they are taken in without a fault on an empty stack.
pub proof fn lemma_stack_frame(base: Seq<Token>, toks: Seq<Token>, use_precedence: bool)
    requires
        base.len() > 0,
        base.last() == Token::Open,
        stack_from(Seq::empty(), toks, use_precedence) is Ok,
    ensures
        stack_from(base, toks, use_precedence) == Ok::<Seq<Token>, Fault>(
            base + stack_from(Seq::empty(), toks, use_precedence)->Ok_0,
        ),
    decreases toks.len(),
{
    if toks.len() == 0 {
        assert(base + Seq::<Token>::empty() =~= base);
    } else {
        lemma_stack_frame(base, toks.drop_last(), use_precedence);
        let t = stack_from(Seq::empty(), toks.drop_last(), use_precedence)->Ok_0;
        lemma_token_frame(base, t, toks.last(), use_precedence);
    }
}

/// An expression in brackets stands for its value: where the tokens `e`
/// have the value `v`, taking in an opening bracket, the tokens `e` and a
/// closing bracket is taking in the number `v`.
pub proof fn law_brackets(pre: Seq<Token>, e: Seq<Token>, v: u64, use_precedence: bool)
    requires
        tokens_value(e, use_precedence) == Ok::<u64, Fault>(v),
    ensures
        stack_from(
            Seq::empty(),
            pre + seq![Token::Open] + e + seq![Token::Close],
            use_precedence,
        ) == stack_from(Seq::empty(), pre.push(Token::Number(v)), use_precedence),
{
    reveal_with_fuel(stack_from, 3);
    let none = Seq::<Token>::empty();
    let open = seq![Token::Open];
    let close = seq![Token::Close];
    let whole = pre + open + e + close;
    let number = pre.push(Token::Number(v));
    assert(number.drop_last() =~= pre);
    lemma_stack_from_concat(none, pre + open + e, close, use_precedence);
    lemma_stack_from_concat(none, pre + open, e, use_precedence);
    lemma_stack_from_concat(none, pre, open, use_precedence);
    assert(open.drop_last() =~= none);
    assert(close.drop_last() =~= none);
    match stack_from(none, pre, use_precedence) {
        Ok(s) => {
            let base = s.push(Token::Open);
            assert(stack_from(s, open, use_precedence) == Ok::<Seq<Token>, Fault>(base));
            let t = stack_from(none, e, use_precedence)->Ok_0;
            lemma_stack_frame(base, e, use_precedence);
            assert(stack_from(base, e, use_precedence) == Ok::<Seq<Token>, Fault>(base + t));
            // The closing bracket works out what lies on the opening one.
            lemma_reduced_frame(base, t, true);
            let r = reduced(t, true).0;
            assert(r =~= seq![Token::Number(v)]);
            let top = base + r;
            assert(frame_of(top, 0) == Token::Number(v));
            assert(frame_of(top, 1) == Token::Open);
            assert(top.take(top.len() - 2).push(Token::Number(v)) =~= s.push(Token::Number(v)));
            assert(stack_from(base + t, close, use_precedence) == stack_from(
                s,
                seq![Token::Number(v)],
                use_precedence,
            )) by {
                assert(seq![Token::Number(v)].drop_last() =~= none);
            }
        },
        Err(f) => {},
    }
}

/// The value of tokens with an expression in brackets among them is the
/// value of the tokens with the value of that expression in its place.
pub proof fn law_brackets_value(
    pre: Seq<Token>,
    e: Seq<Token>,
    post: Seq<Token>,
    v: u64,
    use_precedence: bool,
)
    requires
        tokens_value(e, use_precedence) == Ok::<u64, Fault>(v),
    ensures
        tokens_value(pre + seq![Token::Open] + e + seq![Token::Close] + post, use_precedence)
            == tokens_value(pre.push(Token::Number(v)) + post, use_precedence),
{
    let none = Seq::<Token>::empty();
    law_brackets(pre, e, v, use_precedence);
    lemma_stack_from_concat(
        none,
        pre + seq![Token::Open] + e + seq![Token::Close],
        post,
        use_precedence,
    );
    lemma_stack_from_concat(none, pre.push(Token::Number(v)), post, use_precedence);
}

/// The tokens of numbers with operators between them.
pub open spec fn interleaved(nums: Seq<u64>, ops: Seq<OpType>) -> Seq<Token>
    decreases nums.len(),
{
    if nums.len() == 0 {
        Seq::empty()
    } else if nums.len() == 1 || ops.len() == 0 {
        seq![Token::Number(nums[0])]
    } else {
        interleaved(nums.drop_last(), ops.drop_last()).push(Token::Operator(ops.last())).push(
            Token::Number(nums.last()),
        )
    }
}

/// The value of numbers with operators between them, worked out from left
/// to right.
pub open spec fn plain_value(nums: Seq<u64>, ops: Seq<OpType>) -> int
    decreases nums.len(),
{
    if nums.len() == 0 {
        0
    } else if nums.len() == 1 || ops.len() == 0 {
        nums[0] as int
    } else {
        let left = plain_value(nums.drop_last(), ops.drop_last());
        match ops.last() {
            OpType::Add => left + nums.last(),
            OpType::Mul => left * nums.last(),
        }
    }
}

/// Every value on the way from left to right fits in a `u64`.
pub open spec fn plain_fits(nums: Seq<u64>, ops: Seq<OpType>) -> bool
    decreases nums.len(),
{
    if nums.len() <= 1 || ops.len() == 0 {
        true
    } else {
        plain_fits(nums.drop_last(), ops.drop_last()) && plain_value(nums, ops) <= u64::MAX
    }
}

/// Without precedence, numbers with operators between them are worked out
/// from left to right.
pub proof fn law_left_to_right(nums: Seq<u64>, ops: Seq<OpType>)
    requires
        nums.len() == ops.len() + 1,
    ensures
        stack_from(Seq::empty(), interleaved(nums, ops), false) == if plain_fits(nums, ops) {
            Ok::<Seq<Token>, Fault>(seq![Token::Number(plain_value(nums, ops) as u64)])
        } else {
            Err::<Seq<Token>, Fault>(Fault::TooBig)
        },
        tokens_value(interleaved(nums, ops), false) == if plain_fits(nums, ops) {
            Ok::<u64, Fault>(plain_value(nums, ops) as u64)
        } else {
            Err::<u64, Fault>(Fault::TooBig)
        },
        plain_fits(nums, ops) ==> 0 <= plain_value(nums, ops) <= u64::MAX,
    decreases nums.len(),
{
    reveal_with_fuel(stack_from, 3);
    let none = Seq::<Token>::empty();
    let toks = interleaved(nums, ops);
    if nums.len() == 1 {
        let n = Token::Number(nums[0]);
        assert(toks.drop_last() =~= none);
        assert(none.push(n) =~= seq![n]);
        assert(reduced(seq![n], true) == (seq![n], None::<Fault>));
    } else {
        let head_nums = nums.drop_last();
        let head_ops = ops.drop_last();
        law_left_to_right(head_nums, head_ops);
        let head = interleaved(head_nums, head_ops);
        let op = Token::Operator(ops.last());
        let n = Token::Number(nums.last());
        assert(toks.drop_last() =~= head.push(op));
        assert(head.push(op).drop_last() =~= head);
        if plain_fits(head_nums, head_ops) {
            let left = plain_value(head_nums, head_ops) as u64;
            let s = seq![Token::Number(left)];
            let with_op = s.push(op);
            let full = with_op.push(n);
            assert(frame_of(full, 0) == n);
            assert(frame_of(full, 1) == op);
            assert(frame_of(full, 2) == Token::Number(left));
            assert(op_value(ops.last(), left, nums.last()) == plain_value(nums, ops));
            assert(plain_value(nums, ops) >= 0) by (nonlinear_arith)
                requires
                    plain_value(nums, ops) == left + nums.last() || plain_value(nums, ops) == left
                        * nums.last(),
                    left >= 0,
                    nums.last() >= 0,
            ;
            if op_value(ops.last(), left, nums.last()) <= u64::MAX {
                let r = Token::Number(op_value(ops.last(), left, nums.last()) as u64);
                assert(full.take(full.len() - 3).push(r) =~= seq![r]);
                assert(reduced(seq![r], true) == (seq![r], None::<Fault>));
            }
        }
    }
}

/// The sum that is being added up at the end of the numbers, and the
/// product of the sums before it, if there are any.
pub open spec fn sums(nums: Seq<u64>, ops: Seq<OpType>) -> (Option<int>, int)
    decreases nums.len(),
{
    if nums.len() == 0 {
        (None, 0)
    } else if nums.len() == 1 || ops.len() == 0 {
        (None, nums[0] as int)
    } else {
        let (product, sum) = sums(nums.drop_last(), ops.drop_last());
        match ops.last() {
            OpType::Add => (product, sum + nums.last()),
            OpType::Mul => (
                Some(
                    match product {
                        Some(p) => p * sum,
                        None => sum,
                    },
                ),
                nums.last() as int,
            ),
        }
    }
}

/// The value of numbers with operators between them, where sums are worked
/// out before products: the product of the sums.
pub open spec fn sums_first_value(nums: Seq<u64>, ops: Seq<OpType>) -> int {
    match sums(nums, ops).0 {
        Some(p) => p * sums(nums, ops).1,
        None => sums(nums, ops).1,
    }
}

/// Every sum and every product of sums on the way fits in a `u64`.
pub open spec fn sums_fit(nums: Seq<u64>, ops: Seq<OpType>) -> bool
    decreases nums.len(),
{
    if nums.len() <= 1 || ops.len() == 0 {
        true
    } else {
        sums_fit(nums.drop_last(), ops.drop_last()) && sums(nums, ops).1 <= u64::MAX && match sums(
            nums,
            ops,
        ).0 {
            Some(p) => p <= u64::MAX,
            None => true,
        }
    }
}

/// The stack that holds the sum that is being added up, on the product of
/// the sums before it, if there are any.
pub open spec fn sums_stack(nums: Seq<u64>, ops: Seq<OpType>) -> Seq<Token> {
    match sums(nums, ops).0 {
        Some(p) => seq![
            Token::Number(p as u64),
            Token::Operator(OpType::Mul),
            Token::Number(sums(nums, ops).1 as u64),
        ],
        None => seq![Token::Number(sums(nums, ops).1 as u64)],
    }
}

/// With precedence, the sums of numbers with operators between them are
/// worked out before the products.
pub proof fn law_sums_first(nums: Seq<u64>, ops: Seq<OpType>)
    requires
        nums.len() == ops.len() + 1,
    ensures
        stack_from(Seq::empty(), interleaved(nums, ops), true) == if sums_fit(nums, ops) {
            Ok::<Seq<Token>, Fault>(sums_stack(nums, ops))
        } else {
            Err::<Seq<Token>, Fault>(Fault::TooBig)
        },
        sums_fit(nums, ops) ==> 0 <= sums(nums, ops).1 && match sums(nums, ops).0 {
            Some(p) => 0 <= p,
            None => true,
        },
    decreases nums.len(),
{
    reveal_with_fuel(stack_from, 3);
    let none = Seq::<Token>::empty();
    let toks = interleaved(nums, ops);
    if nums.len() == 1 {
        let n = Token::Number(nums[0]);
        assert(toks.drop_last() =~= none);
        assert(none.push(n) =~= seq![n]);
        assert(reduced(seq![n], false) == (seq![n], None::<Fault>));
    } else {
        let head_nums = nums.drop_last();
        let head_ops = ops.drop_last();
        law_sums_first(head_nums, head_ops);
        let head = interleaved(head_nums, head_ops);
        let op = Token::Operator(ops.last());
        let n = Token::Number(nums.last());
        assert(toks.drop_last() =~= head.push(op));
        assert(head.push(op).drop_last() =~= head);
        if sums_fit(head_nums, head_ops) {
            let (product, sum) = sums(head_nums, head_ops);
            let s = sums_stack(head_nums, head_ops);
            let times = Token::Operator(OpType::Mul);
            match ops.last() {
                OpType::Add => {
                    let full = s.push(op).push(n);
                    assert(frame_of(full, 0) == n);
                    assert(frame_of(full, 1) == op);
                    assert(frame_of(full, 2) == Token::Number(sum as u64));
                    if sum + nums.last() <= u64::MAX {
                        let r = Token::Number((sum + nums.last()) as u64);
                        let rest = full.take(full.len() - 3).push(r);
                        match product {
                            Some(p) => {
                                assert(rest =~= seq![Token::Number(p as u64), times, r]);
                                assert(frame_of(rest, 1) == times);
                            },
                            None => {
                                assert(rest =~= seq![r]);
                            },
                        }
                        assert(reduced(rest, false) == (rest, None::<Fault>));
                    }
                },
                OpType::Mul => {
                    // What stands before the product is worked out first.
                    match product {
                        Some(p) => {
                            assert(frame_of(s, 0) == Token::Number(sum as u64));
                            assert(frame_of(s, 1) == times);
                            assert(frame_of(s, 2) == Token::Number(p as u64));
                            assert(op_value(OpType::Mul, p as u64, sum as u64) == p * sum);
                            if p * sum <= u64::MAX {
                                let r = Token::Number((p * sum) as u64);
                                assert(s.take(s.len() - 3).push(r) =~= seq![r]);
                                assert(reduced(seq![r], true) == (seq![r], None::<Fault>));
                                let full = seq![r].push(op).push(n);
                                assert(full =~= seq![r, times, n]);
                                assert(frame_of(full, 1) == times);
                                assert(reduced(full, false) == (full, None::<Fault>));
                                assert(p * sum >= 0) by (nonlinear_arith)
                                    requires
                                        p >= 0,
                                        sum >= 0,
                                ;
                            }
                        },
                        None => {
                            assert(reduced(s, true) == (s, None::<Fault>));
                            let full = s.push(op).push(n);
                            assert(full =~= seq![Token::Number(sum as u64), times, n]);
                            assert(frame_of(full, 1) == times);
                            assert(reduced(full, false) == (full, None::<Fault>));
                        },
                    }
                },
            }
        }
    }
}

/// With precedence, the value of numbers with operators between them is
/// the product of their sums.
pub proof fn law_sums_first_value(nums: Seq<u64>, ops: Seq<OpType>)
    requires
        nums.len() == ops.len() + 1,
    ensures
        tokens_value(interleaved(nums, ops), true) == if sums_fit(nums, ops) && sums_first_value(
            nums,
            ops,
        ) <= u64::MAX {
            Ok::<u64, Fault>(sums_first_value(nums, ops) as u64)
        } else {
            Err::<u64, Fault>(Fault::TooBig)
        },
{
    law_sums_first(nums, ops);
    if sums_fit(nums, ops) {
        let (product, sum) = sums(nums, ops);
        let s = sums_stack(nums, ops);
        match product {
            Some(p) => {
                let times = Token::Operator(OpType::Mul);
                assert(frame_of(s, 0) == Token::Number(sum as u64));
                assert(frame_of(s, 1) == times);
                assert(frame_of(s, 2) == Token::Number(p as u64));
                assert(op_value(OpType::Mul, p as u64, sum as u64) == p * sum);
                if p * sum <= u64::MAX {
                    let r = Token::Number((p * sum) as u64);
                    assert(s.take(s.len() - 3).push(r) =~= seq![r]);
                    assert(reduced(seq![r], true) == (seq![r], None::<Fault>));
                }
            },
            None => {
                assert(reduced(s, true) == (s, None::<Fault>));
            },
        }
    }
}

} // verus!
