use vstd::prelude::*;

use crate::token::{Assoc, Op, Token};

verus! {

/// The tokens behind a sequence of references.
pub open spec fn derefs(s: Seq<&Token>) -> Seq<Token> {
    s.map_values(|t: &Token| *t)
}

/// Whether `top`, on top of the operator stack, goes to the output before
/// `op` is pushed: a function always does; an operator does when it binds
/// tighter, or as tight and groups to the left; a bracket never does.
pub open spec fn pops_before(top: Token, op: Op) -> bool {
    match top {
        Token::Function(_) => true,
        Token::Operator(t) => t.prec > op.prec || (t.prec == op.prec && t.assoc == Assoc::Left),
        _ => false,
    }
}

/// Moves the top of `stack` to `out` as long as it goes before `op`.
pub open spec fn pop_for(stack: Seq<Token>, out: Seq<Token>, op: Op) -> (Seq<Token>, Seq<Token>)
    decreases stack.len(),
{
    if stack.len() > 0 && pops_before(stack.last(), op) {
        pop_for(stack.drop_last(), out.push(stack.last()), op)
    } else {
        (stack, out)
    }
}

/// Moves the top of `stack` to `out` up to the nearest left bracket, which is
/// dropped; with no left bracket the whole stack moves.
pub open spec fn pop_to_bracket(stack: Seq<Token>, out: Seq<Token>) -> (Seq<Token>, Seq<Token>)
    decreases stack.len(),
{
    if stack.len() == 0 {
        (stack, out)
    } else if stack.last() is LeftBracket {
        (stack.drop_last(), out)
    } else {
        pop_to_bracket(stack.drop_last(), out.push(stack.last()))
    }
}

/// The operator stack and the output after one more input token.
pub open spec fn step(stack: Seq<Token>, out: Seq<Token>, t: Token) -> (Seq<Token>, Seq<Token>) {
    match t {
        Token::Number(_) | Token::RealVar(_) | Token::BoolVar(_) => (stack, out.push(t)),
        Token::LeftBracket | Token::Function(_) => (stack.push(t), out),
        Token::Operator(op) => {
            let (s, o) = pop_for(stack, out, op);
            (s.push(t), o)
        },
        Token::RightBracket => pop_to_bracket(stack, out),
    }
}

/// The operator stack and the output once every token of `ts` is consumed.
pub open spec fn run(ts: Seq<Token>) -> (Seq<Token>, Seq<Token>)
    decreases ts.len(),
{
    if ts.len() == 0 {
        (Seq::empty(), Seq::empty())
    } else {
        let (s, o) = run(ts.drop_last());
        step(s, o, ts.last())
    }
}

/// `out` followed by the whole of `stack`, top first.
pub open spec fn drain(stack: Seq<Token>, out: Seq<Token>) -> Seq<Token>
    decreases stack.len(),
{
    if stack.len() == 0 {
        out
    } else {
        drain(stack.drop_last(), out.push(stack.last()))
    }
}

/// The postfix order of `ts`.
pub open spec fn postfix(ts: Seq<Token>) -> Seq<Token> {
    let (s, o) = run(ts);
    drain(s, o)
}

proof fn lemma_derefs_push<'a>(s: Seq<&'a Token>, t: &'a Token)
    ensures
        derefs(s.push(t)) == derefs(s).push(*t),
{
    assert(derefs(s.push(t)) =~= derefs(s).push(*t));
}

proof fn lemma_derefs_drop_last<'a>(s: Seq<&'a Token>)
    requires
        s.len() > 0,
    ensures
        derefs(s.drop_last()) == derefs(s).drop_last(),
        derefs(s).last() == *s.last(),
{
    assert(derefs(s.drop_last()) =~= derefs(s).drop_last());
}

/// Consumes one input token: an operand goes to the output, a left bracket or
/// a function onto the stack; an operator first moves to the output what goes
/// before it, then is pushed; a right bracket moves the stack up to its left
/// bracket.
pub fn rpn_step<'a>(stack: &mut Vec<&'a Token>, output: &mut Vec<&'a Token>, token: &'a Token)
    ensures
        (derefs(final(stack)@), derefs(final(output)@)) == step(
            derefs(old(stack)@),
            derefs(old(output)@),
            *token,
        ),
{
    match token {
        Token::Number(_) | Token::RealVar(_) | Token::BoolVar(_) => {
            proof {
                lemma_derefs_push(output@, token);
            }
            output.push(token);
        },
        Token::LeftBracket | Token::Function(_) => {
            proof {
                lemma_derefs_push(stack@, token);
            }
            stack.push(token);
        },
        Token::Operator(op) => {
            let ghost target = pop_for(derefs(stack@), derefs(output@), *op);
            loop
                invariant_except_break
                    pop_for(derefs(stack@), derefs(output@), *op) == target,
                ensures
                    (derefs(stack@), derefs(output@)) == target,
                decreases stack.len(),
            {
                let n = stack.len();
                if n == 0 {
                    break;
                }
                let top = stack[n - 1];
                let goes = match top {
                    Token::Function(_) => true,
                    Token::Operator(t) => t.prec > op.prec || (t.prec == op.prec && match t.assoc {
                        Assoc::Left => true,
                        Assoc::Right => false,
                    }),
                    _ => false,
                };
                proof {
                    lemma_derefs_drop_last(stack@);
                }
                if !goes {
                    break;
                }
                let t = stack.pop().unwrap();
                proof {
                    lemma_derefs_push(output@, t);
                }
                output.push(t);
            }
            proof {
                lemma_derefs_push(stack@, token);
            }
            stack.push(token);
        },
        Token::RightBracket => {
            let ghost target = pop_to_bracket(derefs(stack@), derefs(output@));
            loop
                invariant_except_break
                    pop_to_bracket(derefs(stack@), derefs(output@)) == target,
                ensures
                    (derefs(stack@), derefs(output@)) == target,
                decreases stack.len(),
            {
                let n = stack.len();
                if n == 0 {
                    break;
                }
                proof {
                    lemma_derefs_drop_last(stack@);
                }
                let t = stack.pop().unwrap();
                if t.is_left_paren() {
                    break;
                }
                proof {
                    lemma_derefs_push(output@, t);
                }
                output.push(t);
            }
        },
    }
}

/// Moves the whole operator stack to the output, top first.
pub fn rpn_drain<'a>(stack: &mut Vec<&'a Token>, output: &mut Vec<&'a Token>)
    ensures
        final(stack)@.len() == 0,
        derefs(final(output)@) == drain(derefs(old(stack)@), derefs(old(output)@)),
{
    while stack.len() > 0
        invariant
            drain(derefs(stack@), derefs(output@)) == drain(
                derefs(old(stack)@),
                derefs(old(output)@),
            ),
        decreases stack.len(),
    {
        proof {
            lemma_derefs_drop_last(stack@);
        }
        let t = stack.pop().unwrap();
        proof {
            lemma_derefs_push(output@, t);
        }
        output.push(t);
    }
}

/// The tokens of `input` in postfix order, by the shunting-yard algorithm.
/// Bracket balance is not checked: a right bracket with no left bracket is
/// dropped, and a left bracket that is never closed is output at the end.
pub fn rpn<'a>(input: &'a [Token]) -> (r: Vec<&'a Token>)
    ensures
        derefs(r@) == postfix(input@),
{
    let mut stack: Vec<&'a Token> = Vec::new();
    let mut output: Vec<&'a Token> = Vec::with_capacity(input.len());
    let mut i: usize = 0;
    while i < input.len()
        invariant
            i <= input@.len(),
            (derefs(stack@), derefs(output@)) == run(input@.take(i as int)),
        decreases input@.len() - i,
    {
        assert(input@.take(i as int + 1).drop_last() =~= input@.take(i as int));
        rpn_step(&mut stack, &mut output, &input[i]);
        i = i + 1;
    }
    assert(input@.take(i as int) =~= input@);
    rpn_drain(&mut stack, &mut output);
    output
}

/// The number of brackets, of either side, in `ts`.
pub open spec fn n_brackets(ts: Seq<Token>) -> nat
    decreases ts.len(),
{
    if ts.len() == 0 {
        0
    } else {
        n_brackets(ts.drop_last()) + if ts.last() is LeftBracket || ts.last() is RightBracket {
            1nat
        } else {
            0nat
        }
    }
}

/// The number of left brackets in `ts` that no later right bracket closes.
pub open spec fn unclosed(ts: Seq<Token>) -> nat
    decreases ts.len(),
{
    if ts.len() == 0 {
        0
    } else {
        let u = unclosed(ts.drop_last());
        match ts.last() {
            Token::LeftBracket => u + 1,
            Token::RightBracket => if u > 0 {
                (u - 1) as nat
            } else {
                0
            },
            _ => u,
        }
    }
}

/// The number of left brackets in `s`.
pub open spec fn n_left(s: Seq<Token>) -> nat
    decreases s.len(),
{
    if s.len() == 0 {
        0
    } else {
        n_left(s.drop_last()) + if s.last() is LeftBracket {
            1nat
        } else {
            0nat
        }
    }
}

pub open spec fn is_operand(t: Token) -> bool {
    t is Number || t is RealVar || t is BoolVar
}

proof fn lemma_n_left_push(s: Seq<Token>, t: Token)
    ensures
        n_left(s.push(t)) == n_left(s) + if t is LeftBracket {
            1nat
        } else {
            0nat
        },
{
    assert(s.push(t).drop_last() =~= s);
}

proof fn lemma_pop_for_counts(stack: Seq<Token>, out: Seq<Token>, op: Op)
    ensures
        pop_for(stack, out, op).0.len() + pop_for(stack, out, op).1.len() == stack.len()
            + out.len(),
        n_left(pop_for(stack, out, op).0) == n_left(stack),
    decreases stack.len(),
{
    if stack.len() > 0 && pops_before(stack.last(), op) {
        lemma_pop_for_counts(stack.drop_last(), out.push(stack.last()), op);
    }
}

proof fn lemma_pop_to_bracket_counts(stack: Seq<Token>, out: Seq<Token>)
    ensures
        n_left(stack) > 0 ==> pop_to_bracket(stack, out).0.len() + pop_to_bracket(stack, out).1.len()
            + 1 == stack.len() + out.len(),
        n_left(stack) > 0 ==> n_left(pop_to_bracket(stack, out).0) + 1 == n_left(stack),
        n_left(stack) == 0 ==> pop_to_bracket(stack, out).0.len() + pop_to_bracket(
            stack,
            out,
        ).1.len() == stack.len() + out.len(),
        n_left(stack) == 0 ==> n_left(pop_to_bracket(stack, out).0) == 0,
    decreases stack.len(),
{
    if stack.len() > 0 && !(stack.last() is LeftBracket) {
        lemma_pop_to_bracket_counts(stack.drop_last(), out.push(stack.last()));
    }
}

proof fn lemma_drain_len(stack: Seq<Token>, out: Seq<Token>)
    ensures
        drain(stack, out).len() == stack.len() + out.len(),
    decreases stack.len(),
{
    if stack.len() > 0 {
        lemma_drain_len(stack.drop_last(), out.push(stack.last()));
    }
}

proof fn lemma_run_counts(ts: Seq<Token>)
    ensures
        run(ts).0.len() + run(ts).1.len() + n_brackets(ts) == ts.len() + n_left(run(ts).0),
        n_left(run(ts).0) == unclosed(ts),
    decreases ts.len(),
{
    if ts.len() > 0 {
        let (s, o) = run(ts.drop_last());
        lemma_run_counts(ts.drop_last());
        match ts.last() {
            Token::Operator(op) => {
                lemma_pop_for_counts(s, o, op);
                lemma_n_left_push(pop_for(s, o, op).0, ts.last());
            },
            Token::RightBracket => {
                lemma_pop_to_bracket_counts(s, o);
            },
            _ => {
                lemma_n_left_push(s, ts.last());
            },
        }
    }
}

/// Every token of the input reaches the output but the brackets: each right
/// bracket is dropped, and so is each left bracket that a right bracket
/// closes, while an unclosed left bracket is output at the end. So with every
/// left bracket closed, the output is shorter than the input by exactly the
/// number of brackets.
pub proof fn lemma_postfix_len(ts: Seq<Token>)
    ensures
        postfix(ts).len() + n_brackets(ts) == ts.len() + unclosed(ts),
        unclosed(ts) == 0 ==> postfix(ts).len() == ts.len() - n_brackets(ts),
{
    lemma_run_counts(ts);
    lemma_drain_len(run(ts).0, run(ts).1);
}

proof fn lemma_run_operands(ts: Seq<Token>)
    requires
        forall|i: int| 0 <= i < ts.len() ==> is_operand(#[trigger] ts[i]),
    ensures
        run(ts) == (Seq::<Token>::empty(), ts),
    decreases ts.len(),
{
    if ts.len() > 0 {
        lemma_run_operands(ts.drop_last());
        assert(ts.drop_last().push(ts.last()) =~= ts);
    }
}

/// A sequence of operands alone is already in postfix order: converting it
/// gives it back, and so does converting it again.
pub proof fn lemma_operands_unchanged(ts: Seq<Token>)
    requires
        forall|i: int| 0 <= i < ts.len() ==> is_operand(#[trigger] ts[i]),
    ensures
        postfix(ts) == ts,
        postfix(postfix(ts)) == postfix(ts),
{
    lemma_run_operands(ts);
}

/// The operands of `ts`, in order.
pub open spec fn operands(ts: Seq<Token>) -> Seq<Token>
    decreases ts.len(),
{
    if ts.len() == 0 {
        Seq::empty()
    } else if is_operand(ts.last()) {
        operands(ts.drop_last()).push(ts.last())
    } else {
        operands(ts.drop_last())
    }
}

proof fn lemma_operands_push_other(ts: Seq<Token>, t: Token)
    requires
        !is_operand(t),
    ensures
        operands(ts.push(t)) == operands(ts),
{
    assert(ts.push(t).drop_last() =~= ts);
}

proof fn lemma_operands_push_operand(ts: Seq<Token>, t: Token)
    requires
        is_operand(t),
    ensures
        operands(ts.push(t)) == operands(ts).push(t),
{
    assert(ts.push(t).drop_last() =~= ts);
}

proof fn lemma_no_operands_push(s: Seq<Token>, t: Token)
    requires
        operands(s).len() == 0,
        !is_operand(t),
    ensures
        operands(s.push(t)).len() == 0,
{
    lemma_operands_push_other(s, t);
}

proof fn lemma_pop_for_operands(stack: Seq<Token>, out: Seq<Token>, op: Op)
    requires
        operands(stack).len() == 0,
    ensures
        operands(pop_for(stack, out, op).0).len() == 0,
        operands(pop_for(stack, out, op).1) == operands(out),
    decreases stack.len(),
{
    if stack.len() > 0 && pops_before(stack.last(), op) {
        lemma_operands_push_other(out, stack.last());
        lemma_pop_for_operands(stack.drop_last(), out.push(stack.last()), op);
    }
}

proof fn lemma_pop_to_bracket_operands(stack: Seq<Token>, out: Seq<Token>)
    requires
        operands(stack).len() == 0,
    ensures
        operands(pop_to_bracket(stack, out).0).len() == 0,
        operands(pop_to_bracket(stack, out).1) == operands(out),
    decreases stack.len(),
{
    if stack.len() > 0 && !(stack.last() is LeftBracket) {
        lemma_operands_push_other(out, stack.last());
        lemma_pop_to_bracket_operands(stack.drop_last(), out.push(stack.last()));
    }
}

proof fn lemma_drain_operands(stack: Seq<Token>, out: Seq<Token>)
    requires
        operands(stack).len() == 0,
    ensures
        operands(drain(stack, out)) == operands(out),
    decreases stack.len(),
{
    if stack.len() > 0 {
        lemma_operands_push_other(out, stack.last());
        lemma_drain_operands(stack.drop_last(), out.push(stack.last()));
    }
}

proof fn lemma_run_operands_kept(ts: Seq<Token>)
    ensures
        operands(run(ts).0).len() == 0,
        operands(run(ts).1) == operands(ts),
    decreases ts.len(),
{
    if ts.len() > 0 {
        let (s, o) = run(ts.drop_last());
        lemma_run_operands_kept(ts.drop_last());
        let t = ts.last();
        match t {
            Token::Number(_) | Token::RealVar(_) | Token::BoolVar(_) => {
                lemma_operands_push_operand(o, t);
            },
            Token::Operator(op) => {
                lemma_pop_for_operands(s, o, op);
                lemma_no_operands_push(pop_for(s, o, op).0, t);
            },
            Token::RightBracket => {
                lemma_pop_to_bracket_operands(s, o);
            },
            _ => {
                lemma_no_operands_push(s, t);
            },
        }
    }
}

/// Conversion keeps the operands of the input, each once and in their order;
/// only operators, functions and brackets move.
pub proof fn lemma_operands_keep_order(ts: Seq<Token>)
    ensures
        operands(postfix(ts)) == operands(ts),
{
    lemma_run_operands_kept(ts);
    lemma_drain_operands(run(ts).0, run(ts).1);
}

} // verus!
