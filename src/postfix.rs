use vstd::prelude::*;
use crate::lexer::Token;
use crate::number::Op;

verus! {

/// Whether an operator on top of the stack leaves it before `incoming` is
/// pushed: `*` and `/` always do; `+` does unless `incoming` is `-`, and `-`
/// does unless `incoming` is `+`. Parentheses never do.
pub open spec fn pops_before(top: Token, incoming: Op) -> bool {
    match top {
        Token::Operator(t) => match t {
            Op::Mul | Op::Div => true,
            Op::Add => incoming != Op::Sub,
            Op::Sub => incoming != Op::Add,
        },
        _ => false,
    }
}

/// What leaves the stack (top first) before `incoming` is pushed, and the stack
/// that is left. The top of a stack is its last element.
pub open spec fn pop_higher(stack: Seq<Token>, incoming: Op) -> (Seq<Token>, Seq<Token>)
    decreases stack.len(),
{
    if stack.len() > 0 && pops_before(stack.last(), incoming) {
        let (p, r) = pop_higher(stack.drop_last(), incoming);
        (seq![stack.last()] + p, r)
    } else {
        (seq![], stack)
    }
}

/// What a right parenthesis pops (top first, up to the nearest left
/// parenthesis, which is dropped), and the stack that is left. Without a left
/// parenthesis the whole stack is popped.
pub open spec fn pop_to_paren(stack: Seq<Token>) -> (Seq<Token>, Seq<Token>)
    decreases stack.len(),
{
    if stack.len() == 0 {
        (seq![], seq![])
    } else if stack.last() == Token::LeftParen {
        (seq![], stack.drop_last())
    } else {
        let (p, r) = pop_to_paren(stack.drop_last());
        (seq![stack.last()] + p, r)
    }
}

/// The stack emptied, top first.
pub open spec fn drain(stack: Seq<Token>) -> Seq<Token>
    decreases stack.len(),
{
    if stack.len() == 0 {
        seq![]
    } else {
        seq![stack.last()] + drain(stack.drop_last())
    }
}

/// The output of the shunting-yard pass over `rest`, starting from `stack`.
pub open spec fn shunt(stack: Seq<Token>, rest: Seq<Token>) -> Seq<Token>
    decreases rest.len(),
{
    if rest.len() == 0 {
        drain(stack)
    } else {
        let t = rest[0];
        match t {
            Token::Operator(op) => {
                let (p, r) = pop_higher(stack, op);
                p + shunt(r.push(t), rest.drop_first())
            },
            Token::LeftParen => shunt(stack.push(t), rest.drop_first()),
            Token::RightParen => {
                let (p, r) = pop_to_paren(stack);
                p + shunt(r, rest.drop_first())
            },
            _ => seq![t] + shunt(stack, rest.drop_first()),
        }
    }
}

/// Whether the top of `stack` leaves it before `incoming` is pushed.
fn top_pops(stack: &Vec<Token>, incoming: Op) -> (r: bool)
    ensures
        r == (stack@.len() > 0 && pops_before(stack@.last(), incoming)),
{
    if stack.len() == 0 {
        return false;
    }
    match stack[stack.len() - 1] {
        Token::Operator(top) => match top {
            Op::Mul | Op::Div => true,
            Op::Add => incoming != Op::Sub,
            Op::Sub => incoming != Op::Add,
        },
        _ => false,
    }
}

/// The postfix order of an infix token sequence.
pub open spec fn postfix_of(ts: Seq<Token>) -> Seq<Token> {
    shunt(seq![], ts)
}

/// Reorders infix tokens into postfix order with an operator stack. Operands
/// and error tokens go straight to the output; unbalanced parentheses are
/// tolerated and left for evaluation to reject.
pub fn to_postfix(tokens: &Vec<Token>) -> (r: Vec<Token>)
    ensures
        r@ == postfix_of(tokens@),
{
    let mut out: Vec<Token> = Vec::new();
    let mut stack: Vec<Token> = Vec::new();
    let mut i: usize = 0;
    proof {
        assert(tokens@.skip(0) =~= tokens@);
        assert(stack@ =~= seq![]);
        assert(out@ + postfix_of(tokens@) =~= postfix_of(tokens@));
    }
    while i < tokens.len()
        invariant
            0 <= i <= tokens@.len(),
            postfix_of(tokens@) == out@ + shunt(stack@, tokens@.skip(i as int)),
        decreases tokens@.len() - i,
    {
        let t = tokens[i];
        let ghost rest = tokens@.skip(i as int);
        let ghost goal = postfix_of(tokens@);
        assert(rest[0] == t);
        assert(rest.drop_first() =~= tokens@.skip(i + 1));
        match t {
            Token::Operator(op) => {
                let ghost out0 = out@;
                let ghost stack0 = stack@;
                while top_pops(&stack, op)
                    invariant
                        out@ + pop_higher(stack@, op).0 == out0 + pop_higher(stack0, op).0,
                        pop_higher(stack@, op).1 == pop_higher(stack0, op).1,
                    decreases stack@.len(),
                {
                    let ghost st = stack@;
                    let top = stack.pop().unwrap();
                    proof {
                        assert(st.drop_last() =~= stack@);
                        assert(out@.push(top) + pop_higher(stack@, op).0 =~= out@ + (seq![top]
                            + pop_higher(stack@, op).0));
                    }
                    out.push(top);
                }
                proof {
                    assert(pop_higher(stack@, op).0 =~= seq![]);
                    assert(out@ + seq![] =~= out@);
                    assert(out0 + (pop_higher(stack0, op).0 + shunt(stack@.push(t), tokens@.skip(i + 1)))
                        =~= out@ + shunt(stack@.push(t), tokens@.skip(i + 1)));
                }
                stack.push(t);
            },
            Token::LeftParen => {
                stack.push(t);
            },
            Token::RightParen => {
                let ghost out0 = out@;
                let ghost stack0 = stack@;
                let mut done = false;
                while !done && stack.len() > 0
                    invariant
                        !done ==> out@ + pop_to_paren(stack@).0 == out0 + pop_to_paren(stack0).0,
                        !done ==> pop_to_paren(stack@).1 == pop_to_paren(stack0).1,
                        done ==> out@ == out0 + pop_to_paren(stack0).0,
                        done ==> stack@ == pop_to_paren(stack0).1,
                    decreases stack@.len(),
                {
                    let ghost st = stack@;
                    let top = stack.pop().unwrap();
                    proof {
                        assert(st.drop_last() =~= stack@);
                    }
                    match top {
                        Token::LeftParen => {
                            proof {
                                assert(out@ + seq![] =~= out@);
                            }
                            done = true;
                        },
                        _ => {
                            proof {
                                assert(out@.push(top) + pop_to_paren(stack@).0 =~= out@ + (seq![top]
                                    + pop_to_paren(stack@).0));
                            }
                            out.push(top);
                        },
                    }
                }
                proof {
                    if !done {
                        assert(out@ + seq![] =~= out@);
                        assert(stack@ =~= seq![]);
                    }
                    assert(out0 + (pop_to_paren(stack0).0 + shunt(stack@, tokens@.skip(i + 1)))
                        =~= out@ + shunt(stack@, tokens@.skip(i + 1)));
                }
            },
            _ => {
                proof {
                    assert(out@ + (seq![t] + shunt(stack@, tokens@.skip(i + 1))) =~= out@.push(t)
                        + shunt(stack@, tokens@.skip(i + 1)));
                }
                out.push(t);
            },
        }
        i = i + 1;
    }
    assert(tokens@.skip(i as int).len() == 0);
    while stack.len() > 0
        invariant
            postfix_of(tokens@) == out@ + drain(stack@),
        decreases stack@.len(),
    {
        let ghost st = stack@;
        let top = stack.pop().unwrap();
        proof {
            assert(st.drop_last() =~= stack@);
            assert(out@ + (seq![top] + drain(stack@)) =~= out@.push(top) + drain(stack@));
        }
        out.push(top);
    }
    assert(out@ + drain(stack@) =~= out@);
    out
}

} // verus!
