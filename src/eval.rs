use vstd::prelude::*;
use crate::lexer::{Token, tokenize, tokens_of, lex, flush, parse_decimal_spec, is_num_char, classify, pow10};
use crate::number::{Number, apply, apply_spec, lemma_apply_finite};
use crate::postfix::{postfix_of, to_postfix, shunt, pop_higher, pop_to_paren, drain};

verus! {

/// The single failure of evaluation: the expression is malformed, or its
/// value is not finite.
#[derive(Clone, Copy, Debug, PartialEq, Eq, Structural)]
pub struct InvalidExpression;

/// Evaluates postfix `rest` on the value stack `stack` (top last). An
/// operator takes the two top values, the lower one as its left operand;
/// parentheses and error tokens fail; at the end exactly one value must be
/// left.
pub open spec fn run(stack: Seq<Number>, rest: Seq<Token>) -> Option<Number>
    decreases rest.len(),
{
    if rest.len() == 0 {
        if stack.len() == 1 { Some(stack[0]) } else { None }
    } else {
        match rest[0] {
            Token::Operand(n) => run(stack.push(n), rest.drop_first()),
            Token::Operator(op) => {
                if stack.len() < 2 {
                    None
                } else {
                    let l = stack.len() - 2;
                    match apply_spec(op, stack[l], stack[l + 1]) {
                        Some(v) => run(stack.take(l).push(v), rest.drop_first()),
                        None => None,
                    }
                }
            },
            _ => None,
        }
    }
}

/// The value of a postfix token sequence.
pub open spec fn postfix_value(ts: Seq<Token>) -> Option<Number> {
    run(seq![], ts)
}

/// The value of an expression: its tokens, put in postfix order, evaluated.
pub open spec fn value_of(s: Seq<char>) -> Option<Number> {
    match tokens_of(s) {
        Some(ts) => postfix_value(postfix_of(ts)),
        None => None,
    }
}

/// Evaluates a postfix token sequence.
pub fn eval_postfix(tokens: &Vec<Token>) -> (r: Option<Number>)
    ensures
        r == postfix_value(tokens@),
{
    let mut stack: Vec<Number> = Vec::new();
    let mut i: usize = 0;
    proof {
        assert(tokens@.skip(0) =~= tokens@);
        assert(stack@ =~= seq![]);
    }
    while i < tokens.len()
        invariant
            0 <= i <= tokens@.len(),
            postfix_value(tokens@) == run(stack@, tokens@.skip(i as int)),
        decreases tokens@.len() - i,
    {
        let ghost rest = tokens@.skip(i as int);
        assert(rest[0] == tokens@[i as int]);
        assert(rest.drop_first() =~= tokens@.skip(i + 1));
        match tokens[i] {
            Token::Operand(n) => {
                stack.push(n);
            },
            Token::Operator(op) => {
                if stack.len() < 2 {
                    return None;
                }
                let ghost st = stack@;
                let b = stack.pop().unwrap();
                let a = stack.pop().unwrap();
                match apply(op, a, b) {
                    Some(v) => {
                        stack.push(v);
                        proof {
                            assert(stack@ =~= st.take(st.len() - 2).push(v));
                        }
                    },
                    None => return None,
                }
            },
            _ => return None,
        }
        i = i + 1;
    }
    assert(tokens@.skip(i as int).len() == 0);
    if stack.len() == 1 {
        Some(stack[0])
    } else {
        None
    }
}

/// Evaluates an arithmetic expression (whitespace already stripped): it is
/// tokenized, reordered into postfix form and evaluated. Every failure, an
/// unparsable literal, a misplaced token or a value that is not finite, comes
/// back as the one error.
pub fn evaluate(expression: &str) -> (r: Result<Number, InvalidExpression>)
    ensures
        r == match value_of(expression@) {
            Some(n) => Ok(n),
            None => Err(InvalidExpression),
        },
        r matches Ok(n) ==> n.is_finite(),
        expression@.len() == 0 ==> r is Err,
{
    proof {
        if value_of(expression@) is Some {
            lemma_value_finite(expression@);
        }
        if expression@.len() == 0 {
            lemma_empty_invalid();
        }
    }
    let tokens = match tokenize(expression) {
        Ok(t) => t,
        Err(_) => return Err(InvalidExpression),
    };
    let post = to_postfix(&tokens);
    match eval_postfix(&post) {
        Some(n) => Ok(n),
        None => Err(InvalidExpression),
    }
}

/// Every operand token of `ts` holds a finite value.
pub open spec fn operands_finite(ts: Seq<Token>) -> bool {
    forall|i: int| 0 <= i < ts.len() && (#[trigger] ts[i]) is Operand ==> ts[i]->Operand_0.is_finite()
}

proof fn lemma_pow10_pos(n: nat)
    ensures
        pow10(n) >= 1,
    decreases n,
{
    if n > 0 {
        lemma_pow10_pos((n - 1) as nat);
    }
}

proof fn lemma_lex_finite(buf: Seq<char>, rest: Seq<char>)
    requires
        lex(buf, rest) is Some,
    ensures
        operands_finite(lex(buf, rest)->Some_0),
    decreases rest.len(),
{
    if let Some(n) = parse_decimal_spec(buf) {
        lemma_pow10_pos(crate::lexer::frac_len(buf));
    }
    if rest.len() > 0 {
        if is_num_char(rest[0]) {
            lemma_lex_finite(buf.push(rest[0]), rest.drop_first());
        } else {
            let f = flush(buf)->Some_0;
            let t = lex(seq![], rest.drop_first())->Some_0;
            lemma_lex_finite(seq![], rest.drop_first());
            let all = f.push(classify(rest[0])) + t;
            assert forall|i: int| 0 <= i < all.len() && (#[trigger] all[i]) is Operand implies all[i]->Operand_0.is_finite() by {
                if i >= f.len() + 1 {
                    assert(all[i] == t[i - f.len() - 1]);
                }
            }
        }
    }
}

proof fn lemma_concat_finite(a: Seq<Token>, b: Seq<Token>)
    requires
        operands_finite(a),
        operands_finite(b),
    ensures
        operands_finite(a + b),
{
    assert forall|i: int| 0 <= i < (a + b).len() && (#[trigger] (a + b)[i]) is Operand implies (a + b)[i]->Operand_0.is_finite() by {
        if i >= a.len() {
            assert((a + b)[i] == b[i - a.len()]);
        }
    }
}

proof fn lemma_pops_finite(stack: Seq<Token>, op: crate::number::Op)
    requires
        operands_finite(stack),
    ensures
        operands_finite(pop_higher(stack, op).0),
        operands_finite(pop_higher(stack, op).1),
        operands_finite(pop_to_paren(stack).0),
        operands_finite(pop_to_paren(stack).1),
        operands_finite(drain(stack)),
    decreases stack.len(),
{
    if stack.len() > 0 {
        let d = stack.drop_last();
        assert(operands_finite(d)) by {
            assert forall|i: int| 0 <= i < d.len() && (#[trigger] d[i]) is Operand implies d[i]->Operand_0.is_finite() by {
                assert(d[i] == stack[i]);
            }
        }
        lemma_pops_finite(d, op);
        assert(operands_finite(seq![stack.last()]));
        lemma_concat_finite(seq![stack.last()], pop_higher(d, op).0);
        lemma_concat_finite(seq![stack.last()], pop_to_paren(d).0);
        lemma_concat_finite(seq![stack.last()], drain(d));
    }
}

proof fn lemma_push_finite(s: Seq<Token>, t: Token)
    requires
        operands_finite(s),
        t is Operand ==> t->Operand_0.is_finite(),
    ensures
        operands_finite(s.push(t)),
{
    assert(operands_finite(seq![t]));
    lemma_concat_finite(s, seq![t]);
    assert(s + seq![t] =~= s.push(t));
}

proof fn lemma_shunt_finite(stack: Seq<Token>, rest: Seq<Token>)
    requires
        operands_finite(stack),
        operands_finite(rest),
    ensures
        operands_finite(shunt(stack, rest)),
    decreases rest.len(),
{
    if rest.len() == 0 {
        lemma_pops_finite(stack, crate::number::Op::Add);
    } else {
        let t = rest[0];
        let tail = rest.drop_first();
        assert(operands_finite(tail)) by {
            assert forall|i: int| 0 <= i < tail.len() && (#[trigger] tail[i]) is Operand implies tail[i]->Operand_0.is_finite() by {
                assert(tail[i] == rest[i + 1]);
            }
        }
        match t {
            Token::Operator(op) => {
                lemma_pops_finite(stack, op);
                lemma_push_finite(pop_higher(stack, op).1, t);
                lemma_shunt_finite(pop_higher(stack, op).1.push(t), tail);
                lemma_concat_finite(pop_higher(stack, op).0, shunt(pop_higher(stack, op).1.push(t), tail));
            },
            Token::LeftParen => {
                lemma_push_finite(stack, t);
                lemma_shunt_finite(stack.push(t), tail);
            },
            Token::RightParen => {
                lemma_pops_finite(stack, crate::number::Op::Add);
                lemma_shunt_finite(pop_to_paren(stack).1, tail);
                lemma_concat_finite(pop_to_paren(stack).0, shunt(pop_to_paren(stack).1, tail));
            },
            _ => {
                assert(operands_finite(seq![t]));
                lemma_shunt_finite(stack, tail);
                lemma_concat_finite(seq![t], shunt(stack, tail));
            },
        }
    }
}

proof fn lemma_run_finite(stack: Seq<Number>, rest: Seq<Token>)
    requires
        forall|i: int| 0 <= i < stack.len() ==> (#[trigger] stack[i]).is_finite(),
        operands_finite(rest),
        run(stack, rest) is Some,
    ensures
        run(stack, rest)->Some_0.is_finite(),
    decreases rest.len(),
{
    if rest.len() > 0 {
        let tail = rest.drop_first();
        assert(operands_finite(tail)) by {
            assert forall|i: int| 0 <= i < tail.len() && (#[trigger] tail[i]) is Operand implies tail[i]->Operand_0.is_finite() by {
                assert(tail[i] == rest[i + 1]);
            }
        }
        match rest[0] {
            Token::Operand(n) => {
                assert(rest[0] is Operand);
                lemma_run_finite(stack.push(n), tail);
            },
            Token::Operator(op) => {
                let l = stack.len() - 2;
                lemma_apply_finite(op, stack[l], stack[l + 1]);
                let v = apply_spec(op, stack[l], stack[l + 1])->Some_0;
                let st = stack.take(l).push(v);
                assert forall|i: int| 0 <= i < st.len() implies (#[trigger] st[i]).is_finite() by {
                    if i < l {
                        assert(st[i] == stack[i]);
                    }
                }
                lemma_run_finite(st, tail);
            },
            _ => {},
        }
    }
}

/// Every value that an expression evaluates to is finite: its denominator is
/// not zero.
pub proof fn lemma_value_finite(s: Seq<char>)
    requires
        value_of(s) is Some,
    ensures
        value_of(s)->Some_0.is_finite(),
{
    let ts = tokens_of(s)->Some_0;
    lemma_lex_finite(seq![], s);
    lemma_shunt_finite(seq![], ts);
    lemma_run_finite(seq![], postfix_of(ts));
}

/// An empty expression has no value.
pub proof fn lemma_empty_invalid()
    ensures
        value_of(seq![]) is None,
{
    assert(tokens_of(seq![]) == Some(Seq::<Token>::empty()));
    assert(postfix_of(seq![]) == Seq::<Token>::empty());
}

/// Evaluation depends on the expression alone: two evaluations of the same
/// characters give the same result.
pub proof fn lemma_deterministic(a: Seq<char>, b: Seq<char>)
    requires
        a == b,
    ensures
        value_of(a) == value_of(b),
{
}

proof fn lemma_lex_error(buf: Seq<char>, rest: Seq<char>, k: int)
    requires
        0 <= k < rest.len(),
        !is_num_char(rest[k]),
        classify(rest[k]) is Error,
        lex(buf, rest) is Some,
    ensures
        lex(buf, rest)->Some_0.contains(Token::Error(rest[k])),
    decreases rest.len(),
{
    let tail = rest.drop_first();
    if is_num_char(rest[0]) {
        assert(tail[k - 1] == rest[k]);
        lemma_lex_error(buf.push(rest[0]), tail, k - 1);
    } else {
        let f = flush(buf)->Some_0.push(classify(rest[0]));
        let t = lex(seq![], tail)->Some_0;
        let all = f + t;
        if k == 0 {
            assert(all[f.len() - 1] == Token::Error(rest[k]));
        } else {
            assert(tail[k - 1] == rest[k]);
            lemma_lex_error(seq![], tail, k - 1);
            let j = choose|j: int| 0 <= j < t.len() && t[j] == Token::Error(rest[k]);
            assert(all[f.len() + j] == t[j]);
        }
    }
}

proof fn lemma_shunt_error(stack: Seq<Token>, rest: Seq<Token>, k: int)
    requires
        0 <= k < rest.len(),
        rest[k] is Error,
    ensures
        shunt(stack, rest).contains(rest[k]),
    decreases rest.len(),
{
    let t = rest[0];
    let tail = rest.drop_first();
    if k == 0 {
        assert(shunt(stack, rest) == seq![t] + shunt(stack, tail));
        assert(shunt(stack, rest)[0] == t);
    } else {
        assert(tail[k - 1] == rest[k]);
        let (p, st) = match t {
            Token::Operator(op) => (pop_higher(stack, op).0, pop_higher(stack, op).1.push(t)),
            Token::LeftParen => (Seq::<Token>::empty(), stack.push(t)),
            Token::RightParen => (pop_to_paren(stack).0, pop_to_paren(stack).1),
            _ => (seq![t], stack),
        };
        lemma_shunt_error(st, tail, k - 1);
        let out = shunt(st, tail);
        assert(shunt(stack, rest) == p + out);
        let j = choose|j: int| 0 <= j < out.len() && out[j] == rest[k];
        assert((p + out)[p.len() + j] == out[j]);
    }
}

proof fn lemma_run_error(stack: Seq<Number>, rest: Seq<Token>, k: int)
    requires
        0 <= k < rest.len(),
        rest[k] is Error,
    ensures
        run(stack, rest) is None,
    decreases rest.len(),
{
    if k > 0 {
        let tail = rest.drop_first();
        assert(tail[k - 1] == rest[k]);
        match rest[0] {
            Token::Operand(n) => lemma_run_error(stack.push(n), tail, k - 1),
            Token::Operator(op) => {
                if stack.len() >= 2 {
                    let l = stack.len() - 2;
                    if let Some(v) = apply_spec(op, stack[l], stack[l + 1]) {
                        lemma_run_error(stack.take(l).push(v), tail, k - 1);
                    }
                }
            },
            _ => {},
        }
    }
}

/// An expression that holds a character which is no digit, decimal point,
/// operator or parenthesis has no value.
pub proof fn lemma_stray_char_invalid(s: Seq<char>, k: int)
    requires
        0 <= k < s.len(),
        !is_num_char(s[k]),
        classify(s[k]) is Error,
    ensures
        value_of(s) is None,
{
    if let Some(ts) = tokens_of(s) {
        lemma_lex_error(seq![], s, k);
        let i = choose|i: int| 0 <= i < ts.len() && ts[i] == Token::Error(s[k]);
        lemma_shunt_error(seq![], ts, i);
        let out = postfix_of(ts);
        let j = choose|j: int| 0 <= j < out.len() && out[j] == ts[i];
        lemma_run_error(seq![], out, j);
    }
}

} // verus!
