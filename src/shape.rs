use vstd::prelude::*;
use crate::lexer::{Token, tokens_of};
use crate::number::{Number, apply_spec};
use crate::postfix::{shunt, pop_higher, pop_to_paren, drain, postfix_of};
use crate::eval::{run, value_of, lemma_value_finite};

verus! {

/// Whether `rest` completes a well-formed infix expression: operands and
/// operators alternate, each parenthesis group holds an expression, and the
/// parentheses balance. `expect_operand` says whether an operand (or a left
/// parenthesis) is due next, `depth` how many groups are open.
pub open spec fn valid_from(expect_operand: bool, depth: nat, rest: Seq<Token>) -> bool
    decreases rest.len(),
{
    if rest.len() == 0 {
        !expect_operand && depth == 0
    } else {
        let tail = rest.drop_first();
        match rest[0] {
            Token::Operand(_) => expect_operand && valid_from(false, depth, tail),
            Token::LeftParen => expect_operand && valid_from(true, depth + 1, tail),
            Token::Operator(_) => !expect_operand && valid_from(true, depth, tail),
            Token::RightParen => !expect_operand && depth > 0 && valid_from(false, (depth - 1) as nat, tail),
            Token::Error(_) => false,
        }
    }
}

/// A well-formed infix expression with balanced parentheses.
pub open spec fn is_valid_infix(ts: Seq<Token>) -> bool {
    valid_from(true, 0, ts)
}

/// Whether postfix `p`, run on a stack of `h` values, meets an operator only
/// where two values are there, meets no parenthesis or error, and ends with
/// one value.
pub open spec fn shape_ok(h: int, p: Seq<Token>) -> bool
    decreases p.len(),
{
    if p.len() == 0 {
        h == 1
    } else {
        match p[0] {
            Token::Operand(_) => shape_ok(h + 1, p.drop_first()),
            Token::Operator(_) => h >= 2 && shape_ok(h - 1, p.drop_first()),
            _ => false,
        }
    }
}

/// A well-formed postfix sequence.
pub open spec fn is_well_formed_postfix(p: Seq<Token>) -> bool {
    shape_ok(0, p)
}

/// Whether every operator step of evaluating `rest` on `stack` that has two
/// values to work on gives a finite value that fits.
pub open spec fn steps_finite(stack: Seq<Number>, rest: Seq<Token>) -> bool
    decreases rest.len(),
{
    if rest.len() == 0 {
        true
    } else {
        match rest[0] {
            Token::Operand(n) => steps_finite(stack.push(n), rest.drop_first()),
            Token::Operator(op) => {
                if stack.len() < 2 {
                    true
                } else {
                    let l = stack.len() - 2;
                    match apply_spec(op, stack[l], stack[l + 1]) {
                        Some(v) => steps_finite(stack.take(l).push(v), rest.drop_first()),
                        None => false,
                    }
                }
            },
            _ => true,
        }
    }
}

pub open spec fn count_ops(s: Seq<Token>) -> nat
    decreases s.len(),
{
    if s.len() == 0 {
        0
    } else {
        count_ops(s.drop_last()) + if s.last() is Operator { 1nat } else { 0nat }
    }
}

pub open spec fn count_parens(s: Seq<Token>) -> nat
    decreases s.len(),
{
    if s.len() == 0 {
        0
    } else {
        count_parens(s.drop_last()) + if s.last() is LeftParen { 1nat } else { 0nat }
    }
}

pub open spec fn stack_ok(s: Seq<Token>) -> bool {
    forall|i: int| 0 <= i < s.len() ==> (#[trigger] s[i]) is Operator || s[i] is LeftParen
}

pub open spec fn all_ops(s: Seq<Token>) -> bool {
    forall|i: int| 0 <= i < s.len() ==> (#[trigger] s[i]) is Operator
}

proof fn lemma_drop_last_ok(s: Seq<Token>)
    requires
        s.len() > 0,
        stack_ok(s),
    ensures
        stack_ok(s.drop_last()),
        s.last() is Operator || s.last() is LeftParen,
{
    assert forall|i: int| 0 <= i < s.drop_last().len() implies (#[trigger] s.drop_last()[i]) is Operator
        || s.drop_last()[i] is LeftParen by {
        assert(s.drop_last()[i] == s[i]);
    }
}

proof fn lemma_cons_ops(t: Token, p: Seq<Token>)
    requires
        t is Operator,
        all_ops(p),
    ensures
        all_ops(seq![t] + p),
{
    assert forall|i: int| 0 <= i < (seq![t] + p).len() implies (#[trigger] (seq![t] + p)[i]) is Operator by {
        if i > 0 {
            assert((seq![t] + p)[i] == p[i - 1]);
        }
    }
}

proof fn lemma_pop_higher_shape(s: Seq<Token>, op: crate::number::Op)
    requires
        stack_ok(s),
    ensures
        stack_ok(pop_higher(s, op).1),
        all_ops(pop_higher(s, op).0),
        pop_higher(s, op).0.len() + count_ops(pop_higher(s, op).1) == count_ops(s),
        count_parens(pop_higher(s, op).1) == count_parens(s),
    decreases s.len(),
{
    if s.len() > 0 && crate::postfix::pops_before(s.last(), op) {
        lemma_drop_last_ok(s);
        lemma_pop_higher_shape(s.drop_last(), op);
        lemma_cons_ops(s.last(), pop_higher(s.drop_last(), op).0);
    }
}

proof fn lemma_pop_to_paren_shape(s: Seq<Token>)
    requires
        stack_ok(s),
        count_parens(s) > 0,
    ensures
        stack_ok(pop_to_paren(s).1),
        all_ops(pop_to_paren(s).0),
        pop_to_paren(s).0.len() + count_ops(pop_to_paren(s).1) == count_ops(s),
        count_parens(pop_to_paren(s).1) + 1 == count_parens(s),
    decreases s.len(),
{
    lemma_drop_last_ok(s);
    if s.last() != Token::LeftParen {
        lemma_pop_to_paren_shape(s.drop_last());
        lemma_cons_ops(s.last(), pop_to_paren(s.drop_last()).0);
    }
}

proof fn lemma_drain_shape(s: Seq<Token>)
    requires
        stack_ok(s),
        count_parens(s) == 0,
    ensures
        all_ops(drain(s)),
        drain(s).len() == count_ops(s),
    decreases s.len(),
{
    if s.len() > 0 {
        lemma_drop_last_ok(s);
        lemma_drain_shape(s.drop_last());
        lemma_cons_ops(s.last(), drain(s.drop_last()));
    }
}

proof fn lemma_ops_prefix(h: int, p: Seq<Token>, rest: Seq<Token>)
    requires
        all_ops(p),
        h >= p.len() + 1,
        shape_ok(h - p.len(), rest),
    ensures
        shape_ok(h, p + rest),
    decreases p.len(),
{
    if p.len() > 0 {
        let tail = p.drop_first();
        assert(all_ops(tail)) by {
            assert forall|i: int| 0 <= i < tail.len() implies (#[trigger] tail[i]) is Operator by {
                assert(tail[i] == p[i + 1]);
            }
        }
        lemma_ops_prefix(h - 1, tail, rest);
        assert((p + rest).drop_first() =~= tail + rest);
        assert((p + rest)[0] == p[0]);
    } else {
        assert(p + rest =~= rest);
    }
}

proof fn lemma_shunt_shape(stack: Seq<Token>, rest: Seq<Token>, expect: bool, depth: nat)
    requires
        stack_ok(stack),
        count_parens(stack) == depth,
        valid_from(expect, depth, rest),
    ensures
        shape_ok(count_ops(stack) + if expect { 0int } else { 1int }, shunt(stack, rest)),
    decreases rest.len(),
{
    let h = count_ops(stack) + if expect { 0int } else { 1int };
    if rest.len() == 0 {
        lemma_drain_shape(stack);
        lemma_ops_prefix(h, drain(stack), seq![]);
        assert(drain(stack) + seq![] =~= drain(stack));
    } else {
        let t = rest[0];
        let tail = rest.drop_first();
        match t {
            Token::Operand(_) => {
                lemma_shunt_shape(stack, tail, false, depth);
                let x = shunt(stack, tail);
                assert((seq![t] + x).drop_first() =~= x);
                assert((seq![t] + x)[0] == t);
            },
            Token::LeftParen => {
                let st = stack.push(t);
                assert(st.drop_last() =~= stack);
                assert(stack_ok(st)) by {
                    assert forall|i: int| 0 <= i < st.len() implies (#[trigger] st[i]) is Operator
                        || st[i] is LeftParen by {
                        if i < stack.len() {
                            assert(st[i] == stack[i]);
                        }
                    }
                }
                lemma_shunt_shape(st, tail, true, depth + 1);
            },
            Token::Operator(op) => {
                lemma_pop_higher_shape(stack, op);
                let (p, r) = pop_higher(stack, op);
                let st = r.push(t);
                assert(st.drop_last() =~= r);
                assert(stack_ok(st)) by {
                    assert forall|i: int| 0 <= i < st.len() implies (#[trigger] st[i]) is Operator
                        || st[i] is LeftParen by {
                        if i < r.len() {
                            assert(st[i] == r[i]);
                        }
                    }
                }
                lemma_shunt_shape(st, tail, true, depth);
                lemma_ops_prefix(h, p, shunt(st, tail));
            },
            Token::RightParen => {
                lemma_pop_to_paren_shape(stack);
                let (p, r) = pop_to_paren(stack);
                lemma_shunt_shape(r, tail, false, (depth - 1) as nat);
                lemma_ops_prefix(h, p, shunt(r, tail));
            },
            Token::Error(_) => {},
        }
    }
}

/// The postfix form of a well-formed infix expression is well formed.
pub proof fn lemma_valid_postfix(ts: Seq<Token>)
    requires
        is_valid_infix(ts),
    ensures
        is_well_formed_postfix(postfix_of(ts)),
{
    lemma_shunt_shape(seq![], ts, true, 0);
}

proof fn lemma_run_shape(stack: Seq<Number>, p: Seq<Token>)
    requires
        shape_ok(stack.len() as int, p),
        steps_finite(stack, p),
    ensures
        run(stack, p) is Some,
    decreases p.len(),
{
    if p.len() > 0 {
        match p[0] {
            Token::Operand(n) => lemma_run_shape(stack.push(n), p.drop_first()),
            Token::Operator(op) => {
                let l = stack.len() - 2;
                let v = apply_spec(op, stack[l], stack[l + 1])->Some_0;
                lemma_run_shape(stack.take(l).push(v), p.drop_first());
            },
            _ => {},
        }
    }
}

/// A well-formed postfix sequence whose every step stays finite evaluates.
pub proof fn lemma_well_formed_evaluates(p: Seq<Token>)
    requires
        is_well_formed_postfix(p),
        steps_finite(seq![], p),
    ensures
        run(seq![], p) is Some,
{
    lemma_run_shape(seq![], p);
}

/// An expression whose tokens form a well-formed infix expression with
/// balanced parentheses, and whose every arithmetic step stays finite (no
/// division by zero, nothing outside `i128`), evaluates to a finite value.
pub proof fn lemma_valid_expression_evaluates(s: Seq<char>)
    requires
        tokens_of(s) is Some,
        is_valid_infix(tokens_of(s)->Some_0),
        steps_finite(seq![], postfix_of(tokens_of(s)->Some_0)),
    ensures
        value_of(s) is Some,
        value_of(s)->Some_0.is_finite(),
{
    let ts = tokens_of(s)->Some_0;
    lemma_valid_postfix(ts);
    lemma_well_formed_evaluates(postfix_of(ts));
    lemma_value_finite(s);
}

} // verus!
