use vstd::prelude::*;

verus! {

/// One of the four binary arithmetic operators.
#[derive(Clone, Copy, Debug, PartialEq, Eq, Structural)]
pub enum Op {
    Add,
    Sub,
    Mul,
    Div,
}

/// An exact value `num / den`. Every value that the library produces has a
/// nonzero denominator.
#[derive(Clone, Copy, Debug, PartialEq, Eq, Structural)]
pub struct Number {
    pub num: i128,
    pub den: i128,
}

/// Whether `x` can be held in an `i128`.
pub open spec fn fits(x: int) -> bool {
    i128::MIN <= x <= i128::MAX
}

impl Number {
    /// A value whose denominator is not zero, so that it stands for a finite number.
    pub open spec fn is_finite(self) -> bool {
        self.den != 0
    }
}

/// The fraction `n / d`, when both parts fit.
pub open spec fn fraction(n: int, d: int) -> Option<Number> {
    if fits(n) && fits(d) {
        Some(Number { num: n as i128, den: d as i128 })
    } else {
        None
    }
}

/// The result of `a op b` on fractions, computed without reducing:
/// `a/b + c/d = (a*d + c*b) / (b*d)` and so on. It is `None` when the divisor
/// is zero, or when a product or sum of the computation does not fit.
pub open spec fn apply_spec(op: Op, a: Number, b: Number) -> Option<Number> {
    match op {
        Op::Add => {
            let (x, y) = (a.num * b.den, b.num * a.den);
            if fits(x) && fits(y) { fraction(x + y, a.den * b.den) } else { None }
        },
        Op::Sub => {
            let (x, y) = (a.num * b.den, b.num * a.den);
            if fits(x) && fits(y) { fraction(x - y, a.den * b.den) } else { None }
        },
        Op::Mul => fraction(a.num * b.num, a.den * b.den),
        Op::Div => if b.num == 0 { None } else { fraction(a.num * b.den, a.den * b.num) },
    }
}

/// A finite result from finite operands.
pub proof fn lemma_apply_finite(op: Op, a: Number, b: Number)
    requires
        a.is_finite(),
        b.is_finite(),
        apply_spec(op, a, b) is Some,
    ensures
        apply_spec(op, a, b)->Some_0.is_finite(),
{
    let (ad, bd, bn) = (a.den as int, b.den as int, b.num as int);
    assert(ad * bd != 0) by (nonlinear_arith)
        requires ad != 0, bd != 0;
    if op == Op::Div {
        assert(ad * bn != 0) by (nonlinear_arith)
            requires ad != 0, bn != 0;
    }
}

/// Applies `op` to `a` and `b` with checked arithmetic.
pub fn apply(op: Op, a: Number, b: Number) -> (r: Option<Number>)
    ensures
        r == apply_spec(op, a, b),
{
    match op {
        Op::Add | Op::Sub => {
            let x = match a.num.checked_mul(b.den) { Some(v) => v, None => return None };
            let y = match b.num.checked_mul(a.den) { Some(v) => v, None => return None };
            let n = if op == Op::Add { x.checked_add(y) } else { x.checked_sub(y) };
            let n = match n { Some(v) => v, None => return None };
            match a.den.checked_mul(b.den) {
                Some(d) => Some(Number { num: n, den: d }),
                None => None,
            }
        },
        Op::Mul => {
            let n = match a.num.checked_mul(b.num) { Some(v) => v, None => return None };
            match a.den.checked_mul(b.den) {
                Some(d) => Some(Number { num: n, den: d }),
                None => None,
            }
        },
        Op::Div => {
            if b.num == 0 {
                return None;
            }
            let n = match a.num.checked_mul(b.den) { Some(v) => v, None => return None };
            match a.den.checked_mul(b.num) {
                Some(d) => Some(Number { num: n, den: d }),
                None => None,
            }
        },
    }
}

} // verus!
