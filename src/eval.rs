use vstd::prelude::*;

use crate::derive::{both, derivative, lemma_derivative_depth, DeriveErr};
use crate::rational::{rat_add, rat_apply, rat_neg, ArithErr};
use crate::{lit, pair, Expr, Func, Op, Rational};

verus! {

/// Why an expression has no exact value.
#[derive(Clone, Copy, Debug, PartialEq, Eq, Structural)]
pub enum EvalErr {
    /// A variable was reached.
    EncounteredUnknown(char),
    /// A trigonometric function was reached; it has no exact rational value.
    NonEvaluableFunc(Func),
    /// The exact arithmetic failed: overflow, division by zero, or a
    /// fractional exponent.
    Arithmetic(ArithErr),
    /// A `Derivative` node whose derivative is not taken.
    NotDifferentiable(DeriveErr),
}

/// The exact value of an expression, in reduced form. Children are evaluated
/// left to right and the first failure is returned; a `Derivative` node is
/// differentiated and the result evaluated.
pub open spec fn evaluation(e: Expr) -> Result<Rational, EvalErr>
    decreases e.derivative_depth(), e.size(),
{
    match e {
        Expr::Rational(q) => if q.denominator == 0 && q.numerator != 0 {
            Err(EvalErr::Arithmetic(ArithErr::DivisionByZero))
        } else {
            Ok(q.reduced())
        },
        Expr::Pair(p) => match evaluation(p.left) {
            Err(x) => Err(x),
            Ok(a) => match evaluation(p.right) {
                Err(x) => Err(x),
                Ok(b) => match rat_apply(p.op, a, b) {
                    Ok(v) => Ok(v.reduced()),
                    Err(x) => Err(EvalErr::Arithmetic(x)),
                },
            },
        },
        Expr::Negative(inner) => match evaluation(*inner) {
            Err(x) => Err(x),
            Ok(a) => match rat_neg(a) {
                Ok(v) => Ok(v.reduced()),
                Err(x) => Err(EvalErr::Arithmetic(x)),
            },
        },
        Expr::Variable(c) => Err(EvalErr::EncounteredUnknown(c)),
        Expr::Derivative(inner) => match derivative(*inner) {
            // always true (lemma_derivative_depth); it shows the recursion ends
            Ok(d) => if d.derivative_depth() <= inner.derivative_depth() {
                evaluation(d)
            } else {
                Ok(Rational { numerator: 0, denominator: 1 })
            },
            Err(x) => Err(EvalErr::NotDifferentiable(x)),
        },
        Expr::Func(f, _) => Err(EvalErr::NonEvaluableFunc(f)),
    }
}

fn apply(op: Op, a: Rational, b: Rational) -> (r: Result<Rational, ArithErr>)
    requires
        a.wf(),
        b.wf(),
    ensures
        r == rat_apply(op, a, b),
        r matches Ok(q) ==> q.is_reduced(),
{
    match op {
        Op::Add => a.checked_add(b),
        Op::Sub => a.checked_sub(b),
        Op::Mul => a.checked_mul(b),
        Op::Div => a.checked_div(b),
        Op::Pow => a.checked_pow(b),
    }
}

/// Reduces an expression without unknowns to its exact value.
pub fn eval(expr: &Expr) -> (r: Result<Rational, EvalErr>)
    ensures
        r == evaluation(*expr),
        r matches Ok(v) ==> v.is_reduced(),
    decreases expr.derivative_depth(), expr.size(),
{
    let answer = match expr {
        Expr::Rational(q) => {
            if q.denominator == 0 && q.numerator != 0 {
                return Err(EvalErr::Arithmetic(ArithErr::DivisionByZero));
            }
            *q
        },
        Expr::Pair(p) => {
            let a = eval(&p.left)?;
            let b = eval(&p.right)?;
            match apply(p.op, a, b) {
                Ok(v) => v,
                Err(x) => return Err(EvalErr::Arithmetic(x)),
            }
        },
        Expr::Negative(inner) => {
            let a = eval(inner)?;
            match a.checked_neg() {
                Ok(v) => v,
                Err(x) => return Err(EvalErr::Arithmetic(x)),
            }
        },
        Expr::Variable(c) => return Err(EvalErr::EncounteredUnknown(*c)),
        Expr::Derivative(inner) => {
            let d = match crate::derive::derive(inner) {
                Ok(d) => d,
                Err(x) => return Err(EvalErr::NotDifferentiable(x)),
            };
            proof {
                lemma_derivative_depth(**inner);
            }
            return eval(&d);
        },
        Expr::Func(f, _) => return Err(EvalErr::NonEvaluableFunc(*f)),
    };
    Ok(answer.simplified())
}

/// Differentiation is linear over sums. The derivative of `a + b` exists
/// exactly when those of `a` and `b` do; where the sum holds the unknown it
/// is the sum of the two derivatives, and in every case the two have the
/// same value.
pub proof fn law_derivative_of_sum(a: Expr, b: Expr)
    ensures
        derivative(pair(a, Op::Add, b)) is Ok <==> (derivative(a) is Ok && derivative(b) is Ok),
        (derivative(a), derivative(b), derivative(pair(a, Op::Add, b))) matches (
            Ok(da),
            Ok(db),
            Ok(s),
        ) ==> evaluation(s) == evaluation(pair(da, Op::Add, db)) && (pair(a, Op::Add, b).unknowns()
            > 0 ==> s == pair(da, Op::Add, db)),
{
    let s = pair(a, Op::Add, b);
    if s.unknowns() == 0 {
        assert(a.unknowns() == 0 && b.unknowns() == 0);
        let zero = Rational { numerator: 0, denominator: 1 };
        assert(lit(0) == Expr::Rational(zero));
        assert(evaluation(lit(0)) == Ok::<Rational, EvalErr>(zero));
        assert(rat_add(zero, zero) == Ok::<Rational, ArithErr>(zero));
        assert(evaluation(pair(lit(0), Op::Add, lit(0))) == Ok::<Rational, EvalErr>(zero));
    } else {
        assert(derivative(s) == match both(derivative(a), derivative(b)) {
            Ok((x, y)) => Ok(pair(x, Op::Add, y)),
            Err(e) => Err::<Expr, DeriveErr>(e),
        });
    }
}

} // verus!
