use vstd::prelude::*;

use crate::derive::{derivative, lemma_derivative_depth, DeriveErr};
use crate::eval::{eval, evaluation, EvalErr};
use crate::rational::{
    law_inverse_operations, lemma_exact_result, lemma_reduced_fixed, ok_value, rat_apply, ArithErr,
};
use crate::{lit, pair, Equation, Expr, Op, Pair, Rational};

verus! {

/// Why an equation was not solved.
#[derive(Clone, Copy, Debug, PartialEq, Eq, Structural)]
pub enum SolveErr {
    /// The unknown occurs more than once.
    TooManyUnknowns,
    /// Neither side holds an unknown.
    NoUnknowns,
    /// The isolated side has no exact value.
    FailedToEval(EvalErr),
    /// The unknown sits in an exponent (no logarithms).
    UnknownInExponent,
    /// The unknown sits inside a trigonometric function (no inverse
    /// functions).
    NonInvertibleFunc,
    /// A `Derivative` node around the unknown whose derivative is not taken.
    NotDifferentiable(DeriveErr),
    /// Taking a derivative removed the unknown: the equation no longer holds it.
    LostUnknown,
    /// Taking a derivative copied the unknown (product or quotient rule): the
    /// differentiated side holds it more than once, so it cannot be
    /// isolated.
    DuplicatedUnknown,
}

/// Peels the side that holds the single unknown, applying the inverse of
/// each peeled operation to the constant side, and evaluates the constant
/// side once the unknown stands alone.
pub open spec fn isolate(side: Expr, constant: Expr) -> Result<Rational, SolveErr>
    decreases side.derivative_depth(), side.size(),
{
    match side {
        Expr::Rational(_) => Err(SolveErr::LostUnknown),
        Expr::Negative(inner) => isolate(*inner, Expr::Negative(Box::new(constant))),
        Expr::Variable(_) => match evaluation(constant) {
            Ok(v) => Ok(v),
            Err(x) => Err(SolveErr::FailedToEval(x)),
        },
        Expr::Derivative(inner) => match derivative(*inner) {
            Err(x) => Err(SolveErr::NotDifferentiable(x)),
            Ok(d) => if d.unknowns() == 0 {
                Err(SolveErr::LostUnknown)
            } else if d.unknowns() > 1 {
                Err(SolveErr::DuplicatedUnknown)
            // always true (lemma_derivative_depth); it shows the recursion ends
            } else if d.derivative_depth() <= inner.derivative_depth() {
                isolate(d, constant)
            } else {
                Err(SolveErr::LostUnknown)
            },
        },
        Expr::Func(_, _) => Err(SolveErr::NonInvertibleFunc),
        Expr::Pair(p) => {
            let (l, r) = (p.left, p.right);
            if l.unknowns() == 1 {
                if p.op is Pow {
                    isolate(l, pair(constant, Op::Pow, pair(lit(1), Op::Div, r)))
                } else {
                    isolate(l, pair(constant, p.op.spec_inverse(), r))
                }
            } else {
                match p.op {
                    Op::Add | Op::Mul => isolate(r, pair(constant, p.op.spec_inverse(), l)),
                    Op::Sub | Op::Div => isolate(r, pair(l, p.op, constant)),
                    Op::Pow => Err(SolveErr::UnknownInExponent),
                }
            }
        },
    }
}

/// The value of the single unknown of an equation.
pub open spec fn solution(equation: Equation) -> Result<Rational, SolveErr> {
    let (l, r) = (equation.lhs.unknowns(), equation.rhs.unknowns());
    if l + r > 1 {
        Err(SolveErr::TooManyUnknowns)
    } else if l + r == 0 {
        Err(SolveErr::NoUnknowns)
    } else if l == 1 {
        isolate(equation.lhs, equation.rhs)
    } else {
        isolate(equation.rhs, equation.lhs)
    }
}

fn isolate_unknown(side: Expr, constant: Expr) -> (r: Result<Rational, SolveErr>)
    requires
        side.unknowns() == 1,
    ensures
        r == isolate(side, constant),
    decreases side.derivative_depth(), side.size(),
{
    match side {
        Expr::Rational(_) => Err(SolveErr::LostUnknown),
        Expr::Negative(inner) => isolate_unknown(*inner, Expr::Negative(Box::new(constant))),
        Expr::Variable(_) => match eval(&constant) {
            Ok(v) => Ok(v),
            Err(x) => Err(SolveErr::FailedToEval(x)),
        },
        Expr::Derivative(inner) => {
            let d = match crate::derive::derive(&inner) {
                Ok(d) => d,
                Err(x) => return Err(SolveErr::NotDifferentiable(x)),
            };
            let count = d.unknown_count();
            if count == 0 {
                return Err(SolveErr::LostUnknown);
            } else if count > 1 {
                return Err(SolveErr::DuplicatedUnknown);
            }
            proof {
                lemma_derivative_depth(*inner);
            }
            isolate_unknown(d, constant)
        },
        Expr::Func(_, _) => Err(SolveErr::NonInvertibleFunc),
        Expr::Pair(p) => {
            let Pair { left, right, op } = *p;
            if left.unknown_count() == 1 {
                if op == Op::Pow {
                    let root = Expr::binary(Expr::integer(1), Op::Div, right);
                    isolate_unknown(left, Expr::binary(constant, Op::Pow, root))
                } else {
                    isolate_unknown(left, Expr::binary(constant, op.inverse(), right))
                }
            } else {
                match op {
                    Op::Add | Op::Mul => isolate_unknown(
                        right,
                        Expr::binary(constant, op.inverse(), left),
                    ),
                    Op::Sub | Op::Div => isolate_unknown(right, Expr::binary(left, op, constant)),
                    Op::Pow => Err(SolveErr::UnknownInExponent),
                }
            }
        },
    }
}

/// Solves an equation with exactly one occurrence of an unknown.
pub fn solve(equation: &Equation) -> (r: Result<Rational, SolveErr>)
    ensures
        r == solution(*equation),
{
    let lunknowns = equation.lhs.unknown_count();
    let runknowns = equation.rhs.unknown_count();
    let unknowns = lunknowns.saturating_add(runknowns);
    if unknowns > 1 {
        return Err(SolveErr::TooManyUnknowns);
    } else if unknowns == 0 {
        return Err(SolveErr::NoUnknowns);
    }
    if lunknowns == 1 {
        isolate_unknown(equation.lhs.duplicate(), equation.rhs.duplicate())
    } else {
        isolate_unknown(equation.rhs.duplicate(), equation.lhs.duplicate())
    }
}

/// Isolating the unknown never reports a count of unknowns: those two
/// errors come only from the count made before it.
proof fn lemma_isolate_not_count_error(side: Expr, constant: Expr)
    ensures
        isolate(side, constant) != Err::<Rational, SolveErr>(SolveErr::TooManyUnknowns),
        isolate(side, constant) != Err::<Rational, SolveErr>(SolveErr::NoUnknowns),
    decreases side.derivative_depth(), side.size(),
{
    match side {
        Expr::Negative(inner) => {
            lemma_isolate_not_count_error(*inner, Expr::Negative(Box::new(constant)))
        },
        Expr::Derivative(inner) => {
            if let Ok(d) = derivative(*inner) {
                if d.derivative_depth() <= inner.derivative_depth() {
                    lemma_isolate_not_count_error(d, constant);
                }
            }
        },
        Expr::Pair(p) => {
            let (l, r) = (p.left, p.right);
            lemma_isolate_not_count_error(l, pair(constant, Op::Pow, pair(lit(1), Op::Div, r)));
            lemma_isolate_not_count_error(l, pair(constant, p.op.spec_inverse(), r));
            lemma_isolate_not_count_error(r, pair(constant, p.op.spec_inverse(), l));
            lemma_isolate_not_count_error(r, pair(l, p.op, constant));
        },
        _ => {},
    }
}

/// `solve` reports too many unknowns exactly when the two sides hold more
/// than one between them, and no unknowns exactly when they hold none.
pub proof fn law_solve_unknown_counts(equation: Equation)
    ensures
        solution(equation) == Err::<Rational, SolveErr>(SolveErr::TooManyUnknowns)
            <==> equation.lhs.unknowns() + equation.rhs.unknowns() > 1,
        solution(equation) == Err::<Rational, SolveErr>(SolveErr::NoUnknowns)
            <==> equation.lhs.unknowns() + equation.rhs.unknowns() == 0,
{
    lemma_isolate_not_count_error(equation.lhs, equation.rhs);
    lemma_isolate_not_count_error(equation.rhs, equation.lhs);
}

/// Every variable replaced by the literal `v`.
pub open spec fn substitute(e: Expr, v: Rational) -> Expr
    decreases e,
{
    match e {
        Expr::Rational(q) => Expr::Rational(q),
        Expr::Pair(p) => pair(substitute(p.left, v), p.op, substitute(p.right, v)),
        Expr::Negative(inner) => Expr::Negative(Box::new(substitute(*inner, v))),
        Expr::Variable(_) => Expr::Rational(v),
        Expr::Derivative(inner) => Expr::Derivative(Box::new(substitute(*inner, v))),
        Expr::Func(f, inner) => Expr::Func(f, Box::new(substitute(*inner, v))),
    }
}

/// A tree of reduced literals joined by `+ - * /` in which every subtree
/// has a nonzero value.
pub open spec fn nonzero_tree(e: Expr) -> bool
    decreases e,
{
    match e {
        Expr::Rational(q) => q.is_reduced() && q.numerator != 0,
        Expr::Pair(p) => !(p.op is Pow) && nonzero_tree(p.left) && nonzero_tree(p.right) && (
        evaluation(e) matches Ok(v) && v.numerator != 0),
        _ => false,
    }
}

/// Substituting into a tree without unknowns changes nothing.
pub proof fn lemma_substitute_closed(e: Expr, v: Rational)
    requires
        e.unknowns() == 0,
    ensures
        substitute(e, v) == e,
    decreases e,
{
    match e {
        Expr::Pair(p) => {
            lemma_substitute_closed(p.left, v);
            lemma_substitute_closed(p.right, v);
        },
        Expr::Negative(inner) => lemma_substitute_closed(*inner, v),
        Expr::Derivative(inner) => lemma_substitute_closed(*inner, v),
        Expr::Func(_, inner) => lemma_substitute_closed(*inner, v),
        _ => {},
    }
}

/// The value of a nonzero tree is reduced and nonzero.
pub proof fn lemma_nonzero_value(e: Expr)
    requires
        nonzero_tree(e),
    ensures
        evaluation(e) matches Ok(v) && v.is_reduced() && v.numerator != 0,
    decreases e,
{
    match e {
        Expr::Rational(q) => lemma_reduced_fixed(q),
        Expr::Pair(p) => {
            lemma_nonzero_value(p.left);
            lemma_nonzero_value(p.right);
            if let (Ok(a), Ok(b)) = (evaluation(p.left), evaluation(p.right)) {
                if let Ok(x) = rat_apply(p.op, a, b) {
                    lemma_exact_result(p.op, a, b, x);
                    lemma_reduced_fixed(x);
                }
            }
        },
        _ => {},
    }
}

/// Solving inverts the operations around the unknown: where the side that
/// holds the single unknown, with the unknown replaced by `a`, is a tree of
/// nonzero values whose value is that of the other side, the unknown is
/// found to be `a`.
pub proof fn law_isolate_finds_planted_value(side: Expr, constant: Expr, a: Rational)
    requires
        side.unknowns() == 1,
        nonzero_tree(substitute(side, a)),
        evaluation(constant) == evaluation(substitute(side, a)),
    ensures
        isolate(side, constant) == Ok::<Rational, SolveErr>(a),
    decreases side,
{
    match side {
        Expr::Variable(_) => {
            lemma_reduced_fixed(a);
        },
        Expr::Pair(p) => {
            let (l, r, op) = (p.left, p.right, p.op);
            let (sl, sr) = (substitute(l, a), substitute(r, a));
            lemma_nonzero_value(sl);
            lemma_nonzero_value(sr);
            lemma_nonzero_value(substitute(side, a));
            let lv = evaluation(sl)->Ok_0;
            let rv = evaluation(sr)->Ok_0;
            let w = evaluation(substitute(side, a))->Ok_0;
            lemma_exact_result(op, lv, rv, ok_value(rat_apply(op, lv, rv)));
            lemma_reduced_fixed(ok_value(rat_apply(op, lv, rv)));
            assert(rat_apply(op, lv, rv) == Ok::<Rational, ArithErr>(w));
            law_inverse_operations(lv, rv);
            lemma_reduced_fixed(lv);
            lemma_reduced_fixed(rv);
            if l.unknowns() == 1 {
                lemma_substitute_closed(r, a);
                let next = pair(constant, op.spec_inverse(), r);
                assert(evaluation(next) == evaluation(sl));
                law_isolate_finds_planted_value(l, next, a);
            } else {
                lemma_substitute_closed(l, a);
                let next = match op {
                    Op::Add | Op::Mul => pair(constant, op.spec_inverse(), l),
                    _ => pair(l, op, constant),
                };
                assert(evaluation(next) == evaluation(sr));
                law_isolate_finds_planted_value(r, next, a);
            }
        },
        _ => {},
    }
}

} // verus!
