use std::collections::BTreeSet;

use maths_problem_gen::derive::DeriveErr;
use maths_problem_gen::eval::{eval, EvalErr};
use maths_problem_gen::fmt::bracketize;
use maths_problem_gen::simplify::simplify;
use maths_problem_gen::gen::{
    factors, gen_arithmetic, gen_backtrack, gen_choices, gen_derivable, gen_polynomial,
    gen_polynomial_choices, generate_multiple_choice_problem, polynomial, rand_int, rand_rational, Maths,
    ProblemErr,
};
use maths_problem_gen::render::{latex_bracketize, Answer, LatexConvertible};
use maths_problem_gen::solve::{solve, SolveErr};
use maths_problem_gen::{ArithErr, Equation, Expr, Func, Op, Pair, Rational};

fn num(n: i64) -> Expr {
    Expr::Rational(Rational::integer(n))
}

fn frac(n: i64, d: u64) -> Expr {
    Expr::Rational(Rational::new(n, d))
}

fn x() -> Expr {
    Expr::Variable('x')
}

fn bin(l: Expr, op: Op, r: Expr) -> Expr {
    Expr::Pair(Box::new(Pair::new(l, op, r)))
}

fn neg(e: Expr) -> Expr {
    Expr::Negative(Box::new(e))
}

/// Replaces every variable by the given value.
fn substitute(e: &Expr, v: Rational) -> Expr {
    match e {
        Expr::Rational(q) => Expr::Rational(*q),
        Expr::Pair(p) => bin(substitute(&p.left, v), p.op, substitute(&p.right, v)),
        Expr::Negative(inner) => neg(substitute(inner, v)),
        Expr::Variable(_) => Expr::Rational(v),
        Expr::Derivative(inner) => Expr::Derivative(Box::new(substitute(inner, v))),
        Expr::Func(f, inner) => Expr::Func(*f, Box::new(substitute(inner, v))),
    }
}

fn r(n: i64, d: u64) -> Rational {
    Rational::new(n, d)
}

// ---- rational arithmetic ----

#[test]
fn simplified_divides_by_gcd() {
    assert_eq!(r(6, 8).simplified(), r(3, 4));
    assert_eq!(r(-6, 8).simplified(), r(-3, 4));
    assert_eq!(r(7, 1).simplified(), r(7, 1));
    assert_eq!(r(i64::MIN, 1 << 63).simplified(), r(-1, 1));
}

#[test]
fn zero_numerator_reduces_to_zero_over_one() {
    for d in [0u64, 1, 2, 7, 100, u64::MAX] {
        assert_eq!(r(0, d).simplified(), r(0, 1));
    }
}

#[test]
fn reduction_is_idempotent() {
    for q in [r(6, 8), r(-10, 4), r(0, 5), r(13, 17), r(i64::MAX, 3)] {
        let once = q.simplified();
        assert_eq!(once.simplified(), once);
    }
}

#[test]
fn addition_uses_common_denominator() {
    assert_eq!(r(1, 2).checked_add(r(1, 3)), Ok(r(5, 6)));
    assert_eq!(r(1, 6).checked_add(r(1, 3)), Ok(r(1, 2)));
    assert_eq!(r(1, 2).checked_add(r(-1, 2)), Ok(r(0, 1)));
}

#[test]
fn subtraction_multiplication_division() {
    assert_eq!(r(1, 2).checked_sub(r(1, 3)), Ok(r(1, 6)));
    assert_eq!(r(2, 3).checked_mul(r(9, 4)), Ok(r(3, 2)));
    assert_eq!(r(1, 2).checked_div(r(-3, 4)), Ok(r(-2, 3)));
    assert_eq!(r(5, 1).checked_neg(), Ok(r(-5, 1)));
}

#[test]
fn division_by_zero_is_an_error() {
    assert_eq!(r(1, 2).checked_div(r(0, 1)), Err(ArithErr::DivisionByZero));
}

#[test]
fn integer_powers() {
    assert_eq!(r(2, 1).checked_pow(r(3, 1)), Ok(r(8, 1)));
    assert_eq!(r(2, 3).checked_pow(r(2, 1)), Ok(r(4, 9)));
    assert_eq!(r(2, 1).checked_pow(r(-2, 1)), Ok(r(1, 4)));
    assert_eq!(r(-3, 1).checked_pow(r(3, 1)), Ok(r(-27, 1)));
    assert_eq!(r(0, 1).checked_pow(r(0, 1)), Ok(r(1, 1)));
    assert_eq!(r(0, 1).checked_pow(r(-1, 1)), Err(ArithErr::DivisionByZero));
}

#[test]
fn fractional_exponent_is_unsupported() {
    assert_eq!(r(4, 1).checked_pow(r(1, 2)), Err(ArithErr::FractionalExponent));
}

#[test]
fn overflow_is_reported() {
    assert_eq!(r(i64::MAX, 1).checked_add(r(1, 1)), Err(ArithErr::Overflow));
    assert_eq!(r(i64::MIN, 1).checked_neg(), Err(ArithErr::Overflow));
    assert_eq!(r(2, 1).checked_pow(r(64, 1)), Err(ArithErr::Overflow));
    assert_eq!(r(1, u64::MAX).checked_mul(r(1, 2)), Err(ArithErr::Overflow));
}

#[test]
fn wide_intermediate_sum_still_reduces() {
    // both terms near the limit, the reduced sum fits
    let a = r(i64::MIN, u64::MAX - 1);
    assert_eq!(a.checked_add(a), Ok(r(i64::MIN, (u64::MAX - 1) / 2)));
}

// ---- expression model ----

#[test]
fn operator_metadata() {
    assert_eq!(Op::Add.precedence(), 1);
    assert_eq!(Op::Div.precedence(), 2);
    assert_eq!(Op::Pow.precedence(), 3);
    assert!(Op::Mul.is_associative());
    assert!(!Op::Sub.is_associative());
    assert_eq!(Op::Add.inverse(), Op::Sub);
    assert_eq!(Op::Div.inverse(), Op::Mul);
    assert_eq!(Op::Pow.inverse(), Op::Pow);
}

#[test]
fn node_precedence() {
    assert_eq!(num(1).precedence(), 2);
    assert_eq!(neg(x()).precedence(), 1);
    assert_eq!(x().precedence(), 3);
    assert_eq!(bin(x(), Op::Pow, num(2)).precedence(), 3);
    assert_eq!(Expr::Derivative(Box::new(x())).precedence(), 4);
    assert_eq!(Expr::Func(Func::Sine, Box::new(x())).precedence(), 4);
}

#[test]
fn unknown_count_sums_variables() {
    let e = bin(x(), Op::Add, Expr::Func(Func::Cosine, Box::new(bin(x(), Op::Mul, num(2)))));
    assert_eq!(e.unknown_count(), 2);
    assert_eq!(Expr::Derivative(Box::new(x())).unknown_count(), 1);
    assert_eq!(num(3).unknown_count(), 0);
}

#[test]
fn sum_times_needs_brackets_in_text() {
    let p = Pair::new(bin(x(), Op::Add, num(1)), Op::Mul, num(3));
    assert!(p.requires_brackets(false, true).0);
    let q = Pair::new(x(), Op::Add, bin(num(2), Op::Mul, x()));
    assert_eq!(q.requires_brackets(false, true), (false, false));
}

#[test]
fn bracket_rules_for_fractions_and_powers() {
    // right operand of a non-associative operator at equal precedence
    let p = Pair::new(x(), Op::Sub, bin(x(), Op::Add, num(1)));
    assert_eq!(p.requires_brackets(false, true), (false, true));
    // stacked fractions need none
    let d = Pair::new(bin(x(), Op::Add, num(1)), Op::Div, bin(x(), Op::Sub, num(1)));
    assert_eq!(d.requires_brackets(true, false), (false, false));
    assert_eq!(d.requires_brackets(false, true), (true, true));
    // a power of a power, or of a quotient, brackets its base
    let pp = Pair::new(bin(x(), Op::Pow, num(2)), Op::Pow, num(3));
    assert_eq!(pp.requires_brackets(false, true), (true, true));
    let qp = Pair::new(bin(x(), Op::Div, num(2)), Op::Pow, num(3));
    assert_eq!(qp.requires_brackets(true, false), (true, false));
    // exponents drawn raised need no brackets
    let e = Pair::new(x(), Op::Pow, bin(x(), Op::Add, num(1)));
    assert_eq!(e.requires_brackets(true, false), (false, false));
    assert_eq!(e.requires_brackets(false, true), (false, true));
}

// ---- evaluation ----

#[test]
fn evaluates_closed_expressions() {
    let e = bin(bin(num(1), Op::Add, frac(1, 2)), Op::Mul, bin(num(2), Op::Pow, num(3)));
    assert_eq!(eval(&e), Ok(r(12, 1)));
    assert_eq!(eval(&neg(frac(4, 6))), Ok(r(-2, 3)));
    assert_eq!(eval(&bin(num(1), Op::Div, num(3))), Ok(r(1, 3)));
}

#[test]
fn evaluation_errors() {
    assert_eq!(eval(&bin(num(1), Op::Add, x())), Err(EvalErr::EncounteredUnknown('x')));
    assert_eq!(
        eval(&Expr::Func(Func::Sine, Box::new(num(0)))),
        Err(EvalErr::NonEvaluableFunc(Func::Sine))
    );
    assert_eq!(
        eval(&bin(num(1), Op::Div, num(0))),
        Err(EvalErr::Arithmetic(ArithErr::DivisionByZero))
    );
    assert_eq!(eval(&frac(1, 0)), Err(EvalErr::Arithmetic(ArithErr::DivisionByZero)));
    assert_eq!(
        eval(&bin(num(4), Op::Pow, frac(1, 2))),
        Err(EvalErr::Arithmetic(ArithErr::FractionalExponent))
    );
    let d = Expr::Derivative(Box::new(bin(num(2), Op::Pow, x())));
    assert_eq!(eval(&d), Err(EvalErr::NotDifferentiable(DeriveErr::VariableExponent)));
}

#[test]
fn evaluating_a_derivative_differentiates_first() {
    assert_eq!(eval(&Expr::Derivative(Box::new(x()))), Ok(r(1, 1)));
    assert_eq!(eval(&Expr::Derivative(Box::new(num(7)))), Ok(r(0, 1)));
    // d/dx (3x) still holds x through the product rule
    let d = Expr::Derivative(Box::new(bin(num(3), Op::Mul, x())));
    assert_eq!(eval(&d), Err(EvalErr::EncounteredUnknown('x')));
}

// ---- differentiation ----

#[test]
fn derivative_rules() {
    assert_eq!(maths_problem_gen::derive::derive(&x()), Ok(num(1)));
    assert_eq!(maths_problem_gen::derive::derive(&bin(num(3), Op::Add, num(4))), Ok(num(0)));
    assert_eq!(maths_problem_gen::derive::derive(&neg(x())), Ok(neg(num(1))));
    assert_eq!(
        maths_problem_gen::derive::derive(&bin(x(), Op::Sub, num(2))),
        Ok(bin(num(1), Op::Sub, num(0)))
    );
    assert_eq!(
        maths_problem_gen::derive::derive(&Expr::Func(Func::Sine, Box::new(x()))),
        Ok(bin(Expr::Func(Func::Cosine, Box::new(x())), Op::Mul, num(1)))
    );
    assert_eq!(
        maths_problem_gen::derive::derive(&Expr::Func(Func::Cosine, Box::new(x()))),
        Ok(bin(neg(Expr::Func(Func::Sine, Box::new(x()))), Op::Mul, num(1)))
    );
    assert_eq!(
        maths_problem_gen::derive::derive(&bin(num(2), Op::Pow, x())),
        Err(DeriveErr::VariableExponent)
    );
}

#[test]
fn product_and_quotient_rule_shapes() {
    let p = bin(x(), Op::Mul, x());
    assert_eq!(
        maths_problem_gen::derive::derive(&p),
        Ok(bin(bin(num(1), Op::Mul, x()), Op::Add, bin(x(), Op::Mul, num(1))))
    );
    let q = bin(num(1), Op::Div, x());
    assert_eq!(
        maths_problem_gen::derive::derive(&q),
        Ok(bin(
            bin(bin(num(0), Op::Mul, x()), Op::Sub, bin(num(1), Op::Mul, num(1))),
            Op::Div,
            bin(x(), Op::Pow, num(2))
        ))
    );
}

#[test]
fn second_derivative_by_double_application() {
    let e = Expr::Derivative(Box::new(bin(x(), Op::Pow, num(3))));
    let d = simplify(&maths_problem_gen::derive::derive(&e).unwrap());
    // 3 * 2 * x
    for v in [1, 2, -3, 5] {
        let got = eval(&substitute(&d, r(v, 1))).unwrap();
        assert_eq!(got, r(6 * v, 1));
    }
}

#[test]
fn derivative_of_sum_is_sum_of_derivatives() {
    let a = bin(num(3), Op::Mul, bin(x(), Op::Pow, num(2)));
    let b = Expr::Func(Func::Sine, Box::new(x()));
    let whole = maths_problem_gen::derive::derive(&bin(a.clone(), Op::Add, b.clone())).unwrap();
    let parts = bin(maths_problem_gen::derive::derive(&a).unwrap(), Op::Add, maths_problem_gen::derive::derive(&b).unwrap());
    assert_eq!(whole, parts);
    let c = bin(num(3), Op::Add, num(5));
    let whole = maths_problem_gen::derive::derive(&bin(c.clone(), Op::Add, c.clone())).unwrap();
    let parts = bin(maths_problem_gen::derive::derive(&c).unwrap(), Op::Add, maths_problem_gen::derive::derive(&c).unwrap());
    assert_eq!(eval(&whole), eval(&parts));
}

// ---- simplification ----

#[test]
fn derivative_of_square_simplifies_to_two_x() {
    let d = maths_problem_gen::derive::derive(&bin(x(), Op::Mul, x())).unwrap();
    assert_eq!(simplify(&d), bin(num(2), Op::Mul, x()));
}

#[test]
fn derivative_of_fifth_power_simplifies() {
    let d = maths_problem_gen::derive::derive(&bin(x(), Op::Pow, num(5))).unwrap();
    assert_eq!(simplify(&d), bin(num(5), Op::Mul, bin(x(), Op::Pow, num(4))));
}

#[test]
fn derivative_of_quotient_matches_minus_two_x_to_minus_three() {
    let e = bin(x(), Op::Div, bin(x(), Op::Pow, num(3)));
    let s = simplify(&maths_problem_gen::derive::derive(&e).unwrap());
    for v in [r(1, 1), r(2, 1), r(-1, 1), r(3, 1), r(1, 2), r(-2, 3)] {
        let got = eval(&substitute(&s, v)).unwrap();
        let want = r(-2, 1).checked_mul(v.checked_pow(r(-3, 1)).unwrap()).unwrap();
        assert_eq!(got, want);
    }
}

#[test]
fn simplify_zero_and_identity_laws() {
    assert_eq!(simplify(&bin(num(0), Op::Mul, x())), num(0));
    assert_eq!(
        simplify(&bin(num(0), Op::Mul, Expr::Func(Func::Cosine, Box::new(x())))),
        num(0)
    );
    assert_eq!(simplify(&bin(num(0), Op::Mul, bin(num(1), Op::Div, num(0)))), num(0));
    assert_eq!(simplify(&bin(x(), Op::Add, num(0))), x());
    assert_eq!(simplify(&bin(x(), Op::Pow, num(0))), num(1));
    assert_eq!(simplify(&bin(x(), Op::Pow, num(1))), x());
}

#[test]
fn simplify_keeps_closed_values() {
    let closed = [
        bin(bin(num(3), Op::Mul, frac(1, 2)), Op::Sub, num(4)),
        neg(bin(num(2), Op::Pow, neg(num(2)))),
        Expr::Derivative(Box::new(bin(num(5), Op::Mul, num(2)))),
    ];
    for e in closed.iter() {
        let s = simplify(e);
        assert_eq!(eval(&s), eval(e));
        assert!(matches!(s, Expr::Rational(_)));
    }
}

#[test]
fn sign_and_order_normalisation() {
    assert_eq!(simplify(&bin(x(), Op::Mul, num(3))), bin(num(3), Op::Mul, x()));
    assert_eq!(simplify(&bin(neg(x()), Op::Mul, neg(x()))), bin(x(), Op::Mul, x()));
    assert_eq!(simplify(&bin(neg(x()), Op::Mul, num(2))), neg(bin(x(), Op::Mul, num(2))));
    assert_eq!(simplify(&bin(num(-2), Op::Mul, x())), neg(bin(num(2), Op::Mul, x())));
    assert_eq!(simplify(&bin(x(), Op::Add, num(-3))), bin(x(), Op::Sub, num(3)));
    assert_eq!(simplify(&bin(num(0), Op::Sub, x())), neg(x()));
    assert_eq!(simplify(&neg(neg(x()))), x());
}

#[test]
fn like_terms_and_power_folding() {
    let two_x = bin(num(2), Op::Mul, x());
    let three_x = bin(num(3), Op::Mul, x());
    assert_eq!(simplify(&bin(two_x.clone(), Op::Add, three_x.clone())), bin(num(5), Op::Mul, x()));
    assert_eq!(simplify(&bin(two_x.clone(), Op::Sub, three_x.clone())), bin(num(-1), Op::Mul, x()));
    assert_eq!(simplify(&bin(x(), Op::Sub, three_x.clone())), bin(num(-2), Op::Mul, x()));
    assert_eq!(simplify(&bin(three_x.clone(), Op::Sub, x())), bin(num(2), Op::Mul, x()));
    assert_eq!(simplify(&bin(num(4), Op::Mul, two_x.clone())), bin(num(8), Op::Mul, x()));
    assert_eq!(
        simplify(&bin(x(), Op::Mul, bin(x(), Op::Pow, num(2)))),
        bin(x(), Op::Pow, num(3))
    );
    assert_eq!(
        simplify(&bin(bin(x(), Op::Pow, num(2)), Op::Pow, num(3))),
        bin(x(), Op::Pow, num(6))
    );
}

#[test]
fn division_folding() {
    let y = Expr::Variable('y');
    assert_eq!(
        simplify(&bin(bin(x(), Op::Div, y.clone()), Op::Div, x())),
        bin(x(), Op::Div, bin(y.clone(), Op::Mul, x()))
    );
    assert_eq!(
        simplify(&bin(x(), Op::Div, bin(y.clone(), Op::Div, x()))),
        bin(bin(x(), Op::Mul, x()), Op::Div, y)
    );
}

#[test]
fn functions_simplify_only_inside() {
    let e = Expr::Func(Func::Sine, Box::new(bin(x(), Op::Add, num(0))));
    assert_eq!(simplify(&e), Expr::Func(Func::Sine, Box::new(x())));
}

// ---- solving ----

fn eq(lhs: Expr, rhs: Expr) -> Equation {
    Equation { lhs, rhs }
}

#[test]
fn solves_linear_equations_with_planted_answers() {
    // 3x + 4 = 19  =>  x = 5
    let e = eq(bin(bin(num(3), Op::Mul, x()), Op::Add, num(4)), num(19));
    assert_eq!(solve(&e), Ok(r(5, 1)));
    // 10 - x / 2 = 7  =>  x = 6
    let e = eq(num(7), bin(num(10), Op::Sub, bin(x(), Op::Div, num(2))));
    assert_eq!(solve(&e), Ok(r(6, 1)));
    // 12 / (x - 1) = 4  =>  x = 4
    let e = eq(bin(num(12), Op::Div, bin(x(), Op::Sub, num(1))), num(4));
    assert_eq!(solve(&e), Ok(r(4, 1)));
    // -(x + 2) = 3  =>  x = -5
    let e = eq(neg(bin(x(), Op::Add, num(2))), num(3));
    assert_eq!(solve(&e), Ok(r(-5, 1)));
    // x^3 = 8 is solved only where the root exponent is an integer: x^1 = 8
    let e = eq(bin(x(), Op::Pow, num(1)), num(8));
    assert_eq!(solve(&e), Ok(r(8, 1)));
}

#[test]
fn solves_generated_style_equations() {
    // equations built backwards from a planted answer, with random terms
    let mut seed: u64 = 12345;
    for _ in 0..50 {
        seed = seed.wrapping_mul(6364136223846793005).wrapping_add(1442695040888963407);
        let answer = (seed >> 33) as i64 % 20 - 10;
        let a = ((seed >> 20) % 9 + 1) as i64;
        let b = ((seed >> 10) % 9 + 1) as i64;
        // (a * x - b) / a = answer - b / a
        let lhs = bin(bin(bin(num(a), Op::Mul, x()), Op::Sub, num(b)), Op::Div, num(a));
        let rhs = r(answer, 1).checked_sub(r(b, a as u64).simplified()).unwrap();
        let e = eq(lhs, Expr::Rational(rhs));
        assert_eq!(solve(&e), Ok(r(answer, 1)));
    }
}

#[test]
fn solver_counts_unknowns() {
    let two = eq(bin(x(), Op::Add, Expr::Variable('y')), num(3));
    assert_eq!(solve(&two), Err(SolveErr::TooManyUnknowns));
    let twice = eq(x(), x());
    assert_eq!(solve(&twice), Err(SolveErr::TooManyUnknowns));
    let none = eq(num(1), num(1));
    assert_eq!(solve(&none), Err(SolveErr::NoUnknowns));
}

#[test]
fn solver_unsupported_cases() {
    let f = eq(Expr::Func(Func::Sine, Box::new(x())), num(0));
    assert_eq!(solve(&f), Err(SolveErr::NonInvertibleFunc));
    let p = eq(bin(num(2), Op::Pow, x()), num(8));
    assert_eq!(solve(&p), Err(SolveErr::UnknownInExponent));
    let root = eq(bin(x(), Op::Pow, num(2)), num(4));
    assert_eq!(
        solve(&root),
        Err(SolveErr::FailedToEval(EvalErr::Arithmetic(ArithErr::FractionalExponent)))
    );
    let lost = eq(Expr::Derivative(Box::new(x())), num(5));
    assert_eq!(solve(&lost), Err(SolveErr::LostUnknown));
    let d = eq(
        Expr::Derivative(Box::new(bin(num(2), Op::Pow, x()))),
        num(1),
    );
    assert_eq!(solve(&d), Err(SolveErr::NotDifferentiable(DeriveErr::VariableExponent)));
    let more = eq(Expr::Derivative(Box::new(bin(num(1), Op::Div, x()))), num(5));
    assert_eq!(solve(&more), Err(SolveErr::DuplicatedUnknown));
}

#[test]
fn solves_through_a_derivative() {
    // d/dx x^2 = 2 * x^(2 - 1) * 1 holds x once
    let e = eq(Expr::Derivative(Box::new(bin(x(), Op::Pow, num(2)))), num(12));
    assert_eq!(solve(&e), Ok(r(6, 1)));
    // d/dx (3 * x^2) holds x twice after the product rule
    let e = eq(Expr::Derivative(Box::new(bin(num(3), Op::Mul, bin(x(), Op::Pow, num(2))))), num(12));
    assert_eq!(solve(&e), Err(SolveErr::DuplicatedUnknown));
}

#[test]
fn solve_reports_evaluation_failure() {
    let e = eq(bin(x(), Op::Mul, num(0)), num(5));
    assert_eq!(
        solve(&e),
        Err(SolveErr::FailedToEval(EvalErr::Arithmetic(ArithErr::DivisionByZero)))
    );
}

// ---- rendering ----

#[test]
fn plain_text_rendering() {
    let e = bin(bin(x(), Op::Add, num(1)), Op::Mul, num(3));
    assert_eq!(e.to_text(), "(x + 1) * 3");
    assert_eq!(bin(x(), Op::Add, bin(num(2), Op::Mul, x())).to_text(), "x + 2 * x");
    assert_eq!(frac(3, 4).to_text(), "3 / 4");
    assert_eq!(num(-5).to_text(), "-5");
    assert_eq!(num(i64::MIN).to_text(), "-9223372036854775808");
    assert_eq!(neg(x()).to_text(), "-x");
    assert_eq!(Expr::Derivative(Box::new(bin(x(), Op::Pow, num(2)))).to_text(), "ddx(x ^ (2))");
    assert_eq!(Expr::Func(Func::Cosine, Box::new(x())).to_text(), "cos(x)");
    assert_eq!(bin(x(), Op::Sub, bin(x(), Op::Sub, num(10))).to_text(), "x - (x - 10)");
    assert_eq!(eq(x(), num(5)).to_text(), "x = 5");
    assert_eq!(bracketize("ab"), "(ab)");
    assert_eq!(Op::Pow.symbol(), '^');
}

#[test]
fn latex_rendering() {
    assert_eq!(frac(3, 4).to_latex(), "\\frac{3}{4}");
    assert_eq!(bin(num(3), Op::Mul, x()).to_latex(), "3 x");
    assert_eq!(bin(num(3), Op::Mul, bin(x(), Op::Pow, num(2))).to_latex(), "3 x^{2}");
    assert_eq!(bin(num(3), Op::Mul, num(4)).to_latex(), "3 \\times 4");
    assert_eq!(
        bin(bin(x(), Op::Add, num(1)), Op::Mul, num(3)).to_latex(),
        "\\left(x + 1\\right) 3"
    );
    assert_eq!(bin(bin(x(), Op::Add, num(1)), Op::Div, num(2)).to_latex(), "\\frac{x + 1}{2}");
    assert_eq!(Expr::Derivative(Box::new(x())).to_latex(), "\\frac{d}{dx}\\left(x\\right)");
    assert_eq!(Expr::Func(Func::Sine, Box::new(x())).to_latex(), "sin\\left(x\\right)");
    let answer = Answer { option: 'a', answer: eq(x(), frac(-1, 2)) };
    assert_eq!(answer.to_latex(), "a) \\ x = \\frac{-1}{2}");
    assert_eq!(latex_bracketize("y"), "\\left(y\\right)");
}

// ---- generation ----

#[test]
fn factors_of_integers() {
    assert_eq!(factors(r(12, 1)), vec![r(1, 1), r(2, 1), r(3, 1), r(4, 1), r(6, 1), r(12, 1)]);
    assert_eq!(factors(r(7, 1)), vec![r(1, 1), r(7, 1)]);
    assert_eq!(factors(r(1, 2)), vec![]);
    assert_eq!(factors(r(-3, 1)), vec![]);
    assert_eq!(factors(r(0, 1)), vec![]);
}

#[test]
fn random_draws_stay_in_range_and_vary() {
    let mut seen = BTreeSet::new();
    for _ in 0..300 {
        let a = rand_int();
        assert!(1 <= a.numerator && a.numerator <= 9 && a.denominator == 1);
        seen.insert(a.numerator);
        let b = rand_rational();
        assert!(1 <= b.numerator && b.numerator <= 34);
        assert!(1 <= b.denominator && b.denominator <= 9);
    }
    assert!(seen.len() > 1);
}

#[test]
fn generated_arithmetic_evaluates_to_its_answer() {
    for n in 1..10 {
        let e = gen_arithmetic(3, r(n, 1));
        assert_eq!(e.unknown_count(), 0);
        assert_eq!(eval(&e), Ok(r(n, 1)));
    }
}

#[test]
fn generated_equations_solve_to_the_planted_answer() {
    for _ in 0..200 {
        let (equation, answer) = gen_backtrack(2);
        assert_eq!(equation.lhs.unknown_count(), 1);
        assert_eq!(solve(&equation), Ok(answer));
    }
}

#[test]
fn choices_are_distinct_offsets() {
    for _ in 0..20 {
        let choices = gen_choices(r(5, 1), 3);
        assert_eq!(choices.len(), 3);
        for (i, c) in choices.iter().enumerate() {
            assert_eq!(c.denominator, 1);
            assert!(c.numerator >= 1 && c.numerator <= 8 && c.numerator != 5);
            for d in choices.iter().skip(i + 1) {
                assert_ne!(c, d);
            }
        }
    }
    assert_eq!(gen_choices(r(5, 1), 7).len(), 7);
}

#[test]
fn generated_polynomials_evaluate() {
    for _ in 0..20 {
        let p = gen_polynomial(4);
        for v in [0, 1, -2] {
            assert!(eval(&substitute(&p, r(v, 1))).is_ok());
        }
    }
}

#[test]
fn constructors_and_conversions() {
    let q = r(3, 4);
    let e: Expr = q.into();
    assert_eq!(e, frac(3, 4));
    let p: Expr = Pair::new(x(), Op::Mul, num(2)).into();
    assert_eq!(p, bin(x(), Op::Mul, num(2)));
    assert_eq!(Expr::binary(x(), Op::Add, Expr::integer(1)), bin(x(), Op::Add, num(1)));
    let copy = p.duplicate();
    assert!(copy.same(&p));
    assert!(!copy.same(&e));
    assert_eq!(Rational::integer(-4), r(-4, 1));
}

#[test]
fn derivable_expressions_differentiate() {
    assert!(matches!(gen_derivable(0), Expr::Rational(_)));
    for _ in 0..30 {
        let e = gen_derivable(3);
        assert!(maths_problem_gen::derive::derive(&e).is_ok());
    }
}

#[test]
fn polynomial_choices_differ_from_the_answer() {
    let answer = bin(num(2), Op::Mul, x());
    let choices = gen_polynomial_choices(&answer, 1, 4);
    assert_eq!(choices.len(), 4);
    for c in choices.iter() {
        assert_ne!(c, &answer);
    }
}

#[test]
fn division_folding_can_overflow_where_the_input_does_not() {
    // (x / 2^32) / 2^32 is folded to x / (2^32 * 2^32); at x = 2^62 the input
    // has the value 1/4, while the folded denominator overflows
    let big = num(1 << 32);
    let e = bin(bin(x(), Op::Div, big.clone()), Op::Div, big.clone());
    let s = simplify(&e);
    assert_eq!(s, bin(x(), Op::Div, bin(big.clone(), Op::Mul, big)));
    let at = r(1 << 62, 1);
    assert_eq!(eval(&substitute(&e, at)), Ok(r(1, 4)));
    assert_eq!(eval(&substitute(&s, at)), Err(EvalErr::Arithmetic(ArithErr::Overflow)));
}

#[test]
fn duplicated_unknown_is_not_a_count_error() {
    let e = eq(Expr::Derivative(Box::new(bin(x(), Op::Mul, x()))), num(4));
    assert_eq!(solve(&e), Err(SolveErr::TooManyUnknowns));
    let e = eq(Expr::Derivative(Box::new(bin(num(1), Op::Div, x()))), num(5));
    assert_eq!(solve(&e), Err(SolveErr::DuplicatedUnknown));
}

#[test]
fn multiple_choice_problems() {
    assert!(matches!(generate_multiple_choice_problem(3), Err(ProblemErr::InvalidLevel(3))));
    for _ in 0..20 {
        let (problem, options, index) = generate_multiple_choice_problem(1).unwrap();
        assert_eq!(options.len(), 4);
        let letters: Vec<char> = options.iter().map(|o| o.option).collect();
        assert_eq!(letters, vec!['a', 'b', 'c', 'd']);
        let equation = match problem {
            Maths::Equation(e) => e,
            Maths::Expr(_) => panic!("level 1 is an equation"),
        };
        let a = solve(&equation).unwrap();
        match &options[index].answer {
            Maths::Equation(e) => assert_eq!(e.rhs, Expr::Rational(a)),
            Maths::Expr(_) => panic!("level 1 answers are equations"),
        }
    }
    let (problem, options, index) = generate_multiple_choice_problem(2).unwrap();
    assert!(matches!(problem, Maths::Expr(Expr::Derivative(_))));
    assert_eq!(options.len(), 4);
    let right = match &options[index].answer {
        Maths::Expr(e) => e.clone(),
        Maths::Equation(_) => panic!("level 2 answers are expressions"),
    };
    for (j, o) in options.iter().enumerate() {
        if j != index {
            assert!(matches!(&o.answer, Maths::Expr(e) if *e != right));
        }
    }
}

#[test]
fn rationals_order_by_value() {
    assert!(r(1, 2) < r(2, 3));
    assert!(r(-1, 2) < r(0, 1));
    assert!(r(7, 1) > r(13, 2));
    assert!(r(3, 4) <= r(3, 4));
    assert_eq!(r(3, 4).partial_cmp(&r(3, 4)), Some(std::cmp::Ordering::Equal));
    // one value written two ways: ordered, never equal
    assert_ne!(r(1, 2).partial_cmp(&r(2, 4)), Some(std::cmp::Ordering::Equal));
}

#[test]
fn generators_build_binary_nodes() {
    for n in 1..10 {
        let e = gen_arithmetic(2, r(n, 1));
        assert!(matches!(&e, Expr::Pair(p) if p.op != Op::Pow));
        let (equation, _) = gen_backtrack(1);
        assert!(matches!(equation.lhs, Expr::Pair(_)));
        assert!(matches!(equation.rhs, Expr::Rational(_)));
    }
}

#[test]
fn polynomial_from_coefficients() {
    // 3x^2 + 0x - 5
    let p = polynomial(&vec![3, 0, -5], 2);
    for v in [0, 1, 2, -3] {
        let got = eval(&substitute(&p, r(v, 1))).unwrap();
        assert_eq!(got, r(3 * v * v - 5, 1));
    }
}

#[test]
fn level_two_problems_always_succeed() {
    for _ in 0..5 {
        let (_, options, index) = generate_multiple_choice_problem(2).unwrap();
        assert_eq!(options.len(), 4);
        assert!(index < 4);
    }
    assert_eq!(gen_polynomial_choices(&num(0), 2, 5).len(), 5);
}
