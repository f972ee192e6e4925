use vstd::prelude::*;

use crate::derive::{derivative, lemma_derivative_depth};
use crate::eval::{eval, evaluation, EvalErr};
use crate::rational::{
    gcd, lemma_reduced_fixed, ok_value, rat_add, rat_mul, rat_neg, rat_sub, ArithErr,
};
use crate::{lit, pair, Expr, Op, Pair, Rational};

verus! {

pub open spec fn lit_of(e: Expr) -> Option<Rational> {
    match e {
        Expr::Rational(q) => Some(q),
        _ => None,
    }
}

pub open spec fn negated_form(e: Expr) -> Option<Expr> {
    match e {
        Expr::Negative(inner) => Some(*inner),
        _ => None,
    }
}

/// `(left, right)` when `e` is `left op right`.
pub open spec fn binary_form(e: Expr, op: Op) -> Option<(Expr, Expr)> {
    match e {
        Expr::Pair(p) => if p.op == op {
            Some((p.left, p.right))
        } else {
            None
        },
        _ => None,
    }
}

/// `(c, rest)` when `e` is `c * rest` with a literal coefficient `c`.
pub open spec fn coefficient_form(e: Expr) -> Option<(Rational, Expr)> {
    match binary_form(e, Op::Mul) {
        Some((l, r)) => match lit_of(l) {
            Some(c) => Some((c, r)),
            None => None,
        },
        None => None,
    }
}

pub open spec fn is_zero_lit(e: Expr) -> bool {
    lit_of(e) is Some && lit_of(e).unwrap().numerator == 0
}

/// One bottom-up pass of local identities. Closed subtrees are evaluated;
/// otherwise the children are simplified and the operator's rules are
/// tried in order. `budget` bounds how deeply rules may start a further
/// pass on a tree they build.
pub open spec fn simplified(e: Expr, budget: nat) -> Expr
    decreases budget, e.derivative_depth(), e.size(),
{
    match evaluation(e) {
        Ok(v) => Expr::Rational(v),
        Err(_) => match e {
            Expr::Pair(p) => {
                let l = simplified(p.left, budget);
                let r = simplified(p.right, budget);
                match evaluation(pair(l, p.op, r)) {
                    Ok(v) => Expr::Rational(v),
                    Err(_) => match p.op {
                        Op::Mul => product_rules(l, r, budget),
                        Op::Add => sum_rules(l, r),
                        Op::Sub => difference_rules(l, r),
                        Op::Pow => power_rules(l, r, budget),
                        Op::Div => quotient_rules(l, r),
                    },
                }
            },
            Expr::Negative(inner) => {
                let s = simplified(*inner, budget);
                match s {
                    Expr::Negative(x) => *x,
                    _ => Expr::Negative(Box::new(s)),
                }
            },
            Expr::Derivative(inner) => match derivative(*inner) {
                // always true (lemma_derivative_depth); it shows the recursion ends
                Ok(d) => if d.derivative_depth() <= inner.derivative_depth() {
                    simplified(d, budget)
                } else {
                    e
                },
                Err(_) => Expr::Derivative(Box::new(simplified(*inner, budget))),
            },
            Expr::Func(f, inner) => Expr::Func(f, Box::new(simplified(*inner, budget))),
            _ => e,
        },
    }
}

pub open spec fn product_rules(l: Expr, r: Expr, budget: nat) -> Expr
    decreases budget, 0nat, 0nat,
{
    let (lq, rq) = (lit_of(l), lit_of(r));
    if is_zero_lit(l) || is_zero_lit(r) {
        lit(0)
    } else if lq is Some && coefficient_form(r) is Some && lq.unwrap().wf()
        && coefficient_form(r).unwrap().0.wf() && rat_mul(
        coefficient_form(r).unwrap().0,
        lq.unwrap(),
    ) is Ok {
        pair(
            Expr::Rational(ok_value(rat_mul(coefficient_form(r).unwrap().0, lq.unwrap()))),
            Op::Mul,
            coefficient_form(r).unwrap().1,
        )
    } else if l is Variable && rq is Some {
        pair(r, Op::Mul, l)
    } else if negated_form(l) is Some && negated_form(r) is Some {
        pair(negated_form(l).unwrap(), Op::Mul, negated_form(r).unwrap())
    } else if negated_form(l) is Some {
        Expr::Negative(Box::new(pair(negated_form(l).unwrap(), Op::Mul, r)))
    } else if negated_form(r) is Some {
        Expr::Negative(Box::new(pair(l, Op::Mul, negated_form(r).unwrap())))
    } else if lq is Some && lq.unwrap().numerator < 0 && rat_neg(lq.unwrap()) is Ok {
        Expr::Negative(Box::new(pair(Expr::Rational(ok_value(rat_neg(lq.unwrap()))), Op::Mul, r)))
    } else if l == lit(1) {
        r
    } else if r == lit(1) {
        l
    } else if l == r {
        pair(l, Op::Pow, lit(2))
    } else if budget > 0 && coefficient_form(r) is Some {
        pair(
            Expr::Rational(coefficient_form(r).unwrap().0),
            Op::Mul,
            simplified(pair(l, Op::Mul, coefficient_form(r).unwrap().1), (budget - 1) as nat),
        )
    } else if budget > 0 && binary_form(r, Op::Pow) is Some && binary_form(r, Op::Pow).unwrap().0
        == l {
        pair(
            l,
            Op::Pow,
            simplified(
                pair(binary_form(r, Op::Pow).unwrap().1, Op::Add, lit(1)),
                (budget - 1) as nat,
            ),
        )
    } else if budget > 0 && binary_form(l, Op::Pow) is Some && binary_form(l, Op::Pow).unwrap().0
        == r {
        pair(
            r,
            Op::Pow,
            simplified(
                pair(binary_form(l, Op::Pow).unwrap().1, Op::Add, lit(1)),
                (budget - 1) as nat,
            ),
        )
    } else {
        pair(l, Op::Mul, r)
    }
}

pub open spec fn sum_rules(l: Expr, r: Expr) -> Expr {
    let (lc, rc) = (coefficient_form(l), coefficient_form(r));
    let one = Rational { numerator: 1, denominator: 1 };
    if is_zero_lit(l) {
        r
    } else if is_zero_lit(r) {
        l
    } else if lit_of(r) is Some && lit_of(r).unwrap().numerator < 0 && rat_neg(
        lit_of(r).unwrap(),
    ) is Ok {
        pair(l, Op::Sub, Expr::Rational(ok_value(rat_neg(lit_of(r).unwrap()))))
    } else if negated_form(r) is Some {
        pair(l, Op::Sub, negated_form(r).unwrap())
    } else if lc is Some && rc is Some && lc.unwrap().1 == rc.unwrap().1 && lc.unwrap().0.wf()
        && rc.unwrap().0.wf() && rat_add(lc.unwrap().0, rc.unwrap().0) is Ok {
        pair(
            Expr::Rational(ok_value(rat_add(lc.unwrap().0, rc.unwrap().0))),
            Op::Mul,
            lc.unwrap().1,
        )
    } else if rc is Some && rc.unwrap().1 == l && rc.unwrap().0.wf()
        && rat_add(one, rc.unwrap().0) is Ok {
        pair(Expr::Rational(ok_value(rat_add(one, rc.unwrap().0))), Op::Mul, l)
    } else if lc is Some && lc.unwrap().1 == r && lc.unwrap().0.wf()
        && rat_add(lc.unwrap().0, one) is Ok {
        pair(Expr::Rational(ok_value(rat_add(lc.unwrap().0, one))), Op::Mul, r)
    } else {
        pair(l, Op::Add, r)
    }
}

pub open spec fn difference_rules(l: Expr, r: Expr) -> Expr {
    let (lc, rc) = (coefficient_form(l), coefficient_form(r));
    let one = Rational { numerator: 1, denominator: 1 };
    if is_zero_lit(l) {
        Expr::Negative(Box::new(r))
    } else if is_zero_lit(r) {
        l
    } else if lc is Some && rc is Some && lc.unwrap().1 == rc.unwrap().1 && lc.unwrap().0.wf()
        && rc.unwrap().0.wf() && rat_sub(lc.unwrap().0, rc.unwrap().0) is Ok {
        pair(
            Expr::Rational(ok_value(rat_sub(lc.unwrap().0, rc.unwrap().0))),
            Op::Mul,
            lc.unwrap().1,
        )
    } else if rc is Some && rc.unwrap().1 == l && rc.unwrap().0.wf()
        && rat_sub(one, rc.unwrap().0) is Ok {
        pair(Expr::Rational(ok_value(rat_sub(one, rc.unwrap().0))), Op::Mul, l)
    } else if lc is Some && lc.unwrap().1 == r && lc.unwrap().0.wf()
        && rat_sub(lc.unwrap().0, one) is Ok {
        pair(Expr::Rational(ok_value(rat_sub(lc.unwrap().0, one))), Op::Mul, r)
    } else {
        pair(l, Op::Sub, r)
    }
}

pub open spec fn power_rules(l: Expr, r: Expr, budget: nat) -> Expr
    decreases budget, 0nat, 0nat,
{
    if r == lit(0) {
        lit(1)
    } else if r == lit(1) {
        l
    } else if budget > 0 && binary_form(l, Op::Pow) is Some {
        pair(
            binary_form(l, Op::Pow).unwrap().0,
            Op::Pow,
            simplified(pair(binary_form(l, Op::Pow).unwrap().1, Op::Mul, r), (budget - 1) as nat),
        )
    } else {
        pair(l, Op::Pow, r)
    }
}

pub open spec fn quotient_rules(l: Expr, r: Expr) -> Expr {
    if binary_form(l, Op::Div) is Some {
        let (n, d) = binary_form(l, Op::Div).unwrap();
        pair(n, Op::Div, pair(d, Op::Mul, r))
    } else if binary_form(r, Op::Div) is Some {
        let (d, n2) = binary_form(r, Op::Div).unwrap();
        pair(pair(l, Op::Mul, n2), Op::Div, d)
    } else {
        pair(l, Op::Div, r)
    }
}

/// What `simplify` returns.
pub open spec fn simplification(e: Expr) -> Expr {
    simplified(e, u64::MAX as nat)
}

fn literal(e: &Expr) -> (r: Option<Rational>)
    ensures
        r == lit_of(*e),
{
    match e {
        Expr::Rational(q) => Some(*q),
        _ => None,
    }
}

fn is_zero(e: &Expr) -> (r: bool)
    ensures
        r == is_zero_lit(*e),
{
    match e {
        Expr::Rational(q) => q.numerator == 0,
        _ => false,
    }
}

/// Whether `e` is the literal `n / 1`.
fn is_integer(e: &Expr, n: i64) -> (r: bool)
    ensures
        r == (*e == lit(n as int)),
{
    match e {
        Expr::Rational(q) => q.numerator == n && q.denominator == 1,
        _ => false,
    }
}

fn negated_inner(e: &Expr) -> (r: Option<Expr>)
    ensures
        r == negated_form(*e),
{
    match e {
        Expr::Negative(inner) => Some(inner.duplicate()),
        _ => None,
    }
}

fn binary_parts(e: &Expr, op: Op) -> (r: Option<(Expr, Expr)>)
    ensures
        r == binary_form(*e, op),
{
    match e {
        Expr::Pair(p) => if p.op == op {
            Some((p.left.duplicate(), p.right.duplicate()))
        } else {
            None
        },
        _ => None,
    }
}

fn coefficient_parts(e: &Expr) -> (r: Option<(Rational, Expr)>)
    ensures
        r == coefficient_form(*e),
{
    match e {
        Expr::Pair(p) => if p.op == Op::Mul {
            match &p.left {
                Expr::Rational(c) => Some((*c, p.right.duplicate())),
                _ => None,
            }
        } else {
            None
        },
        _ => None,
    }
}

/// Simplifies an expression: closed subtrees become their value, and local
/// identities are applied bottom-up in one pass.
pub fn simplify(expr: &Expr) -> (r: Expr)
    ensures
        r == simplification(*expr),
        evaluation(*expr) is Ok ==> evaluation(r) == evaluation(*expr),
{
    simplify_within(expr, u64::MAX)
}

fn simplify_within(expr: &Expr, budget: u64) -> (r: Expr)
    ensures
        r == simplified(*expr, budget as nat),
        evaluation(*expr) is Ok ==> evaluation(r) == evaluation(*expr),
    decreases budget, expr.derivative_depth(), expr.size(),
{
    if let Ok(v) = eval(expr) {
        proof {
            lemma_reduced_fixed(v);
        }
        return Expr::Rational(v);
    }
    match expr {
        Expr::Pair(p) => {
            let l = simplify_within(&p.left, budget);
            let r = simplify_within(&p.right, budget);
            if let Ok(v) = eval(&Expr::binary(l.duplicate(), p.op, r.duplicate())) {
                return Expr::Rational(v);
            }
            match p.op {
                Op::Mul => rewrite_product(l, r, budget),
                Op::Add => rewrite_sum(l, r),
                Op::Sub => rewrite_difference(l, r),
                Op::Pow => rewrite_power(l, r, budget),
                Op::Div => rewrite_quotient(l, r),
            }
        },
        Expr::Negative(inner) => {
            let s = simplify_within(inner, budget);
            match s {
                Expr::Negative(x) => *x,
                _ => Expr::Negative(Box::new(s)),
            }
        },
        Expr::Derivative(inner) => match crate::derive::derive(inner) {
            Ok(d) => {
                proof {
                    lemma_derivative_depth(**inner);
                }
                simplify_within(&d, budget)
            },
            Err(_) => Expr::Derivative(Box::new(simplify_within(inner, budget))),
        },
        Expr::Func(f, inner) => Expr::Func(*f, Box::new(simplify_within(inner, budget))),
        _ => expr.duplicate(),
    }
}

fn rewrite_product(l: Expr, r: Expr, budget: u64) -> (res: Expr)
    ensures
        res == product_rules(l, r, budget as nat),
    decreases budget, 0nat, 0nat,
{
    let lq = literal(&l);
    let rq = literal(&r);
    if is_zero(&l) || is_zero(&r) {
        return Expr::integer(0);
    }
    let rc = coefficient_parts(&r);
    if let Some(q) = lq {
        if let Some((c, rest)) = coefficient_parts(&r) {
            if q.denominator > 0 && c.denominator > 0 {
                if let Ok(product) = c.checked_mul(q) {
                    return Expr::binary(Expr::Rational(product), Op::Mul, rest);
                }
            }
        }
    }
    if matches!(l, Expr::Variable(_)) && rq.is_some() {
        return Expr::binary(r, Op::Mul, l);
    }
    let ln = negated_inner(&l);
    let rn = negated_inner(&r);
    if let Some(li) = ln {
        if let Some(ri) = rn {
            return Expr::binary(li, Op::Mul, ri);
        }
        return Expr::Negative(Box::new(Expr::binary(li, Op::Mul, r)));
    }
    if let Some(ri) = rn {
        return Expr::Negative(Box::new(Expr::binary(l, Op::Mul, ri)));
    }
    if let Some(q) = lq {
        if q.numerator < 0 {
            if let Ok(nq) = q.checked_neg() {
                return Expr::Negative(Box::new(Expr::binary(Expr::Rational(nq), Op::Mul, r)));
            }
        }
    }
    if is_integer(&l, 1) {
        return r;
    }
    if is_integer(&r, 1) {
        return l;
    }
    if l.same(&r) {
        return Expr::binary(l, Op::Pow, Expr::integer(2));
    }
    if budget > 0 {
        if let Some((c, rest)) = rc {
            let folded = simplify_within(&Expr::binary(l, Op::Mul, rest), budget - 1);
            return Expr::binary(Expr::Rational(c), Op::Mul, folded);
        }
        if let Some((base, exponent)) = binary_parts(&r, Op::Pow) {
            if base.same(&l) {
                let next = Expr::binary(exponent, Op::Add, Expr::integer(1));
                let e = simplify_within(&next, budget - 1);
                return Expr::binary(l, Op::Pow, e);
            }
        }
        if let Some((base, exponent)) = binary_parts(&l, Op::Pow) {
            if base.same(&r) {
                let next = Expr::binary(exponent, Op::Add, Expr::integer(1));
                let e = simplify_within(&next, budget - 1);
                return Expr::binary(r, Op::Pow, e);
            }
        }
    }
    Expr::binary(l, Op::Mul, r)
}

fn rewrite_sum(l: Expr, r: Expr) -> (res: Expr)
    ensures
        res == sum_rules(l, r),
{
    if is_zero(&l) {
        return r;
    }
    if is_zero(&r) {
        return l;
    }
    if let Some(q) = literal(&r) {
        if q.numerator < 0 {
            if let Ok(nq) = q.checked_neg() {
                return Expr::binary(l, Op::Sub, Expr::Rational(nq));
            }
        }
    }
    if let Some(ri) = negated_inner(&r) {
        return Expr::binary(l, Op::Sub, ri);
    }
    let one = Rational::integer(1);
    let lc = coefficient_parts(&l);
    let rc = coefficient_parts(&r);
    if let Some((a, lrest)) = coefficient_parts(&l) {
        if let Some((b, rrest)) = coefficient_parts(&r) {
            if lrest.same(&rrest) && a.denominator > 0 && b.denominator > 0 {
                if let Ok(c) = a.checked_add(b) {
                    return Expr::binary(Expr::Rational(c), Op::Mul, lrest);
                }
            }
        }
    }
    if let Some((b, rrest)) = rc {
        if rrest.same(&l) && b.denominator > 0 {
            if let Ok(c) = one.checked_add(b) {
                return Expr::binary(Expr::Rational(c), Op::Mul, l);
            }
        }
    }
    if let Some((a, lrest)) = lc {
        if lrest.same(&r) && a.denominator > 0 {
            if let Ok(c) = a.checked_add(one) {
                return Expr::binary(Expr::Rational(c), Op::Mul, r);
            }
        }
    }
    Expr::binary(l, Op::Add, r)
}

fn rewrite_difference(l: Expr, r: Expr) -> (res: Expr)
    ensures
        res == difference_rules(l, r),
{
    if is_zero(&l) {
        return Expr::Negative(Box::new(r));
    }
    if is_zero(&r) {
        return l;
    }
    let one = Rational::integer(1);
    let lc = coefficient_parts(&l);
    let rc = coefficient_parts(&r);
    if let Some((a, lrest)) = coefficient_parts(&l) {
        if let Some((b, rrest)) = coefficient_parts(&r) {
            if lrest.same(&rrest) && a.denominator > 0 && b.denominator > 0 {
                if let Ok(c) = a.checked_sub(b) {
                    return Expr::binary(Expr::Rational(c), Op::Mul, lrest);
                }
            }
        }
    }
    if let Some((b, rrest)) = rc {
        if rrest.same(&l) && b.denominator > 0 {
            if let Ok(c) = one.checked_sub(b) {
                return Expr::binary(Expr::Rational(c), Op::Mul, l);
            }
        }
    }
    if let Some((a, lrest)) = lc {
        if lrest.same(&r) && a.denominator > 0 {
            if let Ok(c) = a.checked_sub(one) {
                return Expr::binary(Expr::Rational(c), Op::Mul, r);
            }
        }
    }
    Expr::binary(l, Op::Sub, r)
}

fn rewrite_power(l: Expr, r: Expr, budget: u64) -> (res: Expr)
    ensures
        res == power_rules(l, r, budget as nat),
    decreases budget, 0nat, 0nat,
{
    if is_integer(&r, 0) {
        return Expr::integer(1);
    }
    if is_integer(&r, 1) {
        return l;
    }
    if budget > 0 {
        if let Some((base, inner)) = binary_parts(&l, Op::Pow) {
            let e = simplify_within(&Expr::binary(inner, Op::Mul, r), budget - 1);
            return Expr::binary(base, Op::Pow, e);
        }
    }
    Expr::binary(l, Op::Pow, r)
}

fn rewrite_quotient(l: Expr, r: Expr) -> (res: Expr)
    ensures
        res == quotient_rules(l, r),
{
    if let Some((n, d)) = binary_parts(&l, Op::Div) {
        return Expr::binary(n, Op::Div, Expr::binary(d, Op::Mul, r));
    }
    if let Some((d, n2)) = binary_parts(&r, Op::Div) {
        return Expr::binary(Expr::binary(l, Op::Mul, n2), Op::Div, d);
    }
    Expr::binary(l, Op::Div, r)
}

/// Literals zero and one, and variables, are left as they are.
proof fn lemma_simplified_leaves(budget: nat, c: char)
    ensures
        simplified(lit(0), budget) == lit(0),
        simplified(lit(1), budget) == lit(1),
        simplified(Expr::Variable(c), budget) == Expr::Variable(c),
        evaluation(lit(0)) == Ok::<Rational, EvalErr>(Rational { numerator: 0, denominator: 1 }),
{
    let zero = Rational { numerator: 0, denominator: 1 };
    let one = Rational { numerator: 1, denominator: 1 };
    assert(lit(0) == Expr::Rational(zero));
    assert(lit(1) == Expr::Rational(one));
    assert(gcd(1, 1) == 1) by {
        assert(gcd(1, 0) == 1);
    }
    lemma_reduced_fixed(one);
    assert(evaluation(lit(1)) == Ok::<Rational, EvalErr>(one));
}

/// A product with a literal zero on the left simplifies to zero, whatever
/// the other factor.
pub proof fn law_zero_times_anything(a: Expr)
    ensures
        simplification(pair(lit(0), Op::Mul, a)) == lit(0),
{
    let budget = u64::MAX as nat;
    let zero = Rational { numerator: 0, denominator: 1 };
    lemma_simplified_leaves(budget, 'x');
    assert forall|b: Rational| rat_mul(zero, b) == Ok::<Rational, ArithErr>(zero) by {}
    let e = pair(lit(0), Op::Mul, a);
    if let Ok(v) = evaluation(e) {
        assert(v == zero);
    } else {
        let r = simplified(a, budget);
        let f = pair(lit(0), Op::Mul, r);
        if let Ok(v) = evaluation(f) {
            assert(v == zero);
        } else {
            assert(simplified(e, budget) == product_rules(lit(0), r, budget));
        }
    }
}

/// Adding zero to a variable leaves the variable.
pub proof fn law_plus_zero(c: char)
    ensures
        simplification(pair(Expr::Variable(c), Op::Add, lit(0))) == Expr::Variable(c),
{
    let budget = u64::MAX as nat;
    lemma_simplified_leaves(budget, c);
    let x = Expr::Variable(c);
    assert(evaluation(pair(x, Op::Add, lit(0))) is Err);
    assert(simplified(pair(x, Op::Add, lit(0)), budget) == sum_rules(x, lit(0)));
}

/// A variable to the power zero is one, and to the power one is the
/// variable.
pub proof fn law_power_zero_and_one(c: char)
    ensures
        simplification(pair(Expr::Variable(c), Op::Pow, lit(0))) == lit(1),
        simplification(pair(Expr::Variable(c), Op::Pow, lit(1))) == Expr::Variable(c),
{
    let budget = u64::MAX as nat;
    lemma_simplified_leaves(budget, c);
    let x = Expr::Variable(c);
    assert(evaluation(pair(x, Op::Pow, lit(0))) is Err);
    assert(evaluation(pair(x, Op::Pow, lit(1))) is Err);
    assert(simplified(pair(x, Op::Pow, lit(0)), budget) == power_rules(x, lit(0), budget));
    assert(simplified(pair(x, Op::Pow, lit(1)), budget) == power_rules(x, lit(1), budget));
}

/// No `Derivative` node, and no power with the unknown in its exponent.
pub open spec fn constant_powers(e: Expr) -> bool
    decreases e,
{
    match e {
        Expr::Rational(_) => true,
        Expr::Variable(_) => true,
        Expr::Pair(p) => (p.op is Pow ==> p.right.unknowns() == 0) && constant_powers(p.left)
            && constant_powers(p.right),
        Expr::Negative(i) => constant_powers(*i),
        Expr::Func(_, i) => constant_powers(*i),
        Expr::Derivative(_) => false,
    }
}

/// A tree with constant powers and no `Derivative` node has a derivative.
pub proof fn law_constant_powers_differentiate(e: Expr)
    requires
        constant_powers(e),
    ensures
        derivative(e) is Ok,
    decreases e,
{
    match e {
        Expr::Pair(p) => {
            law_constant_powers_differentiate(p.left);
            law_constant_powers_differentiate(p.right);
        },
        Expr::Negative(i) => law_constant_powers_differentiate(*i),
        Expr::Func(_, i) => law_constant_powers_differentiate(*i),
        _ => {},
    }
}

/// The parts that the rules take apart keep constant powers and hold no
/// more unknowns than the whole.
proof fn lemma_parts(e: Expr)
    requires
        constant_powers(e),
    ensures
        negated_form(e) matches Some(i) ==> constant_powers(i) && i.unknowns() == e.unknowns(),
        coefficient_form(e) matches Some((c, rest)) ==> constant_powers(rest) && rest.unknowns()
            == e.unknowns(),
        binary_form(e, Op::Pow) matches Some((b, x)) ==> constant_powers(b) && constant_powers(x)
            && x.unknowns() == 0 && b.unknowns() == e.unknowns(),
        binary_form(e, Op::Div) matches Some((n, d)) ==> constant_powers(n) && constant_powers(d)
            && n.unknowns() + d.unknowns() == e.unknowns(),
{
    if let Some((l, r)) = binary_form(e, Op::Mul) {
        if let Some(c) = lit_of(l) {
            assert(l.unknowns() == 0);
        }
    }
}

proof fn lemma_product_rules_keep(l: Expr, r: Expr, budget: nat)
    requires
        constant_powers(l),
        constant_powers(r),
    ensures
        constant_powers(product_rules(l, r, budget)),
        product_rules(l, r, budget).unknowns() <= l.unknowns() + r.unknowns(),
    decreases budget, 0nat, 0nat,
{
    lemma_parts(l);
    lemma_parts(r);
    reveal_with_fuel(constant_powers, 3);
    reveal_with_fuel(Expr::unknowns, 3);
    if budget > 0 {
        if let Some((c, rest)) = coefficient_form(r) {
            lemma_simplified_keeps(pair(l, Op::Mul, rest), (budget - 1) as nat);
        }
        if let Some((b, x)) = binary_form(r, Op::Pow) {
            lemma_simplified_keeps(pair(x, Op::Add, lit(1)), (budget - 1) as nat);
        }
        if let Some((b, x)) = binary_form(l, Op::Pow) {
            lemma_simplified_keeps(pair(x, Op::Add, lit(1)), (budget - 1) as nat);
        }
    }
}

proof fn lemma_power_rules_keep(l: Expr, r: Expr, budget: nat)
    requires
        constant_powers(l),
        constant_powers(r),
        r.unknowns() == 0,
    ensures
        constant_powers(power_rules(l, r, budget)),
        power_rules(l, r, budget).unknowns() <= l.unknowns(),
    decreases budget, 0nat, 0nat,
{
    lemma_parts(l);
    reveal_with_fuel(constant_powers, 3);
    reveal_with_fuel(Expr::unknowns, 3);
    if budget > 0 {
        if let Some((b, x)) = binary_form(l, Op::Pow) {
            lemma_simplified_keeps(pair(x, Op::Mul, r), (budget - 1) as nat);
        }
    }
}

/// Simplification keeps powers constant and adds no unknowns.
pub proof fn lemma_simplified_keeps(e: Expr, budget: nat)
    requires
        constant_powers(e),
    ensures
        constant_powers(simplified(e, budget)),
        simplified(e, budget).unknowns() <= e.unknowns(),
    decreases budget, e.derivative_depth(), e.size(),
{
    if evaluation(e) is Err {
        match e {
            Expr::Pair(p) => {
                lemma_simplified_keeps(p.left, budget);
                lemma_simplified_keeps(p.right, budget);
                let l = simplified(p.left, budget);
                let r = simplified(p.right, budget);
                lemma_parts(l);
                lemma_parts(r);
                reveal_with_fuel(constant_powers, 3);
                reveal_with_fuel(Expr::unknowns, 3);
                if evaluation(pair(l, p.op, r)) is Err {
                    match p.op {
                        Op::Mul => lemma_product_rules_keep(l, r, budget),
                        Op::Pow => lemma_power_rules_keep(l, r, budget),
                        _ => {},
                    }
                }
            },
            Expr::Negative(i) => {
                lemma_simplified_keeps(*i, budget);
                lemma_parts(simplified(*i, budget));
            },
            Expr::Func(_, i) => lemma_simplified_keeps(*i, budget),
            _ => {},
        }
    }
}

/// No trigonometric function inside another, and none at all where
/// `in_func`.
pub open spec fn func_nesting(e: Expr, in_func: bool) -> bool
    decreases e,
{
    match e {
        Expr::Rational(_) => true,
        Expr::Variable(_) => true,
        Expr::Pair(p) => func_nesting(p.left, in_func) && func_nesting(p.right, in_func),
        Expr::Negative(i) => func_nesting(*i, in_func),
        Expr::Derivative(i) => func_nesting(*i, in_func),
        Expr::Func(_, i) => !in_func && func_nesting(*i, true),
    }
}

proof fn lemma_product_rules_nesting(l: Expr, r: Expr, budget: nat, in_func: bool)
    requires
        constant_powers(l),
        constant_powers(r),
        func_nesting(l, in_func),
        func_nesting(r, in_func),
    ensures
        func_nesting(product_rules(l, r, budget), in_func),
    decreases budget, 0nat, 0nat,
{
    lemma_parts(l);
    lemma_parts(r);
    reveal_with_fuel(constant_powers, 3);
    reveal_with_fuel(func_nesting, 3);
    if budget > 0 {
        if let Some((c, rest)) = coefficient_form(r) {
            lemma_simplified_nesting(pair(l, Op::Mul, rest), (budget - 1) as nat, in_func);
        }
        if let Some((b, x)) = binary_form(r, Op::Pow) {
            lemma_simplified_nesting(pair(x, Op::Add, lit(1)), (budget - 1) as nat, in_func);
        }
        if let Some((b, x)) = binary_form(l, Op::Pow) {
            lemma_simplified_nesting(pair(x, Op::Add, lit(1)), (budget - 1) as nat, in_func);
        }
    }
}

proof fn lemma_power_rules_nesting(l: Expr, r: Expr, budget: nat, in_func: bool)
    requires
        constant_powers(l),
        constant_powers(r),
        func_nesting(l, in_func),
        func_nesting(r, in_func),
    ensures
        func_nesting(power_rules(l, r, budget), in_func),
    decreases budget, 0nat, 0nat,
{
    lemma_parts(l);
    reveal_with_fuel(constant_powers, 3);
    reveal_with_fuel(func_nesting, 3);
    if budget > 0 {
        if let Some((b, x)) = binary_form(l, Op::Pow) {
            lemma_simplified_nesting(pair(x, Op::Mul, r), (budget - 1) as nat, in_func);
        }
    }
}

/// Simplification nests no trigonometric function inside another.
pub proof fn lemma_simplified_nesting(e: Expr, budget: nat, in_func: bool)
    requires
        constant_powers(e),
        func_nesting(e, in_func),
    ensures
        func_nesting(simplified(e, budget), in_func),
    decreases budget, e.derivative_depth(), e.size(),
{
    lemma_simplified_keeps(e, budget);
    if evaluation(e) is Err {
        match e {
            Expr::Pair(p) => {
                lemma_simplified_keeps(p.left, budget);
                lemma_simplified_keeps(p.right, budget);
                lemma_simplified_nesting(p.left, budget, in_func);
                lemma_simplified_nesting(p.right, budget, in_func);
                let l = simplified(p.left, budget);
                let r = simplified(p.right, budget);
                lemma_parts(l);
                lemma_parts(r);
                reveal_with_fuel(constant_powers, 3);
                reveal_with_fuel(func_nesting, 3);
                if evaluation(pair(l, p.op, r)) is Err {
                    match p.op {
                        Op::Mul => lemma_product_rules_nesting(l, r, budget, in_func),
                        Op::Pow => lemma_power_rules_nesting(l, r, budget, in_func),
                        _ => {},
                    }
                }
            },
            Expr::Negative(i) => {
                lemma_simplified_keeps(*i, budget);
                lemma_simplified_nesting(*i, budget, in_func);
            },
            Expr::Func(_, i) => lemma_simplified_nesting(*i, budget, true),
            _ => {},
        }
    }
}

} // verus!
