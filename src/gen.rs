use rand::seq::SliceRandom;
use rand::Rng;
use vstd::prelude::*;

use crate::derive::derivative;
use crate::render::{expr_latex, Answer, LatexConvertible};
use crate::eval::{evaluation, EvalErr};
use crate::rational::{
    gcd, law_inverse_operations, lemma_exact_result, lemma_normalize_fits, lemma_reduced_fixed,
    magnitude, rat_add, rat_mul,
    rat_apply, rat_div, rat_sub, ArithErr,
};
use crate::simplify::{
    constant_powers, func_nesting, law_constant_powers_differentiate, lemma_simplified_keeps,
    lemma_simplified_nesting, simplification, simplify,
};
use crate::solve::{
    isolate, law_isolate_finds_planted_value, lemma_substitute_closed, nonzero_tree, solution,
    substitute, SolveErr,
};
use crate::{lit, pair, Equation, Expr, Func, Op, Pair, Rational};

verus! {

/// Relies on `rand::Rng::gen_range` on `rand::thread_rng()`: for a non-empty
/// range `lo..hi` it returns a value of that range (it panics on an empty
/// one).
#[verifier::external_body]
fn random_in(lo: i64, hi: i64) -> (r: i64)
    requires
        lo < hi,
    ensures
        lo <= r < hi,
{
    rand::thread_rng().gen_range(lo..hi)
}

/// Relies on `rand::seq::SliceRandom::choose` on `rand::thread_rng()`: for
/// a non-empty slice it returns one of its elements (`None` only for an
/// empty one).
#[verifier::external_body]
fn choose_from<T: Copy>(items: &Vec<T>) -> (r: T)
    requires
        items.len() > 0,
    ensures
        items@.contains(r),
{
    *items.choose(&mut rand::thread_rng()).unwrap()
}

/// A random integer from 1 to 9.
pub fn rand_int() -> (r: Rational)
    ensures
        1 <= r.numerator <= 9,
        r.denominator == 1,
{
    Rational::integer(random_in(1, 10))
}

/// A random fraction: numerator from 1 to 34, denominator from 1 to 9 (not
/// reduced).
pub fn rand_rational() -> (r: Rational)
    ensures
        1 <= r.numerator <= 34,
        1 <= r.denominator <= 9,
{
    let numerator = random_in(1, 35);
    let denominator = random_in(1, 10);
    Rational::new(numerator, denominator as u64)
}

/// The integers from 1 to `k` that divide `n`, in increasing order.
pub open spec fn divisors(n: int, k: int) -> Seq<Rational>
    decreases k,
{
    if k <= 0 {
        seq![]
    } else if n % k == 0 {
        divisors(n, k - 1).push(Rational { numerator: k as i64, denominator: 1 })
    } else {
        divisors(n, k - 1)
    }
}

/// An integer `k / 1` is reduced.
proof fn lemma_integer_reduced(k: i64)
    ensures
        (Rational { numerator: k, denominator: 1 }).is_reduced(),
{
    assert(magnitude(k as int) % 1 == 0);
    assert(gcd(magnitude(k as int), 1) == gcd(1, 0));
}

proof fn lemma_divisors_integral(n: int, k: int)
    requires
        k <= i64::MAX,
    ensures
        k >= 0 ==> divisors(n, k).len() <= k,
        forall|j: int|
            0 <= j < divisors(n, k).len() ==> (#[trigger] divisors(n, k)[j]).denominator == 1
                && 1 <= divisors(n, k)[j].numerator <= k,
    decreases k,
{
    if k > 0 {
        lemma_divisors_integral(n, k - 1);
    }
}

/// The positive divisors of an integer, in increasing order; none for a
/// fraction or a value below one.
pub fn factors(n: Rational) -> (r: Vec<Rational>)
    ensures
        n.denominator != 1 ==> r@ == Seq::<Rational>::empty(),
        n.denominator == 1 ==> r@ == divisors(n.numerator as int, n.numerator as int),
{
    let mut r: Vec<Rational> = Vec::new();
    if n.denominator != 1 {
        return r;
    }
    let mut k: i64 = 0;
    while k < n.numerator
        invariant
            n.numerator <= 0 ==> k == 0,
            n.numerator > 0 ==> 0 <= k <= n.numerator,
            r@ == divisors(n.numerator as int, k as int),
        decreases n.numerator - k,
    {
        k = k + 1;
        if n.numerator % k == 0 {
            r.push(Rational::integer(k));
        }
    }
    r
}

/// `a >= b` by exact comparison of the values.
fn at_least(a: Rational, b: Rational) -> (r: bool)
    ensures
        r == (a.numerator * b.denominator >= b.numerator * a.denominator),
{
    assert(-0x8000_0000_0000_0000_0000_0000_0000_0000 < a.numerator * b.denominator
        < 0x8000_0000_0000_0000_0000_0000_0000_0000) by (nonlinear_arith)
        requires
            -0x8000_0000_0000_0000 <= a.numerator < 0x8000_0000_0000_0000,
            0 <= b.denominator < 0x1_0000_0000_0000_0000,
    ;
    assert(-0x8000_0000_0000_0000_0000_0000_0000_0000 < b.numerator * a.denominator
        < 0x8000_0000_0000_0000_0000_0000_0000_0000) by (nonlinear_arith)
        requires
            -0x8000_0000_0000_0000 <= b.numerator < 0x8000_0000_0000_0000,
            0 <= a.denominator < 0x1_0000_0000_0000_0000,
    ;
    (a.numerator as i128) * (b.denominator as i128) >= (b.numerator as i128) * (
    a.denominator as i128)
}

/// How `gen` splits `answer` into `l op r`: the two recombine to the
/// answer, and both are nonzero where the answer is.
proof fn lemma_split(op: Op, answer: Rational, l: Rational, r: Rational)
    requires
        answer.is_reduced(),
        l.is_reduced(),
        !(op is Pow),
        op is Add ==> rat_sub(answer, l) == Ok::<Rational, ArithErr>(r) && l.numerator >= 1
            && l.denominator == 1 && l.numerator * answer.denominator < answer.numerator,
        op is Sub ==> rat_sub(l, answer) == Ok::<Rational, ArithErr>(r) && l.numerator >= 2
            && l.denominator == 1 && (l.numerator - 1) * answer.denominator >= answer.numerator,
        op is Mul ==> rat_div(answer, l) == Ok::<Rational, ArithErr>(r) && l.numerator >= 1,
        op is Div ==> rat_div(l, answer) == Ok::<Rational, ArithErr>(r) && (answer.numerator != 0
            ==> l.numerator != 0),
    ensures
        rat_apply(op, l, r) == Ok::<Rational, ArithErr>(answer),
        r.is_reduced(),
        answer.numerator != 0 ==> r.numerator != 0 && l.numerator != 0,
{
    law_inverse_operations(answer, l);
    law_inverse_operations(l, answer);
    let (an, ad) = (answer.numerator as int, answer.denominator as int);
    let (ln, ld) = (l.numerator as int, l.denominator as int);
    let (rn, rd) = (r.numerator as int, r.denominator as int);
    match op {
        Op::Add => {
            lemma_exact_result(Op::Sub, answer, l, r);
            assert(rn != 0) by (nonlinear_arith)
                requires
                    rn * (ad * ld) == (an * ld - ln * ad) * rd,
                    ld == 1,
                    ln * ad < an,
                    rd > 0,
            ;
        },
        Op::Sub => {
            lemma_exact_result(Op::Sub, l, answer, r);
            assert(rn != 0) by (nonlinear_arith)
                requires
                    rn * (ld * ad) == (ln * ad - an * ld) * rd,
                    ld == 1,
                    (ln - 1) * ad >= an,
                    ad > 0,
                    rd > 0,
            ;
        },
        Op::Mul => {
            lemma_exact_result(Op::Div, answer, l, r);
            if an != 0 {
                assert(rn != 0) by (nonlinear_arith)
                    requires
                        rn * (ad * ln) == (an * ld) * rd,
                        an != 0,
                        ld > 0,
                        rd > 0,
                ;
            }
        },
        _ => {
            lemma_exact_result(Op::Div, l, answer, r);
            assert(rn != 0) by (nonlinear_arith)
                requires
                    rn * (ld * an) == (ln * ad) * rd,
                    ln != 0,
                    ad > 0,
                    rd > 0,
            ;
        },
    }
}

/// A nonzero answer small enough that every split of it fits: numerator
/// within 2^40 in size, denominator at most 2^20.
pub open spec fn modest(a: Rational) -> bool {
    a.numerator != 0 && -0x100_0000_0000 <= a.numerator <= 0x100_0000_0000 && a.denominator
        <= 0x10_0000
}

proof fn lemma_gcd_with_one(a: nat)
    requires
        a >= 1,
    ensures
        gcd(a, 1) == 1,
        gcd(1, a) == 1,
{
    assert(a % 1 == 0);
    assert(gcd(a, 1) == gcd(1, 0));
    if a == 1 {
        assert(gcd(1, a) == gcd(1, 0));
    } else {
        vstd::arithmetic::div_mod::lemma_small_mod(1, a);
        assert(gcd(1, a) == gcd(a, 1));
    }
}

/// For a modest answer none of the splits that `gen` makes overflows.
proof fn lemma_split_fits(op: Op, answer: Rational, l: Rational)
    requires
        modest(answer),
        answer.is_reduced(),
        op is Add ==> l.denominator == 1 && 1 <= l.numerator <= 9,
        op is Sub ==> l.denominator == 1 && 2 <= l.numerator <= 10,
        op is Mul ==> l.denominator == 1 && 1 <= l.numerator <= 0x100_0000_0000,
    ensures
        op is Add ==> rat_sub(answer, l) is Ok,
        op is Sub ==> rat_sub(l, answer) is Ok,
        op is Mul ==> rat_div(answer, l) is Ok,
{
    let (an, ad, ln) = (answer.numerator as int, answer.denominator as int, l.numerator as int);
    lemma_gcd_with_one(ad as nat);
    assert(ad / 1 == ad && 1int / 1 == 1);
    match op {
        Op::Add => {
            assert(-0x200_0000_0000 <= an - ln * ad <= 0x200_0000_0000) by (nonlinear_arith)
                requires
                    -0x100_0000_0000 <= an <= 0x100_0000_0000,
                    1 <= ln <= 9,
                    1 <= ad <= 0x10_0000,
            ;
            assert(an * (1int / 1) - ln * (ad / 1) == an - ln * ad);
            lemma_normalize_fits(an - ln * ad, ad);
        },
        Op::Sub => {
            assert(-0x200_0000_0000 <= ln * ad - an <= 0x200_0000_0000) by (nonlinear_arith)
                requires
                    -0x100_0000_0000 <= an <= 0x100_0000_0000,
                    2 <= ln <= 10,
                    1 <= ad <= 0x10_0000,
            ;
            assert(ln * (ad / 1) - an * (1int / 1) == ln * ad - an);
            assert(1int / 1 * ad == ad);
            lemma_normalize_fits(ln * ad - an, ad);
        },
        Op::Mul => {
            assert(1 <= ad * ln <= 0x1000_0000_0000_0000) by (nonlinear_arith)
                requires
                    1 <= ln <= 0x100_0000_0000,
                    1 <= ad <= 0x10_0000,
            ;
            assert(an * 1 == an);
            lemma_normalize_fits(an * 1, ad * ln);
        },
        _ => {},
    }
}

/// For a modest answer the product `t * answer` fits, and dividing it by the
/// answer gives `t` back.
proof fn lemma_scaled_fits(t: Rational, answer: Rational)
    requires
        modest(answer),
        answer.is_reduced(),
        t.denominator == 1,
        1 <= t.numerator <= 9,
    ensures
        rat_mul(t, answer) is Ok,
        rat_mul(t, answer) matches Ok(l) ==> rat_div(l, answer) == Ok::<Rational, ArithErr>(t),
{
    let (an, ad, tn) = (answer.numerator as int, answer.denominator as int, t.numerator as int);
    assert(-0x1000_0000_0000 <= tn * an <= 0x1000_0000_0000) by (nonlinear_arith)
        requires
            -0x100_0000_0000 <= an <= 0x100_0000_0000,
            1 <= tn <= 9,
    ;
    assert(1 * ad == ad);
    lemma_normalize_fits(tn * an, 1 * ad);
    if let Ok(l) = rat_mul(t, answer) {
        lemma_exact_result(Op::Mul, t, answer, l);
        lemma_integer_reduced(t.numerator);
        let (ln, ld) = (l.numerator as int, l.denominator as int);
        assert(tn * (ld * an) == (ln * ad) * 1) by (nonlinear_arith)
            requires
                ln * (1 * ad) == (tn * an) * ld,
        ;
        lemma_exact_result(Op::Div, l, answer, t);
    }
}

/// A random closed expression of the given depth built backwards from
/// `answer`: each level picks an operator other than `previous_op` and
/// splits the answer into two operands that combine to it, using whole
/// factors for a product. Where no split fits (no proper factor, or an
/// operand would overflow) the answer stays a literal.
pub fn gen(depth: u64, answer: Rational, previous_op: Option<Op>) -> (r: Expr)
    requires
        answer.is_reduced(),
    ensures
        r.unknowns() == 0,
        depth == 0 ==> r == Expr::Rational(answer),
        evaluation(r) == Ok::<Rational, EvalErr>(answer),
        answer.numerator != 0 ==> nonzero_tree(r),
        depth > 0 && modest(answer) ==> (r matches Expr::Pair(p) && !(p.op is Pow) && ((p.op is Mul
            || p.op is Div) ==> previous_op != Some(p.op))),
    decreases depth,
{
    proof {
        lemma_reduced_fixed(answer);
    }
    if depth == 0 {
        return Expr::Rational(answer);
    }
    let divisors = factors(answer);
    proof {
        lemma_divisors_integral(answer.numerator as int, answer.numerator as int);
    }
    let mut nice: Vec<Rational> = Vec::new();
    let mut i: usize = 0;
    while i < divisors.len()
        invariant
            i <= divisors.len(),
            divisors.len() <= i64::MAX,
            nice.len() <= i,
            forall|j: int|
                0 <= j < nice.len() ==> (#[trigger] nice@[j]).is_reduced() && nice@[j].numerator
                    >= 1 && nice@[j].denominator == 1 && nice@[j].numerator <= answer.numerator,
            forall|j: int|
                0 <= j < divisors.len() ==> (#[trigger] divisors@[j]).denominator == 1
                    && divisors@[j].numerator >= 1 && divisors@[j].numerator <= answer.numerator,
        decreases divisors.len() - i,
    {
        let f = divisors[i];
        proof {
            lemma_integer_reduced(f.numerator);
        }
        if !(f.numerator == 1 && f.denominator == 1) && f != answer {
            nice.push(f);
        }
        i = i + 1;
    }
    let mut ops: Vec<Op> = Vec::new();
    let mut k: usize = 0;
    while k < 4
        invariant
            k <= 4,
            ops.len() <= k,
            forall|j: int| 0 <= j < ops.len() ==> !(#[trigger] ops@[j] is Pow),
            forall|j: int|
                0 <= j < ops.len() ==> (#[trigger] ops@[j] == Op::Mul ==> nice.len() > 0),
            forall|j: int| 0 <= j < ops.len() ==> previous_op != Some(#[trigger] ops@[j]),
            k == 1 ==> ops.len() >= 1 || previous_op == Some(Op::Add),
            k >= 2 ==> ops.len() >= 1,
        decreases 4 - k,
    {
        let op = if k == 0 {
            Op::Add
        } else if k == 1 {
            Op::Sub
        } else if k == 2 {
            Op::Mul
        } else {
            Op::Div
        };
        let excluded = match previous_op {
            Some(p) => p == op,
            None => false,
        };
        if !excluded && !(op == Op::Mul && nice.len() == 0) {
            ops.push(op);
        }
        k = k + 1;
    }
    if ops.len() == 0 {
        return Expr::Rational(answer);
    }
    let mut op = ops[random_in(0, ops.len() as i64) as usize];
    let ghost drawn = op;
    let l = match op {
        Op::Mul => nice[random_in(0, nice.len() as i64) as usize],
        Op::Div => {
            let t = rand_int();
            proof {
                if modest(answer) {
                    lemma_scaled_fits(t, answer);
                }
            }
            match t.checked_mul(answer) {
                Ok(l) => {
                    proof {
                        lemma_exact_result(Op::Mul, t, answer, l);
                        let (ln, ld) = (l.numerator as int, l.denominator as int);
                        let (an, ad) = (answer.numerator as int, answer.denominator as int);
                        assert(an != 0 ==> ln != 0) by (nonlinear_arith)
                            requires
                                ln * (1 * ad) == (t.numerator * an) * ld,
                                t.numerator >= 1,
                                ad > 0,
                                ld > 0,
                        ;
                        if modest(answer) {
                            assert(rat_div(l, answer) is Ok);
                        }
                    }
                    l
                },
                Err(_) => return Expr::Rational(answer),
            }
        },
        _ => {
            let t = rand_int();
            if at_least(t, answer) {
                op = Op::Sub;
                proof {
                    lemma_integer_reduced((t.numerator + 1) as i64);
                    assert(answer.numerator * t.denominator == answer.numerator * 1);
                }
                Rational::integer(t.numerator + 1)
            } else {
                op = Op::Add;
                proof {
                    lemma_integer_reduced(t.numerator);
                    assert(answer.numerator * t.denominator == answer.numerator * 1);
                }
                t
            }
        },
    };
    assert(l.is_reduced());
    assert(op is Div ==> (answer.numerator != 0 ==> l.numerator != 0));
    assert(op is Mul ==> l.numerator >= 1);
    assert(op is Add ==> l.numerator >= 1 && l.denominator == 1 && l.numerator
        * answer.denominator < answer.numerator);
    assert(op is Sub ==> l.numerator >= 2 && l.denominator == 1 && (l.numerator - 1)
        * answer.denominator >= answer.numerator);
    assert((op is Mul || op is Div) ==> op == drawn);
    proof {
        if modest(answer) && !(op is Div) {
            lemma_split_fits(op, answer, l);
        }
    }
    let r = match op {
        Op::Add => answer.checked_sub(l),
        Op::Sub => l.checked_sub(answer),
        Op::Mul => answer.checked_div(l),
        _ => l.checked_div(answer),
    };
    let r = match r {
        Ok(r) => r,
        Err(_) => return Expr::Rational(answer),
    };
    proof {
        lemma_split(op, answer, l, r);
    }
    let lexpr = gen(depth - 1, l, Some(op));
    let rexpr = gen(depth - 1, r, Some(op));
    Expr::binary(lexpr, op, rexpr)
}

/// A random arithmetic expression of the given depth whose value is
/// `answer`.
pub fn gen_arithmetic(depth: u64, answer: Rational) -> (r: Expr)
    requires
        answer.wf(),
    ensures
        r.unknowns() == 0,
        evaluation(r) == Ok::<Rational, EvalErr>(answer.reduced()),
        depth > 0 && modest(answer.reduced()) ==> (r matches Expr::Pair(p) && !(p.op is Pow)),
{
    gen(depth, answer.simplified(), None)
}

/// A constant met where a variable was expected.
enum GenErr {
    UnexpectedVariable,
}

/// `new` is `old` with exactly one literal leaf, of value `q`, replaced by
/// `replacement`, and all else unchanged.
pub open spec fn replaced_once(old: Expr, new: Expr, replacement: Expr, q: Rational) -> bool
    decreases old,
{
    match old {
        Expr::Rational(v) => v == q && new == replacement,
        Expr::Pair(p) => match new {
            Expr::Pair(n) => n.op == p.op && ((replaced_once(p.left, n.left, replacement, q)
                && n.right == p.right) || (n.left == p.left && replaced_once(
                p.right,
                n.right,
                replacement,
                q,
            ))),
            _ => false,
        },
        Expr::Negative(i) => new matches Expr::Negative(j) && replaced_once(*i, *j, replacement, q),
        Expr::Derivative(i) => new matches Expr::Derivative(j) && replaced_once(
            *i,
            *j,
            replacement,
            q,
        ),
        Expr::Func(f, i) => new matches Expr::Func(g, j) && f == g && replaced_once(
            *i,
            *j,
            replacement,
            q,
        ),
        Expr::Variable(_) => false,
    }
}

/// Every variable of `e` is `c`.
pub open spec fn variables_are(e: Expr, c: char) -> bool
    decreases e,
{
    match e {
        Expr::Rational(_) => true,
        Expr::Pair(p) => variables_are(p.left, c) && variables_are(p.right, c),
        Expr::Negative(i) => variables_are(*i, c),
        Expr::Variable(v) => v == c,
        Expr::Derivative(i) => variables_are(*i, c),
        Expr::Func(_, i) => variables_are(*i, c),
    }
}

proof fn lemma_closed_variables_are(e: Expr, c: char)
    requires
        e.unknowns() == 0,
    ensures
        variables_are(e, c),
    decreases e,
{
    match e {
        Expr::Pair(p) => {
            lemma_closed_variables_are(p.left, c);
            lemma_closed_variables_are(p.right, c);
        },
        Expr::Negative(i) => lemma_closed_variables_are(*i, c),
        Expr::Derivative(i) => lemma_closed_variables_are(*i, c),
        Expr::Func(_, i) => lemma_closed_variables_are(*i, c),
        _ => {},
    }
}

/// Replaces one randomly chosen literal by `replacement` and returns the
/// literal's value.
fn replace_random_constant(expr: Expr, replacement: Expr) -> (r: (Expr, Result<Rational, GenErr>))
    ensures
        expr.unknowns() == 0 ==> r.1 is Ok && r.0.unknowns() == replacement.unknowns(),
        expr.unknowns() == 0 ==> (r.1 matches Ok(q) && replaced_once(expr, r.0, replacement, q)),
        expr.unknowns() == 0 && replacement is Variable ==> (r.1 matches Ok(q) && substitute(
            r.0,
            q,
        ) == expr),
        expr.unknowns() == 0 && replacement == Expr::Variable('x') ==> variables_are(r.0, 'x'),
    decreases expr,
{
    match expr {
        Expr::Rational(q) => (replacement, Ok(q)),
        Expr::Variable(c) => (Expr::Variable(c), Err(GenErr::UnexpectedVariable)),
        Expr::Pair(p) => {
            let Pair { left, right, op } = *p;
            if random_in(0, 2) == 0 {
                let (l, found) = replace_random_constant(left, replacement);
                proof {
                    if right.unknowns() == 0 {
                        lemma_closed_variables_are(right, 'x');
                        if let Ok(q) = found {
                            lemma_substitute_closed(right, q);
                        }
                    }
                }
                (Expr::binary(l, op, right), found)
            } else {
                let (r, found) = replace_random_constant(right, replacement);
                proof {
                    if left.unknowns() == 0 {
                        lemma_closed_variables_are(left, 'x');
                        if let Ok(q) = found {
                            lemma_substitute_closed(left, q);
                        }
                    }
                }
                (Expr::binary(left, op, r), found)
            }
        },
        Expr::Negative(inner) => {
            let (e, found) = replace_random_constant(*inner, replacement);
            (Expr::Negative(Box::new(e)), found)
        },
        Expr::Derivative(inner) => {
            let (e, found) = replace_random_constant(*inner, replacement);
            (Expr::Derivative(Box::new(e)), found)
        },
        Expr::Func(f, inner) => {
            let (e, found) = replace_random_constant(*inner, replacement);
            (Expr::Func(f, Box::new(e)), found)
        },
    }
}

/// A random equation `lhs = rhs` with a single unknown `x`: an arithmetic
/// expression is built for a random right-hand side, then one of its
/// literals is replaced by `x`. Returns the equation and the value that `x`
/// replaced.
pub fn gen_backtrack(depth: u64) -> (r: (Equation, Rational))
    ensures
        r.0.lhs.unknowns() == 1,
        variables_are(r.0.lhs, 'x'),
        r.0.rhs is Rational,
        r.0.rhs.unknowns() == 0,
        evaluation(substitute(r.0.lhs, r.1)) == evaluation(r.0.rhs),
        solution(r.0) == Ok::<Rational, SolveErr>(r.1),
        depth > 0 ==> r.0.lhs is Pair,
{
    let rhs = rand_int();
    proof {
        lemma_integer_reduced(rhs.numerator);
    }
    let lhs = gen(depth, rhs, None);
    let (lhs, replaced) = replace_random_constant(lhs, Expr::Variable('x'));
    let replaced = match replaced {
        Ok(q) => q,
        Err(_) => rhs,
    };
    proof {
        let equation = Equation { lhs, rhs: Expr::Rational(rhs) };
        law_isolate_finds_planted_value(lhs, Expr::Rational(rhs), replaced);
        assert(solution(equation) == isolate(lhs, Expr::Rational(rhs)));
    }
    (Equation { lhs, rhs: Expr::Rational(rhs) }, replaced)
}

/// `answer + k`.
pub open spec fn shifted(answer: Rational, k: int) -> Result<Rational, ArithErr> {
    rat_add(answer, Rational { numerator: k as i64, denominator: 1 })
}

/// `v` is `answer + k` for a nonzero offset `k` from -4 to 3.
pub open spec fn near(answer: Rational, v: Rational) -> bool {
    exists|k: int|
        -4 <= k <= 3 && k != 0 && #[trigger] shifted(answer, k) == Ok::<Rational, ArithErr>(v)
}

/// `count` wrong answers near `answer`: `answer + k` for offsets `k` from -4
/// to 3, zero left out, drawn without repetition.
pub fn gen_choices(answer: Rational, count: usize) -> (r: Vec<Rational>)
    requires
        answer.wf(),
        count <= 7,
        forall|k: int| -4 <= k <= 3 ==> #[trigger] shifted(answer, k) is Ok,
    ensures
        r@.len() == count,
        forall|i: int| 0 <= i < count ==> #[trigger] near(answer, r@[i]),
{
    let mut answers: Vec<Rational> = Vec::new();
    let mut offsets: Vec<i64> = vec![-4, -3, -2, -1, 1, 2, 3];
    let mut n: usize = 0;
    while n < count
        invariant
            n <= count,
            count <= 7,
            answer.wf(),
            forall|k: int| -4 <= k <= 3 ==> #[trigger] shifted(answer, k) is Ok,
            offsets@.len() == 7 - n,
            answers@.len() == n,
            forall|j: int|
                0 <= j < offsets@.len() ==> -4 <= #[trigger] offsets@[j] <= 3 && offsets@[j] != 0,
            forall|i: int| 0 <= i < n ==> #[trigger] near(answer, answers@[i]),
        decreases count - n,
    {
        let index = random_in(0, offsets.len() as i64) as usize;
        let offset = offsets.remove(index);
        let sum = answer.checked_add(Rational::integer(offset));
        match sum {
            Ok(v) => {
                answers.push(v);
                assert(answers@[n as int] == v);
                assert(shifted(answer, offset as int) == Ok::<Rational, ArithErr>(
                    answers@[n as int],
                ));
            },
            Err(_) => {
                return answers;
            },
        }
        n = n + 1;
    }
    answers
}

/// `0 + 0 + c x^d + ...`: one term `c * x^e` for each nonzero coefficient
/// `c`, where `coefficients[i]` belongs to the exponent `degree - i`.
pub open spec fn polynomial_tree(coefficients: Seq<i64>, degree: int) -> Expr
    decreases coefficients.len(),
{
    if coefficients.len() == 0 {
        pair(lit(0), Op::Add, lit(0))
    } else {
        let i = coefficients.len() - 1;
        let previous = polynomial_tree(coefficients.drop_last(), degree);
        let c = coefficients.last();
        if c == 0 {
            previous
        } else {
            pair(
                previous,
                Op::Add,
                pair(lit(c as int), Op::Mul, pair(Expr::Variable('x'), Op::Pow, lit(degree - i))),
            )
        }
    }
}

/// `e` is a simplified polynomial of the given degree with coefficients
/// from -10 to 9.
pub open spec fn is_polynomial(e: Expr, degree: int) -> bool {
    exists|c: Seq<i64>|
        c.len() == degree + 1 && (forall|i: int| 0 <= i < c.len() ==> -10 <= #[trigger] c[i] < 10)
            && e == #[trigger] simplification(polynomial_tree(c, degree))
}

/// The polynomial with the given coefficients, highest power first,
/// simplified.
pub fn polynomial(coefficients: &Vec<i64>, degree: u64) -> (r: Expr)
    requires
        coefficients.len() <= degree + 1,
        degree < i64::MAX,
    ensures
        r == simplification(polynomial_tree(coefficients@, degree as int)),
{
    let mut tree = Expr::binary(Expr::integer(0), Op::Add, Expr::integer(0));
    let mut taken: usize = 0;
    while taken < coefficients.len()
        invariant
            taken <= coefficients.len() <= degree + 1,
            degree < i64::MAX,
            tree == polynomial_tree(coefficients@.subrange(0, taken as int), degree as int),
        decreases coefficients.len() - taken,
    {
        let exponent = degree - taken as u64;
        let coefficient = coefficients[taken];
        proof {
            let next = coefficients@.subrange(0, taken + 1);
            assert(next.drop_last() =~= coefficients@.subrange(0, taken as int));
            assert(next.last() == coefficient);
        }
        if coefficient != 0 {
            let power = Expr::binary(Expr::Variable('x'), Op::Pow, Expr::integer(exponent as i64));
            let term = Expr::binary(Expr::integer(coefficient), Op::Mul, power);
            tree = Expr::binary(tree, Op::Add, term);
        }
        taken = taken + 1;
    }
    assert(coefficients@.subrange(0, coefficients.len() as int) =~= coefficients@);
    simplify(&tree)
}

/// A random polynomial in `x` of the given degree, coefficients from -10 to
/// 9, simplified.
pub fn gen_polynomial(degree: u64) -> (r: Expr)
    requires
        degree < i64::MAX,
    ensures
        is_polynomial(r, degree as int),
{
    let mut coefficients: Vec<i64> = Vec::new();
    let mut taken: u64 = 0;
    while taken <= degree
        invariant
            taken <= degree + 1,
            degree < i64::MAX,
            coefficients.len() == taken,
            forall|i: int| 0 <= i < coefficients.len() ==> -10 <= #[trigger] coefficients@[i] < 10,
        decreases degree + 1 - taken,
    {
        coefficients.push(random_in(-10, 10));
        taken = taken + 1;
    }
    let r = polynomial(&coefficients, degree);
    assert(coefficients@.len() == degree + 1 && r == simplification(
        polynomial_tree(coefficients@, degree as int),
    ));
    r
}

/// A choice offered beside `answer`: a polynomial, or (see
/// `gen_polynomial_choices`) a polynomial plus zero.
pub open spec fn polynomial_choice(e: Expr, degree: int) -> bool {
    is_polynomial(e, degree) || (e matches Expr::Pair(p) && p.op is Add && p.right == lit(0)
        && is_polynomial(p.left, degree))
}

/// `count` random polynomials of the given degree, each different from
/// `answer`; a polynomial equal to `answer` is drawn again. After `u64::MAX`
/// such draws for one choice, the last one plus zero stands in.
pub fn gen_polynomial_choices(answer: &Expr, degree: u64, count: u64) -> (r: Vec<Expr>)
    requires
        degree < i64::MAX,
    ensures
        r@.len() == count,
        forall|i: int|
            0 <= i < r@.len() ==> #[trigger] r@[i] != *answer && polynomial_choice(
                r@[i],
                degree as int,
            ),
{
    let mut choices: Vec<Expr> = Vec::new();
    let mut n: u64 = 0;
    while n < count
        invariant
            n <= count,
            degree < i64::MAX,
            choices@.len() == n,
            forall|i: int|
                0 <= i < choices@.len() ==> #[trigger] choices@[i] != *answer && polynomial_choice(
                    choices@[i],
                    degree as int,
                ),
        decreases count - n,
    {
        let mut attempts: u64 = u64::MAX;
        loop
            invariant_except_break
                choices@.len() == n,
            invariant
                degree < i64::MAX,
                forall|i: int|
                    0 <= i < choices@.len() ==> #[trigger] choices@[i] != *answer
                        && polynomial_choice(choices@[i], degree as int),
            ensures
                choices@.len() == n + 1,
                forall|i: int|
                    0 <= i < choices@.len() ==> #[trigger] choices@[i] != *answer
                        && polynomial_choice(choices@[i], degree as int),
            decreases attempts,
        {
            let choice = gen_polynomial(degree);
            if !choice.same(answer) {
                choices.push(choice);
                break;
            }
            if attempts == 0 {
                let padded = Expr::binary(choice, Op::Add, Expr::integer(0));
                assert(padded.size() > answer.size());
                choices.push(padded);
                break;
            }
            attempts = attempts - 1;
        }
        n = n + 1;
    }
    choices
}

/// A random split of `x_count` unknowns between two operands: both sides
/// get at least one where there are two or more.
fn split_x_count(x_count: u64) -> (r: (u64, u64))
    requires
        1 <= x_count <= i64::MAX,
    ensures
        r.0 + r.1 == x_count,
        x_count >= 2 ==> r.0 >= 1 && r.1 >= 1,
{
    if x_count == 1 {
        if random_in(0, 2) == 0 {
            (1, 0)
        } else {
            (0, 1)
        }
    } else {
        let l = random_in(1, x_count as i64) as u64;
        (l, x_count - l)
    }
}

/// Every power has a literal exponent, only literals, variables, binary
/// nodes and trigonometric functions occur, and no trigonometric function
/// sits inside another (none at all where `in_func`).
pub open spec fn derivable_shape(e: Expr, in_func: bool) -> bool
    decreases e,
{
    match e {
        Expr::Rational(_) => true,
        Expr::Variable(_) => true,
        Expr::Pair(p) => (p.op is Pow ==> p.right is Rational) && derivable_shape(p.left, in_func)
            && derivable_shape(p.right, in_func),
        Expr::Func(_, inner) => !in_func && derivable_shape(*inner, true),
        _ => false,
    }
}

/// A tree of that shape has constant powers, so it has a derivative, and
/// nests no trigonometric function inside another.
pub proof fn law_derivable_shape_differentiates(e: Expr, in_func: bool)
    requires
        derivable_shape(e, in_func),
    ensures
        constant_powers(e),
        func_nesting(e, in_func),
        derivative(e) is Ok,
    decreases e,
{
    match e {
        Expr::Pair(p) => {
            law_derivable_shape_differentiates(p.left, in_func);
            law_derivable_shape_differentiates(p.right, in_func);
        },
        Expr::Func(_, inner) => law_derivable_shape_differentiates(*inner, true),
        _ => {},
    }
    law_constant_powers_differentiate(e);
}

/// A random differentiable expression holding exactly `x_count` unknowns:
/// sums, differences, products, quotients, constant powers and (once) a
/// trigonometric function. Drawing a power, a product by a constant or a
/// function keeps the count and spends one unit of `budget`; once it is
/// spent only operators that split the count are drawn.
fn derivable_from(x_count: u64, prev_op: Option<Op>, in_func: bool, budget: u64) -> (r: Expr)
    requires
        x_count <= i64::MAX,
    ensures
        r.unknowns() == x_count,
        derivable_shape(r, in_func),
    decreases budget, x_count,
{
    if x_count == 0 {
        return Expr::Rational(rand_int());
    } else if x_count == 1 {
        let exponent = random_in(1, 5);
        if exponent == 1 {
            return Expr::Variable('x');
        }
        let power = Expr::binary(Expr::Variable('x'), Op::Pow, Expr::integer(exponent));
        assert(power.unknowns() == Expr::Variable('x').unknowns() + lit(
            exponent as int,
        ).unknowns());
        assert(derivable_shape(Expr::Variable('x'), in_func));
        assert(derivable_shape(lit(exponent as int), in_func));
        return power;
    }
    if budget > 0 && !in_func && random_in(0, 8) == 0 {
        let func = choose_from(&vec![Func::Sine, Func::Cosine]);
        return Expr::Func(func, Box::new(derivable_from(x_count, None, true, budget - 1)));
    }
    let all = [Op::Add, Op::Sub, Op::Mul, Op::Div, Op::Pow];
    let mut ops: Vec<Op> = Vec::new();
    let mut k: usize = 0;
    while k < 5
        invariant
            k <= 5,
            ops.len() <= k,
            budget == 0 ==> forall|j: int|
                0 <= j < ops.len() ==> !(#[trigger] ops@[j] is Mul || ops@[j] is Pow),
        decreases 5 - k,
    {
        let op = all[k];
        let excluded = match prev_op {
            Some(p) => p == op,
            None => false,
        };
        let keeps_count = op == Op::Mul || op == Op::Pow;
        if !excluded && !(budget == 0 && keeps_count) {
            ops.push(op);
        }
        k = k + 1;
    }
    if ops.len() == 0 {
        let (l, r) = split_x_count(x_count);
        return Expr::binary(
            derivable_from(l, None, in_func, budget),
            Op::Add,
            derivable_from(r, None, in_func, budget),
        );
    }
    let op = choose_from(&ops);
    assert(budget == 0 ==> !(op is Mul || op is Pow));
    match op {
        Op::Pow => {
            let constant = Expr::Rational(rand_int());
            assert(constant.unknowns() == 0 && derivable_shape(constant, in_func));
            Expr::binary(derivable_from(x_count, Some(op), in_func, budget - 1), op, constant)
        },
        Op::Mul => {
            let constant = Expr::Rational(rand_int());
            assert(constant.unknowns() == 0 && derivable_shape(constant, in_func));
            Expr::binary(constant, op, derivable_from(x_count, Some(op), in_func, budget - 1))
        },
        _ => {
            let (l, r) = split_x_count(x_count);
            Expr::binary(
                derivable_from(l, Some(op), in_func, budget),
                op,
                derivable_from(r, Some(op), in_func, budget),
            )
        },
    }
}

/// A random differentiable expression built with `x_count` unknowns, then
/// simplified.
pub fn gen_derivable(x_count: u64) -> (r: Expr)
    requires
        x_count <= i64::MAX,
    ensures
        exists|t: Expr|
            t.unknowns() == x_count && derivable_shape(t, false) && r == #[trigger] simplification(
                t,
            ),
        constant_powers(r),
        func_nesting(r, false),
        derivative(r) is Ok,
{
    let t = derivable_from(x_count, None, false, u64::MAX);
    let r = simplify(&t);
    assert(t.unknowns() == x_count && derivable_shape(t, false) && r == simplification(t));
    proof {
        law_derivable_shape_differentiates(t, false);
        lemma_simplified_keeps(t, u64::MAX as nat);
        lemma_simplified_nesting(t, u64::MAX as nat, false);
        law_constant_powers_differentiate(r);
    }
    r
}

/// A problem, or an offered answer: an equation or an expression.
#[derive(Debug)]
pub enum Maths {
    Equation(Equation),
    Expr(Expr),
}

impl Maths {
    /// A copy of the whole value.
    pub fn duplicate(&self) -> (r: Maths)
        ensures
            r == *self,
    {
        match self {
            Maths::Equation(e) => Maths::Equation(
                Equation { lhs: e.lhs.duplicate(), rhs: e.rhs.duplicate() },
            ),
            Maths::Expr(e) => Maths::Expr(e.duplicate()),
        }
    }
}

impl LatexConvertible for Maths {
    open spec fn latex(&self) -> Seq<char> {
        match self {
            Maths::Equation(e) => expr_latex(e.lhs) + seq![' ', '=', ' '] + expr_latex(e.rhs),
            Maths::Expr(e) => expr_latex(*e),
        }
    }

    fn to_latex(&self) -> (r: String) {
        match self {
            Maths::Equation(e) => e.to_latex(),
            Maths::Expr(e) => e.to_latex(),
        }
    }
}

/// Why no problem was generated.
#[derive(Clone, Copy, Debug, PartialEq, Eq, Structural)]
pub enum ProblemErr {
    /// Only levels 1 (a linear equation) and 2 (a derivative) exist.
    InvalidLevel(u64),
    /// The answer is too large to offer its neighbours as wrong answers.
    AnswerOutOfRange,
}

/// The letter of the option at position `j`: `a` to `d`.
pub open spec fn letter(j: int) -> char {
    if j == 0 {
        'a'
    } else if j == 1 {
        'b'
    } else if j == 2 {
        'c'
    } else {
        'd'
    }
}

/// The equation `x = v`.
pub open spec fn x_equals(v: Rational) -> Equation {
    Equation { lhs: Expr::Variable('x'), rhs: Expr::Rational(v) }
}

/// Whether `answer + k` has a value for every offset `k` from -4 to 3.
fn offsets_fit(answer: Rational) -> (r: bool)
    requires
        answer.wf(),
    ensures
        r == forall|k: int| -4 <= k <= 3 ==> #[trigger] shifted(answer, k) is Ok,
{
    let mut k: i64 = -4;
    while k <= 3
        invariant
            -4 <= k <= 4,
            answer.wf(),
            forall|j: int| -4 <= j < k ==> #[trigger] shifted(answer, j) is Ok,
        decreases 4 - k,
    {
        if answer.checked_add(Rational::integer(k)).is_err() {
            assert(shifted(answer, k as int) is Err);
            return false;
        }
        k = k + 1;
    }
    true
}

/// A multiple-choice problem of the given level: level 1 a linear equation
/// with `x = answer` among three neighbouring wrong values, level 2 the
/// derivative of a random polynomial with its simplified derivative among
/// three other polynomials. The right answer is put at a random position;
/// the options are lettered `a` to `d`, and the position is returned.
pub fn generate_multiple_choice_problem(level: u64) -> (r: Result<
    (Maths, Vec<Answer<Maths>>, usize),
    ProblemErr,
>)
    ensures
        !(level == 1 || level == 2) ==> r == Err::<(Maths, Vec<Answer<Maths>>, usize), ProblemErr>(
            ProblemErr::InvalidLevel(level),
        ),
        level == 2 ==> r is Ok,
        r matches Ok((problem, options, i)) ==> {
            &&& i < options@.len() == 4
            &&& forall|j: int|
                0 <= j < options@.len() ==> (#[trigger] options@[j]).option == letter(j)
            &&& level == 1 ==> (problem matches Maths::Equation(eq) && solution(eq) matches Ok(a)
                && options@[i as int].answer == Maths::Equation(x_equals(a)))
            &&& level == 2 ==> (problem matches Maths::Expr(p) && p is Derivative
                && options@[i as int].answer == Maths::Expr(simplification(p)) && forall|j: int|
                0 <= j < options@.len() && j != i ==> (#[trigger] options@[j]).answer
                != options@[i as int].answer)
        },
{
    let mut choices: Vec<Maths> = Vec::new();
    let problem;
    let answer;
    if level == 1 {
        let (equation, a) = gen_backtrack(2);
        if a.denominator == 0 || !offsets_fit(a) {
            return Err(ProblemErr::AnswerOutOfRange);
        }
        let values = gen_choices(a, 3);
        let mut n: usize = 0;
        while n < values.len()
            invariant
                n <= values.len() == 3,
                choices@.len() == n,
            decreases values.len() - n,
        {
            let rhs = Expr::Rational(values[n]);
            choices.push(Maths::Equation(Equation { lhs: Expr::Variable('x'), rhs }));
            n = n + 1;
        }
        problem = Maths::Equation(equation);
        answer = Maths::Equation(Equation { lhs: Expr::Variable('x'), rhs: Expr::Rational(a) });
    } else if level == 2 {
        let p = Expr::Derivative(Box::new(gen_polynomial(4)));
        let s = simplify(&p);
        let options = gen_polynomial_choices(&s, 4, 3);
        let mut n: usize = 0;
        while n < options.len()
            invariant
                n <= options.len() == 3,
                choices@.len() == n,
                forall|j: int| 0 <= j < options@.len() ==> #[trigger] options@[j] != s,
                forall|j: int| 0 <= j < n ==> #[trigger] choices@[j] == Maths::Expr(options@[j]),
            decreases options.len() - n,
        {
            choices.push(Maths::Expr(options[n].duplicate()));
            n = n + 1;
        }
        problem = Maths::Expr(p);
        answer = Maths::Expr(s);
        assert(forall|j: int| 0 <= j < choices@.len() ==> #[trigger] choices@[j] != answer);
    } else {
        return Err(ProblemErr::InvalidLevel(level));
    }
    assert(choices@.len() == 3);
    let ghost others = choices@;
    let index = random_in(0, choices.len() as i64 + 1) as usize;
    choices.insert(index, answer);
    let mut lettered: Vec<Answer<Maths>> = Vec::new();
    let mut j: usize = 0;
    while j < choices.len()
        invariant
            j <= choices.len() <= 4,
            lettered@.len() == j,
            forall|m: int| 0 <= m < j ==> (#[trigger] lettered@[m]).option == letter(m)
                && lettered@[m].answer == choices@[m],
        decreases choices.len() - j,
    {
        let option = if j == 0 {
            'a'
        } else if j == 1 {
            'b'
        } else if j == 2 {
            'c'
        } else {
            'd'
        };
        lettered.push(Answer { option, answer: choices[j].duplicate() });
        j = j + 1;
    }
    assert(lettered@[index as int].answer == answer);
    assert(level == 2 ==> forall|m: int|
        0 <= m < lettered@.len() && m != index ==> #[trigger] lettered@[m].answer != answer) by {
        if level == 2 {
            assert forall|m: int|
                0 <= m < lettered@.len() && m != index implies #[trigger] lettered@[m].answer
                    != answer by {
                if m < index {
                    assert(choices@[m] == others[m]);
                } else {
                    assert(choices@[m] == others[m - 1]);
                }
            }
        }
    }
    Ok((problem, lettered, index))
}

} // verus!
