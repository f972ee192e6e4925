use vstd::prelude::*;
use vstd::string::StringExecFns;

use crate::fmt::{decimal, func_name, op_symbol, push_char, push_decimal, push_digits, push_str};
use crate::{Equation, Expr, Op, Pair, Rational};

verus! {

/// A value that has a LaTeX form.
pub trait LatexConvertible {
    spec fn latex(&self) -> Seq<char>;

    fn to_latex(&self) -> (r: String)
        ensures
            r@ == self.latex(),
    ;
}

pub open spec fn latex_bracketed(s: Seq<char>) -> Seq<char> {
    "\\left("@ + s + "\\right)"@
}

pub open spec fn frac(n: Seq<char>, d: Seq<char>) -> Seq<char> {
    "\\frac{"@ + n + "}{"@ + d + "}"@
}

pub open spec fn rational_latex(q: Rational) -> Seq<char> {
    if q.denominator == 1 {
        decimal(q.numerator as int)
    } else {
        frac(decimal(q.numerator as int), decimal(q.denominator as int))
    }
}

/// A factor written straight after a coefficient, without a times sign.
pub open spec fn juxtaposes(e: Expr) -> bool {
    match e {
        Expr::Variable(_) => true,
        Expr::Pair(p) => p.op is Pow && p.left is Variable,
        _ => false,
    }
}

/// The LaTeX form: quotients as stacked fractions, raised exponents,
/// operands bracketed as `requires_brackets(true, false)` says, and a
/// product written without a times sign where it brackets an operand or its
/// right factor is a variable or a power of one.
pub open spec fn expr_latex(e: Expr) -> Seq<char>
    decreases e,
{
    match e {
        Expr::Rational(q) => rational_latex(q),
        Expr::Pair(p) => {
            let (lb, rb) = p.spec_requires_brackets(true, false);
            let l = if lb {
                latex_bracketed(expr_latex(p.left))
            } else {
                expr_latex(p.left)
            };
            let r = if rb {
                latex_bracketed(expr_latex(p.right))
            } else {
                expr_latex(p.right)
            };
            match p.op {
                Op::Add | Op::Sub => l + seq![' ', op_symbol(p.op), ' '] + r,
                Op::Mul => if lb || rb || juxtaposes(p.right) {
                    l + seq![' '] + r
                } else {
                    l + " \\times "@ + r
                },
                Op::Div => frac(l, r),
                Op::Pow => l + "^{"@ + r + "}"@,
            }
        },
        Expr::Negative(inner) => seq!['-'] + expr_latex(*inner),
        Expr::Variable(c) => seq![c],
        Expr::Derivative(inner) => frac(seq!['d'], seq!['d', 'x']) + latex_bracketed(
            expr_latex(*inner),
        ),
        Expr::Func(f, inner) => func_name(f) + latex_bracketed(expr_latex(*inner)),
    }
}

/// A multiple-choice option: its letter and the answer it offers.
pub struct Answer<T: LatexConvertible> {
    pub option: char,
    pub answer: T,
}

/// `s` between `\left(` and `\right)`.
pub fn latex_bracketize(s: &str) -> (r: String)
    ensures
        r@ == latex_bracketed(s@),
{
    let mut r = String::new();
    r.append("\\left(");
    r.append(s);
    r.append("\\right)");
    assert(r@ =~= latex_bracketed(s@));
    r
}

fn push_latex_bracketed(s: &mut String, t: &String)
    ensures
        final(s)@ == old(s)@ + latex_bracketed(t@),
{
    s.append("\\left(");
    push_str(s, t);
    s.append("\\right)");
    assert(final(s)@ =~= old(s)@ + latex_bracketed(t@));
}

fn push_frac(s: &mut String, n: &String, d: &String)
    ensures
        final(s)@ == old(s)@ + frac(n@, d@),
{
    s.append("\\frac{");
    push_str(s, n);
    s.append("}{");
    push_str(s, d);
    s.append("}");
    assert(final(s)@ =~= old(s)@ + frac(n@, d@));
}

fn juxtaposes_exec(e: &Expr) -> (r: bool)
    ensures
        r == juxtaposes(*e),
{
    match e {
        Expr::Variable(_) => true,
        Expr::Pair(p) => p.op == Op::Pow && matches!(p.left, Expr::Variable(_)),
        _ => false,
    }
}

impl LatexConvertible for Rational {
    open spec fn latex(&self) -> Seq<char> {
        rational_latex(*self)
    }

    fn to_latex(&self) -> (r: String) {
        if self.denominator == 1 {
            self.to_text()
        } else {
            let mut n = String::new();
            push_decimal(&mut n, self.numerator);
            let mut d = String::new();
            push_digits(&mut d, self.denominator);
            let mut r = String::new();
            push_frac(&mut r, &n, &d);
            assert(n@ =~= decimal(self.numerator as int));
            assert(d@ =~= decimal(self.denominator as int));
            r
        }
    }
}

impl LatexConvertible for Pair {
    open spec fn latex(&self) -> Seq<char> {
        expr_latex(Expr::Pair(Box::new(*self)))
    }

    fn to_latex(&self) -> (r: String)
        decreases self.left.size() + self.right.size() + 1, 0nat,
    {
        let (lb, rb) = self.requires_brackets(true, false);
        let lt = self.left.to_latex();
        let rt = self.right.to_latex();
        let mut l = String::new();
        if lb {
            push_latex_bracketed(&mut l, &lt);
        } else {
            push_str(&mut l, &lt);
        }
        let mut rs = String::new();
        if rb {
            push_latex_bracketed(&mut rs, &rt);
        } else {
            push_str(&mut rs, &rt);
        }
        let mut r = String::new();
        match self.op {
            Op::Add | Op::Sub => {
                push_str(&mut r, &l);
                push_char(&mut r, ' ');
                push_char(&mut r, self.op.symbol());
                push_char(&mut r, ' ');
                push_str(&mut r, &rs);
            },
            Op::Mul => {
                push_str(&mut r, &l);
                if lb || rb || juxtaposes_exec(&self.right) {
                    push_char(&mut r, ' ');
                } else {
                    r.append(" \\times ");
                }
                push_str(&mut r, &rs);
            },
            Op::Div => push_frac(&mut r, &l, &rs),
            Op::Pow => {
                push_str(&mut r, &l);
                r.append("^{");
                push_str(&mut r, &rs);
                r.append("}");
            },
        }
        assert(r@ =~= expr_latex(Expr::Pair(Box::new(*self))));
        r
    }
}

impl LatexConvertible for Expr {
    open spec fn latex(&self) -> Seq<char> {
        expr_latex(*self)
    }

    fn to_latex(&self) -> (r: String)
        decreases self.size(), 1nat,
    {
        match self {
            Expr::Rational(q) => q.to_latex(),
            Expr::Pair(p) => p.to_latex(),
            Expr::Negative(inner) => {
                let mut r = String::new();
                push_char(&mut r, '-');
                push_str(&mut r, &inner.to_latex());
                r
            },
            Expr::Variable(c) => {
                let mut r = String::new();
                push_char(&mut r, *c);
                r
            },
            Expr::Derivative(inner) => {
                let mut d = String::new();
                push_char(&mut d, 'd');
                let mut dx = String::new();
                push_char(&mut dx, 'd');
                push_char(&mut dx, 'x');
                let mut r = String::new();
                push_frac(&mut r, &d, &dx);
                push_latex_bracketed(&mut r, &inner.to_latex());
                assert(d@ =~= seq!['d']);
                assert(dx@ =~= seq!['d', 'x']);
                r
            },
            Expr::Func(f, inner) => {
                let mut r = f.to_text();
                push_latex_bracketed(&mut r, &inner.to_latex());
                r
            },
        }
    }
}

impl LatexConvertible for Equation {
    open spec fn latex(&self) -> Seq<char> {
        expr_latex(self.lhs) + seq![' ', '=', ' '] + expr_latex(self.rhs)
    }

    fn to_latex(&self) -> (r: String) {
        let mut r = self.lhs.to_latex();
        push_char(&mut r, ' ');
        push_char(&mut r, '=');
        push_char(&mut r, ' ');
        push_str(&mut r, &self.rhs.to_latex());
        assert(r@ =~= self.latex());
        r
    }
}

impl<T: LatexConvertible> LatexConvertible for Answer<T> {
    open spec fn latex(&self) -> Seq<char> {
        seq![self.option] + ") \\ "@ + self.answer.latex()
    }

    fn to_latex(&self) -> (r: String) {
        let mut r = String::new();
        push_char(&mut r, self.option);
        r.append(") \\ ");
        push_str(&mut r, &self.answer.to_latex());
        assert(r@ =~= self.latex());
        r
    }
}

} // verus!
