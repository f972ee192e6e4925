use vstd::prelude::*;
use vstd::string::StringExecFns;

use crate::{Equation, Expr, Func, Op, Pair, Rational};

verus! {

pub open spec fn digit_char(d: nat) -> char {
    if d == 0 {
        '0'
    } else if d == 1 {
        '1'
    } else if d == 2 {
        '2'
    } else if d == 3 {
        '3'
    } else if d == 4 {
        '4'
    } else if d == 5 {
        '5'
    } else if d == 6 {
        '6'
    } else if d == 7 {
        '7'
    } else if d == 8 {
        '8'
    } else {
        '9'
    }
}

/// Decimal digits of `n`, most significant first.
pub open spec fn digits(n: nat) -> Seq<char>
    decreases n,
{
    if n < 10 {
        seq![digit_char(n)]
    } else {
        digits(n / 10).push(digit_char(n % 10))
    }
}

pub open spec fn decimal(n: int) -> Seq<char> {
    if n < 0 {
        seq!['-'] + digits((-n) as nat)
    } else {
        digits(n as nat)
    }
}

pub open spec fn bracketed(s: Seq<char>) -> Seq<char> {
    seq!['('] + s + seq![')']
}

/// `n`, or `n / d` where the denominator is not one.
pub open spec fn rational_text(q: Rational) -> Seq<char> {
    if q.denominator == 1 {
        decimal(q.numerator as int)
    } else {
        decimal(q.numerator as int) + seq![' ', '/', ' '] + decimal(q.denominator as int)
    }
}

pub open spec fn op_symbol(op: Op) -> char {
    match op {
        Op::Add => '+',
        Op::Sub => '-',
        Op::Mul => '*',
        Op::Div => '/',
        Op::Pow => '^',
    }
}

pub open spec fn func_name(f: Func) -> Seq<char> {
    match f {
        Func::Sine => seq!['s', 'i', 'n'],
        Func::Cosine => seq!['c', 'o', 's'],
    }
}

/// The plain-text form: operands bracketed as `requires_brackets(false,
/// true)` says, negation as `-inner`, a derivative as `ddx(inner)`.
pub open spec fn text(e: Expr) -> Seq<char>
    decreases e,
{
    match e {
        Expr::Rational(q) => rational_text(q),
        Expr::Pair(p) => {
            let (lb, rb) = p.spec_requires_brackets(false, true);
            let l = if lb {
                bracketed(text(p.left))
            } else {
                text(p.left)
            };
            let r = if rb {
                bracketed(text(p.right))
            } else {
                text(p.right)
            };
            l + seq![' ', op_symbol(p.op), ' '] + r
        },
        Expr::Negative(inner) => seq!['-'] + text(*inner),
        Expr::Variable(c) => seq![c],
        Expr::Derivative(inner) => seq!['d', 'd', 'x'] + bracketed(text(*inner)),
        Expr::Func(f, inner) => func_name(f) + bracketed(text(*inner)),
    }
}

pub open spec fn equation_text(e: Equation) -> Seq<char> {
    text(e.lhs) + seq![' ', '=', ' '] + text(e.rhs)
}

/// Relies on `String::push`: the character is appended at the end.
#[verifier::external_body]
pub(crate) fn push_char(s: &mut String, c: char)
    ensures
        final(s)@ == old(s)@.push(c),
{
    s.push(c)
}

pub(crate) fn push_str(s: &mut String, t: &String)
    ensures
        final(s)@ == old(s)@ + t@,
{
    s.append(t.as_str());
}

pub(crate) fn push_digits(s: &mut String, n: u64)
    ensures
        final(s)@ == old(s)@ + digits(n as nat),
    decreases n,
{
    if n >= 10 {
        push_digits(s, n / 10);
    }
    let d = n % 10;
    let c = if d == 0 {
        '0'
    } else if d == 1 {
        '1'
    } else if d == 2 {
        '2'
    } else if d == 3 {
        '3'
    } else if d == 4 {
        '4'
    } else if d == 5 {
        '5'
    } else if d == 6 {
        '6'
    } else if d == 7 {
        '7'
    } else if d == 8 {
        '8'
    } else {
        '9'
    };
    push_char(s, c);
    assert(final(s)@ =~= old(s)@ + digits(n as nat));
}

pub(crate) fn push_decimal(s: &mut String, n: i64)
    ensures
        final(s)@ == old(s)@ + decimal(n as int),
{
    if n < 0 {
        push_char(s, '-');
        let m: u64 = if n == i64::MIN {
            0x8000_0000_0000_0000u64
        } else {
            (-n) as u64
        };
        push_digits(s, m);
        assert(final(s)@ =~= old(s)@ + decimal(n as int));
    } else {
        push_digits(s, n as u64);
    }
}

/// `s` in round brackets.
pub fn bracketize(s: &str) -> (r: String)
    ensures
        r@ == bracketed(s@),
{
    let mut r = String::new();
    push_char(&mut r, '(');
    r.append(s);
    push_char(&mut r, ')');
    assert(r@ =~= bracketed(s@));
    r
}

fn push_bracketed(s: &mut String, t: &String)
    ensures
        final(s)@ == old(s)@ + bracketed(t@),
{
    push_char(s, '(');
    push_str(s, t);
    push_char(s, ')');
    assert(final(s)@ =~= old(s)@ + bracketed(t@));
}

impl Rational {
    pub fn to_text(&self) -> (r: String)
        ensures
            r@ == rational_text(*self),
    {
        let mut r = String::new();
        push_decimal(&mut r, self.numerator);
        if self.denominator != 1 {
            push_char(&mut r, ' ');
            push_char(&mut r, '/');
            push_char(&mut r, ' ');
            push_digits(&mut r, self.denominator);
        }
        assert(r@ =~= rational_text(*self));
        r
    }
}

impl Op {
    pub fn symbol(&self) -> (r: char)
        ensures
            r == op_symbol(*self),
    {
        match self {
            Op::Add => '+',
            Op::Sub => '-',
            Op::Mul => '*',
            Op::Div => '/',
            Op::Pow => '^',
        }
    }
}

impl Func {
    pub fn to_text(&self) -> (r: String)
        ensures
            r@ == func_name(*self),
    {
        let mut r = String::new();
        match self {
            Func::Sine => {
                push_char(&mut r, 's');
                push_char(&mut r, 'i');
                push_char(&mut r, 'n');
            },
            Func::Cosine => {
                push_char(&mut r, 'c');
                push_char(&mut r, 'o');
                push_char(&mut r, 's');
            },
        }
        assert(r@ =~= func_name(*self));
        r
    }
}

impl Pair {
    pub fn to_text(&self) -> (r: String)
        ensures
            r@ == text(Expr::Pair(Box::new(*self))),
        decreases self.left.size() + self.right.size() + 1, 0nat,
    {
        let (lb, rb) = self.requires_brackets(false, true);
        let l = self.left.to_text();
        let rt = self.right.to_text();
        let mut r = String::new();
        if lb {
            push_bracketed(&mut r, &l);
        } else {
            push_str(&mut r, &l);
        }
        push_char(&mut r, ' ');
        push_char(&mut r, self.op.symbol());
        push_char(&mut r, ' ');
        if rb {
            push_bracketed(&mut r, &rt);
        } else {
            push_str(&mut r, &rt);
        }
        assert(r@ =~= text(Expr::Pair(Box::new(*self))));
        r
    }
}

impl Expr {
    /// The plain-text form of the tree.
    pub fn to_text(&self) -> (r: String)
        ensures
            r@ == text(*self),
        decreases self.size(), 1nat,
    {
        match self {
            Expr::Rational(q) => q.to_text(),
            Expr::Pair(p) => p.to_text(),
            Expr::Negative(inner) => {
                let mut r = String::new();
                push_char(&mut r, '-');
                push_str(&mut r, &inner.to_text());
                r
            },
            Expr::Variable(c) => {
                let mut r = String::new();
                push_char(&mut r, *c);
                r
            },
            Expr::Derivative(inner) => {
                let mut r = String::new();
                push_char(&mut r, 'd');
                push_char(&mut r, 'd');
                push_char(&mut r, 'x');
                push_bracketed(&mut r, &inner.to_text());
                assert(r@ =~= text(*self));
                r
            },
            Expr::Func(f, inner) => {
                let mut r = f.to_text();
                push_bracketed(&mut r, &inner.to_text());
                r
            },
        }
    }
}

impl Equation {
    /// `lhs = rhs` in plain text.
    pub fn to_text(&self) -> (r: String)
        ensures
            r@ == equation_text(*self),
    {
        let mut r = self.lhs.to_text();
        push_char(&mut r, ' ');
        push_char(&mut r, '=');
        push_char(&mut r, ' ');
        push_str(&mut r, &self.rhs.to_text());
        assert(r@ =~= equation_text(*self));
        r
    }
}

} // verus!
