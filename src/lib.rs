use vstd::prelude::*;

pub mod derive;
pub mod eval;
pub mod fmt;
pub mod gen;
pub mod rational;
pub mod render;
pub mod simplify;
pub mod solve;

pub use rational::{ArithErr, Rational};

verus! {

/// A binary operator.
#[derive(Clone, Copy, Debug, PartialEq, Eq, Structural)]
pub enum Op {
    Add,
    Sub,
    Mul,
    Div,
    Pow,
}

impl Op {
    pub open spec fn spec_precedence(self) -> u64 {
        match self {
            Op::Add | Op::Sub => 1,
            Op::Mul | Op::Div => 2,
            Op::Pow => 3,
        }
    }

    pub open spec fn spec_is_associative(self) -> bool {
        self is Add || self is Mul
    }

    pub open spec fn spec_inverse(self) -> Op {
        match self {
            Op::Add => Op::Sub,
            Op::Sub => Op::Add,
            Op::Mul => Op::Div,
            Op::Div => Op::Mul,
            Op::Pow => Op::Pow,
        }
    }

    /// Binding strength: Add/Sub 1, Mul/Div 2, Pow 3.
    pub fn precedence(&self) -> (r: u64)
        ensures
            r == self.spec_precedence(),
    {
        match self {
            Op::Add | Op::Sub => 1,
            Op::Mul | Op::Div => 2,
            Op::Pow => 3,
        }
    }

    pub fn is_associative(&self) -> (r: bool)
        ensures
            r == self.spec_is_associative(),
    {
        match self {
            Op::Add | Op::Mul => true,
            Op::Sub | Op::Div | Op::Pow => false,
        }
    }

    /// The operator that undoes this one; Pow is its own inverse, to be read
    /// as taking a root.
    pub fn inverse(&self) -> (r: Op)
        ensures
            r == self.spec_inverse(),
    {
        match self {
            Op::Add => Op::Sub,
            Op::Sub => Op::Add,
            Op::Mul => Op::Div,
            Op::Div => Op::Mul,
            Op::Pow => Op::Pow,
        }
    }
}

/// A trigonometric function, kept symbolic.
#[derive(Clone, Copy, Debug, PartialEq, Eq, Structural)]
pub enum Func {
    Sine,
    Cosine,
}

/// A binary node: `left op right`.
#[derive(Debug)]
pub struct Pair {
    pub left: Expr,
    pub right: Expr,
    pub op: Op,
}

/// An expression tree; each node owns its children.
#[derive(Debug)]
pub enum Expr {
    Rational(Rational),
    Pair(Box<Pair>),
    Negative(Box<Expr>),
    Variable(char),
    /// The derivative of the inner expression, not yet taken.
    Derivative(Box<Expr>),
    Func(Func, Box<Expr>),
}

/// `lhs = rhs`.
#[derive(Debug)]
pub struct Equation {
    pub lhs: Expr,
    pub rhs: Expr,
}

/// An exact value.
#[derive(Clone, Copy, Debug, PartialEq, Eq, Structural)]
pub enum ExactVal {
    Rational(Rational),
}

pub open spec fn pair(l: Expr, op: Op, r: Expr) -> Expr {
    Expr::Pair(Box::new(Pair { left: l, right: r, op }))
}

pub open spec fn lit(n: int) -> Expr {
    Expr::Rational(Rational { numerator: n as i64, denominator: 1 })
}

impl Expr {
    /// The node `left op right`.
    pub fn binary(left: Expr, op: Op, right: Expr) -> (r: Expr)
        ensures
            r == pair(left, op, right),
    {
        Expr::Pair(Box::new(Pair { left, right, op }))
    }

    /// The literal `n / 1`.
    pub fn integer(n: i64) -> (r: Expr)
        ensures
            r == lit(n as int),
    {
        Expr::Rational(Rational::integer(n))
    }

    /// Number of `Variable` occurrences in the tree.
    pub open spec fn unknowns(self) -> nat
        decreases self,
    {
        match self {
            Expr::Rational(_) => 0,
            Expr::Pair(p) => p.left.unknowns() + p.right.unknowns(),
            Expr::Negative(inner) => inner.unknowns(),
            Expr::Variable(_) => 1,
            Expr::Derivative(inner) => inner.unknowns(),
            Expr::Func(_, inner) => inner.unknowns(),
        }
    }

    /// Deepest nesting of `Derivative` nodes.
    pub open spec fn derivative_depth(self) -> nat
        decreases self,
    {
        match self {
            Expr::Rational(_) => 0,
            Expr::Pair(p) => {
                let (l, r) = (p.left.derivative_depth(), p.right.derivative_depth());
                if l >= r {
                    l
                } else {
                    r
                }
            },
            Expr::Negative(inner) => inner.derivative_depth(),
            Expr::Variable(_) => 0,
            Expr::Derivative(inner) => inner.derivative_depth() + 1,
            Expr::Func(_, inner) => inner.derivative_depth(),
        }
    }

    /// Number of nodes.
    pub open spec fn size(self) -> nat
        decreases self,
    {
        match self {
            Expr::Rational(_) => 1,
            Expr::Pair(p) => p.left.size() + p.right.size() + 1,
            Expr::Negative(inner) => inner.size() + 1,
            Expr::Variable(_) => 1,
            Expr::Derivative(inner) => inner.size() + 1,
            Expr::Func(_, inner) => inner.size() + 1,
        }
    }

    pub open spec fn spec_precedence(self) -> u64 {
        match self {
            Expr::Rational(_) => 2,
            Expr::Pair(p) => p.op.spec_precedence(),
            Expr::Negative(_) => 1,
            Expr::Variable(_) => 3,
            Expr::Derivative(_) => 4,
            Expr::Func(_, _) => 4,
        }
    }

    /// Precedence of the node for bracket placement.
    pub fn precedence(&self) -> (r: u64)
        ensures
            r == self.spec_precedence(),
    {
        match self {
            Expr::Rational(_) => 2,
            Expr::Pair(p) => p.op.precedence(),
            Expr::Negative(_) => 1,
            Expr::Variable(_) => 3,
            Expr::Derivative(_) => 4,
            Expr::Func(_, _) => 4,
        }
    }

    /// The number of `Variable` occurrences, saturating at `u64::MAX`.
    pub fn unknown_count(&self) -> (r: u64)
        ensures
            r == if self.unknowns() <= u64::MAX {
                self.unknowns()
            } else {
                u64::MAX as nat
            },
        decreases self,
    {
        match self {
            Expr::Rational(_) => 0,
            Expr::Pair(p) => p.left.unknown_count().saturating_add(p.right.unknown_count()),
            Expr::Negative(inner) => inner.unknown_count(),
            Expr::Variable(_) => 1,
            Expr::Derivative(inner) => inner.unknown_count(),
            Expr::Func(_, inner) => inner.unknown_count(),
        }
    }

    /// A copy of the whole tree.
    pub fn duplicate(&self) -> (r: Expr)
        ensures
            r == *self,
        decreases self,
    {
        match self {
            Expr::Rational(q) => Expr::Rational(*q),
            Expr::Pair(p) => Expr::Pair(
                Box::new(Pair { left: p.left.duplicate(), right: p.right.duplicate(), op: p.op }),
            ),
            Expr::Negative(inner) => Expr::Negative(Box::new(inner.duplicate())),
            Expr::Variable(c) => Expr::Variable(*c),
            Expr::Derivative(inner) => Expr::Derivative(Box::new(inner.duplicate())),
            Expr::Func(f, inner) => Expr::Func(*f, Box::new(inner.duplicate())),
        }
    }

    /// Structural equality of two trees.
    pub fn same(&self, other: &Expr) -> (r: bool)
        ensures
            r == (*self == *other),
        decreases self,
    {
        match (self, other) {
            (Expr::Rational(a), Expr::Rational(b)) => a == b,
            (Expr::Pair(a), Expr::Pair(b)) => {
                a.op == b.op && a.left.same(&b.left) && a.right.same(&b.right)
            },
            (Expr::Negative(a), Expr::Negative(b)) => a.same(b),
            (Expr::Variable(a), Expr::Variable(b)) => a == b,
            (Expr::Derivative(a), Expr::Derivative(b)) => a.same(b),
            (Expr::Func(f, a), Expr::Func(g, b)) => f == g && a.same(b),
            _ => false,
        }
    }
}

impl Clone for Expr {
    fn clone(&self) -> (r: Expr)
        ensures
            r == *self,
    {
        self.duplicate()
    }
}

impl Clone for Pair {
    fn clone(&self) -> (r: Pair)
        ensures
            r == *self,
    {
        Pair { left: self.left.duplicate(), right: self.right.duplicate(), op: self.op }
    }
}

impl From<Rational> for Expr {
    fn from(q: Rational) -> (r: Expr) {
        Expr::Rational(q)
    }
}

impl vstd::std_specs::convert::FromSpecImpl<Rational> for Expr {
    open spec fn obeys_from_spec() -> bool {
        true
    }

    open spec fn from_spec(q: Rational) -> Expr {
        Expr::Rational(q)
    }
}

impl From<Pair> for Expr {
    fn from(p: Pair) -> (r: Expr) {
        Expr::Pair(Box::new(p))
    }
}

impl vstd::std_specs::convert::FromSpecImpl<Pair> for Expr {
    open spec fn obeys_from_spec() -> bool {
        true
    }

    open spec fn from_spec(p: Pair) -> Expr {
        Expr::Pair(Box::new(p))
    }
}

impl PartialEq for Expr {
    fn eq(&self, other: &Expr) -> (r: bool) {
        self.same(other)
    }
}

impl vstd::std_specs::cmp::PartialEqSpecImpl for Expr {
    open spec fn obeys_eq_spec() -> bool {
        true
    }

    open spec fn eq_spec(&self, other: &Expr) -> bool {
        *self == *other
    }
}

impl PartialEq for Pair {
    fn eq(&self, other: &Pair) -> (r: bool) {
        self.op == other.op && self.left.same(&other.left) && self.right.same(&other.right)
    }
}

impl vstd::std_specs::cmp::PartialEqSpecImpl for Pair {
    open spec fn obeys_eq_spec() -> bool {
        true
    }

    open spec fn eq_spec(&self, other: &Pair) -> bool {
        *self == *other
    }
}

impl Pair {
    /// Whether the left and right operands need parentheses, given whether
    /// division is drawn as a stacked fraction and whether powers are written
    /// inline with `^`.
    pub open spec fn spec_requires_brackets(
        self,
        division_as_fraction: bool,
        inline_powers: bool,
    ) -> (bool, bool) {
        let prec = self.op.spec_precedence();
        let lprec = self.left.spec_precedence();
        let rprec = self.right.spec_precedence();
        let fraction_bar_delimits = |e: Expr|
            division_as_fraction && (e is Rational || (e matches Expr::Pair(p) && p.op is Div));
        if self.op is Div && division_as_fraction {
            (false, false)
        } else {
            let left = if self.op is Pow && (self.left matches Expr::Pair(p) && (p.op is Pow
                || p.op is Div)) {
                true
            } else {
                lprec < prec && !fraction_bar_delimits(self.left)
            };
            let right = if self.op is Pow && !inline_powers {
                false
            } else {
                (rprec < prec || (rprec == prec && !self.op.spec_is_associative()))
                    && !fraction_bar_delimits(self.right)
            };
            (left, right)
        }
    }

    pub fn new(left: Expr, op: Op, right: Expr) -> (r: Pair)
        ensures
            r == (Pair { left, right, op }),
    {
        Pair { left, right, op }
    }

    pub fn requires_brackets(&self, division_as_fraction: bool, inline_powers: bool) -> (r: (
        bool,
        bool,
    ))
        ensures
            r == self.spec_requires_brackets(division_as_fraction, inline_powers),
    {
        if self.op == Op::Div && division_as_fraction {
            return (false, false);
        }
        let lprecedence = self.left.precedence();
        let precedence = self.op.precedence();
        let rprecedence = self.right.precedence();

        let mut lrequires = lprecedence < precedence;
        let mut rrequires = rprecedence < precedence || (rprecedence == precedence
            && !self.op.is_associative());

        if division_as_fraction {
            match &self.left {
                Expr::Rational(_) => lrequires = false,
                Expr::Pair(p) => {
                    if p.op == Op::Div {
                        lrequires = false;
                    }
                },
                _ => {},
            }
            match &self.right {
                Expr::Rational(_) => rrequires = false,
                Expr::Pair(p) => {
                    if p.op == Op::Div {
                        rrequires = false;
                    }
                },
                _ => {},
            }
        }
        if self.op == Op::Pow && !inline_powers {
            rrequires = false;
        }
        if self.op == Op::Pow {
            if let Expr::Pair(p) = &self.left {
                if p.op == Op::Pow || p.op == Op::Div {
                    lrequires = true;
                }
            }
        }
        (lrequires, rrequires)
    }
}

/// In plain-text form (no stacked fractions, inline powers), a sum used as
/// the left factor of a product is bracketed, and a product used as the
/// right term of a sum is not; neither is the sum's left term.
pub proof fn law_sum_times_needs_brackets(a: Expr, b: Expr, c: Expr)
    ensures
        (Pair { left: pair(a, Op::Add, b), right: c, op: Op::Mul }).spec_requires_brackets(
            false,
            true,
        ).0,
        (Pair { left: a, right: pair(b, Op::Mul, c), op: Op::Add }).spec_requires_brackets(
            false,
            true,
        ) == (false, false),
{
}

} // verus!
