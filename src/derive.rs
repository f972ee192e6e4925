use vstd::prelude::*;

use crate::{lit, pair, Expr, Func, Op, Pair, Rational};

verus! {

/// A derivative that this library does not take.
#[derive(Clone, Copy, Debug, PartialEq, Eq, Structural)]
pub enum DeriveErr {
    /// A power whose exponent holds the unknown (exponential functions are
    /// not differentiated).
    VariableExponent,
}

/// Both results when both succeed, else the first failure.
pub open spec fn both(
    a: Result<Expr, DeriveErr>,
    b: Result<Expr, DeriveErr>,
) -> Result<(Expr, Expr), DeriveErr> {
    match a {
        Err(e) => Err(e),
        Ok(x) => match b {
            Err(e) => Err(e),
            Ok(y) => Ok((x, y)),
        },
    }
}

/// The symbolic derivative with respect to the unknown. A subtree without
/// unknowns has derivative 0; otherwise the sum, product, quotient, constant
/// power and chain rules apply, and a `Derivative` node is differentiated
/// twice.
pub open spec fn derivative(e: Expr) -> Result<Expr, DeriveErr>
    decreases e.derivative_depth(), e.size(),
{
    if e.unknowns() == 0 {
        Ok(lit(0))
    } else {
        match e {
            Expr::Rational(_) => Ok(lit(0)),
            Expr::Variable(_) => Ok(lit(1)),
            Expr::Negative(inner) => match derivative(*inner) {
                Ok(d) => Ok(Expr::Negative(Box::new(d))),
                Err(x) => Err(x),
            },
            Expr::Pair(p) => {
                let (l, r) = (p.left, p.right);
                match p.op {
                    Op::Add | Op::Sub => match both(derivative(l), derivative(r)) {
                        Ok((dl, dr)) => Ok(pair(dl, p.op, dr)),
                        Err(x) => Err(x),
                    },
                    Op::Mul => match both(derivative(l), derivative(r)) {
                        Ok((dl, dr)) => Ok(
                            pair(pair(dl, Op::Mul, r), Op::Add, pair(l, Op::Mul, dr)),
                        ),
                        Err(x) => Err(x),
                    },
                    Op::Div => match both(derivative(l), derivative(r)) {
                        Ok((dl, dr)) => Ok(
                            pair(
                                pair(pair(dl, Op::Mul, r), Op::Sub, pair(l, Op::Mul, dr)),
                                Op::Div,
                                pair(r, Op::Pow, lit(2)),
                            ),
                        ),
                        Err(x) => Err(x),
                    },
                    Op::Pow => if r.unknowns() == 0 {
                        match derivative(l) {
                            Ok(dl) => Ok(
                                pair(
                                    pair(r, Op::Mul, pair(l, Op::Pow, pair(r, Op::Sub, lit(1)))),
                                    Op::Mul,
                                    dl,
                                ),
                            ),
                            Err(x) => Err(x),
                        }
                    } else {
                        Err(DeriveErr::VariableExponent)
                    },
                }
            },
            Expr::Derivative(inner) => match derivative(*inner) {
                // always true (lemma_derivative_depth); it shows the recursion ends
                Ok(d) => if d.derivative_depth() <= inner.derivative_depth() {
                    derivative(d)
                } else {
                    Ok(lit(0))
                },
                Err(x) => Err(x),
            },
            Expr::Func(f, inner) => {
                let outer = match f {
                    Func::Sine => Expr::Func(Func::Cosine, inner),
                    Func::Cosine => Expr::Negative(Box::new(Expr::Func(Func::Sine, inner))),
                };
                match derivative(*inner) {
                    Ok(d) => Ok(pair(outer, Op::Mul, d)),
                    Err(x) => Err(x),
                }
            },
        }
    }
}

/// Differentiation never nests `Derivative` nodes deeper than its input did.
pub proof fn lemma_derivative_depth(e: Expr)
    ensures
        derivative(e) matches Ok(d) ==> d.derivative_depth() <= e.derivative_depth(),
    decreases e.derivative_depth(), e.size(),
{
    if e.unknowns() != 0 {
        match e {
            Expr::Negative(inner) => lemma_derivative_depth(*inner),
            Expr::Pair(p) => {
                lemma_derivative_depth(p.left);
                lemma_derivative_depth(p.right);
                reveal_with_fuel(Expr::derivative_depth, 5);
            },
            Expr::Derivative(inner) => {
                lemma_derivative_depth(*inner);
                if let Ok(d) = derivative(*inner) {
                    lemma_derivative_depth(d);
                }
            },
            Expr::Func(_, inner) => {
                lemma_derivative_depth(*inner);
                reveal_with_fuel(Expr::derivative_depth, 3);
            },
            _ => {},
        }
    }
}

/// Differentiates `expr` with respect to its unknown.
pub fn derive(expr: &Expr) -> (r: Result<Expr, DeriveErr>)
    ensures
        r == derivative(*expr),
    decreases expr.derivative_depth(), expr.size(),
{
    if expr.unknown_count() == 0 {
        return Ok(Expr::integer(0));
    }
    match expr {
        Expr::Rational(_) => Ok(Expr::integer(0)),
        Expr::Variable(_) => Ok(Expr::integer(1)),
        Expr::Negative(inner) => {
            let d = derive(inner)?;
            Ok(Expr::Negative(Box::new(d)))
        },
        Expr::Pair(p) => match p.op {
            Op::Add | Op::Sub => {
                let dl = derive(&p.left)?;
                let dr = derive(&p.right)?;
                Ok(Expr::binary(dl, p.op, dr))
            },
            Op::Mul => {
                let dl = derive(&p.left)?;
                let dr = derive(&p.right)?;
                Ok(
                    Expr::binary(
                        Expr::binary(dl, Op::Mul, p.right.duplicate()),
                        Op::Add,
                        Expr::binary(p.left.duplicate(), Op::Mul, dr),
                    ),
                )
            },
            Op::Div => {
                let dl = derive(&p.left)?;
                let dr = derive(&p.right)?;
                let numerator = Expr::binary(
                    Expr::binary(dl, Op::Mul, p.right.duplicate()),
                    Op::Sub,
                    Expr::binary(p.left.duplicate(), Op::Mul, dr),
                );
                let denominator = Expr::binary(p.right.duplicate(), Op::Pow, Expr::integer(2));
                Ok(Expr::binary(numerator, Op::Div, denominator))
            },
            Op::Pow => {
                if p.right.unknown_count() != 0 {
                    return Err(DeriveErr::VariableExponent);
                }
                let dl = derive(&p.left)?;
                let reduced = Expr::binary(
                    p.left.duplicate(),
                    Op::Pow,
                    Expr::binary(p.right.duplicate(), Op::Sub, Expr::integer(1)),
                );
                Ok(Expr::binary(Expr::binary(p.right.duplicate(), Op::Mul, reduced), Op::Mul, dl))
            },
        },
        Expr::Derivative(inner) => {
            let d = derive(inner)?;
            proof {
                lemma_derivative_depth(**inner);
            }
            derive(&d)
        },
        Expr::Func(f, inner) => {
            let outer = match f {
                Func::Sine => Expr::Func(Func::Cosine, Box::new(inner.duplicate())),
                Func::Cosine => Expr::Negative(
                    Box::new(Expr::Func(Func::Sine, Box::new(inner.duplicate()))),
                ),
            };
            let d = derive(inner)?;
            Ok(Expr::binary(outer, Op::Mul, d))
        },
    }
}

} // verus!
