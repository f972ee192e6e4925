use vstd::prelude::*;

use crate::Op;

verus! {

/// An exact fraction. The sign is carried by the numerator; a well-formed
/// value has a positive denominator.
#[derive(Clone, Copy, Debug, PartialEq, Eq, Structural)]
pub struct Rational {
    pub numerator: i64,
    pub denominator: u64,
}

/// Why an exact arithmetic operation has no representable result.
#[derive(Clone, Copy, Debug, PartialEq, Eq, Structural)]
pub enum ArithErr {
    /// The reduced result does not fit an `i64` numerator and `u64` denominator.
    Overflow,
    /// A division by a value whose numerator is zero.
    DivisionByZero,
    /// A power whose exponent is not an integer.
    FractionalExponent,
}

pub open spec fn magnitude(n: int) -> nat {
    if n < 0 {
        (-n) as nat
    } else {
        n as nat
    }
}

/// Greatest common divisor, by Euclid's recurrence.
pub open spec fn gcd(a: nat, b: nat) -> nat
    decreases b,
{
    if b == 0 {
        a
    } else {
        gcd(b, a % b)
    }
}

pub open spec fn fits(n: int, d: int) -> bool {
    i64::MIN <= n <= i64::MAX && 0 <= d <= u64::MAX
}

/// The reduced form of `n / d`: both parts divided by their gcd, the sign on
/// the numerator, zero as `0/1`; an overflow where that form does not fit.
pub open spec fn normalize(n: int, d: int) -> Result<Rational, ArithErr> {
    if n == 0 {
        Ok(Rational { numerator: 0, denominator: 1 })
    } else {
        let g = gcd(magnitude(n), d as nat);
        let m = magnitude(n) / g;
        let num = if n < 0 { -m } else { m as int };
        let den = d / (g as int);
        if fits(num, den) {
            Ok(Rational { numerator: num as i64, denominator: den as u64 })
        } else {
            Err(ArithErr::Overflow)
        }
    }
}

/// Order by value, by cross-multiplication; two fractions of one value
/// written differently are ordered by numerator, then denominator, so that
/// `Equal` holds exactly when they are the same fraction.
pub open spec fn rat_cmp(a: Rational, b: Rational) -> core::cmp::Ordering {
    let x = a.numerator * b.denominator;
    let y = b.numerator * a.denominator;
    if x < y {
        core::cmp::Ordering::Less
    } else if x > y {
        core::cmp::Ordering::Greater
    } else if a.numerator < b.numerator {
        core::cmp::Ordering::Less
    } else if a.numerator > b.numerator {
        core::cmp::Ordering::Greater
    } else if a.denominator < b.denominator {
        core::cmp::Ordering::Less
    } else if a.denominator > b.denominator {
        core::cmp::Ordering::Greater
    } else {
        core::cmp::Ordering::Equal
    }
}

impl PartialOrd for Rational {
    fn partial_cmp(&self, other: &Rational) -> (r: Option<core::cmp::Ordering>) {
        assert(-0x8000_0000_0000_0000_0000_0000_0000_0000 < self.numerator * other.denominator
            < 0x8000_0000_0000_0000_0000_0000_0000_0000) by (nonlinear_arith)
            requires
                -0x8000_0000_0000_0000 <= self.numerator < 0x8000_0000_0000_0000,
                0 <= other.denominator < 0x1_0000_0000_0000_0000,
        ;
        assert(-0x8000_0000_0000_0000_0000_0000_0000_0000 < other.numerator * self.denominator
            < 0x8000_0000_0000_0000_0000_0000_0000_0000) by (nonlinear_arith)
            requires
                -0x8000_0000_0000_0000 <= other.numerator < 0x8000_0000_0000_0000,
                0 <= self.denominator < 0x1_0000_0000_0000_0000,
        ;
        let x = (self.numerator as i128) * (other.denominator as i128);
        let y = (other.numerator as i128) * (self.denominator as i128);
        let o = if x < y {
            core::cmp::Ordering::Less
        } else if x > y {
            core::cmp::Ordering::Greater
        } else if self.numerator < other.numerator {
            core::cmp::Ordering::Less
        } else if self.numerator > other.numerator {
            core::cmp::Ordering::Greater
        } else if self.denominator < other.denominator {
            core::cmp::Ordering::Less
        } else if self.denominator > other.denominator {
            core::cmp::Ordering::Greater
        } else {
            core::cmp::Ordering::Equal
        };
        Some(o)
    }
}

impl vstd::std_specs::cmp::PartialOrdSpecImpl for Rational {
    open spec fn obeys_partial_cmp_spec() -> bool {
        true
    }

    open spec fn partial_cmp_spec(&self, other: &Rational) -> Option<core::cmp::Ordering> {
        Some(rat_cmp(*self, *other))
    }
}

/// The value of a successful operation (zero for a failed one).
pub open spec fn ok_value(r: Result<Rational, ArithErr>) -> Rational {
    match r {
        Ok(v) => v,
        Err(_) => Rational { numerator: 0, denominator: 1 },
    }
}

/// Sum over the least common denominator `a.d / g * b.d`, `g = gcd(a.d, b.d)`.
pub open spec fn rat_add(a: Rational, b: Rational) -> Result<Rational, ArithErr> {
    let (ad, bd) = (a.denominator as int, b.denominator as int);
    let g = gcd(ad as nat, bd as nat) as int;
    normalize(a.numerator * (bd / g) + b.numerator * (ad / g), ad / g * bd)
}

/// Difference over the least common denominator.
pub open spec fn rat_sub(a: Rational, b: Rational) -> Result<Rational, ArithErr> {
    let (ad, bd) = (a.denominator as int, b.denominator as int);
    let g = gcd(ad as nat, bd as nat) as int;
    normalize(a.numerator * (bd / g) - b.numerator * (ad / g), ad / g * bd)
}

pub open spec fn rat_mul(a: Rational, b: Rational) -> Result<Rational, ArithErr> {
    normalize(a.numerator * b.numerator, a.denominator * b.denominator as int)
}

pub open spec fn rat_div(a: Rational, b: Rational) -> Result<Rational, ArithErr> {
    if b.numerator == 0 {
        Err(ArithErr::DivisionByZero)
    } else if b.numerator < 0 {
        normalize(
            -(a.numerator * b.denominator as int),
            a.denominator * magnitude(b.numerator as int),
        )
    } else {
        normalize(a.numerator * b.denominator as int, a.denominator * b.numerator as int)
    }
}

pub open spec fn rat_neg(a: Rational) -> Result<Rational, ArithErr> {
    if a.numerator == i64::MIN {
        Err(ArithErr::Overflow)
    } else {
        Ok(Rational { numerator: (-a.numerator) as i64, denominator: a.denominator })
    }
}

/// `a` multiplied by itself `k` times, starting from one.
pub open spec fn rat_pow_nat(a: Rational, k: nat) -> Result<Rational, ArithErr>
    decreases k,
{
    if k == 0 {
        Ok(Rational { numerator: 1, denominator: 1 })
    } else {
        match rat_pow_nat(a, (k - 1) as nat) {
            Ok(p) => rat_mul(p, a),
            Err(e) => Err(e),
        }
    }
}

/// Integer powers only; a negative exponent takes the reciprocal of the
/// positive power.
pub open spec fn rat_pow(a: Rational, e: Rational) -> Result<Rational, ArithErr> {
    if e.denominator != 1 {
        Err(ArithErr::FractionalExponent)
    } else if e.numerator >= 0 {
        rat_pow_nat(a, e.numerator as nat)
    } else {
        match rat_pow_nat(a, magnitude(e.numerator as int)) {
            Ok(p) => rat_div(Rational { numerator: 1, denominator: 1 }, p),
            Err(err) => Err(err),
        }
    }
}

impl Rational {
    pub open spec fn wf(self) -> bool {
        self.denominator > 0
    }

    /// The value in reduced form (itself where it has no such form).
    pub open spec fn reduced(self) -> Rational {
        match normalize(self.numerator as int, self.denominator as int) {
            Ok(r) => r,
            Err(_) => self,
        }
    }

    /// Denominator positive, and no common factor above one.
    pub open spec fn is_reduced(self) -> bool {
        self.denominator > 0 && gcd(magnitude(self.numerator as int), self.denominator as nat)
            == 1
    }
}

proof fn lemma_gcd_pos(a: nat, b: nat)
    requires
        a > 0 || b > 0,
    ensures
        gcd(a, b) > 0,
    decreases b,
{
    if b > 0 {
        lemma_gcd_pos(b, a % b);
    }
}

proof fn lemma_multiple_mod(k: int, s: int)
    requires
        k > 0,
    ensures
        (k * s) % k == 0,
{
    vstd::arithmetic::div_mod::lemma_mod_multiples_basic(s, k);
    vstd::arithmetic::mul::lemma_mul_is_commutative(k, s);
}

/// What `x % k == 0` means, as a product.
proof fn lemma_mod_zero_factor(x: int, k: int)
    requires
        k > 0,
        x % k == 0,
    ensures
        x == k * (x / k),
{
    vstd::arithmetic::div_mod::lemma_fundamental_div_mod(x, k);
}

/// Every common divisor of `a` and `b` divides `a - q * b`.
proof fn lemma_divides_combination(a: int, b: int, q: int, k: int)
    requires
        k > 0,
        a % k == 0,
        b % k == 0,
    ensures
        (a - q * b) % k == 0,
{
    lemma_mod_zero_factor(a, k);
    lemma_mod_zero_factor(b, k);
    let s = a / k;
    let t = b / k;
    assert(a - q * b == k * (s - q * t)) by (nonlinear_arith)
        requires
            a == k * s,
            b == k * t,
    ;
    lemma_multiple_mod(k, s - q * t);
}

/// The gcd divides both arguments.
proof fn lemma_gcd_divides(a: nat, b: nat)
    requires
        a > 0 || b > 0,
    ensures
        gcd(a, b) > 0,
        a % gcd(a, b) == 0,
        b % gcd(a, b) == 0,
    decreases b,
{
    lemma_gcd_pos(a, b);
    if b == 0 {
        vstd::arithmetic::div_mod::lemma_mod_self_0(a as int);
        assert(0nat % a == 0) by (nonlinear_arith)
            requires
                a > 0,
        ;
    } else {
        let r = a % b;
        lemma_gcd_divides(b, r);
        let g = gcd(b, r);
        vstd::arithmetic::div_mod::lemma_fundamental_div_mod(a as int, b as int);
        // a == b * (a / b) + r, so a = r - (-(a / b)) * b
        lemma_divides_combination(r as int, b as int, -(a as int / b as int), g as int);
        assert(r as int - (-(a as int / b as int)) * b as int == a as int) by (nonlinear_arith)
            requires
                a as int == b as int * (a as int / b as int) + r as int,
        ;
    }
}

/// Every common divisor divides the gcd.
proof fn lemma_gcd_greatest(a: nat, b: nat, k: int)
    requires
        k > 0,
        a as int % k == 0,
        b as int % k == 0,
    ensures
        gcd(a, b) as int % k == 0,
    decreases b,
{
    if b > 0 {
        let r = a % b;
        vstd::arithmetic::div_mod::lemma_fundamental_div_mod(a as int, b as int);
        lemma_divides_combination(a as int, b as int, a as int / b as int, k);
        assert(a as int - (a as int / b as int) * b as int == r as int) by (nonlinear_arith)
            requires
                a as int == b as int * (a as int / b as int) + r as int,
        ;
        lemma_gcd_greatest(b, r, k);
    }
}

/// The parts that `normalize` computes for a nonzero `n`: a positive
/// denominator, no common factor, and the value `n / d`.
proof fn lemma_normalize_parts(n: int, d: int)
    requires
        d > 0,
        n != 0,
    ensures
        ({
            let g = gcd(magnitude(n), d as nat);
            let m = magnitude(n) / g;
            let num = if n < 0 { -m } else { m as int };
            let den = d / (g as int);
            &&& den > 0
            &&& gcd(m, den as nat) == 1
            &&& magnitude(num) == m
            &&& num * d == n * den
        }),
{
    let a = magnitude(n);
    let g = gcd(a, d as nat);
    lemma_gcd_divides(a, d as nat);
    let m = a / g;
    let dd = d / (g as int);
    lemma_mod_zero_factor(a as int, g as int);
    lemma_mod_zero_factor(d, g as int);
    assert(m > 0 && dd > 0) by (nonlinear_arith)
        requires
            a > 0,
            d > 0,
            g > 0,
            a == g * m,
            d == g * dd,
    ;
    let g2 = gcd(m, dd as nat);
    lemma_gcd_divides(m, dd as nat);
    lemma_mod_zero_factor(m as int, g2 as int);
    lemma_mod_zero_factor(dd as int, g2 as int);
    let k = g * g2;
    assert(k > 0) by (nonlinear_arith)
        requires
            g > 0,
            g2 > 0,
            k == g * g2,
    ;
    assert(a as int == k * (m as int / g2 as int)) by (nonlinear_arith)
        requires
            a == g * m,
            m == g2 * (m as int / g2 as int),
            k == g * g2,
    ;
    assert(d == k * (dd as int / g2 as int)) by (nonlinear_arith)
        requires
            d == g * dd,
            dd == g2 * (dd as int / g2 as int),
            k == g * g2,
    ;
    lemma_multiple_mod(k as int, m as int / g2 as int);
    lemma_multiple_mod(k as int, dd as int / g2 as int);
    lemma_gcd_greatest(a, d as nat, k as int);
    lemma_mod_zero_factor(g as int, k as int);
    assert(g2 == 1) by (nonlinear_arith)
        requires
            g > 0,
            g2 > 0,
            k == g * g2,
            g == k * (g as int / k as int),
    ;
    let num = if n < 0 { -m } else { m as int };
    assert(num * d == n * dd) by (nonlinear_arith)
        requires
            a == g * m,
            d == g * dd,
            a == (if n < 0 { -n } else { n }),
            num == (if n < 0 { -m } else { m as int }),
    ;
}

/// Results of `normalize` are reduced.
pub proof fn lemma_normalize_reduced(n: int, d: int)
    requires
        d > 0,
    ensures
        normalize(n, d) matches Ok(q) ==> q.is_reduced(),
{
    if n == 0 {
        assert(gcd(0, 1) == 1) by {
            assert(gcd(1, 0) == 1);
        }
    } else {
        lemma_normalize_parts(n, d);
    }
}

/// A reduced value is its own reduced form.
pub proof fn lemma_reduced_fixed(q: Rational)
    requires
        q.is_reduced(),
    ensures
        normalize(q.numerator as int, q.denominator as int) == Ok::<Rational, ArithErr>(q),
        q.reduced() == q,
{
    if q.numerator == 0 {
        assert(gcd(0, q.denominator as nat) == gcd(q.denominator as nat, 0));
    } else {
        let a = magnitude(q.numerator as int);
        assert(a / 1 == a);
        assert(q.denominator as int / 1 == q.denominator as int);
    }
}

/// The reduced form of `n / d` has the value `n / d`.
pub proof fn lemma_normalize_value(n: int, d: int)
    requires
        d > 0,
    ensures
        normalize(n, d) matches Ok(q) ==> q.numerator * d == n * q.denominator,
{
    if n != 0 {
        lemma_normalize_parts(n, d);
    }
}

/// Bezout coefficients: `s * a + t * b == gcd(a, b)`.
proof fn lemma_bezout(a: nat, b: nat) -> (st: (int, int))
    ensures
        st.0 * a + st.1 * b == gcd(a, b),
    decreases b,
{
    if b == 0 {
        (1, 0)
    } else {
        let r = a % b;
        let (s, t) = lemma_bezout(b, r);
        let q = a as int / b as int;
        vstd::arithmetic::div_mod::lemma_fundamental_div_mod(a as int, b as int);
        assert(t * a + (s - t * q) * b == gcd(a, b)) by (nonlinear_arith)
            requires
                s * b + t * r == gcd(b, r),
                a == b * q + r,
                gcd(a, b) == gcd(b, r),
        ;
        (t, s - t * q)
    }
}

/// Euclid's lemma: a divisor of `a * c` with no factor in common with `a`
/// divides `c`.
proof fn lemma_euclid(a: int, b: int, c: int)
    requires
        b > 0,
        gcd(magnitude(a), b as nat) == 1,
        (a * c) % b == 0,
    ensures
        c % b == 0,
{
    let (s, t) = lemma_bezout(magnitude(a), b as nat);
    lemma_mod_zero_factor(a * c, b);
    let k = (a * c) / b;
    let sign: int = if a < 0 { -1 } else { 1 };
    assert(c == b * (s * sign * k + t * c)) by (nonlinear_arith)
        requires
            s * magnitude(a) + t * b == 1,
            a * c == b * k,
            magnitude(a) == sign * a,
    ;
    lemma_multiple_mod(b, s * sign * k + t * c);
}

/// Two reduced fractions with the same value are the same fraction.
proof fn lemma_reduced_unique(p: int, q: int, p2: int, q2: int)
    requires
        q > 0,
        q2 > 0,
        gcd(magnitude(p), q as nat) == 1,
        gcd(magnitude(p2), q2 as nat) == 1,
        p * q2 == p2 * q,
    ensures
        p == p2,
        q == q2,
{
    lemma_multiple_mod(q, p2);
    assert(q * p2 == p * q2) by (nonlinear_arith)
        requires
            p * q2 == p2 * q,
    ;
    lemma_euclid(p, q, q2);
    lemma_multiple_mod(q2, p);
    assert(q2 * p == p2 * q) by (nonlinear_arith)
        requires
            p * q2 == p2 * q,
    ;
    lemma_euclid(p2, q2, q);
    lemma_mod_zero_factor(q2, q);
    lemma_mod_zero_factor(q, q2);
    assert(q == q2) by (nonlinear_arith)
        requires
            q > 0,
            q2 > 0,
            q2 == q * (q2 / q),
            q == q2 * (q / q2),
    ;
    assert(p == p2) by (nonlinear_arith)
        requires
            q > 0,
            q == q2,
            p * q2 == p2 * q,
    ;
}

/// `normalize(n, d)` is the reduced fraction `c` of value `n / d`, whenever
/// such a fraction fits.
pub proof fn lemma_normalize_exact(n: int, d: int, c: Rational)
    requires
        d > 0,
        c.is_reduced(),
        c.numerator * d == n * c.denominator,
    ensures
        normalize(n, d) == Ok::<Rational, ArithErr>(c),
{
    let (cn, cd) = (c.numerator as int, c.denominator as int);
    if n == 0 {
        assert(cn == 0) by (nonlinear_arith)
            requires
                cn * d == n * cd,
                n == 0,
                d > 0,
        ;
        assert(gcd(0, cd as nat) == gcd(cd as nat, 0));
    } else {
        lemma_normalize_parts(n, d);
        let g = gcd(magnitude(n), d as nat);
        let m = magnitude(n) / g;
        let num = if n < 0 { -m } else { m as int };
        let den = d / (g as int);
        assert(num * cd == cn * den) by (nonlinear_arith)
            requires
                num * d == n * den,
                cn * d == n * cd,
                d > 0,
        ;
        lemma_reduced_unique(num, den, cn, cd);
    }
}

/// The exact results: a sum, difference, product or quotient that does not
/// fail is the reduced form of the exact value of the operation.
pub proof fn law_exact_arithmetic(a: Rational, b: Rational)
    requires
        a.wf(),
        b.wf(),
    ensures
        rat_add(a, b) matches Ok(c) ==> c.is_reduced() && c.numerator * (a.denominator
            * b.denominator) == (a.numerator * b.denominator + b.numerator * a.denominator)
            * c.denominator,
        rat_sub(a, b) matches Ok(c) ==> c.is_reduced() && c.numerator * (a.denominator
            * b.denominator) == (a.numerator * b.denominator - b.numerator * a.denominator)
            * c.denominator,
        rat_mul(a, b) matches Ok(c) ==> c.is_reduced() && c.numerator * (a.denominator
            * b.denominator) == (a.numerator * b.numerator) * c.denominator,
        rat_div(a, b) matches Ok(c) ==> c.is_reduced() && c.numerator * (a.denominator
            * b.numerator) == (a.numerator * b.denominator) * c.denominator,
{
    let (an, bn) = (a.numerator as int, b.numerator as int);
    let (ad, bd) = (a.denominator as int, b.denominator as int);
    let g = gcd(ad as nat, bd as nat) as int;
    lemma_gcd_divides(ad as nat, bd as nat);
    lemma_mod_zero_factor(ad, g);
    lemma_mod_zero_factor(bd, g);
    let l = ad / g * bd;
    assert(l > 0) by (nonlinear_arith)
        requires
            ad == g * (ad / g),
            ad > 0,
            bd > 0,
            g > 0,
            l == ad / g * bd,
    ;
    assert(ad * bd > 0) by (nonlinear_arith)
        requires
            ad > 0,
            bd > 0,
    ;
    let s = an * (bd / g) + bn * (ad / g);
    let t = an * (bd / g) - bn * (ad / g);
    lemma_normalize_value(s, l);
    lemma_normalize_reduced(s, l);
    lemma_normalize_value(t, l);
    lemma_normalize_reduced(t, l);
    if let Ok(c) = rat_add(a, b) {
        let (cn, cd) = (c.numerator as int, c.denominator as int);
        let (x, y) = (ad / g, bd / g);
        assert(ad * bd == g * l) by (nonlinear_arith)
            requires
                l == x * bd,
                ad == g * x,
        ;
        assert(an * bd + bn * ad == g * s) by (nonlinear_arith)
            requires
                s == an * y + bn * x,
                ad == g * x,
                bd == g * y,
        ;
        assert(cn * (g * l) == (g * s) * cd) by (nonlinear_arith)
            requires
                cn * l == s * cd,
        ;
    }
    if let Ok(c) = rat_sub(a, b) {
        let (cn, cd) = (c.numerator as int, c.denominator as int);
        let (x, y) = (ad / g, bd / g);
        assert(ad * bd == g * l) by (nonlinear_arith)
            requires
                l == x * bd,
                ad == g * x,
        ;
        assert(an * bd - bn * ad == g * t) by (nonlinear_arith)
            requires
                t == an * y - bn * x,
                ad == g * x,
                bd == g * y,
        ;
        assert(cn * (g * l) == (g * t) * cd) by (nonlinear_arith)
            requires
                cn * l == t * cd,
        ;
    }
    lemma_normalize_value(an * bn, ad * bd);
    lemma_normalize_reduced(an * bn, ad * bd);
    if bn != 0 {
        let m = magnitude(bn);
        assert(ad * m > 0) by (nonlinear_arith)
            requires
                ad > 0,
                m > 0,
        ;
        if bn < 0 {
            lemma_normalize_value(-(an * bd), ad * m);
            lemma_normalize_reduced(-(an * bd), ad * m);
            if let Ok(c) = rat_div(a, b) {
                let (cn, cd) = (c.numerator as int, c.denominator as int);
                assert(cn * (ad * bn) == (an * bd) * cd) by (nonlinear_arith)
                    requires
                        cn * (ad * m) == -(an * bd) * cd,
                        m == -bn,
                ;
            }
        } else {
            lemma_normalize_value(an * bd, ad * bn);
            lemma_normalize_reduced(an * bd, ad * bn);
        }
    }
}

/// A zero numerator reduces to `0/1`, whatever the denominator.
pub proof fn law_zero_reduces(d: u64)
    ensures
        (Rational { numerator: 0, denominator: d }).reduced() == (Rational {
            numerator: 0,
            denominator: 1,
        }),
{
}

/// Reducing a reduced value changes nothing: reducing twice gives what
/// reducing once gives.
pub proof fn law_reduction_idempotent(q: Rational)
    requires
        q.denominator > 0 || q.numerator == 0,
    ensures
        q.reduced().reduced() == q.reduced(),
{
    if q.numerator == 0 {
        lemma_normalize_reduced(0, 1);
        lemma_reduced_fixed(Rational { numerator: 0, denominator: 1 });
    } else {
        lemma_normalize_fits(q.numerator as int, q.denominator as int);
        lemma_normalize_reduced(q.numerator as int, q.denominator as int);
        lemma_reduced_fixed(q.reduced());
    }
}

/// `normalize` never overflows on a value that already fits.
pub proof fn lemma_normalize_fits(n: int, d: int)
    requires
        fits(n, d),
        d > 0,
    ensures
        normalize(n, d) is Ok,
{
    if n != 0 {
        let a = magnitude(n);
        let g = gcd(a, d as nat);
        lemma_gcd_pos(a, d as nat);
        assert(a / g <= a && d / (g as int) <= d) by (nonlinear_arith)
            requires
                g > 0,
                a >= 0,
                d > 0,
        ;
    }
}

/// The largest magnitude of a numerator times a denominator.
pub open spec fn wide() -> int {
    0x8000_0000_0000_0000int * 0xffff_ffff_ffff_ffffint
}

fn gcd_u128(a: u128, b: u128) -> (r: u128)
    ensures
        r == gcd(a as nat, b as nat),
{
    let mut x = a;
    let mut y = b;
    while y != 0
        invariant
            gcd(x as nat, y as nat) == gcd(a as nat, b as nat),
        decreases y,
    {
        let r = x % y;
        x = y;
        y = r;
    }
    x
}

/// The reduced form of `-mag / den` or `mag / den`.
fn reduce_signed(negative: bool, mag: u128, den: u128) -> (r: Result<Rational, ArithErr>)
    requires
        den > 0,
    ensures
        r == normalize(if negative { -(mag as int) } else { mag as int }, den as int),
        r matches Ok(q) ==> q.is_reduced(),
{
    proof {
        lemma_normalize_reduced(if negative { -(mag as int) } else { mag as int }, den as int);
    }
    if mag == 0 {
        return Ok(Rational { numerator: 0, denominator: 1 });
    }
    let g = gcd_u128(mag, den);
    proof {
        lemma_gcd_pos(mag as nat, den as nat);
    }
    let m = mag / g;
    let d = den / g;
    if d > u64::MAX as u128 {
        return Err(ArithErr::Overflow);
    }
    if negative {
        if m > 0x8000_0000_0000_0000u128 {
            Err(ArithErr::Overflow)
        } else if m == 0x8000_0000_0000_0000u128 {
            Ok(Rational { numerator: i64::MIN, denominator: d as u64 })
        } else {
            Ok(Rational { numerator: -(m as i64), denominator: d as u64 })
        }
    } else if m > i64::MAX as u128 {
        Err(ArithErr::Overflow)
    } else {
        Ok(Rational { numerator: m as i64, denominator: d as u64 })
    }
}

/// The reduced form of `n / den`.
fn reduce_wide(n: i128, den: u128) -> (r: Result<Rational, ArithErr>)
    requires
        den > 0,
        n > i128::MIN,
    ensures
        r == normalize(n as int, den as int),
        r matches Ok(q) ==> q.is_reduced(),
{
    if n < 0 {
        reduce_signed(true, (-n) as u128, den)
    } else {
        reduce_signed(false, n as u128, den)
    }
}

/// The reduced form of `(t1 + t2) / den`, where the sum may not fit an `i128`.
fn reduce_sum(t1: i128, t2: i128, den: u128) -> (r: Result<Rational, ArithErr>)
    requires
        den > 0,
        -wide() <= t1 <= wide(),
        -wide() <= t2 <= wide(),
    ensures
        r == normalize(t1 + t2, den as int),
        r matches Ok(q) ==> q.is_reduced(),
{
    if t1 >= 0 && t2 >= 0 {
        reduce_signed(false, t1 as u128 + t2 as u128, den)
    } else if t1 < 0 && t2 < 0 {
        reduce_signed(true, (-t1) as u128 + (-t2) as u128, den)
    } else {
        reduce_wide(t1 + t2, den)
    }
}

/// The magnitude of a numerator, as an unsigned value.
fn magnitude_of(n: i64) -> (r: u128)
    ensures
        r == magnitude(n as int),
{
    if n < 0 {
        (-(n as i128)) as u128
    } else {
        n as u128
    }
}

impl Rational {
    /// The integer `val`, as `val / 1`.
    pub fn integer(val: i64) -> (r: Rational)
        ensures
            r.numerator == val,
            r.denominator == 1,
    {
        Rational { numerator: val, denominator: 1 }
    }

    /// The fraction `numerator / denominator`, taken as written (not reduced).
    pub fn new(numerator: i64, denominator: u64) -> (r: Rational)
        ensures
            r.numerator == numerator,
            r.denominator == denominator,
    {
        Rational { numerator, denominator }
    }

    /// The reduced form of this value: numerator and denominator divided by
    /// their gcd, zero as `0/1`.
    pub fn simplified(&self) -> (r: Rational)
        requires
            self.denominator > 0 || self.numerator == 0,
        ensures
            normalize(self.numerator as int, self.denominator as int) == Ok::<Rational, ArithErr>(
                r,
            ),
            r == self.reduced(),
            r.is_reduced(),
    {
        if self.numerator == 0 {
            proof {
                lemma_normalize_reduced(0, 1);
            }
            return Rational::new(0, 1);
        }
        proof {
            lemma_normalize_fits(self.numerator as int, self.denominator as int);
            lemma_normalize_reduced(self.numerator as int, self.denominator as int);
        }
        let mag = magnitude_of(self.numerator);
        match reduce_signed(self.numerator < 0, mag, self.denominator as u128) {
            Ok(r) => r,
            Err(_) => *self,
        }
    }

    pub fn checked_add(self, rhs: Rational) -> (r: Result<Rational, ArithErr>)
        requires
            self.wf(),
            rhs.wf(),
        ensures
            r == rat_add(self, rhs),
            r matches Ok(q) ==> q.is_reduced(),
    {
        let (t1, t2, den) = self.common_terms(rhs);
        reduce_sum(t1, t2, den)
    }

    pub fn checked_sub(self, rhs: Rational) -> (r: Result<Rational, ArithErr>)
        requires
            self.wf(),
            rhs.wf(),
        ensures
            r == rat_sub(self, rhs),
            r matches Ok(q) ==> q.is_reduced(),
    {
        let (t1, t2, den) = self.common_terms(rhs);
        reduce_sum(t1, -t2, den)
    }

    /// Both numerators scaled to the least common denominator, and that
    /// denominator.
    fn common_terms(self, rhs: Rational) -> (r: (i128, i128, u128))
        requires
            self.wf(),
            rhs.wf(),
        ensures
            ({
                let (ad, bd) = (self.denominator as int, rhs.denominator as int);
                let g = gcd(ad as nat, bd as nat) as int;
                &&& r.0 == self.numerator * (bd / g)
                &&& r.1 == rhs.numerator * (ad / g)
                &&& r.2 == ad / g * bd
                &&& r.2 > 0
                &&& -wide() <= r.0 <= wide()
                &&& -wide() <= r.1 <= wide()
            }),
    {
        let ad = self.denominator as u128;
        let bd = rhs.denominator as u128;
        let g = gcd_u128(ad, bd);
        proof {
            lemma_gcd_divides(ad as nat, bd as nat);
            lemma_mod_zero_factor(ad as int, g as int);
            lemma_mod_zero_factor(bd as int, g as int);
        }
        let lm = bd / g;
        let rm = ad / g;
        assert(1 <= lm <= bd && 1 <= rm <= ad) by (nonlinear_arith)
            requires
                g > 0,
                ad > 0,
                bd > 0,
                ad == g * rm,
                bd == g * lm,
        ;
        assert(self.numerator * lm <= wide() && self.numerator * lm >= -wide()) by (nonlinear_arith)
            requires
                1 <= lm <= 0xffff_ffff_ffff_ffff,
                -0x8000_0000_0000_0000 <= self.numerator < 0x8000_0000_0000_0000,
        ;
        assert(rhs.numerator * rm <= wide() && rhs.numerator * rm >= -wide()) by (nonlinear_arith)
            requires
                1 <= rm <= 0xffff_ffff_ffff_ffff,
                -0x8000_0000_0000_0000 <= rhs.numerator < 0x8000_0000_0000_0000,
        ;
        assert(rm * bd <= 0xffff_ffff_ffff_ffff * 0xffff_ffff_ffff_ffff && rm * bd > 0)
            by (nonlinear_arith)
            requires
                1 <= rm <= 0xffff_ffff_ffff_ffff,
                1 <= bd <= 0xffff_ffff_ffff_ffff,
        ;
        let t1 = (self.numerator as i128) * (lm as i128);
        let t2 = (rhs.numerator as i128) * (rm as i128);
        (t1, t2, rm * bd)
    }

    pub fn checked_mul(self, rhs: Rational) -> (r: Result<Rational, ArithErr>)
        requires
            self.wf(),
            rhs.wf(),
        ensures
            r == rat_mul(self, rhs),
            r matches Ok(q) ==> q.is_reduced(),
    {
        let (a, b) = (self.numerator as i128, rhs.numerator as i128);
        let (ad, bd) = (self.denominator as u128, rhs.denominator as u128);
        assert(-0x4000_0000_0000_0000_0000_0000_0000_0000 <= a * b
            <= 0x4000_0000_0000_0000_0000_0000_0000_0000) by (nonlinear_arith)
            requires
                -0x8000_0000_0000_0000 <= a < 0x8000_0000_0000_0000,
                -0x8000_0000_0000_0000 <= b < 0x8000_0000_0000_0000,
        ;
        assert(0 < ad * bd <= 0xffff_ffff_ffff_ffff * 0xffff_ffff_ffff_ffff) by (nonlinear_arith)
            requires
                1 <= ad <= 0xffff_ffff_ffff_ffff,
                1 <= bd <= 0xffff_ffff_ffff_ffff,
        ;
        reduce_wide(a * b, ad * bd)
    }

    pub fn checked_div(self, rhs: Rational) -> (r: Result<Rational, ArithErr>)
        requires
            self.wf(),
            rhs.wf(),
        ensures
            r == rat_div(self, rhs),
            r matches Ok(q) ==> q.is_reduced(),
    {
        if rhs.numerator == 0 {
            return Err(ArithErr::DivisionByZero);
        }
        let a = self.numerator as i128;
        let bd = rhs.denominator as i128;
        let ad = self.denominator as u128;
        let bm = magnitude_of(rhs.numerator);
        assert(-wide() <= a * bd <= wide()) by (nonlinear_arith)
            requires
                -0x8000_0000_0000_0000 <= a < 0x8000_0000_0000_0000,
                1 <= bd <= 0xffff_ffff_ffff_ffff,
        ;
        assert(0 < ad * bm <= 0xffff_ffff_ffff_ffff * 0x8000_0000_0000_0000) by (nonlinear_arith)
            requires
                1 <= ad <= 0xffff_ffff_ffff_ffff,
                1 <= bm <= 0x8000_0000_0000_0000,
        ;
        if rhs.numerator < 0 {
            reduce_wide(-(a * bd), ad * bm)
        } else {
            reduce_wide(a * bd, ad * bm)
        }
    }

    pub fn checked_neg(self) -> (r: Result<Rational, ArithErr>)
        ensures
            r == rat_neg(self),
            self.is_reduced() ==> (r matches Ok(q) ==> q.is_reduced()),
    {
        if self.numerator == i64::MIN {
            Err(ArithErr::Overflow)
        } else {
            Ok(Rational { numerator: -self.numerator, denominator: self.denominator })
        }
    }

    /// `self` raised to an integer exponent; exponent zero gives one, a
    /// negative exponent the reciprocal of the positive power.
    pub fn checked_pow(self, exponent: Rational) -> (r: Result<Rational, ArithErr>)
        requires
            self.wf(),
        ensures
            r == rat_pow(self, exponent),
            r matches Ok(q) ==> q.is_reduced(),
    {
        if exponent.denominator != 1 {
            return Err(ArithErr::FractionalExponent);
        }
        let k = magnitude_of(exponent.numerator);
        let mut acc = Rational::integer(1);
        assert(gcd(1, 1) == 1) by {
            assert(gcd(1, 0) == 1);
        }
        let mut i: u128 = 0;
        while i < k
            invariant
                i <= k,
                k == magnitude(exponent.numerator as int),
                exponent.denominator == 1,
                self.wf(),
                acc.wf(),
                rat_pow_nat(self, i as nat) == Ok::<Rational, ArithErr>(acc),
                acc.is_reduced(),
            decreases k - i,
        {
            match acc.checked_mul(self) {
                Ok(next) => {
                    acc = next;
                },
                Err(e) => {
                    proof {
                        assert(rat_pow_nat(self, (i + 1) as nat) == Err::<Rational, ArithErr>(e));
                        lemma_pow_nat_err_stays(self, (i + 1) as nat, k as nat);
                    }
                    return Err(e);
                },
            }
            i = i + 1;
        }
        if exponent.numerator >= 0 {
            Ok(acc)
        } else {
            Rational::integer(1).checked_div(acc)
        }
    }
}

proof fn lemma_pow_nat_err_stays(a: Rational, i: nat, j: nat)
    requires
        rat_pow_nat(a, i) is Err,
        i <= j,
    ensures
        rat_pow_nat(a, j) == rat_pow_nat(a, i),
    decreases j - i,
{
    if i < j {
        lemma_pow_nat_err_stays(a, i, (j - 1) as nat);
    }
}

/// `c` is the exact value of `a op b`, by cross-multiplication (powers
/// aside).
pub open spec fn exact_result(op: Op, a: Rational, b: Rational, c: Rational) -> bool {
    let (an, ad) = (a.numerator as int, a.denominator as int);
    let (bn, bd) = (b.numerator as int, b.denominator as int);
    let (cn, cd) = (c.numerator as int, c.denominator as int);
    match op {
        Op::Add => cn * (ad * bd) == (an * bd + bn * ad) * cd,
        Op::Sub => cn * (ad * bd) == (an * bd - bn * ad) * cd,
        Op::Mul => cn * (ad * bd) == (an * bn) * cd,
        Op::Div => bn != 0 && cn * (ad * bn) == (an * bd) * cd,
        Op::Pow => false,
    }
}

/// The operation of `op` on two fractions (integer powers included).
pub open spec fn rat_apply(op: Op, a: Rational, b: Rational) -> Result<Rational, ArithErr> {
    match op {
        Op::Add => rat_add(a, b),
        Op::Sub => rat_sub(a, b),
        Op::Mul => rat_mul(a, b),
        Op::Div => rat_div(a, b),
        Op::Pow => rat_pow(a, b),
    }
}

/// Where the exact value of `a op b` is a reduced fraction `c`, the
/// operation returns `c`; and whatever it returns is the exact value.
pub proof fn lemma_exact_result(op: Op, a: Rational, b: Rational, c: Rational)
    requires
        a.wf(),
        b.wf(),
        !(op is Pow),
    ensures
        c.is_reduced() && exact_result(op, a, b, c) ==> rat_apply(op, a, b) == Ok::<
            Rational,
            ArithErr,
        >(c),
        rat_apply(op, a, b) == Ok::<Rational, ArithErr>(c) ==> c.is_reduced() && exact_result(
            op,
            a,
            b,
            c,
        ),
{
    law_exact_arithmetic(a, b);
    if c.is_reduced() && exact_result(op, a, b, c) {
        let (an, bn) = (a.numerator as int, b.numerator as int);
        let (ad, bd) = (a.denominator as int, b.denominator as int);
        let (cn, cd) = (c.numerator as int, c.denominator as int);
        assert(ad * bd > 0) by (nonlinear_arith)
            requires
                ad > 0,
                bd > 0,
        ;
        match op {
            Op::Add | Op::Sub => {
                let g = gcd(ad as nat, bd as nat) as int;
                lemma_gcd_divides(ad as nat, bd as nat);
                lemma_mod_zero_factor(ad, g);
                lemma_mod_zero_factor(bd, g);
                let (x, y) = (ad / g, bd / g);
                let l = x * bd;
                let n = if op is Add {
                    an * y + bn * x
                } else {
                    an * y - bn * x
                };
                let exact = if op is Add {
                    an * bd + bn * ad
                } else {
                    an * bd - bn * ad
                };
                assert(ad * bd == g * l) by (nonlinear_arith)
                    requires
                        l == x * bd,
                        ad == g * x,
                ;
                assert(exact == g * n) by (nonlinear_arith)
                    requires
                        n == (if op is Add { an * y + bn * x } else { an * y - bn * x }),
                        exact == (if op is Add { an * bd + bn * ad } else { an * bd - bn * ad }),
                        ad == g * x,
                        bd == g * y,
                ;
                assert(cn * l == n * cd) by (nonlinear_arith)
                    requires
                        cn * (g * l) == (g * n) * cd,
                        g > 0,
                ;
                assert(l > 0) by (nonlinear_arith)
                    requires
                        ad * bd == g * l,
                        ad * bd > 0,
                        g > 0,
                ;
                lemma_normalize_exact(n, l, c);
            },
            Op::Mul => {
                lemma_normalize_exact(an * bn, ad * bd, c);
            },
            _ => {
                let m = magnitude(bn);
                assert(ad * m > 0) by (nonlinear_arith)
                    requires
                        ad > 0,
                        m > 0,
                ;
                if bn < 0 {
                    assert(cn * (ad * m) == -(an * bd) * cd) by (nonlinear_arith)
                        requires
                            cn * (ad * bn) == (an * bd) * cd,
                            m == -bn,
                    ;
                    lemma_normalize_exact(-(an * bd), ad * m, c);
                } else {
                    lemma_normalize_exact(an * bd, ad * bn, c);
                }
            },
        }
    }
}

/// Inverse operations undo each other: with reduced operands,
/// `(a + b) - b`, `(a - b) + b`, `(a * b) / b` and `(a / b) * b` give `a`,
/// and `(a + b) - a`, `(a * b) / a`, `a - (a - b)` and `a / (a / b)` give
/// `b`, wherever the inner operation succeeds and no division is by zero.
pub proof fn law_inverse_operations(a: Rational, b: Rational)
    requires
        a.is_reduced(),
        b.is_reduced(),
    ensures
        rat_add(a, b) matches Ok(w) ==> rat_sub(w, b) == Ok::<Rational, ArithErr>(a)
            && rat_sub(w, a) == Ok::<Rational, ArithErr>(b),
        rat_sub(a, b) matches Ok(w) ==> rat_add(w, b) == Ok::<Rational, ArithErr>(a)
            && rat_add(b, w) == Ok::<Rational, ArithErr>(a)
            && rat_sub(a, w) == Ok::<Rational, ArithErr>(b),
        b.numerator != 0 ==> (rat_mul(a, b) matches Ok(w) ==> rat_div(w, b) == Ok::<
            Rational,
            ArithErr,
        >(a)),
        a.numerator != 0 ==> (rat_mul(a, b) matches Ok(w) ==> rat_div(w, a) == Ok::<
            Rational,
            ArithErr,
        >(b)),
        rat_div(a, b) matches Ok(w) ==> rat_mul(w, b) == Ok::<Rational, ArithErr>(a)
            && rat_mul(b, w) == Ok::<Rational, ArithErr>(a),
        a.numerator != 0 ==> (rat_div(a, b) matches Ok(w) ==> rat_div(a, w) == Ok::<
            Rational,
            ArithErr,
        >(b)),
{
    let (an, ad) = (a.numerator as int, a.denominator as int);
    let (bn, bd) = (b.numerator as int, b.denominator as int);
    if let Ok(w) = rat_add(a, b) {
        lemma_exact_result(Op::Add, a, b, w);
        let (wn, wd) = (w.numerator as int, w.denominator as int);
        assert((wn * bd - bn * wd) * ad == wn * (ad * bd) - bn * wd * ad) by (nonlinear_arith);
        assert((an * bd + bn * ad) * wd == an * (wd * bd) + bn * wd * ad) by (nonlinear_arith);
        lemma_exact_result(Op::Sub, w, b, a);
        assert((wn * ad - an * wd) * bd == wn * (ad * bd) - an * wd * bd) by (nonlinear_arith);
        assert((an * bd + bn * ad) * wd == an * wd * bd + bn * (wd * ad)) by (nonlinear_arith);
        lemma_exact_result(Op::Sub, w, a, b);
    }
    if let Ok(w) = rat_sub(a, b) {
        lemma_exact_result(Op::Sub, a, b, w);
        let (wn, wd) = (w.numerator as int, w.denominator as int);
        assert((wn * bd + bn * wd) * ad == wn * (ad * bd) + bn * ad * wd) by (nonlinear_arith);
        assert((an * bd - bn * ad) * wd == an * (wd * bd) - bn * ad * wd) by (nonlinear_arith);
        lemma_exact_result(Op::Add, w, b, a);
        assert((bn * wd + wn * bd) * ad == wn * (ad * bd) + bn * ad * wd) by (nonlinear_arith);
        lemma_exact_result(Op::Add, b, w, a);
        assert((an * wd - wn * ad) * bd == an * wd * bd - wn * (ad * bd)) by (nonlinear_arith);
        assert((an * bd - bn * ad) * wd == an * wd * bd - bn * (ad * wd)) by (nonlinear_arith);
        lemma_exact_result(Op::Sub, a, w, b);
    }
    if let Ok(w) = rat_mul(a, b) {
        lemma_exact_result(Op::Mul, a, b, w);
        let (wn, wd) = (w.numerator as int, w.denominator as int);
        if bn != 0 {
            assert(an * (wd * bn) == (wn * bd) * ad) by (nonlinear_arith)
                requires
                    wn * (ad * bd) == (an * bn) * wd,
            ;
            lemma_exact_result(Op::Div, w, b, a);
        }
        if an != 0 {
            assert(bn * (wd * an) == (wn * ad) * bd) by (nonlinear_arith)
                requires
                    wn * (ad * bd) == (an * bn) * wd,
            ;
            lemma_exact_result(Op::Div, w, a, b);
        }
    }
    if let Ok(w) = rat_div(a, b) {
        lemma_exact_result(Op::Div, a, b, w);
        let (wn, wd) = (w.numerator as int, w.denominator as int);
        assert(an * (wd * bd) == (wn * bn) * ad) by (nonlinear_arith)
            requires
                wn * (ad * bn) == (an * bd) * wd,
        ;
        lemma_exact_result(Op::Mul, w, b, a);
        assert(an * (bd * wd) == (bn * wn) * ad) by (nonlinear_arith)
            requires
                wn * (ad * bn) == (an * bd) * wd,
        ;
        lemma_exact_result(Op::Mul, b, w, a);
        if an != 0 {
            assert(wn != 0) by (nonlinear_arith)
                requires
                    wn * (ad * bn) == (an * bd) * wd,
                    an != 0,
                    bd > 0,
                    wd > 0,
            ;
            assert(bn * (ad * wn) == (an * wd) * bd) by (nonlinear_arith)
                requires
                    wn * (ad * bn) == (an * bd) * wd,
            ;
            lemma_exact_result(Op::Div, a, w, b);
        }
    }
}

} // verus!
