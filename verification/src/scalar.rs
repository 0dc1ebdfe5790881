//! The numbers that areas, limits and ratios are computed in.
//!
//! Every rule of the check is written once, over [`Scalar`], so that a caller chooses the
//! arithmetic: machine floating point where the figures should read as another checker's do, or
//! [`Exact`] where nothing may be rounded.

use vstd::prelude::*;

verus! {

/// Arithmetic that a ratio can be computed in.
///
/// Each operation is a function of its operands, named by the specification function beside it.
/// Nothing else is asked of an implementation, neither that addition is associative nor that
/// the order is total: what is proved of the rules holds with rounding and with values, such as
/// the quotient by zero, that no comparison is true of.
///
/// Only a verified implementation, such as [`Exact`], is known to meet these contracts. The
/// specification functions have default bodies so that ordinary code can implement the trait
/// too, for machine doubles say; but such an implementation does not meet the contracts with
/// them, whose bodies say nothing of what it computes, and nothing that is proved over a
/// `Scalar` carries over to it. What the check does in such arithmetic only its tests show.
pub trait Scalar: Copy {
    open spec fn spec_zero() -> Self {
        arbitrary()
    }

    open spec fn spec_one() -> Self {
        arbitrary()
    }

    open spec fn spec_of(v: i64) -> Self {
        arbitrary()
    }

    open spec fn spec_plus(self, o: Self) -> Self {
        arbitrary()
    }

    open spec fn spec_minus(self, o: Self) -> Self {
        arbitrary()
    }

    open spec fn spec_times(self, o: Self) -> Self {
        arbitrary()
    }

    open spec fn spec_over(self, o: Self) -> Self {
        arbitrary()
    }

    open spec fn spec_lt(self, o: Self) -> bool {
        arbitrary()
    }

    open spec fn spec_le(self, o: Self) -> bool {
        arbitrary()
    }

    fn zero() -> (r: Self)
        ensures
            r == Self::spec_zero(),
    ;

    fn one() -> (r: Self)
        ensures
            r == Self::spec_one(),
    ;

    /// The whole number `v`.
    fn of(v: i64) -> (r: Self)
        ensures
            r == Self::spec_of(v),
    ;

    fn plus(self, o: Self) -> (r: Self)
        ensures
            r == self.spec_plus(o),
    ;

    fn minus(self, o: Self) -> (r: Self)
        ensures
            r == self.spec_minus(o),
    ;

    fn times(self, o: Self) -> (r: Self)
        ensures
            r == self.spec_times(o),
    ;

    fn over(self, o: Self) -> (r: Self)
        ensures
            r == self.spec_over(o),
    ;

    fn lt(self, o: Self) -> (b: bool)
        ensures
            b == self.spec_lt(o),
    ;

    fn le(self, o: Self) -> (b: bool)
        ensures
            b == self.spec_le(o),
    ;
}

/// Greater than zero.
pub open spec fn positive<Q: Scalar>(x: Q) -> bool {
    Q::spec_zero().spec_lt(x)
}

/// A value that compares with itself. One that does not is no number: nothing can be said of it,
/// and a ratio in it is not judged.
pub open spec fn known<Q: Scalar>(x: Q) -> bool {
    x.spec_le(x)
}

/// A rational number, or [`Exact::Undefined`] where there is none: after a division by zero, and
/// after a result that does not fit. Every result is in lowest terms, and sums are taken over the
/// least common denominator. Nothing is rounded, any two numbers compare, and no comparison with
/// an undefined value is true.
#[derive(Debug, Clone, Copy, PartialEq, Eq, Structural)]
pub enum Exact {
    /// Numerator and denominator. The denominator is positive.
    Value(i128, i128),
    Undefined,
}

/// The greatest common divisor.
pub open spec fn gcd(a: nat, b: nat) -> nat
    decreases b,
{
    if b == 0 {
        a
    } else {
        gcd(b, a % b)
    }
}

/// The size of a number without its sign.
pub open spec fn size(n: int) -> nat {
    if n < 0 {
        (-n) as nat
    } else {
        n as nat
    }
}

/// `n` and `d` without what divides both.
pub open spec fn lowest(n: int, d: int) -> (int, int) {
    let g = gcd(size(n), size(d)) as int;
    (n / g, d / g)
}

/// Whether a number fits.
pub open spec fn fits(n: int) -> bool {
    i128::MIN <= n <= i128::MAX
}

/// The quotient of `n` and `d` in lowest terms, if both fit.
pub open spec fn fitted(n: int, d: int) -> Exact {
    if fits(n) && fits(d) && d > 0 {
        let (x, y) = lowest(n, d);
        Exact::Value(x as i128, y as i128)
    } else {
        Exact::Undefined
    }
}

/// What `a / b` and `c / d` are multiplied by to have the least common denominator.
pub open spec fn raised(b: int, d: int) -> (int, int) {
    let g = gcd(size(b), size(d)) as int;
    (d / g, b / g)
}

/// A common divisor divides both numbers, and is positive unless both are zero.
pub proof fn lemma_gcd(a: nat, b: nat)
    requires
        a > 0 || b > 0,
    ensures
        gcd(a, b) > 0,
        a == gcd(a, b) * (a / gcd(a, b)),
        b == gcd(a, b) * (b / gcd(a, b)),
        b > 0 ==> gcd(a, b) <= b,
    decreases b,
{
    let g = gcd(a, b);
    if b > 0 {
        let r = a % b;
        lemma_gcd(b, r);
        let x = (b / g) as int;
        let y = (r / g) as int;
        let q = (a / b) as int;
        let gi = g as int;
        let bi = b as int;
        assert(a == bi * q + r) by {
            vstd::arithmetic::div_mod::lemma_fundamental_div_mod(a as int, b as int);
        }
        assert(a == gi * (x * q + y)) by (nonlinear_arith)
            requires
                a == bi * q + r,
                bi == gi * x,
                r == gi * y,
        ;
        lemma_exact_quotient(a as int, gi, x * q + y);
        assert(x >= 1) by (nonlinear_arith)
            requires
                bi == gi * x,
                bi > 0,
                gi > 0,
        ;
        assert(gi <= bi) by (nonlinear_arith)
            requires
                bi == gi * x,
                x >= 1,
                gi > 0,
        ;
    } else {
        assert(a % a == 0 && a / a == 1) by (nonlinear_arith)
            requires
                a > 0,
        ;
        assert(0nat / a == 0) by (nonlinear_arith)
            requires
                a > 0,
        ;
        assert(a * 1 == a && a * 0 == 0) by (nonlinear_arith);
    }
}

/// A multiple divides without rest.
pub proof fn lemma_exact_quotient(n: int, g: int, k: int)
    requires
        g > 0,
        n == g * k,
    ensures
        n / g == k,
{
    assert(n / g == k) by (nonlinear_arith)
        requires
            g > 0,
            n == g * k,
    ;
}

/// What lowest terms are: the same common factor out of both, and no larger.
pub proof fn lemma_lowest(n: int, d: int) -> (g: int)
    requires
        d > 0,
    ensures
        g > 0,
        g == gcd(size(n), size(d)),
        n == g * lowest(n, d).0,
        d == g * lowest(n, d).1,
        lowest(n, d).1 > 0,
        lowest(n, d).1 <= d,
        n >= 0 ==> 0 <= lowest(n, d).0 <= n,
        n < 0 ==> n <= lowest(n, d).0 < 0,
        fits(n) ==> fits(lowest(n, d).0),
{
    let g = gcd(size(n), size(d)) as int;
    lemma_gcd(size(n), size(d));
    let x = (size(n) / (g as nat)) as int;
    let y = (size(d) / (g as nat)) as int;
    if n < 0 {
        assert(n == g * (-x)) by (nonlinear_arith)
            requires
                -n == g * x,
        ;
        lemma_exact_quotient(n, g, -x);
    } else {
        lemma_exact_quotient(n, g, x);
    }
    lemma_exact_quotient(d, g, y);
    assert(y > 0) by (nonlinear_arith)
        requires
            d == g * y,
            d > 0,
            g > 0,
    ;
    assert(y <= d) by (nonlinear_arith)
        requires
            d == g * y,
            y > 0,
            g > 0,
    ;
    assert(0 <= x <= size(n)) by (nonlinear_arith)
        requires
            size(n) == g * x,
            g > 0,
            size(n) >= 0,
    ;
    if n < 0 {
        assert(x > 0) by (nonlinear_arith)
            requires
                size(n) == g * x,
                size(n) > 0,
                g > 0,
        ;
    }
    g
}

/// The least common denominator: both ways of reaching it agree, and it is positive.
pub proof fn lemma_raised(b: int, d: int)
    requires
        b > 0,
        d > 0,
    ensures
        0 < raised(b, d).0 <= d,
        0 < raised(b, d).1 <= b,
        b * raised(b, d).0 == d * raised(b, d).1,
        b * raised(b, d).0 > 0,
        b * raised(b, d).0 <= b * d,
{
    let g = gcd(size(b), size(d)) as int;
    lemma_gcd(size(b), size(d));
    let y = raised(b, d).1;
    let x = raised(b, d).0;
    assert(b == g * y && d == g * x);
    assert(0 < x <= d && 0 < y <= b) by (nonlinear_arith)
        requires
            b == g * y,
            d == g * x,
            b > 0,
            d > 0,
            g > 0,
    ;
    assert(b * x == d * y) by (nonlinear_arith)
        requires
            b == g * y,
            d == g * x,
    ;
    assert(0 < b * x <= b * d) by (nonlinear_arith)
        requires
            b > 0,
            0 < x <= d,
    ;
}

/// The size of `n`.
fn magnitude(n: i128) -> (m: u128)
    ensures
        m == size(n as int),
{
    if n >= 0 {
        n as u128
    } else {
        (-(n + 1)) as u128 + 1
    }
}

/// The greatest common divisor of the sizes.
fn common(a: i128, b: i128) -> (g: u128)
    ensures
        g == gcd(size(a as int), size(b as int)),
{
    let mut x: u128 = magnitude(a);
    let mut y: u128 = magnitude(b);
    while y != 0
        invariant
            gcd(x as nat, y as nat) == gcd(size(a as int), size(b as int)),
        decreases y,
    {
        let r = x % y;
        x = y;
        y = r;
    }
    x
}

/// `n` divided by a divisor of it.
fn divided(n: i128, g: u128, Ghost(k): Ghost<int>) -> (q: i128)
    requires
        g > 0,
        n == g * k,
    ensures
        q == k,
        q == n as int / g as int,
{
    proof {
        lemma_exact_quotient(n as int, g as int, k);
        if n < 0 {
            assert(-n == g * (-k)) by (nonlinear_arith)
                requires
                    n == g * k,
            ;
            lemma_exact_quotient(-n as int, g as int, -k);
        }
        assert(g > 1 && k >= 0 ==> 2 * k <= g * k) by (nonlinear_arith);
        assert(g > 1 && k < 0 ==> 2 * (-k) <= -(g * k)) by (nonlinear_arith);
        assert(g == 1 ==> g * k == k) by (nonlinear_arith);
        assert(n >= 0 ==> k >= 0) by (nonlinear_arith)
            requires
                n == g * k,
                g > 0,
        ;
        assert(n < 0 ==> k < 0) by (nonlinear_arith)
            requires
                n == g * k,
                g > 0,
        ;
    }
    if g == 1 {
        return n;
    }
    let m = magnitude(n) / g;
    if n >= 0 {
        m as i128
    } else {
        -(m as i128)
    }
}

/// `n` and `d` in lowest terms.
fn reduce(n: i128, d: i128) -> (r: (i128, i128))
    requires
        d > 0,
    ensures
        r.0 == lowest(n as int, d as int).0,
        r.1 == lowest(n as int, d as int).1,
        r.1 > 0,
{
    let g = common(n, d);
    proof {
        lemma_lowest(n as int, d as int);
    }
    (
        divided(n, g, Ghost(lowest(n as int, d as int).0)),
        divided(d, g, Ghost(lowest(n as int, d as int).1)),
    )
}

/// The whole part of `a / b`, rounded down, and the rest.
fn whole_part(a: i128, b: i128) -> (r: (i128, i128))
    requires
        b > 0,
    ensures
        a == r.0 * b + r.1,
        0 <= r.1 < b,
{
    if b == 1 {
        assert(a == a * b + 0) by (nonlinear_arith)
            requires
                b == 1,
        ;
        return (a, 0);
    }
    let m = magnitude(a);
    let q = m / (b as u128);
    let s = m % (b as u128);
    proof {
        vstd::arithmetic::div_mod::lemma_fundamental_div_mod(m as int, b as int);
        assert(m == q * b + s) by (nonlinear_arith)
            requires
                m == b * q + s,
        ;
        assert(2 * q <= m) by (nonlinear_arith)
            requires
                m == q * b + s,
                b >= 2,
                s >= 0,
                q >= 0,
        ;
        assert((-q) * b == -(q * b)) by (nonlinear_arith);
        assert((-q - 1) * b == -(q * b) - b) by (nonlinear_arith);
    }
    if a >= 0 {
        (q as i128, s as i128)
    } else if s == 0 {
        (-(q as i128), 0)
    } else {
        (-(q as i128) - 1, b - s as i128)
    }
}

/// Fractions with different whole parts compare as those do; with the same, as the rests do, and
/// those as the quotients turned over.
proof fn lemma_compare(a: int, b: int, c: int, d: int, p: int, q: int, r: int, s: int)
    requires
        b > 0,
        d > 0,
        a == p * b + r,
        c == q * d + s,
        0 <= r < b,
        0 <= s < d,
    ensures
        p < q ==> a * d < c * b,
        p > q ==> a * d > c * b,
        p == q ==> (a * d < c * b <==> d * r < b * s),
{
    assert(a * d == (p * d) * b + r * d) by (nonlinear_arith)
        requires
            a == p * b + r,
    ;
    assert(c * b == (q * d) * b + s * b) by (nonlinear_arith)
        requires
            c == q * d + s,
    ;
    let m = b * d;
    assert((p * d) * b == p * m && (q * d) * b == q * m) by (nonlinear_arith)
        requires
            m == b * d,
    ;
    assert(0 <= r * d && r * d + d <= m && 0 <= s * b && s * b + b <= m) by (nonlinear_arith)
        requires
            m == b * d,
            0 <= r <= b - 1,
            0 <= s <= d - 1,
            b > 0,
            d > 0,
    ;
    assert(p < q ==> p * m + m <= q * m) by (nonlinear_arith)
        requires
            m == b * d,
            b > 0,
            d > 0,
    ;
    assert(q < p ==> q * m + m <= p * m) by (nonlinear_arith)
        requires
            m == b * d,
            b > 0,
            d > 0,
    ;
    assert(d * r == r * d && b * s == s * b) by (nonlinear_arith);
}

/// Whether `a / b` is less than `c / d`. The whole parts are compared, then the rests turned over,
/// so that no product is ever formed.
fn less(a: i128, b: i128, c: i128, d: i128) -> (l: bool)
    requires
        b > 0,
        d > 0,
    ensures
        l == (a * d < c * b),
{
    let mut w: i128 = a;
    let mut x: i128 = b;
    let mut y: i128 = c;
    let mut z: i128 = d;
    loop
        invariant
            x > 0,
            z > 0,
            (w * z < y * x) == (a * d < c * b),
        decreases x + z,
    {
        let (p, r) = whole_part(w, x);
        let (q, s) = whole_part(y, z);
        proof {
            lemma_compare(
                w as int,
                x as int,
                y as int,
                z as int,
                p as int,
                q as int,
                r as int,
                s as int,
            );
            assert(z * 0 == 0 && x * 0 == 0) by (nonlinear_arith);
            assert(s > 0 ==> x * s > 0) by (nonlinear_arith)
                requires
                    x > 0,
            ;
            assert(r > 0 ==> z * r > 0) by (nonlinear_arith)
                requires
                    z > 0,
            ;
        }
        if p != q {
            return p < q;
        }
        if s == 0 {
            return false;
        }
        if r == 0 {
            return true;
        }
        w = z;
        y = x;
        z = r;
        x = s;
    }
}

impl Exact {
    /// A denominator is positive.
    pub open spec fn wf(self) -> bool {
        self matches Exact::Value(_, d) ==> d > 0
    }

    /// The quotient of two numbers that may not have fitted.
    fn quotient(n: Option<i128>, d: Option<i128>) -> (r: Exact)
        ensures
            r == (if n is Some && d is Some {
                fitted(n->0 as int, d->0 as int)
            } else {
                Exact::Undefined
            }),
    {
        match (n, d) {
            (Some(n), Some(d)) => if d > 0 {
                let (x, y) = reduce(n, d);
                Exact::Value(x, y)
            } else {
                Exact::Undefined
            },
            _ => Exact::Undefined,
        }
    }
}

/// What `a / b` and `c / d` are over their least common denominator: the two numerators, and it.
pub open spec fn brought(a: int, b: int, c: int, d: int) -> (int, int, int) {
    let (x, y) = raised(b, d);
    (a * x, c * y, b * x)
}

fn bring(a: i128, b: i128, c: i128, d: i128) -> (r: Option<(i128, i128, i128)>)
    requires
        b > 0,
        d > 0,
    ensures
        ({
            let (x, y, z) = brought(a as int, b as int, c as int, d as int);
            r == (if fits(x) && fits(y) && fits(z) {
                Some((x as i128, y as i128, z as i128))
            } else {
                None
            })
        }),
{
    let g = common(b, d);
    proof {
        lemma_gcd(size(b as int), size(d as int));
    }
    let x = divided(d, g, Ghost(raised(b as int, d as int).0));
    let y = divided(b, g, Ghost(raised(b as int, d as int).1));
    match (a.checked_mul(x), c.checked_mul(y), b.checked_mul(x)) {
        (Some(n), Some(m), Some(l)) => Some((n, m, l)),
        _ => None,
    }
}

impl Scalar for Exact {
    open spec fn spec_zero() -> Exact {
        Exact::Value(0, 1)
    }

    open spec fn spec_one() -> Exact {
        Exact::Value(1, 1)
    }

    open spec fn spec_of(v: i64) -> Exact {
        Exact::Value(v as i128, 1)
    }

    open spec fn spec_plus(self, o: Exact) -> Exact {
        match (self, o) {
            (Exact::Value(a, b), Exact::Value(c, d)) => if b > 0 && d > 0 {
                let (x, y, z) = brought(a as int, b as int, c as int, d as int);
                if fits(x) && fits(y) && fits(z) {
                    fitted(x + y, z)
                } else {
                    Exact::Undefined
                }
            } else {
                Exact::Undefined
            },
            _ => Exact::Undefined,
        }
    }

    open spec fn spec_minus(self, o: Exact) -> Exact {
        match (self, o) {
            (Exact::Value(a, b), Exact::Value(c, d)) => if b > 0 && d > 0 {
                let (x, y, z) = brought(a as int, b as int, c as int, d as int);
                if fits(x) && fits(y) && fits(z) {
                    fitted(x - y, z)
                } else {
                    Exact::Undefined
                }
            } else {
                Exact::Undefined
            },
            _ => Exact::Undefined,
        }
    }

    /// Each numerator first loses what it shares with the other's denominator.
    open spec fn spec_times(self, o: Exact) -> Exact {
        match (self, o) {
            (Exact::Value(a, b), Exact::Value(c, d)) => if b > 0 && d > 0 {
                let (p, s) = lowest(a as int, d as int);
                let (q, r) = lowest(c as int, b as int);
                fitted(p * q, r * s)
            } else {
                Exact::Undefined
            },
            _ => Exact::Undefined,
        }
    }

    /// Numerators first lose what they share, and so do denominators.
    open spec fn spec_over(self, o: Exact) -> Exact {
        match (self, o) {
            (Exact::Value(a, b), Exact::Value(c, d)) => if b > 0 && d > 0 && c != 0 && c
                > i128::MIN {
                let (p, s) = lowest(a as int, size(c as int) as int);
                let (q, r) = lowest(d as int, b as int);
                if !fits(p * q) {
                    Exact::Undefined
                } else if c > 0 {
                    fitted(p * q, r * s)
                } else {
                    fitted(-(p * q), r * s)
                }
            } else {
                Exact::Undefined
            },
            _ => Exact::Undefined,
        }
    }

    open spec fn spec_lt(self, o: Exact) -> bool {
        match (self, o) {
            (Exact::Value(a, b), Exact::Value(c, d)) => b > 0 && d > 0 && a * d < c * b,
            _ => false,
        }
    }

    open spec fn spec_le(self, o: Exact) -> bool {
        match (self, o) {
            (Exact::Value(a, b), Exact::Value(c, d)) => b > 0 && d > 0 && a * d <= c * b,
            _ => false,
        }
    }

    fn zero() -> (r: Exact)
        ensures
            r.wf(),
    {
        Exact::Value(0, 1)
    }

    fn one() -> (r: Exact)
        ensures
            r.wf(),
    {
        Exact::Value(1, 1)
    }

    fn of(v: i64) -> (r: Exact)
        ensures
            r.wf(),
    {
        Exact::Value(v as i128, 1)
    }

    fn plus(self, o: Exact) -> (r: Exact) {
        match (self, o) {
            (Exact::Value(a, b), Exact::Value(c, d)) => if b > 0 && d > 0 {
                match bring(a, b, c, d) {
                    Some((x, y, z)) => Exact::quotient(x.checked_add(y), Some(z)),
                    None => Exact::Undefined,
                }
            } else {
                Exact::Undefined
            },
            _ => Exact::Undefined,
        }
    }

    fn minus(self, o: Exact) -> (r: Exact) {
        match (self, o) {
            (Exact::Value(a, b), Exact::Value(c, d)) => if b > 0 && d > 0 {
                match bring(a, b, c, d) {
                    Some((x, y, z)) => Exact::quotient(x.checked_sub(y), Some(z)),
                    None => Exact::Undefined,
                }
            } else {
                Exact::Undefined
            },
            _ => Exact::Undefined,
        }
    }

    fn times(self, o: Exact) -> (r: Exact) {
        match (self, o) {
            (Exact::Value(a, b), Exact::Value(c, d)) => if b > 0 && d > 0 {
                let (p, s) = reduce(a, d);
                let (q, r) = reduce(c, b);
                Exact::quotient(p.checked_mul(q), r.checked_mul(s))
            } else {
                Exact::Undefined
            },
            _ => Exact::Undefined,
        }
    }

    fn over(self, o: Exact) -> (r: Exact) {
        match (self, o) {
            (Exact::Value(a, b), Exact::Value(c, d)) => if b > 0 && d > 0 && c != 0 && c
                > i128::MIN {
                let m: i128 = if c > 0 {
                    c
                } else {
                    -c
                };
                let (p, s) = reduce(a, m);
                let (q, r) = reduce(d, b);
                match p.checked_mul(q) {
                    None => Exact::Undefined,
                    Some(n) => if c > 0 {
                        Exact::quotient(Some(n), r.checked_mul(s))
                    } else {
                        let zero: i128 = 0;
                        Exact::quotient(zero.checked_sub(n), r.checked_mul(s))
                    },
                }
            } else {
                Exact::Undefined
            },
            _ => Exact::Undefined,
        }
    }

    fn lt(self, o: Exact) -> (r: bool) {
        match (self, o) {
            (Exact::Value(a, b), Exact::Value(c, d)) => b > 0 && d > 0 && less(a, b, c, d),
            _ => false,
        }
    }

    fn le(self, o: Exact) -> (r: bool) {
        match (self, o) {
            (Exact::Value(a, b), Exact::Value(c, d)) => b > 0 && d > 0 && !less(c, d, a, b),
            _ => false,
        }
    }
}

/// Every result has a positive denominator.
pub proof fn exact_stays_well_formed(a: Exact, b: Exact)
    ensures
        a.spec_plus(b).wf(),
        a.spec_minus(b).wf(),
        a.spec_times(b).wf(),
        a.spec_over(b).wf(),
{
    assert forall|n: int, d: int| (#[trigger] fitted(n, d)).wf() by {
        if fits(n) && fits(d) && d > 0 {
            lemma_lowest(n, d);
        }
    }
}

} // verus!
