//! Exact arithmetic is that of the real numbers, and what this makes of a limit curve.

use crate::check;
use crate::net;
use crate::net::LayerInfo;
use crate::net::NetAntenna;
use crate::net::RegionExposure;
use crate::rules;
use crate::rules::LayerRules;
use crate::rules::Ratio;
use crate::rules::RuleTable;
use crate::scalar;
use crate::scalar::Exact;
use crate::scalar::Scalar;
use vstd::prelude::*;

verus! {

/// The number that a defined value is.
pub open spec fn number(e: Exact) -> real {
    match e {
        Exact::Value(n, d) => (n as real) / (d as real),
        Exact::Undefined => 0real,
    }
}

/// A defined value, with a positive denominator.
pub open spec fn is_number(e: Exact) -> bool {
    e is Value && e.wf()
}

proof fn lemma_product(x: int, y: int)
    ensures
        (x * y) as real == (x as real) * (y as real),
{
    assert((x * y) as real == (x as real) * (y as real)) by (nonlinear_arith);
}

proof fn lemma_positive(d: int)
    requires
        d > 0,
    ensures
        d as real > 0real,
{
}

/// What is taken over common factors is the same quotient.
proof fn lemma_same_quotient(n: int, d: int, g: int, x: int, y: int)
    requires
        d > 0,
        g > 0,
        y > 0,
        n == g * x,
        d == g * y,
    ensures
        (x as real) / (y as real) == (n as real) / (d as real),
{
    lemma_product(g, x);
    lemma_product(g, y);
    lemma_positive(g);
    lemma_positive(y);
    let (h, u, v) = (g as real, x as real, y as real);
    assert(u / v == (h * u) / (h * v)) by (nonlinear_arith)
        requires
            h > 0real,
            v > 0real,
    ;
}

/// A quotient that fits is the quotient of the numbers.
proof fn lemma_fitted(n: int, d: int)
    requires
        d > 0,
    ensures
        scalar::fitted(n, d) is Value ==> is_number(scalar::fitted(n, d)) && number(
            scalar::fitted(n, d),
        ) == (n as real) / (d as real),
        scalar::fits(n) && scalar::fits(d) ==> scalar::fitted(n, d) is Value,
{
    let g = scalar::lemma_lowest(n, d);
    let (x, y) = scalar::lowest(n, d);
    lemma_same_quotient(n, d, g, x, y);
}

/// What is defined was made of numbers.
pub proof fn results_are_made_of_numbers(a: Exact, b: Exact)
    ensures
        a.spec_plus(b) is Value ==> is_number(a) && is_number(b) && is_number(a.spec_plus(b)),
        a.spec_minus(b) is Value ==> is_number(a) && is_number(b) && is_number(a.spec_minus(b)),
        a.spec_times(b) is Value ==> is_number(a) && is_number(b) && is_number(a.spec_times(b)),
        a.spec_over(b) is Value ==> is_number(a) && is_number(b) && is_number(a.spec_over(b)),
{
    scalar::exact_stays_well_formed(a, b);
}

/// A sum or a difference that is defined is that of the numbers.
proof fn lemma_sum(a: Exact, b: Exact)
    requires
        is_number(a),
        is_number(b),
    ensures
        a.spec_plus(b) is Value ==> number(a.spec_plus(b)) == number(a) + number(b),
        a.spec_minus(b) is Value ==> number(a.spec_minus(b)) == number(a) - number(b),
{
    if let (Exact::Value(n, d), Exact::Value(m, e)) = (a, b) {
        let (x, y) = scalar::raised(d as int, e as int);
        let (u, v, w) = scalar::brought(n as int, d as int, m as int, e as int);
        scalar::lemma_raised(d as int, e as int);
        lemma_fitted(u + v, w);
        lemma_fitted(u - v, w);
        assert(u == x * n && w == x * d && v == y * m && w == y * e) by (nonlinear_arith)
            requires
                u == n * x,
                w == d * x,
                v == m * y,
                w == e * y,
        ;
        lemma_same_quotient(u, w, x, n as int, d as int);
        lemma_same_quotient(v, w, y, m as int, e as int);
        let (p, q, r) = (u as real, v as real, w as real);
        lemma_positive(w);
        assert((p + q) / r == p / r + q / r) by (nonlinear_arith)
            requires
                r > 0real,
        ;
        assert((p - q) / r == p / r - q / r) by (nonlinear_arith)
            requires
                r > 0real,
        ;
    }
}

/// Common factors out of a numerator and the other denominator leave the product as it is.
proof fn lemma_crosswise(
    a: int,
    b: int,
    c: int,
    d: int,
    g: int,
    h: int,
    p: int,
    q: int,
    r: int,
    s: int,
)
    requires
        b > 0,
        d > 0,
        g > 0,
        h > 0,
        r > 0,
        s > 0,
        a == g * p,
        d == g * s,
        c == h * q,
        b == h * r,
    ensures
        ((p * q) as real) / ((r * s) as real) == ((a as real) / (b as real)) * ((c as real) / (
        d as real)),
        r * s > 0,
{
    assert(r * s > 0) by (nonlinear_arith)
        requires
            r > 0,
            s > 0,
    ;
    assert(b * d > 0) by (nonlinear_arith)
        requires
            b > 0,
            d > 0,
    ;
    assert(g * h > 0) by (nonlinear_arith)
        requires
            g > 0,
            h > 0,
    ;
    assert(a * c == (g * h) * (p * q) && b * d == (g * h) * (r * s)) by (nonlinear_arith)
        requires
            a == g * p,
            d == g * s,
            c == h * q,
            b == h * r,
    ;
    lemma_same_quotient(a * c, b * d, g * h, p * q, r * s);
    lemma_product(a, c);
    lemma_product(b, d);
    lemma_positive(b);
    lemma_positive(d);
    let (x, y, z, w) = (a as real, b as real, c as real, d as real);
    assert((x * z) / (y * w) == (x / y) * (z / w)) by (nonlinear_arith)
        requires
            y > 0real,
            w > 0real,
    ;
}

/// A product or a quotient that is defined is that of the numbers.
proof fn lemma_multiple(a: Exact, b: Exact)
    requires
        is_number(a),
        is_number(b),
    ensures
        a.spec_times(b) is Value ==> number(a.spec_times(b)) == number(a) * number(b),
        a.spec_over(b) is Value ==> number(b) != 0real && number(a.spec_over(b)) == number(a)
            / number(b),
{
    if let (Exact::Value(n, d), Exact::Value(m, e)) = (a, b) {
        let g = scalar::lemma_lowest(n as int, e as int);
        let h = scalar::lemma_lowest(m as int, d as int);
        let (p, s) = scalar::lowest(n as int, e as int);
        let (q, r) = scalar::lowest(m as int, d as int);
        lemma_crosswise(n as int, d as int, m as int, e as int, g, h, p, q, r, s);
        lemma_fitted(p * q, r * s);
        if m != 0 && m > i128::MIN {
            lemma_quotient(n as int, d as int, m as int, e as int);
        }
    }
}

proof fn lemma_quotient(n: int, d: int, m: int, e: int)
    requires
        d > 0,
        e > 0,
        m != 0,
    ensures
        (m as real) / (e as real) != 0real,
        ({
            let (p, s) = scalar::lowest(n, scalar::size(m) as int);
            let (q, r) = scalar::lowest(e, d);
            let of = if m > 0 {
                scalar::fitted(p * q, r * s)
            } else {
                scalar::fitted(-(p * q), r * s)
            };
            of is Value ==> number(of) == ((n as real) / (d as real)) / ((m as real) / (e as real))
        }),
{
    let c = scalar::size(m) as int;
    let g = scalar::lemma_lowest(n, c);
    let h = scalar::lemma_lowest(e, d);
    let (p, s) = scalar::lowest(n, c);
    let (q, r) = scalar::lowest(e, d);
    lemma_crosswise(n, d, e, c, g, h, p, q, r, s);
    lemma_fitted(p * q, r * s);
    lemma_fitted(-(p * q), r * s);
    lemma_positive(c);
    lemma_positive(d);
    lemma_positive(e);
    lemma_positive(r * s);
    let (x, y, z, w) = (n as real, d as real, c as real, e as real);
    assert(z / w != 0real && (-z) / w != 0real) by (nonlinear_arith)
        requires
            z > 0real,
            w > 0real,
    ;
    assert((x / y) * (w / z) == (x / y) / (z / w)) by (nonlinear_arith)
        requires
            y > 0real,
            w > 0real,
            z > 0real,
    ;
    let (t, u) = ((p * q) as real, (r * s) as real);
    assert((-t) / u == -(t / u)) by (nonlinear_arith)
        requires
            u > 0real,
    ;
    assert(-((x / y) / (z / w)) == (x / y) / ((-z) / w)) by (nonlinear_arith)
        requires
            y > 0real,
            w > 0real,
            z > 0real,
    ;
    assert((-(p * q)) as real == -t);
}

/// Where a result is defined, it is the sum, the difference, the product or the quotient of the
/// numbers: nothing is rounded.
pub proof fn nothing_is_rounded(a: Exact, b: Exact)
    requires
        is_number(a),
        is_number(b),
    ensures
        a.spec_plus(b) is Value ==> number(a.spec_plus(b)) == number(a) + number(b),
        a.spec_minus(b) is Value ==> number(a.spec_minus(b)) == number(a) - number(b),
        a.spec_times(b) is Value ==> number(a.spec_times(b)) == number(a) * number(b),
        a.spec_over(b) is Value ==> number(b) != 0real && number(a.spec_over(b)) == number(a)
            / number(b),
{
    lemma_sum(a, b);
    lemma_multiple(a, b);
}

/// Any two numbers compare as numbers do, however large their fractions are.
pub proof fn comparisons_are_of_the_numbers(a: Exact, b: Exact)
    requires
        is_number(a),
        is_number(b),
    ensures
        a.spec_lt(b) <==> number(a) < number(b),
        a.spec_le(b) <==> number(a) <= number(b),
{
    if let (Exact::Value(n, d), Exact::Value(m, e)) = (a, b) {
        let (x, y, z, w) = (n as real, d as real, m as real, e as real);
        lemma_positive(d as int);
        lemma_positive(e as int);
        lemma_product(n as int, e as int);
        lemma_product(m as int, d as int);
        assert(x * w < z * y <==> x / y < z / w) by (nonlinear_arith)
            requires
                y > 0real,
                w > 0real,
        ;
        assert(x * w <= z * y <==> x / y <= z / w) by (nonlinear_arith)
            requires
                y > 0real,
                w > 0real,
        ;
    }
}

/// What is known is a number, and a comparison that is true is one of numbers.
pub proof fn only_numbers_compare(a: Exact, b: Exact)
    ensures
        scalar::known(a) <==> is_number(a),
        a.spec_lt(b) ==> is_number(a) && is_number(b),
        a.spec_le(b) ==> is_number(a) && is_number(b),
{
}

/// A fraction whose numerator and denominator do not exceed `b`.
pub open spec fn within(e: Exact, b: int) -> bool {
    e matches Exact::Value(n, d) && -b <= n <= b && 0 < d <= b
}

proof fn lemma_product_within(n: int, m: int, x: int, y: int)
    requires
        -x <= n <= x,
        -y <= m <= y,
    ensures
        -(x * y) <= n * m <= x * y,
        n > 0 && m > 0 ==> n * m > 0,
{
    assert(-(x * y) <= n * m <= x * y) by (nonlinear_arith)
        requires
            -x <= n <= x,
            -y <= m <= y,
    ;
    assert(n > 0 && m > 0 ==> n * m > 0) by (nonlinear_arith);
}

proof fn lemma_fitted_within(n: int, d: int, b: int)
    requires
        -b <= n <= b,
        0 < d <= b,
        b <= i128::MAX,
    ensures
        within(scalar::fitted(n, d), b),
{
    scalar::lemma_lowest(n, d);
}

/// Figures within bounds stay defined: sums and differences of fractions within `x` and `y` are
/// within twice the product of the bounds, products and quotients within the product, as long as
/// that fits.
pub proof fn moderate_figures_are_defined(a: Exact, b: Exact, x: int, y: int)
    requires
        within(a, x),
        within(b, y),
        2 * (x * y) <= i128::MAX,
    ensures
        within(a.spec_plus(b), 2 * (x * y)),
        within(a.spec_minus(b), 2 * (x * y)),
        within(a.spec_times(b), x * y),
        number(b) != 0real ==> within(a.spec_over(b), x * y),
{
    if let (Exact::Value(n, d), Exact::Value(m, e)) = (a, b) {
        assert(x * y > 0 && x <= i128::MAX && y <= i128::MAX) by (nonlinear_arith)
            requires
                x >= 1,
                y >= 1,
                2 * (x * y) <= i128::MAX,
        ;
        let (i, j) = scalar::raised(d as int, e as int);
        let (u, v, w) = scalar::brought(n as int, d as int, m as int, e as int);
        scalar::lemma_raised(d as int, e as int);
        lemma_product_within(n as int, i, x, y);
        lemma_product_within(m as int, j, y, x);
        lemma_product_within(d as int, i, x, y);
        assert(y * x == x * y) by (nonlinear_arith);
        lemma_fitted_within(u + v, w, 2 * (x * y));
        lemma_fitted_within(u - v, w, 2 * (x * y));
        let (p, s) = scalar::lowest(n as int, e as int);
        let (q, r) = scalar::lowest(m as int, d as int);
        scalar::lemma_lowest(n as int, e as int);
        scalar::lemma_lowest(m as int, d as int);
        lemma_product_within(p, q, x, y);
        lemma_product_within(r, s, x, y);
        lemma_fitted_within(p * q, r * s, x * y);
        if m == 0 {
            lemma_positive(e as int);
            assert((0real) / (e as real) == 0real) by (nonlinear_arith)
                requires
                    e as real > 0real,
            ;
        } else {
            let c = scalar::size(m as int) as int;
            let (p, s) = scalar::lowest(n as int, c);
            let (q, r) = scalar::lowest(e as int, d as int);
            scalar::lemma_lowest(n as int, c);
            scalar::lemma_lowest(e as int, d as int);
            lemma_product_within(p, q, x, y);
            lemma_product_within(r, s, x, y);
            lemma_fitted_within(p * q, r * s, x * y);
            lemma_fitted_within(-(p * q), r * s, x * y);
        }
    }
}

/// No excess passes in silence: where limit, area and gate area are numbers and their quotient is
/// defined, it is found to exceed the limit exactly when, as numbers, limit and gate area are
/// positive and the quotient is greater than the limit.
pub proof fn every_excess_shows(limit: Exact, area: Exact, gate: Exact)
    requires
        is_number(limit),
        is_number(gate),
        number(gate) > 0real ==> area.spec_over(gate) is Value,
    ensures
        LayerRules::excess(limit, area, gate) is Some <==> number(limit) > 0real && number(gate)
            > 0real && number(area) / number(gate) > number(limit),
        LayerRules::excess(limit, area, gate) matches Some(v) ==> number(v) == number(area)
            / number(gate),
{
    lemma_zero();
    comparisons_are_of_the_numbers(limit, Exact::Value(0, 1));
    comparisons_are_of_the_numbers(gate, Exact::Value(0, 1));
    if number(gate) > 0real {
        results_are_made_of_numbers(area, gate);
        nothing_is_rounded(area, gate);
        comparisons_are_of_the_numbers(limit, area.spec_over(gate));
    }
}

/// The quotient of an area and a positive gate area is defined where both are fractions of at most
/// 63 bits.
pub proof fn a_moderate_quotient_is_defined(area: Exact, gate: Exact)
    requires
        within(area, 0x7fff_ffff_ffff_ffff),
        within(gate, 0x7fff_ffff_ffff_ffff),
        number(gate) > 0real,
    ensures
        area.spec_over(gate) is Value,
{
    let b: int = 0x7fff_ffff_ffff_ffff;
    assert(2 * (b * b) <= i128::MAX) by (nonlinear_arith)
        requires
            b == 0x7fff_ffff_ffff_ffff,
    ;
    moderate_figures_are_defined(area, gate, b, b);
}

/// A ratio that is defined is the number that it should be. On a conductor with diffusion, that is
/// taken off the metal and added to gate area; on one without, the metal is over gate area alone.
pub proof fn a_defined_ratio_is_exact(
    rule: LayerRules<Exact>,
    ratio: Ratio,
    area: Exact,
    gate: Exact,
    diff: Exact,
)
    requires
        rule.ratio_value(ratio, area, gate, diff) is Value,
    ensures
        is_number(rule.ratio_value(ratio, area, gate, diff)),
        scalar::positive(diff) ==> number(rule.ratio_value(ratio, area, gate, diff)) == (number(
            rule.diff_factor(ratio),
        ) * number(area) * number(rule.reduced(diff)) - number(rule.minus_diff_factor) * number(
            diff,
        )) / (number(gate) + number(rule.plus_diff_factor) * number(diff)),
        !scalar::positive(diff) ==> number(rule.ratio_value(ratio, area, gate, diff)) == number(
            rule.bare_factor(ratio),
        ) * number(area) / number(gate),
{
    if scalar::positive(diff) {
        let f = rule.diff_factor(ratio);
        let fa = f.spec_times(area);
        let far = fa.spec_times(rule.reduced(diff));
        let less = rule.minus_diff_factor.spec_times(diff);
        let more = rule.plus_diff_factor.spec_times(diff);
        let top = far.spec_minus(less);
        let under = gate.spec_plus(more);
        results_are_made_of_numbers(top, under);
        results_are_made_of_numbers(far, less);
        results_are_made_of_numbers(gate, more);
        results_are_made_of_numbers(fa, rule.reduced(diff));
        results_are_made_of_numbers(f, area);
        results_are_made_of_numbers(rule.minus_diff_factor, diff);
        results_are_made_of_numbers(rule.plus_diff_factor, diff);
        nothing_is_rounded(f, area);
        nothing_is_rounded(fa, rule.reduced(diff));
        nothing_is_rounded(rule.minus_diff_factor, diff);
        nothing_is_rounded(rule.plus_diff_factor, diff);
        nothing_is_rounded(far, less);
        nothing_is_rounded(gate, more);
        nothing_is_rounded(top, under);
    } else {
        let f = rule.bare_factor(ratio);
        let fa = f.spec_times(area);
        results_are_made_of_numbers(fa, gate);
        results_are_made_of_numbers(f, area);
        nothing_is_rounded(f, area);
        nothing_is_rounded(fa, gate);
    }
}

/// The ratio of a conductor without diffusion is defined where the product of the bounds of its
/// three figures fits twice over.
pub proof fn a_moderate_bare_ratio_is_defined(
    rule: LayerRules<Exact>,
    ratio: Ratio,
    area: Exact,
    gate: Exact,
    diff: Exact,
    f: int,
    a: int,
    g: int,
)
    requires
        !scalar::positive(diff),
        within(rule.bare_factor(ratio), f),
        within(area, a),
        within(gate, g),
        number(gate) > 0real,
        2 * (f * a * g) <= i128::MAX,
    ensures
        rule.ratio_value(ratio, area, gate, diff) is Value,
{
    assert(f * a <= f * a * g && f * a > 0) by (nonlinear_arith)
        requires
            f >= 1,
            a >= 1,
            g >= 1,
    ;
    moderate_figures_are_defined(rule.bare_factor(ratio), area, f, a);
    moderate_figures_are_defined(rule.bare_factor(ratio).spec_times(area), gate, f * a, g);
}

/// The ratio of a conductor with diffusion is defined where the bounds of its four parts, each for
/// itself, leave room for the quotient: the metal, what diffusion relieves it of, gate area, and
/// what diffusion adds to it.
pub proof fn a_moderate_relieved_ratio_is_defined(
    rule: LayerRules<Exact>,
    ratio: Ratio,
    area: Exact,
    gate: Exact,
    diff: Exact,
    metal: int,
    relief: int,
    g: int,
    added: int,
)
    requires
        scalar::positive(diff),
        within(
            rule.diff_factor(ratio).spec_times(area).spec_times(rule.reduced(diff)),
            metal,
        ),
        within(rule.minus_diff_factor.spec_times(diff), relief),
        within(gate, g),
        within(rule.plus_diff_factor.spec_times(diff), added),
        number(gate) + number(rule.plus_diff_factor) * number(diff) > 0real,
        8 * (metal * relief * (g * added)) <= i128::MAX,
    ensures
        rule.ratio_value(ratio, area, gate, diff) is Value,
{
    let far = rule.diff_factor(ratio).spec_times(area).spec_times(rule.reduced(diff));
    let less = rule.minus_diff_factor.spec_times(diff);
    let more = rule.plus_diff_factor.spec_times(diff);
    let u = metal * relief;
    let v = g * added;
    assert(u >= 1 && v >= 1 && u <= u * v && v <= u * v) by (nonlinear_arith)
        requires
            u == metal * relief,
            v == g * added,
            metal >= 1,
            relief >= 1,
            g >= 1,
            added >= 1,
    ;
    moderate_figures_are_defined(far, less, metal, relief);
    moderate_figures_are_defined(gate, more, g, added);
    results_are_made_of_numbers(rule.plus_diff_factor, diff);
    nothing_is_rounded(rule.plus_diff_factor, diff);
    nothing_is_rounded(gate, more);
    assert((2 * u) * (2 * v) == 4 * (u * v)) by (nonlinear_arith);
    moderate_figures_are_defined(far.spec_minus(less), gate.spec_plus(more), 2 * u, 2 * v);
}

/// The numbers of the ratios of those of the first `n` conductors that count, added up.
pub open spec fn ratio_numbers(
    regions: Seq<RegionExposure<Exact>>,
    rule: LayerRules<Exact>,
    pin: Seq<char>,
    layer: Seq<char>,
    ratio: Ratio,
    n: int,
) -> real
    decreases n,
{
    if n <= 0 {
        0real
    } else {
        let before = ratio_numbers(regions, rule, pin, layer, ratio, n - 1);
        let e = regions[n - 1];
        if check::counts(e, pin, layer, ratio) {
            before + number(
                rule.ratio_value(
                    ratio,
                    check::metal_for(e, ratio),
                    e.gate_area_um2,
                    e.diff_area_um2,
                ),
            )
        } else {
            before
        }
    }
}

/// While it is defined, the sum of a pin's ratios is the sum of their numbers, and every one of
/// them is a number.
pub proof fn ratios_add_up(
    regions: Seq<RegionExposure<Exact>>,
    rule: LayerRules<Exact>,
    pin: Seq<char>,
    layer: Seq<char>,
    ratio: Ratio,
    n: int,
)
    requires
        check::value_sum(regions, rule, pin, layer, ratio, n) is Value,
    ensures
        is_number(check::value_sum(regions, rule, pin, layer, ratio, n)),
        number(check::value_sum(regions, rule, pin, layer, ratio, n)) == ratio_numbers(
            regions,
            rule,
            pin,
            layer,
            ratio,
            n,
        ),
        forall|k: int|
            0 <= k < n && check::counts(#[trigger] regions[k], pin, layer, ratio) ==> is_number(
                rule.ratio_value(
                    ratio,
                    check::metal_for(regions[k], ratio),
                    regions[k].gate_area_um2,
                    regions[k].diff_area_um2,
                ),
            ),
    decreases n,
{
    if n > 0 {
        let before = check::value_sum(regions, rule, pin, layer, ratio, n - 1);
        let e = regions[n - 1];
        let own = rule.ratio_value(
            ratio,
            check::metal_for(e, ratio),
            e.gate_area_um2,
            e.diff_area_um2,
        );
        if check::counts(e, pin, layer, ratio) {
            results_are_made_of_numbers(before, own);
            nothing_is_rounded(before, own);
        }
        ratios_add_up(regions, rule, pin, layer, ratio, n - 1);
    } else {
        lemma_zero();
    }
}

/// A pin is found to exceed its limit exactly when the numbers say so, unless the verdict was left
/// open: the limit is positive, and the ratios of its conductors add up to more.
pub proof fn a_verdict_is_of_the_numbers(
    name: Seq<char>,
    regions: Seq<RegionExposure<Exact>>,
    rule: LayerRules<Exact>,
    pin: Seq<char>,
    layer: Seq<char>,
    ratio: Ratio,
    k: int,
)
    requires
        check::first_counting(regions, pin, layer, ratio, k),
        !check::unjudged(regions, rule, pin, layer, ratio),
    ensures
        check::verdict(name, regions, rule, pin, layer, ratio) is Some <==> number(
            rule.ratio_limit(ratio, regions[k].diff_area_um2),
        ) > 0real && ratio_numbers(regions, rule, pin, layer, ratio, regions.len() as int)
            > number(rule.ratio_limit(ratio, regions[k].diff_area_um2)),
{
    let j = choose|j: int| check::first_counting(regions, pin, layer, ratio, j);
    check::lemma_first_counting(regions, pin, layer, ratio, k, j);
    let zero = Exact::Value(0, 1);
    let limit = rule.ratio_limit(ratio, regions[k].diff_area_um2);
    let value = check::value_sum(regions, rule, pin, layer, ratio, regions.len() as int);
    lemma_zero();
    only_numbers_compare(limit, zero);
    if is_number(limit) {
        comparisons_are_of_the_numbers(limit, zero);
    }
    if !limit.spec_le(zero) {
        only_numbers_compare(limit, limit);
        only_numbers_compare(value, value);
        comparisons_are_of_the_numbers(limit, value);
        ratios_add_up(regions, rule, pin, layer, ratio, regions.len() as int);
    }
}

/// No excess passes in silence: on a net that the report does not count as unsettled, every figure
/// of a conductor on a layer with limits is a number, and every pin of it is judged by the numbers.
pub proof fn a_settled_net_is_judged_by_the_numbers(
    na: NetAntenna<Exact>,
    table: RuleTable<Exact>,
    r: int,
    p: int,
    ratio: Ratio,
    k: int,
)
    requires
        !check::unsettled(na, table),
        0 <= r < na.regions@.len(),
        0 <= p < na.regions@[r].pins@.len(),
        check::applied_rule(table, na.regions@[r].layer@) is Some,
        check::first_counting(
            na.regions@,
            na.regions@[r].pins@[p]@,
            na.regions@[r].layer@,
            ratio,
            k,
        ),
    ensures
        check::figures_known(na.regions@[r]),
        ({
            let regions = na.regions@;
            let e = regions[r];
            let rule = check::applied_rule(table, e.layer@)->0;
            let pin = e.pins@[p]@;
            let limit = rule.ratio_limit(ratio, regions[k].diff_area_um2);
            check::verdict(na.net@, regions, rule, pin, e.layer@, ratio) is Some <==> number(limit)
                > 0real && ratio_numbers(
                regions,
                rule,
                pin,
                e.layer@,
                ratio,
                regions.len() as int,
            ) > number(limit)
        }),
{
    let regions = na.regions@;
    let e = regions[r];
    let rule = check::applied_rule(table, e.layer@)->0;
    assert(!check::region_unsettled(regions, table, r));
    assert(!check::unjudged(regions, rule, e.pins@[p]@, e.layer@, ratio));
    a_verdict_is_of_the_numbers(na.net@, regions, rule, e.pins@[p]@, e.layer@, ratio, k);
}

/// A common divisor is a sum of multiples.
proof fn lemma_bezout(a: nat, b: nat) -> (r: (int, int))
    ensures
        scalar::gcd(a, b) == r.0 * a + r.1 * b,
    decreases b,
{
    if b == 0 {
        assert(a == 1 * a + 0 * b) by (nonlinear_arith);
        (1, 0)
    } else {
        let (s, t) = lemma_bezout(b, a % b);
        let q = (a / b) as int;
        let m = (a % b) as int;
        vstd::arithmetic::div_mod::lemma_fundamental_div_mod(a as int, b as int);
        assert(s * b + t * m == t * a + (s - t * q) * b) by (nonlinear_arith)
            requires
                a == b * q + m,
        ;
        (t, s - t * q)
    }
}

/// The least common denominator divides every common one.
proof fn lemma_least(b: int, d: int, k: int, u: int, v: int) -> (w: int)
    requires
        b > 0,
        d > 0,
        k > 0,
        k == b * u,
        k == d * v,
    ensures
        w > 0,
        u == scalar::raised(b, d).0 * w,
        v == scalar::raised(b, d).1 * w,
        k == (b * scalar::raised(b, d).0) * w,
{
    let g = scalar::gcd(scalar::size(b), scalar::size(d)) as int;
    scalar::lemma_gcd(scalar::size(b), scalar::size(d));
    scalar::lemma_raised(b, d);
    let (x, y) = scalar::raised(b, d);
    let (s, t) = lemma_bezout(scalar::size(b), scalar::size(d));
    assert(g == s * b + t * d);
    assert(b == g * y && d == g * x);
    assert(s * y + t * x == 1) by (nonlinear_arith)
        requires
            g == s * b + t * d,
            b == g * y,
            d == g * x,
            g > 0,
    ;
    assert(y * u == x * v) by (nonlinear_arith)
        requires
            b * u == d * v,
            b == g * y,
            d == g * x,
            g > 0,
    ;
    let w = s * v + t * u;
    assert(u == x * w) by (nonlinear_arith)
        requires
            s * y + t * x == 1,
            y * u == x * v,
            w == s * v + t * u,
    ;
    assert(v == y * w) by (nonlinear_arith)
        requires
            s * y + t * x == 1,
            y * u == x * v,
            w == s * v + t * u,
    ;
    assert(k == (b * x) * w) by (nonlinear_arith)
        requires
            k == b * u,
            u == x * w,
    ;
    assert(w > 0) by (nonlinear_arith)
        requires
            k == (b * x) * w,
            k > 0,
            b * x > 0,
    ;
    w
}

/// `e` is a whole number of parts of size one over `k`, no more than `most` of them.
pub open spec fn in_parts(e: Exact, k: int, most: int) -> bool {
    e matches Exact::Value(n, d) && d > 0 && k % (d as int) == 0 && -most <= n * (k / (d as int))
        <= most
}

/// Figures with a common denominator add up without growing it: sums of multiples of one over `k`
/// are defined, and are such multiples again, as long as the numbers of parts fit.
pub proof fn sums_over_a_common_denominator_are_defined(
    a: Exact,
    b: Exact,
    k: int,
    x: int,
    y: int,
)
    requires
        0 < k <= i128::MAX,
        in_parts(a, k, x),
        in_parts(b, k, y),
        x + y <= i128::MAX,
    ensures
        in_parts(a.spec_plus(b), k, x + y),
        in_parts(a.spec_minus(b), k, x + y),
{
    if let (Exact::Value(n, d), Exact::Value(m, e)) = (a, b) {
        let (p, q) = (k / (d as int), k / (e as int));
        vstd::arithmetic::div_mod::lemma_fundamental_div_mod(k, d as int);
        vstd::arithmetic::div_mod::lemma_fundamental_div_mod(k, e as int);
        let w = lemma_least(d as int, e as int, k, p, q);
        let (i, j) = scalar::raised(d as int, e as int);
        let (r, s, z) = scalar::brought(n as int, d as int, m as int, e as int);
        scalar::lemma_raised(d as int, e as int);
        assert(r * w == n * p && s * w == m * q) by (nonlinear_arith)
            requires
                r == n * i,
                s == m * j,
                p == i * w,
                q == j * w,
        ;
        lemma_smaller(r, w, x);
        lemma_smaller(s, w, y);
        assert(z <= k) by (nonlinear_arith)
            requires
                k == z * w,
                w >= 1,
                z > 0,
        ;
        assert((r + s) * w == r * w + s * w && (r - s) * w == r * w - s * w) by (nonlinear_arith);
        lemma_smaller(r + s, w, x + y);
        lemma_smaller(r - s, w, x + y);
        lemma_parts(r + s, z, w, k, x + y);
        lemma_parts(r - s, z, w, k, x + y);
    }
}

proof fn lemma_smaller(n: int, w: int, b: int)
    requires
        w >= 1,
        -b <= n * w <= b,
    ensures
        -b <= n <= b,
{
    assert(-b <= n <= b) by (nonlinear_arith)
        requires
            w >= 1,
            -b <= n * w <= b,
    ;
}

proof fn lemma_parts(n: int, z: int, w: int, k: int, most: int)
    requires
        z > 0,
        w > 0,
        k == z * w,
        z <= i128::MAX,
        -most <= n <= most,
        -most <= n * w <= most,
        most <= i128::MAX,
    ensures
        in_parts(scalar::fitted(n, z), k, most),
{
    let g = scalar::lemma_lowest(n, z);
    let (x, y) = scalar::lowest(n, z);
    assert(k == y * (g * w)) by (nonlinear_arith)
        requires
            k == z * w,
            z == g * y,
    ;
    scalar::lemma_exact_quotient(k, y, g * w);
    vstd::arithmetic::div_mod::lemma_fundamental_div_mod(k, y);
    assert(x * (g * w) == n * w) by (nonlinear_arith)
        requires
            n == g * x,
    ;
}

/// The side areas of the first `n` stage layers as numbers, added up.
pub open spec fn side_numbers(
    stack: Seq<i64>,
    present: Seq<i64>,
    n: int,
    layers: Seq<LayerInfo>,
    dbu: i64,
) -> real
    decreases n,
{
    if n <= 0 {
        0real
    } else {
        side_numbers(stack, present, n - 1, layers, dbu) + (stack[n - 1] as real) * (
        net::layer_thickness(layers, present[n - 1]) as real) / ((dbu as real) * (dbu as real))
    }
}

proof fn lemma_side_sum(
    stack: Seq<i64>,
    present: Seq<i64>,
    n: int,
    layers: Seq<LayerInfo>,
    dbu: i64,
)
    requires
        dbu > 0,
        net::side_sum::<Exact>(stack, present, n, layers) is Value,
    ensures
        is_number(net::side_sum::<Exact>(stack, present, n, layers)),
        number(net::side_sum::<Exact>(stack, present, n, layers)) / ((dbu as real) * (
        dbu as real)) == side_numbers(stack, present, n, layers, dbu),
    decreases n,
{
    let w = (dbu as real) * (dbu as real);
    assert(w > 0real) by (nonlinear_arith)
        requires
            w == (dbu as real) * (dbu as real),
            dbu as real > 0real,
    ;
    if n > 0 {
        let p = Exact::spec_of(stack[n - 1]);
        let t = Exact::spec_of(net::layer_thickness(layers, present[n - 1]));
        let own = p.spec_times(t);
        let before = net::side_sum::<Exact>(stack, present, n - 1, layers);
        lemma_side_sum(stack, present, n - 1, layers, dbu);
        scalar::exact_stays_well_formed(p, t);
        scalar::exact_stays_well_formed(before, own);
        nothing_is_rounded(p, t);
        nothing_is_rounded(before, own);
        let x = number(before);
        let y = number(own);
        assert((x + y) / w == x / w + y / w) by (nonlinear_arith)
            requires
                w > 0real,
        ;
        lemma_whole(stack[n - 1]);
        lemma_whole(net::layer_thickness(layers, present[n - 1]));
    } else {
        lemma_zero();
        assert(0real / w == 0real) by (nonlinear_arith)
            requires
                w > 0real,
        ;
    }
}

pub proof fn lemma_whole(v: i64)
    ensures
        number(Exact::spec_of(v)) == v as real,
        is_number(Exact::spec_of(v)),
{
    let x = v as real;
    assert(x / 1real == x) by (nonlinear_arith);
}

/// The cumulative side area is the sum of the side areas of the layers up to the stage, each its
/// perimeter times its own thickness.
pub proof fn side_areas_add_up(
    stack: Seq<i64>,
    present: Seq<i64>,
    s: int,
    layers: Seq<LayerInfo>,
    dbu: i64,
)
    requires
        dbu > 0,
        net::stack_um2(stack, present, s, layers, Exact::spec_of(dbu)) is Value,
    ensures
        number(net::stack_um2(stack, present, s, layers, Exact::spec_of(dbu))) == side_numbers(
            stack,
            present,
            s + 1,
            layers,
            dbu,
        ),
{
    let u = Exact::spec_of(dbu);
    let sum = net::side_sum::<Exact>(stack, present, s + 1, layers);
    lemma_side_sum(stack, present, s + 1, layers, dbu);
    lemma_whole(dbu);
    scalar::exact_stays_well_formed(u, u);
    nothing_is_rounded(u, u);
    nothing_is_rounded(sum, u.spec_times(u));
}

/// All points are numbers, and neither coordinate falls from one to a later one.
pub open spec fn rising_curve(p: Seq<(Exact, Exact)>) -> bool {
    &&& forall|i: int| 0 <= i < p.len() ==> is_number((#[trigger] p[i]).0) && is_number(p[i].1)
    &&& forall|i: int, j: int|
        #![trigger p[i], p[j]]
        0 <= i < j < p.len() ==> number(p[i].0) <= number(p[j].0) && number(p[i].1) <= number(
            p[j].1,
        )
}

/// The difference of two numbers is zero exactly when they are equal, unless it is undefined.
proof fn lemma_span(a: Exact, b: Exact)
    requires
        is_number(a),
        is_number(b),
        b.spec_minus(a) is Value,
    ensures
        is_number(b.spec_minus(a)),
        number(b.spec_minus(a)) == number(b) - number(a),
        rules::is_zero(b.spec_minus(a)) ==> number(b) == number(a),
{
    nothing_is_rounded(b, a);
    scalar::exact_stays_well_formed(b, a);
    let span = b.spec_minus(a);
    comparisons_are_of_the_numbers(span, Exact::Value(0, 1));
    comparisons_are_of_the_numbers(Exact::Value(0, 1), span);
    lemma_zero();
}

pub proof fn lemma_zero()
    ensures
        number(Exact::Value(0, 1)) == 0real,
{
    assert(0real / 1real == 0real) by (nonlinear_arith);
}

/// Inside a segment the limit is on the line through its ends.
pub proof fn lemma_on_the_line(a: (Exact, Exact), b: (Exact, Exact), x: Exact)
    requires
        is_number(a.0),
        is_number(a.1),
        is_number(b.0),
        is_number(b.1),
        is_number(x),
        rules::between(a, b, x) is Value,
    ensures
        number(rules::between(a, b, x)) == number(a.1) || number(b.0) != number(a.0) && number(
            rules::between(a, b, x),
        ) == number(a.1) + (number(b.1) - number(a.1)) * (number(x) - number(a.0)) / (number(b.0)
            - number(a.0)),
        number(b.0) != number(a.0) ==> number(rules::between(a, b, x)) == number(a.1) + (number(
            b.1,
        ) - number(a.1)) * (number(x) - number(a.0)) / (number(b.0) - number(a.0)),
{
    let span = b.0.spec_minus(a.0);
    if rules::is_zero(span) {
        assert(span is Value);
        lemma_span(a.0, b.0);
    } else {
        let rise = b.1.spec_minus(a.1);
        let run = x.spec_minus(a.0);
        let top = rise.spec_times(run);
        let part = top.spec_over(span);
        nothing_is_rounded(b.1, a.1);
        scalar::exact_stays_well_formed(b.1, a.1);
        nothing_is_rounded(x, a.0);
        scalar::exact_stays_well_formed(x, a.0);
        lemma_span(a.0, b.0);
        nothing_is_rounded(rise, run);
        scalar::exact_stays_well_formed(rise, run);
        nothing_is_rounded(top, span);
        scalar::exact_stays_well_formed(top, span);
        nothing_is_rounded(a.1, part);
    }
}

/// From the end of a segment on the limit is on the same line.
pub proof fn lemma_beyond_the_end(a: (Exact, Exact), b: (Exact, Exact), x: Exact)
    requires
        is_number(a.0),
        is_number(a.1),
        is_number(b.0),
        is_number(b.1),
        is_number(x),
        rules::beyond(a, b, x) is Value,
    ensures
        number(b.0) == number(a.0) ==> number(rules::beyond(a, b, x)) == number(b.1),
        number(b.0) != number(a.0) ==> number(rules::beyond(a, b, x)) == number(b.1) + (number(x)
            - number(b.0)) * ((number(b.1) - number(a.1)) / (number(b.0) - number(a.0))),
{
    let span = b.0.spec_minus(a.0);
    if rules::is_zero(span) {
        assert(span is Value);
        lemma_span(a.0, b.0);
    } else {
        let rise = b.1.spec_minus(a.1);
        let run = x.spec_minus(b.0);
        let slope = rise.spec_over(span);
        let part = run.spec_times(slope);
        nothing_is_rounded(b.1, a.1);
        scalar::exact_stays_well_formed(b.1, a.1);
        nothing_is_rounded(x, b.0);
        scalar::exact_stays_well_formed(x, b.0);
        lemma_span(a.0, b.0);
        nothing_is_rounded(rise, span);
        scalar::exact_stays_well_formed(rise, span);
        nothing_is_rounded(run, slope);
        scalar::exact_stays_well_formed(run, slope);
        nothing_is_rounded(b.1, part);
    }
}

/// A point of a line that does not fall lies between its ends, and later points no lower.
proof fn lemma_line(xa: real, ya: real, xb: real, yb: real, x: real, z: real)
    requires
        xa < xb,
        ya <= yb,
        xa <= x <= z <= xb,
    ensures
        ya <= ya + (yb - ya) * (x - xa) / (xb - xa) <= ya + (yb - ya) * (z - xa) / (xb - xa) <= yb,
{
    let s = xb - xa;
    let r = yb - ya;
    let u = x - xa;
    let v = z - xa;
    assert(0real <= r * u <= r * v <= r * s) by (nonlinear_arith)
        requires
            0real <= r,
            0real <= u <= v <= s,
    ;
    assert(0real <= (r * u) / s <= (r * v) / s <= r) by (nonlinear_arith)
        requires
            0real < s,
            0real <= r * u <= r * v <= r * s,
    ;
}

/// Past its end such a line does not fall either.
proof fn lemma_slope(run: real, more: real, rise: real, span: real)
    requires
        0real <= run <= more,
        rise >= 0real,
        span > 0real,
    ensures
        0real <= run * (rise / span) <= more * (rise / span),
{
    assert(rise / span >= 0real) by (nonlinear_arith)
        requires
            rise >= 0real,
            span > 0real,
    ;
    let slope = rise / span;
    assert(0real <= run * slope <= more * slope) by (nonlinear_arith)
        requires
            0real <= run <= more,
            slope >= 0real,
    ;
}

/// The limit at `x` on a segment is at least the limit at its start and at most that at its end.
proof fn lemma_between_ends(p: Seq<(Exact, Exact)>, x: Exact, i: int)
    requires
        rising_curve(p),
        is_number(x),
        rules::on_segment(p, x, i),
        rules::between(p[i], p[i + 1], x) is Value,
    ensures
        number(p[i].0) <= number(x) <= number(p[i + 1].0),
        number(p[i].1) <= number(rules::between(p[i], p[i + 1], x)) <= number(p[i + 1].1),
{
    let a = p[i];
    let b = p[i + 1];
    assert(is_number(a.0) && is_number(b.0));
    comparisons_are_of_the_numbers(a.0, x);
    comparisons_are_of_the_numbers(x, b.0);
    lemma_on_the_line(a, b, x);
    if number(a.0) != number(b.0) {
        lemma_line(
            number(a.0),
            number(a.1),
            number(b.0),
            number(b.1),
            number(x),
            number(x),
        );
    }
}

/// Past the last point the limit is at least that of the last point.
proof fn lemma_beyond_last(p: Seq<(Exact, Exact)>, x: Exact)
    requires
        rising_curve(p),
        p.len() >= 2,
        is_number(x),
        p.last().0.spec_le(x),
        rules::beyond(p[p.len() - 2], p.last(), x) is Value,
    ensures
        number(p.last().0) <= number(x),
        number(p.last().1) <= number(rules::beyond(p[p.len() - 2], p.last(), x)),
{
    let a = p[p.len() - 2];
    let b = p[p.len() - 1];
    assert(is_number(a.0) && is_number(b.0));
    comparisons_are_of_the_numbers(b.0, x);
    lemma_beyond_the_end(a, b, x);
    if number(a.0) != number(b.0) {
        lemma_slope(
            number(x) - number(b.0),
            number(x) - number(b.0),
            number(b.1) - number(a.1),
            number(b.0) - number(a.0),
        );
    }
}

/// More diffusion never lowers the limit that a rising curve states, which is how a protection
/// diode earns relief.
pub proof fn more_diffusion_never_lowers_the_limit(p: Seq<(Exact, Exact)>, x: Exact, z: Exact)
    requires
        rising_curve(p),
        is_number(x),
        is_number(z),
        number(x) < number(z),
        rules::limit_at(p, x) matches Some(l) && l is Value,
        rules::limit_at(p, z) matches Some(l) && l is Value,
    ensures
        number(rules::limit_at(p, x)->0) <= number(rules::limit_at(p, z)->0),
{
    let n = p.len() as int;
    assert(is_number(p[0].0));
    if n > 1 {
        comparisons_are_of_the_numbers(x, p[0].0);
        comparisons_are_of_the_numbers(z, p[0].0);
        assert(is_number(p[n - 1].0));
        if x.spec_le(p[0].0) {
            lemma_limit_from_first(p, z);
        } else if p.last().0.spec_le(x) {
            lemma_beyond_last(p, x);
            lemma_two_beyond(p, x, z);
        } else {
            let i = choose|i: int| rules::first_segment(p, x, i);
            lemma_between_ends(p, x, i);
            if z.spec_le(p[0].0) {
                assert(number(p[0].0) <= number(p[i].0));
            } else if p.last().0.spec_le(z) {
                lemma_beyond_last(p, z);
                assert(number(p[i + 1].1) <= number(p.last().1));
            } else {
                let j = choose|j: int| rules::first_segment(p, z, j);
                lemma_between_ends(p, z, j);
                lemma_two_between(p, x, z, i, j);
            }
        }
    }
}

/// No limit is below that of the first point.
proof fn lemma_limit_from_first(p: Seq<(Exact, Exact)>, z: Exact)
    requires
        rising_curve(p),
        p.len() > 1,
        is_number(z),
        rules::limit_at(p, z) matches Some(l) && l is Value,
    ensures
        number(p[0].1) <= number(rules::limit_at(p, z)->0),
{
    if z.spec_le(p[0].0) {
    } else if p.last().0.spec_le(z) {
        lemma_beyond_last(p, z);
        assert(number(p[0].1) <= number(p.last().1));
    } else {
        let j = choose|j: int| rules::first_segment(p, z, j);
        lemma_between_ends(p, z, j);
        assert(number(p[0].1) <= number(p[j].1));
    }
}

/// Two points past the last.
proof fn lemma_two_beyond(p: Seq<(Exact, Exact)>, x: Exact, z: Exact)
    requires
        rising_curve(p),
        p.len() > 1,
        is_number(x),
        is_number(z),
        number(x) < number(z),
        p.last().0.spec_le(x),
        !x.spec_le(p[0].0),
        rules::limit_at(p, x) matches Some(l) && l is Value,
        rules::limit_at(p, z) matches Some(l) && l is Value,
    ensures
        number(rules::limit_at(p, x)->0) <= number(rules::limit_at(p, z)->0),
{
    let a = p[p.len() - 2];
    let b = p[p.len() - 1];
    assert(is_number(a.0) && is_number(b.0) && is_number(p[0].0));
    comparisons_are_of_the_numbers(b.0, x);
    comparisons_are_of_the_numbers(z, p[0].0);
    assert(number(p[0].0) <= number(b.0));
    lemma_beyond_the_end(a, b, x);
    if b.0.spec_le(z) {
        lemma_beyond_the_end(a, b, z);
        if number(a.0) != number(b.0) {
            lemma_slope(
                number(x) - number(b.0),
                number(z) - number(b.0),
                number(b.1) - number(a.1),
                number(b.0) - number(a.0),
            );
        }
    } else {
        let j = choose|j: int| rules::first_segment(p, z, j);
        lemma_between_ends(p, z, j);
        assert(number(p[j + 1].0) <= number(b.0));
    }
}

/// Two points inside the table.
proof fn lemma_two_between(p: Seq<(Exact, Exact)>, x: Exact, z: Exact, i: int, j: int)
    requires
        rising_curve(p),
        is_number(x),
        is_number(z),
        number(x) < number(z),
        rules::on_segment(p, x, i),
        rules::on_segment(p, z, j),
        rules::between(p[i], p[i + 1], x) is Value,
        rules::between(p[j], p[j + 1], z) is Value,
    ensures
        number(rules::between(p[i], p[i + 1], x)) <= number(rules::between(p[j], p[j + 1], z)),
{
    lemma_between_ends(p, x, i);
    lemma_between_ends(p, z, j);
    if i < j {
        if i + 1 < j {
            assert(number(p[i + 1].1) <= number(p[j].1));
        }
    } else if j < i {
        if j + 1 < i {
            assert(number(p[j + 1].0) <= number(p[i].0));
        }
    } else {
        let a = p[i];
        let b = p[i + 1];
        lemma_on_the_line(a, b, x);
        lemma_on_the_line(a, b, z);
        lemma_line(
            number(a.0),
            number(a.1),
            number(b.0),
            number(b.1),
            number(x),
            number(z),
        );
    }
}

/// Nothing, one and a whole number are the numbers that they stand for.
pub proof fn whole_numbers_are_themselves(v: i64)
    ensures
        is_number(Exact::spec_zero()) && number(Exact::spec_zero()) == 0real,
        is_number(Exact::spec_one()) && number(Exact::spec_one()) == 1real,
        is_number(Exact::spec_of(v)) && number(Exact::spec_of(v)) == v as real,
{
    lemma_zero();
    lemma_whole(v);
    lemma_whole(1);
}

} // verus!
