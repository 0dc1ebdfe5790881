//! What a layer states, field by field: its limits, its factors, and what they make of a ratio.

use crate::laws::exact;
use crate::rules;
use crate::rules::LayerRules;
use crate::rules::Pwl;
use crate::rules::Ratio;
use crate::rules::RuleTable;
use crate::scalar::Exact;
use crate::scalar::Scalar;
use vstd::prelude::*;

verus! {

/// What a curve states at a diffusion area, and the plain limit where it states nothing.
pub open spec fn stated<Q: Scalar>(curve: Pwl<Q>, plain: Q, diff: Q) -> Q {
    match rules::limit_at(curve.0@, diff) {
        Some(l) => l,
        None => plain,
    }
}

/// Each ratio has the limit of its own curve, and of its own plain ratio where that curve gives
/// none: no ratio is held to what was stated of another.
pub proof fn each_ratio_has_its_own_limit<Q: Scalar>(r: LayerRules<Q>, diff: Q)
    ensures
        r.limit_for(Ratio::Par, diff) == stated(r.diff_par, r.par, diff),
        r.limit_for(Ratio::Car, diff) == stated(r.diff_car, r.car, diff),
        r.limit_for(Ratio::Psr, diff) == stated(r.diff_psr, r.psr, diff),
        r.limit_for(Ratio::Csr, diff) == stated(r.diff_csr, r.csr, diff),
{
}

/// With diffusion a ratio is held against its curve, whatever its plain ratio, and against the
/// plain ratio only where the curve gives none. This is how a protection diode earns relief on a
/// layer that states both forms.
pub proof fn diffusion_is_held_against_the_curve<Q: Scalar>(r: LayerRules<Q>, diff: Q)
    requires
        Q::spec_zero().spec_lt(diff),
    ensures
        r.ratio_limit(Ratio::Par, diff) == stated(r.diff_par, r.par, diff),
        r.ratio_limit(Ratio::Car, diff) == stated(r.diff_car, r.car, diff),
        r.ratio_limit(Ratio::Psr, diff) == stated(r.diff_psr, r.psr, diff),
        r.ratio_limit(Ratio::Csr, diff) == stated(r.diff_csr, r.csr, diff),
{
}

/// Without diffusion a plain ratio that is stated goes first, and the curve after it.
pub proof fn without_diffusion_the_plain_ratio_goes_first<Q: Scalar>(r: LayerRules<Q>, diff: Q)
    requires
        !Q::spec_zero().spec_lt(diff),
    ensures
        Q::spec_zero().spec_lt(r.par) ==> r.ratio_limit(Ratio::Par, diff) == r.par,
        Q::spec_zero().spec_lt(r.car) ==> r.ratio_limit(Ratio::Car, diff) == r.car,
        Q::spec_zero().spec_lt(r.psr) ==> r.ratio_limit(Ratio::Psr, diff) == r.psr,
        Q::spec_zero().spec_lt(r.csr) ==> r.ratio_limit(Ratio::Csr, diff) == r.csr,
        !Q::spec_zero().spec_lt(r.par) ==> r.ratio_limit(Ratio::Par, diff) == stated(
            r.diff_par,
            r.par,
            diff,
        ),
        !Q::spec_zero().spec_lt(r.car) ==> r.ratio_limit(Ratio::Car, diff) == stated(
            r.diff_car,
            r.car,
            diff,
        ),
        !Q::spec_zero().spec_lt(r.psr) ==> r.ratio_limit(Ratio::Psr, diff) == stated(
            r.diff_psr,
            r.psr,
            diff,
        ),
        !Q::spec_zero().spec_lt(r.csr) ==> r.ratio_limit(Ratio::Csr, diff) == stated(
            r.diff_csr,
            r.csr,
            diff,
        ),
{
}

/// An area ratio has the factors of area, and a side-area ratio those of side area.
pub open spec fn area_factor<Q>(r: LayerRules<Q>, ratio: Ratio, with_diffusion: bool) -> Q {
    match (ratio, with_diffusion) {
        (Ratio::Par, false) => r.metal_factor,
        (Ratio::Car, false) => r.metal_factor,
        (Ratio::Psr, false) => r.side_metal_factor,
        (Ratio::Csr, false) => r.side_metal_factor,
        (Ratio::Par, true) => r.diff_metal_factor,
        (Ratio::Car, true) => r.diff_metal_factor,
        (Ratio::Psr, true) => r.diff_side_metal_factor,
        (Ratio::Csr, true) => r.diff_side_metal_factor,
    }
}

/// What diffusion leaves of the metal, as a number: all of it, unless the layer states otherwise.
pub open spec fn left_of_metal(r: LayerRules<Exact>, diff: Exact) -> real {
    match rules::limit_at(r.area_diff_reduce.0@, diff) {
        Some(f) => exact::number(f),
        None => 1real,
    }
}

/// A ratio that is defined is, as numbers: without diffusion, metal times its factor over gate
/// area; with diffusion, metal times its factor and what diffusion leaves of it, less what each
/// unit of diffusion takes off, over gate area and what each unit of diffusion adds to it.
pub proof fn a_ratio_is_metal_over_gate_area(
    r: LayerRules<Exact>,
    ratio: Ratio,
    area: Exact,
    gate: Exact,
    diff: Exact,
)
    requires
        r.ratio_value(ratio, area, gate, diff) is Value,
    ensures
        exact::is_number(diff) && exact::number(diff) > 0real ==> exact::number(
            r.ratio_value(ratio, area, gate, diff),
        ) == (exact::number(area_factor(r, ratio, true)) * exact::number(area) * left_of_metal(r, diff)
            - exact::number(r.minus_diff_factor) * exact::number(diff)) / (exact::number(gate)
            + exact::number(r.plus_diff_factor) * exact::number(diff)),
        !(exact::is_number(diff) && exact::number(diff) > 0real) ==> exact::number(
            r.ratio_value(ratio, area, gate, diff),
        ) == exact::number(area_factor(r, ratio, false)) * exact::number(area) / exact::number(
            gate,
        ),
{
    exact::lemma_zero();
    exact::lemma_whole(1);
    exact::only_numbers_compare(Exact::Value(0, 1), diff);
    if exact::is_number(diff) {
        exact::comparisons_are_of_the_numbers(Exact::Value(0, 1), diff);
    }
    exact::a_defined_ratio_is_exact(r, ratio, area, gate, diff);
}

/// A layer states a limit exactly when it has a plain one, or points on any of its four curves.
pub proof fn a_limit_is_stated_in_either_form<Q: Scalar>(r: LayerRules<Q>)
    ensures
        r.states_limit() <==> r.valid || r.diff_par.0@.len() > 0 || r.diff_car.0@.len() > 0
            || r.diff_psr.0@.len() > 0 || r.diff_csr.0@.len() > 0,
{
    if r.diff_par.0@.len() > 0 {
        assert(r.curve(Ratio::Par).len() > 0);
    }
    if r.diff_car.0@.len() > 0 {
        assert(r.curve(Ratio::Car).len() > 0);
    }
    if r.diff_psr.0@.len() > 0 {
        assert(r.curve(Ratio::Psr).len() > 0);
    }
    if r.diff_csr.0@.len() > 0 {
        assert(r.curve(Ratio::Csr).len() > 0);
    }
}

/// Entry `k` is the last of the table under the name.
pub open spec fn last_entry<Q>(t: RuleTable<Q>, name: Seq<char>, k: int) -> bool {
    &&& 0 <= k < t.entries@.len()
    &&& t.entries@[k].0@ == name
    &&& forall|j: int| k < j < t.entries@.len() ==> (#[trigger] t.entries@[j]).0@ != name
}

proof fn lemma_entry<Q: Scalar>(
    entries: Seq<(String, LayerRules<Q>)>,
    name: Seq<char>,
    n: int,
    k: int,
)
    requires
        0 <= n <= entries.len(),
        forall|j: int| k < j < n ==> (#[trigger] entries[j]).0@ != name,
        -1 <= k < n,
        k >= 0 ==> entries[k].0@ == name,
    ensures
        rules::entry_for(entries.take(n), name) == (if k >= 0 {
            Some(entries[k].1)
        } else {
            None
        }),
    decreases n,
{
    let now = entries.take(n);
    if n > 0 {
        assert(now.last() == entries[n - 1]);
        assert(now.drop_last() =~= entries.take(n - 1));
        if k < n - 1 {
            lemma_entry(entries, name, n - 1, k);
        }
    }
}

/// The rules of a layer are those that were stated last under its name.
pub proof fn the_last_entry_holds<Q: Scalar>(t: RuleTable<Q>, name: Seq<char>)
    ensures
        forall|k: int| #[trigger]
            last_entry(t, name, k) ==> t.rules_of(name) == Some(t.entries@[k].1),
        (forall|k: int| 0 <= k < t.entries@.len() ==> (#[trigger] t.entries@[k]).0@ != name)
            ==> t.rules_of(name) is None,
{
    let n = t.entries@.len() as int;
    assert(t.entries@.take(n) =~= t.entries@);
    assert forall|k: int| #[trigger] last_entry(t, name, k) implies t.rules_of(name) == Some(
        t.entries@[k].1,
    ) by {
        lemma_entry(t.entries@, name, n, k);
    }
    if forall|k: int| 0 <= k < t.entries@.len() ==> (#[trigger] t.entries@[k]).0@ != name {
        lemma_entry(t.entries@, name, n, -1);
    }
}

/// The ratios are reported under their own names.
pub proof fn ratios_have_their_names()
    ensures
        Ratio::Par.name() == "PAR"@,
        Ratio::Car.name() == "CAR"@,
        Ratio::Psr.name() == "PSR"@,
        Ratio::Csr.name() == "CSR"@,
        !Ratio::Par.is_side() && !Ratio::Car.is_side(),
        Ratio::Psr.is_side() && Ratio::Csr.is_side(),
{
}

/// All points are numbers, and diffusion areas rise from one to the next.
pub open spec fn well_drawn(p: Seq<(Exact, Exact)>) -> bool {
    &&& forall|i: int|
        0 <= i < p.len() ==> exact::is_number((#[trigger] p[i]).0) && exact::is_number(p[i].1)
    &&& forall|i: int, j: int|
        #![trigger p[i], p[j]]
        0 <= i < j < p.len() ==> exact::number(p[i].0) < exact::number(p[j].0)
}

/// `l` is on the line through `a` and `b` at `x`.
pub open spec fn on_line(a: (Exact, Exact), b: (Exact, Exact), x: Exact, l: Exact) -> bool {
    (exact::number(l) - exact::number(a.1)) * (exact::number(b.0) - exact::number(a.0)) == (
    exact::number(b.1) - exact::number(a.1)) * (exact::number(x) - exact::number(a.0))
}

proof fn lemma_on_line(a: real, b: real, c: real, d: real, x: real, l: real)
    requires
        c != a,
        l == b + (d - b) * (x - a) / (c - a) || l == d + (x - c) * ((d - b) / (c - a)),
    ensures
        (l - b) * (c - a) == (d - b) * (x - a),
{
    let s = (d - b) / (c - a);
    assert(s * (c - a) == d - b) by (nonlinear_arith)
        requires
            s == (d - b) / (c - a),
            c != a,
    ;
    if l == b + (d - b) * (x - a) / (c - a) {
        let t = (d - b) * (x - a) / (c - a);
        assert(t * (c - a) == (d - b) * (x - a)) by (nonlinear_arith)
            requires
                t == (d - b) * (x - a) / (c - a),
                c != a,
        ;
        assert(l - b == t);
    } else {
        assert((l - b) * (c - a) == (d - b) * (x - a)) by (nonlinear_arith)
            requires
                l == d + (x - c) * s,
                s * (c - a) == d - b,
        ;
    }
}

/// What a curve states: nothing without points; the one ratio of a single point; the first ratio
/// up to the first point; and from there on the line through the two points that the diffusion
/// area lies between, or, past the last point, through the last two.
pub proof fn a_curve_is_drawn_through_its_points(p: Seq<(Exact, Exact)>, x: Exact, i: int)
    requires
        well_drawn(p),
        exact::is_number(x),
    ensures
        p.len() == 0 <==> rules::limit_at(p, x) is None,
        p.len() == 1 ==> rules::limit_at(p, x) == Some(p[0].1),
        p.len() > 0 && exact::number(x) <= exact::number(p[0].0) ==> rules::limit_at(p, x) == Some(
            p[0].1,
        ),
        0 <= i < p.len() - 1 && exact::number(p[i].0) <= exact::number(x) && exact::number(x)
            <= exact::number(p[i + 1].0) && rules::limit_at(p, x)->0 is Value ==> on_line(
            p[i],
            p[i + 1],
            x,
            rules::limit_at(p, x)->0,
        ),
        p.len() > 1 && exact::number(p.last().0) <= exact::number(x) && rules::limit_at(
            p,
            x,
        )->0 is Value ==> on_line(p[p.len() - 2], p.last(), x, rules::limit_at(p, x)->0),
{
    let n = p.len() as int;
    if n > 0 {
        assert(exact::is_number(p[0].0));
        exact::comparisons_are_of_the_numbers(x, p[0].0);
    }
    if n > 1 {
        assert(exact::is_number(p[n - 1].0));
        assert(exact::number(p[0].0) < exact::number(p[n - 1].0));
        exact::comparisons_are_of_the_numbers(p[n - 1].0, x);
        if exact::number(p[n - 1].0) <= exact::number(x) {
            let a = p[n - 2];
            let b = p[n - 1];
            assert(exact::number(a.0) < exact::number(b.0));
            assert(exact::is_number(a.0));
            if rules::limit_at(p, x)->0 is Value {
                exact::lemma_beyond_the_end(a, b, x);
                lemma_on_line(
                    exact::number(a.0),
                    exact::number(a.1),
                    exact::number(b.0),
                    exact::number(b.1),
                    exact::number(x),
                    exact::number(rules::limit_at(p, x)->0),
                );
            }
            if 0 <= i < n - 1 && i + 1 < n - 1 {
                assert(exact::number(p[i + 1].0) < exact::number(p[n - 1].0));
            }
        } else if exact::number(x) > exact::number(p[0].0) {
            let j = lemma_segment(p, x, 0);
            let k = choose|k: int| rules::first_segment(p, x, k);
            assert(exact::is_number(p[k].0) && exact::is_number(p[k + 1].0));
            exact::comparisons_are_of_the_numbers(p[k].0, x);
            exact::comparisons_are_of_the_numbers(x, p[k + 1].0);
            assert(exact::number(p[k].0) < exact::number(p[k + 1].0));
            if rules::limit_at(p, x)->0 is Value {
                let l = rules::limit_at(p, x)->0;
                exact::lemma_on_the_line(p[k], p[k + 1], x);
                lemma_on_line(
                    exact::number(p[k].0),
                    exact::number(p[k].1),
                    exact::number(p[k + 1].0),
                    exact::number(p[k + 1].1),
                    exact::number(x),
                    exact::number(l),
                );
                if 0 <= i < n - 1 && exact::number(p[i].0) <= exact::number(x) && exact::number(x)
                    <= exact::number(p[i + 1].0) {
                    lemma_same_line(p, x, l, k, i);
                }
            }
        } else {
            if 0 <= i < n - 1 && exact::number(p[i].0) <= exact::number(x) {
                if i > 0 {
                    assert(exact::number(p[0].0) < exact::number(p[i].0));
                }
                assert(on_line(p[0], p[1], x, p[0].1)) by (nonlinear_arith)
                    requires
                        exact::number(x) == exact::number(p[0].0),
                ;
            }
        }
    }
}

/// A diffusion area inside the table lies on a segment.
proof fn lemma_segment(p: Seq<(Exact, Exact)>, x: Exact, i: int) -> (j: int)
    requires
        well_drawn(p),
        exact::is_number(x),
        0 <= i < p.len() - 1,
        exact::number(p[i].0) <= exact::number(x) < exact::number(p.last().0),
        forall|k: int| 0 <= k < i ==> !#[trigger] rules::on_segment(p, x, k),
    ensures
        rules::first_segment(p, x, j),
    decreases p.len() - i,
{
    assert(exact::is_number(p[i].0) && exact::is_number(p[i + 1].0));
    exact::comparisons_are_of_the_numbers(p[i].0, x);
    exact::comparisons_are_of_the_numbers(x, p[i + 1].0);
    if exact::number(x) <= exact::number(p[i + 1].0) {
        assert(rules::on_segment(p, x, i));
        i
    } else {
        assert(!rules::on_segment(p, x, i));
        lemma_segment(p, x, i + 1)
    }
}

/// Where two segments meet, either line gives the limit.
proof fn lemma_same_line(p: Seq<(Exact, Exact)>, x: Exact, l: Exact, k: int, i: int)
    requires
        well_drawn(p),
        0 <= k < p.len() - 1,
        0 <= i < p.len() - 1,
        exact::number(p[k].0) <= exact::number(x) <= exact::number(p[k + 1].0),
        exact::number(p[i].0) <= exact::number(x) <= exact::number(p[i + 1].0),
        on_line(p[k], p[k + 1], x, l),
    ensures
        on_line(p[i], p[i + 1], x, l),
{
    if i != k {
        let (lo, hi) = if i < k {
            (i, k)
        } else {
            (k, i)
        };
        if lo + 1 < hi {
            assert(exact::number(p[lo + 1].0) < exact::number(p[hi].0));
        }
        let m = p[hi];
        assert(exact::number(x) == exact::number(m.0));
        let (a, b, c) = (exact::number(p[k].0), exact::number(p[k].1), exact::number(p[k + 1].0));
        let d = exact::number(p[k + 1].1);
        let (xx, ll) = (exact::number(x), exact::number(l));
        assert(a < c);
        assert(ll == exact::number(m.1)) by {
            if k == hi {
                assert(xx == a);
                assert(ll == b) by (nonlinear_arith)
                    requires
                        (ll - b) * (c - a) == (d - b) * (xx - a),
                        xx == a,
                        a < c,
                ;
            } else {
                assert(xx == c);
                assert(ll == d) by (nonlinear_arith)
                    requires
                        (ll - b) * (c - a) == (d - b) * (xx - a),
                        xx == c,
                        a < c,
                ;
            }
        }
        let (e, f, g) = (exact::number(p[i].0), exact::number(p[i].1), exact::number(p[i + 1].0));
        let h = exact::number(p[i + 1].1);
        if i == hi {
            assert((ll - f) * (g - e) == (h - f) * (xx - e)) by (nonlinear_arith)
                requires
                    ll == f,
                    xx == e,
            ;
        } else {
            assert((ll - f) * (g - e) == (h - f) * (xx - e)) by (nonlinear_arith)
                requires
                    ll == h,
                    xx == g,
            ;
        }
    }
}

/// The limit that a curve of moderate points states at a moderate diffusion area is a number.
pub proof fn a_moderate_curve_states_a_number(p: Seq<(Exact, Exact)>, x: Exact)
    requires
        well_drawn(p),
        p.len() > 0,
        exact::within(x, 0x1_0000),
        forall|i: int|
            0 <= i < p.len() ==> exact::within((#[trigger] p[i]).0, 0x1_0000) && exact::within(
                p[i].1,
                0x1_0000,
            ),
    ensures
        exact::is_number(rules::limit_at(p, x)->0),
{
    let n = p.len() as int;
    assert(exact::within(p[0].0, 0x1_0000) && exact::within(p[0].1, 0x1_0000));
    if n > 1 {
        exact::comparisons_are_of_the_numbers(x, p[0].0);
        exact::comparisons_are_of_the_numbers(p[n - 1].0, x);
        if exact::number(x) <= exact::number(p[0].0) {
        } else if exact::number(p[n - 1].0) <= exact::number(x) {
            let (a, b) = (p[n - 2], p[n - 1]);
            assert(exact::number(a.0) < exact::number(b.0));
            lemma_moderate_line(a, b, x);
        } else {
            let j = lemma_segment(p, x, 0);
            let k = choose|k: int| rules::first_segment(p, x, k);
            let (a, b) = (p[k], p[k + 1]);
            assert(exact::number(a.0) < exact::number(b.0));
            lemma_moderate_line(a, b, x);
        }
    }
}

proof fn lemma_moderate_line(a: (Exact, Exact), b: (Exact, Exact), x: Exact)
    requires
        exact::within(x, 0x1_0000),
        exact::within(a.0, 0x1_0000),
        exact::within(a.1, 0x1_0000),
        exact::within(b.0, 0x1_0000),
        exact::within(b.1, 0x1_0000),
        exact::number(a.0) < exact::number(b.0),
    ensures
        exact::is_number(rules::between(a, b, x)),
        exact::is_number(rules::beyond(a, b, x)),
{
    let m: int = 0x1_0000;
    let t: int = 0x2_0000_0000;
    let f: int = 0x4_0000_0000_0000_0000;
    let h: int = 0x8_0000_0000_0000_0000_0000_0000;
    assert(2 * (m * m) == t) by (nonlinear_arith)
        requires
            m == 0x1_0000,
            t == 0x2_0000_0000,
    ;
    assert(t * t == f) by (nonlinear_arith)
        requires
            t == 0x2_0000_0000,
            f == 0x4_0000_0000_0000_0000,
    ;
    assert(f * t == h && t * f == h) by (nonlinear_arith)
        requires
            f == 0x4_0000_0000_0000_0000,
            t == 0x2_0000_0000,
            h == 0x8_0000_0000_0000_0000_0000_0000,
    ;
    let span = b.0.spec_minus(a.0);
    let rise = b.1.spec_minus(a.1);
    exact::moderate_figures_are_defined(b.0, a.0, m, m);
    exact::moderate_figures_are_defined(b.1, a.1, m, m);
    exact::moderate_figures_are_defined(x, a.0, m, m);
    exact::moderate_figures_are_defined(x, b.0, m, m);
    exact::nothing_is_rounded(b.0, a.0);
    let up = rise.spec_times(x.spec_minus(a.0));
    exact::moderate_figures_are_defined(rise, x.spec_minus(a.0), t, t);
    exact::moderate_figures_are_defined(up, span, f, t);
    exact::moderate_figures_are_defined(a.1, up.spec_over(span), m, h);
    let slope = rise.spec_over(span);
    exact::moderate_figures_are_defined(rise, span, t, t);
    exact::moderate_figures_are_defined(x.spec_minus(b.0), slope, t, f);
    exact::moderate_figures_are_defined(b.1, x.spec_minus(b.0).spec_times(slope), m, h);
}

/// Coincident points are a step: inside the table the limit there is that of the first of them,
/// and from a step at the end on it is that of the last.
pub proof fn a_step_has_its_left_value(p: Seq<(Exact, Exact)>, x: Exact, i: int)
    requires
        forall|j: int|
            0 <= j < p.len() ==> exact::is_number((#[trigger] p[j]).0) && exact::is_number(p[j].1),
        forall|j: int, k: int|
            #![trigger p[j], p[k]]
            0 <= j < k < p.len() ==> exact::number(p[j].0) <= exact::number(p[k].0),
        exact::is_number(x),
        p.len() > 1,
    ensures
        0 < i < p.len() && exact::number(p[i - 1].0) < exact::number(p[i].0) && exact::number(x)
            == exact::number(p[i].0) && exact::number(x) < exact::number(p.last().0)
            && rules::limit_at(p, x)->0 is Value ==> rules::limit_at(p, x) is Some && exact::number(
            rules::limit_at(p, x)->0,
        ) == exact::number(p[i].1),
        exact::number(p[p.len() - 2].0) == exact::number(p.last().0) && exact::number(p[0].0)
            < exact::number(x) && exact::number(p.last().0) <= exact::number(x)
            && rules::limit_at(p, x)->0 is Value ==> rules::limit_at(p, x) is Some && exact::number(
            rules::limit_at(p, x)->0,
        ) == exact::number(p.last().1),
{
    let n = p.len() as int;
    assert(exact::is_number(p[0].0) && exact::is_number(p[n - 1].0) && exact::is_number(
        p[n - 2].0,
    ));
    exact::comparisons_are_of_the_numbers(x, p[0].0);
    exact::comparisons_are_of_the_numbers(p[n - 1].0, x);
    if 0 < i < n && exact::number(p[i - 1].0) < exact::number(p[i].0) && exact::number(x)
        == exact::number(p[i].0) && exact::number(x) < exact::number(p.last().0) {
        assert(exact::is_number(p[i - 1].0) && exact::is_number(p[i].0));
        exact::comparisons_are_of_the_numbers(p[i - 1].0, x);
        exact::comparisons_are_of_the_numbers(x, p[i].0);
        if i > 1 {
            assert(exact::number(p[0].0) <= exact::number(p[i - 1].0));
        }
        assert(rules::on_segment(p, x, i - 1));
        assert forall|j: int| 0 <= j < i - 1 implies !#[trigger] rules::on_segment(p, x, j) by {
            assert(exact::is_number(p[j + 1].0));
            exact::comparisons_are_of_the_numbers(x, p[j + 1].0);
            if j + 1 < i - 1 {
                assert(exact::number(p[j + 1].0) <= exact::number(p[i - 1].0));
            }
        }
        assert(rules::first_segment(p, x, i - 1));
        let k = choose|k: int| rules::first_segment(p, x, k);
        if k < i - 1 {
            assert(!rules::on_segment(p, x, k));
        }
        if k > i - 1 {
            assert(!rules::on_segment(p, x, i - 1));
        }
        if rules::limit_at(p, x)->0 is Value {
            exact::lemma_on_the_line(p[i - 1], p[i], x);
            let (a, b) = (exact::number(p[i - 1].0), exact::number(p[i - 1].1));
            let (c, d) = (exact::number(p[i].0), exact::number(p[i].1));
            assert(b + (d - b) * (c - a) / (c - a) == d) by (nonlinear_arith)
                requires
                    c != a,
            ;
        }
    }
    if exact::number(p[n - 2].0) == exact::number(p.last().0) && exact::number(p.last().0)
        <= exact::number(x) && rules::limit_at(p, x)->0 is Value && exact::number(p[0].0)
        < exact::number(x) {
        exact::lemma_beyond_the_end(p[n - 2], p[n - 1], x);
    }
}

/// Point `i` and the one after it are the first two that the diffusion area lies between, in that
/// order.
pub open spec fn first_between(p: Seq<(Exact, Exact)>, x: Exact, i: int) -> bool {
    &&& 0 <= i < p.len() - 1
    &&& exact::number(p[i].0) <= exact::number(x) <= exact::number(p[i + 1].0)
    &&& forall|j: int|
        0 <= j < i ==> !(exact::number((#[trigger] p[j]).0) <= exact::number(x) && exact::number(x)
            <= exact::number(p[j + 1].0))
}

/// Points in any order are read from the first on: up to the first point its ratio holds; from the
/// last on, the line of the last two; and in between, the line of the first two points that the
/// diffusion area lies between. Where two points have one diffusion area there is no line: the left
/// one's ratio holds, and at the end the right one's. A diffusion area that is no number selects
/// nothing from a table.
pub proof fn points_in_any_order_are_read_from_the_first(
    p: Seq<(Exact, Exact)>,
    x: Exact,
    i: int,
)
    requires
        forall|j: int|
            0 <= j < p.len() ==> exact::is_number((#[trigger] p[j]).0) && exact::is_number(p[j].1),
        p.len() > 1,
    ensures
        !exact::is_number(x) ==> rules::limit_at(p, x) is None,
        exact::is_number(x) && exact::number(x) <= exact::number(p[0].0) ==> rules::limit_at(p, x)
            == Some(p[0].1),
        exact::is_number(x) && exact::number(x) > exact::number(p[0].0) && exact::number(
            p.last().0,
        ) <= exact::number(x) ==> rules::limit_at(p, x) is Some && (rules::limit_at(
            p,
            x,
        )->0 is Value ==> if exact::number(p[p.len() - 2].0) == exact::number(p.last().0) {
            exact::number(rules::limit_at(p, x)->0) == exact::number(p.last().1)
        } else {
            on_line(p[p.len() - 2], p.last(), x, rules::limit_at(p, x)->0)
        }),
        exact::is_number(x) && exact::number(p[0].0) < exact::number(x) < exact::number(p.last().0)
            && first_between(p, x, i) ==> rules::limit_at(p, x) is Some && (rules::limit_at(
            p,
            x,
        )->0 is Value ==> if exact::number(p[i].0) == exact::number(p[i + 1].0) {
            exact::number(rules::limit_at(p, x)->0) == exact::number(p[i].1)
        } else {
            on_line(p[i], p[i + 1], x, rules::limit_at(p, x)->0)
        }),
{
    let n = p.len() as int;
    let l = rules::limit_at(p, x);
    assert(exact::is_number(p[0].0) && exact::is_number(p[n - 1].0) && exact::is_number(
        p[n - 2].0,
    ));
    if exact::is_number(x) {
        exact::comparisons_are_of_the_numbers(x, p[0].0);
        exact::comparisons_are_of_the_numbers(p[n - 1].0, x);
        if exact::number(x) > exact::number(p[0].0) && exact::number(p.last().0) <= exact::number(
            x,
        ) && l->0 is Value {
            exact::lemma_beyond_the_end(p[n - 2], p[n - 1], x);
            if exact::number(p[n - 2].0) != exact::number(p.last().0) {
                lemma_on_line(
                    exact::number(p[n - 2].0),
                    exact::number(p[n - 2].1),
                    exact::number(p[n - 1].0),
                    exact::number(p[n - 1].1),
                    exact::number(x),
                    exact::number(l->0),
                );
            }
        }
        if exact::number(p[0].0) < exact::number(x) < exact::number(p.last().0) && first_between(
            p,
            x,
            i,
        ) {
            assert forall|j: int| 0 <= j < n - 1 implies (#[trigger] rules::on_segment(p, x, j)
                <==> exact::number(p[j].0) <= exact::number(x) <= exact::number(p[j + 1].0)) by {
                assert(exact::is_number(p[j].0) && exact::is_number(p[j + 1].0));
                exact::comparisons_are_of_the_numbers(p[j].0, x);
                exact::comparisons_are_of_the_numbers(x, p[j + 1].0);
            }
            assert(rules::on_segment(p, x, i));
            assert forall|j: int| 0 <= j < i implies !#[trigger] rules::on_segment(p, x, j) by {
                assert(exact::is_number(p[j].0));
            }
            assert(rules::first_segment(p, x, i));
            let k = choose|k: int| rules::first_segment(p, x, k);
            if k < i {
                assert(!rules::on_segment(p, x, k));
            }
            if k > i {
                assert(!rules::on_segment(p, x, i));
            }
            if l->0 is Value {
                let (a, b) = (p[i], p[i + 1]);
                assert(exact::is_number(a.0) && exact::is_number(b.0));
                exact::lemma_on_the_line(a, b, x);
                if exact::number(a.0) != exact::number(b.0) {
                    lemma_on_line(
                        exact::number(a.0),
                        exact::number(a.1),
                        exact::number(b.0),
                        exact::number(b.1),
                        exact::number(x),
                        exact::number(l->0),
                    );
                }
            }
        }
    } else {
        exact::only_numbers_compare(x, p[0].0);
        exact::only_numbers_compare(p[n - 1].0, x);
        assert forall|j: int| !rules::first_segment(p, x, j) by {
            if rules::on_segment(p, x, j) {
                exact::only_numbers_compare(p[j].0, x);
            }
        }
    }
}

/// A layer that states nothing has no limit for any ratio, and a ratio of it that is defined is
/// metal over gate area, whatever the diffusion.
pub proof fn a_layer_that_states_nothing_leaves_the_ratio_as_it_is(
    r: LayerRules<Exact>,
    ratio: Ratio,
    area: Exact,
    gate: Exact,
    diff: Exact,
)
    requires
        r.states_nothing(),
    ensures
        !r.states_limit(),
        exact::is_number(r.ratio_limit(ratio, diff)),
        exact::number(r.ratio_limit(ratio, diff)) == 0real,
        r.ratio_value(ratio, area, gate, diff) is Value ==> exact::number(
            r.ratio_value(ratio, area, gate, diff),
        ) == exact::number(area) / exact::number(gate),
{
    exact::whole_numbers_are_themselves(0);
    a_limit_is_stated_in_either_form(r);
    each_ratio_has_its_own_limit(r, diff);
    if Exact::spec_zero().spec_lt(diff) {
        diffusion_is_held_against_the_curve(r, diff);
    } else {
        without_diffusion_the_plain_ratio_goes_first(r, diff);
    }
    exact::comparisons_are_of_the_numbers(Exact::spec_zero(), Exact::spec_zero());
    if r.ratio_value(ratio, area, gate, diff) is Value {
        a_ratio_is_metal_over_gate_area(r, ratio, area, gate, diff);
        let (a, g) = (exact::number(area), exact::number(gate));
        let d = exact::number(diff);
        assert(1real * a * 1real - 0real * d == a && g + 0real * d == g && 1real * a == a)
            by (nonlinear_arith);
    }
}

} // verus!
