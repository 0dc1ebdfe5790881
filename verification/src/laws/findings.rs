//! What is found, and of what: every finding said by the fields of what was read and stated.

use crate::check;
use crate::check::Finding;
use crate::check::Violation;
use crate::laws::exact;
use crate::laws::inputs;
use crate::laws::limits;
use crate::laws::verdicts;
use crate::net;
use crate::net::NetAntenna;
use crate::net::RegionExposure;
use crate::rules::LayerRules;
use crate::rules::Ratio;
use crate::rules::RuleTable;
use crate::scalar::Exact;
use crate::scalar::Scalar;
use vstd::prelude::*;

verus! {

/// A finding says what the violation holds, field by field, and a list of them in the same order.
pub proof fn findings_say_what_violations_hold<Q>(v: Seq<Violation<Q>>)
    ensures
        check::findings(v).len() == v.len(),
        forall|k: int|
            0 <= k < v.len() ==> {
                let f = #[trigger] check::findings(v)[k];
                &&& f.net == v[k].net@
                &&& f.pin == v[k].pin@
                &&& f.layer == v[k].layer@
                &&& f.ratio == v[k].ratio
                &&& f.value == v[k].value
                &&& f.limit == v[k].limit
                &&& f.gate == v[k].gate_area_um2
                &&& f.diff == v[k].diff_area_um2
                &&& f.metal == v[k].metal_area_um2
            },
{
}

/// Whether the pin is on the conductor.
pub open spec fn carries<Q>(e: RegionExposure<Q>, pin: Seq<char>) -> bool {
    exists|p: int| 0 <= p < e.pins@.len() && (#[trigger] e.pins@[p])@ == pin
}

/// Whether the conductor bears on the pin's ratio on the layer: it is of that layer, the pin is on
/// it, it has gate area, and for a side-area ratio it has side area.
pub open spec fn bears(
    e: RegionExposure<Exact>,
    pin: Seq<char>,
    layer: Seq<char>,
    ratio: Ratio,
) -> bool {
    &&& e.layer@ == layer
    &&& carries(e, pin)
    &&& inputs::is_area(e.gate_area_um2)
    &&& match ratio {
        Ratio::Par => true,
        Ratio::Car => true,
        Ratio::Psr => exact::is_number(e.side_area_um2) && exact::number(e.side_area_um2) > 0real,
        Ratio::Csr => exact::is_number(e.side_area_um2) && exact::number(e.side_area_um2) > 0real,
    }
}

/// Conductor `k` is the first that bears on it.
pub open spec fn first_bearing(
    regions: Seq<RegionExposure<Exact>>,
    pin: Seq<char>,
    layer: Seq<char>,
    ratio: Ratio,
    k: int,
) -> bool {
    &&& 0 <= k < regions.len()
    &&& bears(regions[k], pin, layer, ratio)
    &&& forall|j: int| 0 <= j < k ==> !bears(#[trigger] regions[j], pin, layer, ratio)
}

/// The metal that each ratio is of: this layer's area, the area up to it, this layer's side area,
/// the side area up to it.
pub open spec fn metal_of(e: RegionExposure<Exact>, ratio: Ratio) -> Exact {
    match ratio {
        Ratio::Par => e.area_um2,
        Ratio::Car => e.cum_area_um2,
        Ratio::Psr => e.side_area_um2,
        Ratio::Csr => e.cum_side_area_um2,
    }
}

/// The ratio of one conductor, as a number.
pub open spec fn ratio_of(r: LayerRules<Exact>, ratio: Ratio, e: RegionExposure<Exact>) -> real {
    let metal = exact::number(metal_of(e, ratio));
    let gate = exact::number(e.gate_area_um2);
    let diff = exact::number(e.diff_area_um2);
    if exact::is_number(e.diff_area_um2) && diff > 0real {
        (exact::number(limits::area_factor(r, ratio, true)) * metal * limits::left_of_metal(
            r,
            e.diff_area_um2,
        ) - exact::number(r.minus_diff_factor) * diff) / (gate + exact::number(r.plus_diff_factor)
            * diff)
    } else {
        exact::number(limits::area_factor(r, ratio, false)) * metal / gate
    }
}

/// The ratios of those of the first `n` conductors that bear on the pin's, added up.
pub open spec fn borne(
    regions: Seq<RegionExposure<Exact>>,
    r: LayerRules<Exact>,
    pin: Seq<char>,
    layer: Seq<char>,
    ratio: Ratio,
    n: int,
) -> real
    decreases n,
{
    if n <= 0 {
        0real
    } else {
        let own = if bears(regions[n - 1], pin, layer, ratio) {
            ratio_of(r, ratio, regions[n - 1])
        } else {
            0real
        };
        borne(regions, r, pin, layer, ratio, n - 1) + own
    }
}

/// Their metal, added up.
pub open spec fn metal_borne(
    regions: Seq<RegionExposure<Exact>>,
    pin: Seq<char>,
    layer: Seq<char>,
    ratio: Ratio,
    n: int,
) -> real
    decreases n,
{
    if n <= 0 {
        0real
    } else {
        let own = if bears(regions[n - 1], pin, layer, ratio) {
            exact::number(metal_of(regions[n - 1], ratio))
        } else {
            0real
        };
        metal_borne(regions, pin, layer, ratio, n - 1) + own
    }
}

/// The limit that a conductor's diffusion selects, by the fields of the rules.
pub open spec fn held_to(r: LayerRules<Exact>, ratio: Ratio, diff: Exact) -> Exact {
    let (curve, plain) = match ratio {
        Ratio::Par => (r.diff_par, r.par),
        Ratio::Car => (r.diff_car, r.car),
        Ratio::Psr => (r.diff_psr, r.psr),
        Ratio::Csr => (r.diff_csr, r.csr),
    };
    if exact::is_number(diff) && exact::number(diff) > 0real || !(exact::is_number(plain)
        && exact::number(plain) > 0real) {
        limits::stated(curve, plain, diff)
    } else {
        plain
    }
}

pub proof fn lemma_bears(
    regions: Seq<RegionExposure<Exact>>,
    pin: Seq<char>,
    layer: Seq<char>,
    ratio: Ratio,
    k: int,
)
    requires
        0 <= k < regions.len(),
    ensures
        check::counts(regions[k], pin, layer, ratio) == bears(regions[k], pin, layer, ratio),
        check::metal_for(regions[k], ratio) == metal_of(regions[k], ratio),
{
    let e = regions[k];
    let zero = Exact::Value(0, 1);
    exact::lemma_zero();
    assert(net::texts(e.pins@).contains(pin) <==> carries(e, pin)) by {
        if net::texts(e.pins@).contains(pin) {
            let p = choose|p: int|
                0 <= p < net::texts(e.pins@).len() && net::texts(e.pins@)[p] == pin;
            assert(e.pins@[p]@ == pin);
        }
        if carries(e, pin) {
            let p = choose|p: int| 0 <= p < e.pins@.len() && (#[trigger] e.pins@[p])@ == pin;
            assert(net::texts(e.pins@)[p] == pin);
        }
    }
    exact::only_numbers_compare(e.gate_area_um2, zero);
    exact::only_numbers_compare(zero, e.side_area_um2);
    if exact::is_number(e.gate_area_um2) {
        exact::comparisons_are_of_the_numbers(e.gate_area_um2, zero);
    }
    if exact::is_number(e.side_area_um2) {
        exact::comparisons_are_of_the_numbers(zero, e.side_area_um2);
    }
}

proof fn lemma_borne(
    regions: Seq<RegionExposure<Exact>>,
    r: LayerRules<Exact>,
    pin: Seq<char>,
    layer: Seq<char>,
    ratio: Ratio,
    n: int,
)
    requires
        0 <= n <= regions.len(),
        check::value_sum(regions, r, pin, layer, ratio, n) is Value,
    ensures
        exact::is_number(check::value_sum(regions, r, pin, layer, ratio, n)),
        exact::number(check::value_sum(regions, r, pin, layer, ratio, n)) == borne(
            regions,
            r,
            pin,
            layer,
            ratio,
            n,
        ),
    decreases n,
{
    exact::ratios_add_up(regions, r, pin, layer, ratio, n);
    if n > 0 {
        let e = regions[n - 1];
        lemma_bears(regions, pin, layer, ratio, n - 1);
        if bears(e, pin, layer, ratio) {
            let before = check::value_sum(regions, r, pin, layer, ratio, n - 1);
            let own = r.ratio_value(
                ratio,
                check::metal_for(e, ratio),
                e.gate_area_um2,
                e.diff_area_um2,
            );
            assert(check::counts(e, pin, layer, ratio));
            exact::results_are_made_of_numbers(before, own);
            limits::a_ratio_is_metal_over_gate_area(
                r,
                ratio,
                metal_of(e, ratio),
                e.gate_area_um2,
                e.diff_area_um2,
            );
            exact::nothing_is_rounded(before, own);
        }
        lemma_borne(regions, r, pin, layer, ratio, n - 1);
    }
}

proof fn lemma_metal_borne(
    regions: Seq<RegionExposure<Exact>>,
    pin: Seq<char>,
    layer: Seq<char>,
    ratio: Ratio,
    n: int,
)
    requires
        0 <= n <= regions.len(),
        check::metal_sum(regions, pin, layer, ratio, n) is Value,
    ensures
        exact::is_number(check::metal_sum(regions, pin, layer, ratio, n)),
        exact::number(check::metal_sum(regions, pin, layer, ratio, n)) == metal_borne(
            regions,
            pin,
            layer,
            ratio,
            n,
        ),
    decreases n,
{
    exact::lemma_zero();
    if n > 0 {
        let e = regions[n - 1];
        lemma_bears(regions, pin, layer, ratio, n - 1);
        let before = check::metal_sum(regions, pin, layer, ratio, n - 1);
        if bears(e, pin, layer, ratio) {
            exact::results_are_made_of_numbers(before, metal_of(e, ratio));
            exact::nothing_is_rounded(before, metal_of(e, ratio));
        }
        lemma_metal_borne(regions, pin, layer, ratio, n - 1);
    }
}

pub proof fn lemma_held_to(r: LayerRules<Exact>, ratio: Ratio, diff: Exact)
    ensures
        r.ratio_limit(ratio, diff) == held_to(r, ratio, diff),
{
    let zero = Exact::Value(0, 1);
    exact::lemma_zero();
    exact::only_numbers_compare(zero, diff);
    if exact::is_number(diff) {
        exact::comparisons_are_of_the_numbers(zero, diff);
    }
    let plain = match ratio {
        Ratio::Par => r.par,
        Ratio::Car => r.car,
        Ratio::Psr => r.psr,
        Ratio::Csr => r.csr,
    };
    exact::only_numbers_compare(zero, plain);
    if exact::is_number(plain) {
        exact::comparisons_are_of_the_numbers(zero, plain);
    }
    if exact::is_number(diff) && exact::number(diff) > 0real {
        limits::diffusion_is_held_against_the_curve(r, diff);
    } else {
        limits::without_diffusion_the_plain_ratio_goes_first(r, diff);
    }
}

/// `f` says what it should of the pin, whose first bearing conductor is `k`.
pub open spec fn says(
    f: Finding<Exact>,
    name: Seq<char>,
    regions: Seq<RegionExposure<Exact>>,
    r: LayerRules<Exact>,
    pin: Seq<char>,
    layer: Seq<char>,
    ratio: Ratio,
    k: int,
) -> bool {
    let n = regions.len() as int;
    &&& f.net == name
    &&& f.pin == pin
    &&& f.layer == layer
    &&& f.ratio == ratio
    &&& exact::number(f.value) == borne(regions, r, pin, layer, ratio, n)
    &&& f.limit == held_to(r, ratio, regions[k].diff_area_um2)
    &&& f.gate == regions[k].gate_area_um2
    &&& f.diff == regions[k].diff_area_um2
    &&& f.metal is Value ==> exact::number(f.metal) == metal_borne(regions, pin, layer, ratio, n)
}

/// A pin is reported exactly when the ratios of the conductors that bear on it, each with its own
/// gate area and its own diffusion, add up to more than a positive limit, which the diffusion of
/// the first of them selects. What is reported is that sum, that limit, gate area and diffusion of
/// that conductor, and the metal of all. Where the limit or the sum is no number, nothing is
/// reported.
pub proof fn a_pin_is_judged_on_what_it_bears(
    name: Seq<char>,
    regions: Seq<RegionExposure<Exact>>,
    r: LayerRules<Exact>,
    pin: Seq<char>,
    layer: Seq<char>,
    ratio: Ratio,
    k: int,
)
    requires
        first_bearing(regions, pin, layer, ratio, k),
    ensures
        check::verdict(name, regions, r, pin, layer, ratio) is Some <==> exact::is_number(
            held_to(r, ratio, regions[k].diff_area_um2),
        ) && exact::is_number(
            check::value_sum(regions, r, pin, layer, ratio, regions.len() as int),
        ) && exact::number(held_to(r, ratio, regions[k].diff_area_um2)) > 0real && borne(
            regions,
            r,
            pin,
            layer,
            ratio,
            regions.len() as int,
        ) > exact::number(held_to(r, ratio, regions[k].diff_area_um2)),
        check::verdict(name, regions, r, pin, layer, ratio) matches Some(f) ==> says(
            f,
            name,
            regions,
            r,
            pin,
            layer,
            ratio,
            k,
        ),
{
    let n = regions.len() as int;
    let zero = Exact::Value(0, 1);
    exact::lemma_zero();
    assert(check::first_counting(regions, pin, layer, ratio, k)) by {
        lemma_bears(regions, pin, layer, ratio, k);
        assert forall|j: int| 0 <= j < k implies !check::counts(
            #[trigger] regions[j],
            pin,
            layer,
            ratio,
        ) by {
            lemma_bears(regions, pin, layer, ratio, j);
        }
    }
    let c = choose|c: int| check::first_counting(regions, pin, layer, ratio, c);
    check::lemma_first_counting(regions, pin, layer, ratio, k, c);
    lemma_held_to(r, ratio, regions[k].diff_area_um2);
    let limit = held_to(r, ratio, regions[k].diff_area_um2);
    let value = check::value_sum(regions, r, pin, layer, ratio, n);
    exact::only_numbers_compare(limit, value);
    if exact::is_number(value) {
        lemma_borne(regions, r, pin, layer, ratio, n);
    }
    if exact::is_number(limit) {
        exact::comparisons_are_of_the_numbers(limit, zero);
        if exact::is_number(value) {
            exact::comparisons_are_of_the_numbers(limit, value);
        }
    }
    if check::metal_sum(regions, pin, layer, ratio, n) is Value {
        lemma_metal_borne(regions, pin, layer, ratio, n);
    }
}

/// A pin that nothing bears on is not reported.
pub proof fn nothing_borne_nothing_reported(
    name: Seq<char>,
    regions: Seq<RegionExposure<Exact>>,
    r: LayerRules<Exact>,
    pin: Seq<char>,
    layer: Seq<char>,
    ratio: Ratio,
)
    requires
        forall|k: int| 0 <= k < regions.len() ==> !bears(#[trigger] regions[k], pin, layer, ratio),
    ensures
        check::verdict(name, regions, r, pin, layer, ratio) is None,
{
    assert forall|k: int| !check::first_counting(regions, pin, layer, ratio, k) by {
        if 0 <= k < regions.len() {
            lemma_bears(regions, pin, layer, ratio, k);
        }
    }
}

/// The sum of a pin's ratios is defined where they have a common denominator and are not too many
/// parts of it.
pub proof fn ratios_of_a_common_denominator_are_judged(
    regions: Seq<RegionExposure<Exact>>,
    r: LayerRules<Exact>,
    pin: Seq<char>,
    layer: Seq<char>,
    ratio: Ratio,
    n: int,
    d: int,
    most: int,
)
    requires
        0 <= n <= regions.len(),
        0 < d <= i128::MAX,
        0 <= most,
        n * most <= i128::MAX,
        forall|k: int|
            0 <= k < n ==> exact::in_parts(
                r.ratio_value(
                    ratio,
                    metal_of(#[trigger] regions[k], ratio),
                    regions[k].gate_area_um2,
                    regions[k].diff_area_um2,
                ),
                d,
                most,
            ),
    ensures
        exact::in_parts(check::value_sum(regions, r, pin, layer, ratio, n), d, n * most),
    decreases n,
{
    let now = check::value_sum(regions, r, pin, layer, ratio, n);
    if n > 0 {
        assert((n - 1) * most + most == n * most && (n - 1) * most >= 0) by (nonlinear_arith)
            requires
                n >= 1,
                most >= 0,
        ;
        ratios_of_a_common_denominator_are_judged(
            regions,
            r,
            pin,
            layer,
            ratio,
            n - 1,
            d,
            most,
        );
        let e = regions[n - 1];
        let before = check::value_sum(regions, r, pin, layer, ratio, n - 1);
        let own = r.ratio_value(
            ratio,
            metal_of(e, ratio),
            e.gate_area_um2,
            e.diff_area_um2,
        );
        assert(exact::in_parts(own, d, most));
        exact::sums_over_a_common_denominator_are_defined(
            before,
            own,
            d,
            (n - 1) * most,
            most,
        );
    } else {
        assert(0 * most == 0) by (nonlinear_arith);
        assert(d / 1 == d && d % 1 == 0);
        assert(0 * d == 0) by (nonlinear_arith);
    }
}

/// The rules of entry `k` apply to the layer: they were stated last under its name, and state a
/// limit in some form.
pub open spec fn applies<Q>(table: RuleTable<Q>, layer: Seq<char>, k: int) -> bool {
    &&& limits::last_entry(table, layer, k)
    &&& {
        let r = table.entries@[k].1;
        r.valid || r.diff_par.0@.len() > 0 || r.diff_car.0@.len() > 0 || r.diff_psr.0@.len() > 0
            || r.diff_csr.0@.len() > 0
    }
}

/// The last entry under a name, if there is one.
proof fn lemma_some_entry<Q>(table: RuleTable<Q>, layer: Seq<char>, n: int) -> (k: int)
    requires
        0 <= n <= table.entries@.len(),
        forall|j: int| n <= j < table.entries@.len() ==> (#[trigger] table.entries@[j]).0@ != layer,
    ensures
        k == -1 ==> forall|j: int|
            0 <= j < table.entries@.len() ==> (#[trigger] table.entries@[j]).0@ != layer,
        k != -1 ==> limits::last_entry(table, layer, k),
    decreases n,
{
    if n == 0 {
        -1
    } else if table.entries@[n - 1].0@ == layer {
        n - 1
    } else {
        lemma_some_entry(table, layer, n - 1)
    }
}

/// A layer is judged by the rules that apply to it, and by none where none apply.
pub proof fn a_layer_is_judged_by_its_own_rules<Q: Scalar>(table: RuleTable<Q>, layer: Seq<char>)
    ensures
        forall|k: int| #[trigger]
            applies(table, layer, k) ==> check::applied_rule(table, layer) == Some(
                table.entries@[k].1,
            ),
        (forall|k: int| !#[trigger] applies(table, layer, k)) ==> check::applied_rule(
            table,
            layer,
        ) is None,
{
    limits::the_last_entry_holds(table, layer);
    let k = lemma_some_entry(table, layer, table.entries@.len() as int);
    if k != -1 {
        limits::a_limit_is_stated_in_either_form(table.entries@[k].1);
        assert(table.rules_of(layer) == Some(table.entries@[k].1));
        if check::applied_rule(table, layer) is Some {
            assert(applies(table, layer, k));
        }
    }
    assert forall|j: int| #[trigger] applies(table, layer, j) implies check::applied_rule(
        table,
        layer,
    ) == Some(table.entries@[j].1) by {
        limits::a_limit_is_stated_in_either_form(table.entries@[j].1);
    }
}

/// The pin is met on the layer at pin `p` of conductor `r`, and nowhere before.
pub open spec fn first_met<Q>(
    regions: Seq<RegionExposure<Q>>,
    layer: Seq<char>,
    pin: Seq<char>,
    r: int,
    p: int,
) -> bool {
    &&& 0 <= r < regions.len()
    &&& 0 <= p < regions[r].pins@.len()
    &&& regions[r].layer@ == layer
    &&& regions[r].pins@[p]@ == pin
    &&& forall|s: int, q: int|
        0 <= s <= r && 0 <= q < regions[s].pins@.len() && (s < r || q < p) && regions[s].layer@
            == layer ==> (#[trigger] regions[s].pins@[q])@ != pin
}

proof fn lemma_met_once<Q>(
    regions: Seq<RegionExposure<Q>>,
    layer: Seq<char>,
    pin: Seq<char>,
    r: int,
    p: int,
    s: int,
    q: int,
)
    requires
        first_met(regions, layer, pin, r, p),
        first_met(regions, layer, pin, s, q),
    ensures
        r == s && p == q,
{
    if s < r || s == r && q < p {
        assert(regions[s].pins@[q]@ != pin);
    }
    if r < s || r == s && p < q {
        assert(regions[r].pins@[p]@ != pin);
    }
}

/// The order in which the ratios of a pin are reported.
pub open spec fn rank(ratio: Ratio) -> int {
    match ratio {
        Ratio::Par => 0,
        Ratio::Car => 1,
        Ratio::Psr => 2,
        Ratio::Csr => 3,
    }
}

/// `f` is on a pin that is first met before pin `p` of conductor `r`.
spec fn placed<Q>(f: Finding<Q>, regions: Seq<RegionExposure<Q>>, r: int, p: int) -> bool {
    exists|s: int, q: int| #[trigger]
        first_met(regions, f.layer, f.pin, s, q) && (s < r || s == r && q < p)
}

/// `f` comes before `g`.
pub open spec fn comes_before<Q>(
    f: Finding<Q>,
    g: Finding<Q>,
    regions: Seq<RegionExposure<Q>>,
) -> bool {
    exists|r: int, p: int, s: int, q: int| #[trigger]
        first_met(regions, f.layer, f.pin, r, p) && #[trigger] first_met(
            regions,
            g.layer,
            g.pin,
            s,
            q,
        ) && (r < s || r == s && p < q || r == s && p == q && rank(f.ratio) < rank(g.ratio))
}

spec fn ordered<Q>(
    s: Seq<Finding<Q>>,
    regions: Seq<RegionExposure<Q>>,
    r: int,
    p: int,
) -> bool {
    &&& forall|a: int| 0 <= a < s.len() ==> placed(#[trigger] s[a], regions, r, p)
    &&& forall|a: int, b: int|
        #![trigger s[a], s[b]]
        0 <= a < b < s.len() ==> comes_before(s[a], s[b], regions)
}

/// The findings of one pin come ratio by ratio.
proof fn lemma_pin_order<Q: Scalar>(
    name: Seq<char>,
    regions: Seq<RegionExposure<Q>>,
    table: RuleTable<Q>,
    pin: Seq<char>,
    layer: Seq<char>,
)
    ensures
        ({
            let all = check::pin_findings(name, regions, table, pin, layer);
            &&& forall|k: int|
                0 <= k < all.len() ==> (#[trigger] all[k]).pin == pin && all[k].layer == layer
            &&& forall|a: int, b: int|
                #![trigger all[a], all[b]]
                0 <= a < b < all.len() ==> rank(all[a].ratio) < rank(all[b].ratio)
        }),
{
    let all = check::pin_findings(name, regions, table, pin, layer);
    if let Some(rule) = check::applied_rule(table, layer) {
        let a = check::listed(check::verdict(name, regions, rule, pin, layer, Ratio::Par));
        let b = check::listed(check::verdict(name, regions, rule, pin, layer, Ratio::Car));
        let c = check::listed(check::verdict(name, regions, rule, pin, layer, Ratio::Psr));
        let d = check::listed(check::verdict(name, regions, rule, pin, layer, Ratio::Csr));
        assert(all == a + b + c + d);
        assert forall|k: int| #![trigger all[k]] 0 <= k < all.len() implies all[k].pin == pin
            && all[k].layer == layer && rank(all[k].ratio) == (if k < a.len() {
            0int
        } else if k < a.len() + b.len() {
            1
        } else if k < a.len() + b.len() + c.len() {
            2
        } else {
            3
        }) by {
            if k < a.len() {
                assert(all[k] == a[k]);
            } else if k < a.len() + b.len() {
                assert(all[k] == b[k - a.len()]);
            } else if k < a.len() + b.len() + c.len() {
                assert(all[k] == c[k - a.len() - b.len()]);
            } else {
                assert(all[k] == d[k - a.len() - b.len() - c.len()]);
            }
        }
        assert(a.len() <= 1 && b.len() <= 1 && c.len() <= 1 && d.len() <= 1);
    }
}

/// Findings of a pin that is met later go behind.
proof fn lemma_order_next<Q: Scalar>(
    s: Seq<Finding<Q>>,
    more: Seq<Finding<Q>>,
    regions: Seq<RegionExposure<Q>>,
    r: int,
    p: int,
)
    requires
        ordered(s, regions, r, p),
        0 <= r < regions.len(),
        0 <= p < regions[r].pins@.len(),
        more.len() > 0 ==> first_met(regions, regions[r].layer@, regions[r].pins@[p]@, r, p),
        forall|k: int|
            0 <= k < more.len() ==> (#[trigger] more[k]).pin == regions[r].pins@[p]@
                && more[k].layer == regions[r].layer@,
        forall|a: int, b: int|
            #![trigger more[a], more[b]]
            0 <= a < b < more.len() ==> rank(more[a].ratio) < rank(more[b].ratio),
    ensures
        ordered(s + more, regions, r, p + 1),
{
    let all = s + more;
    let n = s.len() as int;
    assert forall|a: int| 0 <= a < all.len() implies placed(#[trigger] all[a], regions, r, p + 1) by {
        if a < n {
            assert(all[a] == s[a]);
            assert(placed(s[a], regions, r, p));
        } else {
            assert(all[a] == more[a - n]);
            assert(first_met(regions, all[a].layer, all[a].pin, r, p));
        }
    }
    assert forall|a: int, b: int|
        #![trigger all[a], all[b]]
        0 <= a < b < all.len() implies comes_before(all[a], all[b], regions) by {
        if b < n {
            assert(all[a] == s[a] && all[b] == s[b]);
        } else {
            assert(all[b] == more[b - n]);
            assert(first_met(regions, all[b].layer, all[b].pin, r, p));
            if a < n {
                assert(all[a] == s[a]);
                assert(placed(s[a], regions, r, p));
                let (t, q) = choose|t: int, q: int| #[trigger]
                    first_met(regions, s[a].layer, s[a].pin, t, q) && (t < r || t == r && q < p);
                assert(first_met(regions, all[a].layer, all[a].pin, t, q));
            } else {
                assert(all[a] == more[a - n]);
                assert(first_met(regions, all[a].layer, all[a].pin, r, p));
            }
        }
    }
}

proof fn lemma_region_order<Q: Scalar>(
    name: Seq<char>,
    regions: Seq<RegionExposure<Q>>,
    table: RuleTable<Q>,
    r: int,
    p: int,
)
    requires
        0 <= r < regions.len(),
        0 <= p <= regions[r].pins@.len(),
        ordered(check::net_findings(name, regions, table, r), regions, r, 0),
    ensures
        ordered(
            check::net_findings(name, regions, table, r) + check::region_findings(
                name,
                regions,
                table,
                r,
                p,
            ),
            regions,
            r,
            p,
        ),
    decreases p,
{
    let start = check::net_findings(name, regions, table, r);
    if p > 0 {
        lemma_region_order(name, regions, table, r, p - 1);
        let before = check::region_findings(name, regions, table, r, p - 1);
        let pin = regions[r].pins@[p - 1]@;
        let layer = regions[r].layer@;
        let more = if check::met_before(regions, r, p - 1) {
            Seq::<Finding<Q>>::empty()
        } else {
            check::pin_findings(name, regions, table, pin, layer)
        };
        lemma_pin_order(name, regions, table, pin, layer);
        if !check::met_before(regions, r, p - 1) {
            assert(first_met(regions, layer, pin, r, p - 1)) by {
                assert forall|s: int, q: int|
                    0 <= s <= r && 0 <= q < regions[s].pins@.len() && (s < r || q < p - 1)
                        && regions[s].layer@ == layer implies (#[trigger] regions[s].pins@[q])@
                    != pin by {}
            }
        }
        lemma_order_next(start + before, more, regions, r, p - 1);
        assert(start + check::region_findings(name, regions, table, r, p) =~= (start + before)
            + more);
    } else {
        assert(start + check::region_findings(name, regions, table, r, p) =~= start);
    }
}

proof fn lemma_net_order<Q: Scalar>(
    name: Seq<char>,
    regions: Seq<RegionExposure<Q>>,
    table: RuleTable<Q>,
    n: int,
)
    requires
        0 <= n <= regions.len(),
    ensures
        ordered(check::net_findings(name, regions, table, n), regions, n, 0),
    decreases n,
{
    if n > 0 {
        lemma_net_order(name, regions, table, n - 1);
        let m = regions[n - 1].pins@.len() as int;
        lemma_region_order(name, regions, table, n - 1, m);
        let all = check::net_findings(name, regions, table, n);
        assert forall|a: int| 0 <= a < all.len() implies placed(#[trigger] all[a], regions, n, 0) by {
            assert(placed(all[a], regions, n - 1, m));
        }
    }
}

/// Findings come conductor by conductor and pin by pin, each pin of a layer where it is first met,
/// and for one pin in the order PAR, CAR, PSR, CSR.
pub proof fn findings_come_in_order<Q: Scalar>(na: NetAntenna<Q>, table: RuleTable<Q>, a: int, b: int)
    requires
        0 <= a < b < check::all_findings(na, table).len(),
    ensures
        comes_before(
            check::all_findings(na, table)[a],
            check::all_findings(na, table)[b],
            na.regions@,
        ),
        !comes_before(
            check::all_findings(na, table)[b],
            check::all_findings(na, table)[a],
            na.regions@,
        ),
{
    let regions = na.regions@;
    lemma_net_order(na.net@, regions, table, regions.len() as int);
    let f = check::all_findings(na, table)[a];
    let g = check::all_findings(na, table)[b];
    assert(comes_before(f, g, regions));
    if comes_before(g, f, regions) {
        let (r, p, s, q) = choose|r: int, p: int, s: int, q: int| #[trigger]
            first_met(regions, f.layer, f.pin, r, p) && #[trigger] first_met(
                regions,
                g.layer,
                g.pin,
                s,
                q,
            ) && (r < s || r == s && p < q || r == s && p == q && rank(f.ratio) < rank(g.ratio));
        let (t, u, v, w) = choose|r: int, p: int, s: int, q: int| #[trigger]
            first_met(regions, g.layer, g.pin, r, p) && #[trigger] first_met(
                regions,
                f.layer,
                f.pin,
                s,
                q,
            ) && (r < s || r == s && p < q || r == s && p == q && rank(g.ratio) < rank(f.ratio));
        lemma_met_once(regions, f.layer, f.pin, r, p, v, w);
        lemma_met_once(regions, g.layer, g.pin, s, q, t, u);
    }
}

/// The findings of a net are exactly the reports on its pins: `f` is among them exactly when a
/// conductor carries its pin on its layer, rules apply to that layer, and by them the pin is
/// reported so.
pub proof fn the_findings_are_the_reports<Q: Scalar>(
    na: NetAntenna<Q>,
    table: RuleTable<Q>,
    f: Finding<Q>,
)
    ensures
        check::all_findings(na, table).contains(f) <==> exists|r: int, p: int, k: int|
            0 <= r < na.regions@.len() && 0 <= p < na.regions@[r].pins@.len()
                && na.regions@[r].layer@ == f.layer && (#[trigger] na.regions@[r].pins@[p])@
                == f.pin && #[trigger] applies(table, f.layer, k) && check::verdict(
                na.net@,
                na.regions@,
                table.entries@[k].1,
                f.pin,
                f.layer,
                f.ratio,
            ) == Some(f),
{
    let regions = na.regions@;
    let all = check::all_findings(na, table);
    a_layer_is_judged_by_its_own_rules(table, f.layer);
    if all.contains(f) {
        let a = choose|a: int| 0 <= a < all.len() && all[a] == f;
        lemma_net_order(na.net@, regions, table, regions.len() as int);
        assert(placed(all[a], regions, regions.len() as int, 0));
        let (r, p) = choose|s: int, q: int| #[trigger]
            first_met(regions, f.layer, f.pin, s, q) && (s < regions.len() || s == regions.len()
                && q < 0);
        verdicts::every_finding_exceeds_a_declared_limit(na, table, a);
        let k = choose|k: int| #[trigger] applies(table, f.layer, k);
        assert(applies(table, f.layer, k));
        assert(regions[r].pins@[p]@ == f.pin);
    }
    if exists|r: int, p: int, k: int|
        0 <= r < na.regions@.len() && 0 <= p < na.regions@[r].pins@.len() && na.regions@[r].layer@
            == f.layer && (#[trigger] na.regions@[r].pins@[p])@ == f.pin && #[trigger] applies(
            table,
            f.layer,
            k,
        ) && check::verdict(
            na.net@,
            na.regions@,
            table.entries@[k].1,
            f.pin,
            f.layer,
            f.ratio,
        ) == Some(f) {
        let (r, p, k) = choose|r: int, p: int, k: int|
            0 <= r < na.regions@.len() && 0 <= p < na.regions@[r].pins@.len()
                && na.regions@[r].layer@ == f.layer && (#[trigger] na.regions@[r].pins@[p])@
                == f.pin && #[trigger] applies(table, f.layer, k) && check::verdict(
                na.net@,
                na.regions@,
                table.entries@[k].1,
                f.pin,
                f.layer,
                f.ratio,
            ) == Some(f);
        verdicts::every_excess_is_found(na, table, r, p, f.ratio, table.entries@[k].1, f);
    }
}

/// The limit of a finding on a conductor with diffusion is the curve's wherever that gives one.
pub proof fn a_finding_names_the_curves_limit(
    na: NetAntenna<Exact>,
    table: RuleTable<Exact>,
    a: int,
    k: int,
)
    requires
        0 <= a < check::all_findings(na, table).len(),
        applies(table, check::all_findings(na, table)[a].layer, k),
        exact::is_number(check::all_findings(na, table)[a].diff),
    ensures
        check::all_findings(na, table)[a].limit == held_to(
            table.entries@[k].1,
            check::all_findings(na, table)[a].ratio,
            check::all_findings(na, table)[a].diff,
        ),
{
    let f = check::all_findings(na, table)[a];
    verdicts::every_finding_exceeds_a_declared_limit(na, table, a);
    a_layer_is_judged_by_its_own_rules(table, f.layer);
    let rule = table.entries@[k].1;
    lemma_held_to(rule, f.ratio, f.diff);
}

} // verus!
