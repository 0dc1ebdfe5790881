//! What is read of a net, by the fields of its terminals, its layers and its boxes.

use crate::conductor;
use crate::conductor::LayerBox;
use crate::graph;
use crate::graph::NetGraph;
use crate::laws::drawing;
use crate::laws::exact;
use crate::net;
use crate::net::LayerInfo;
use crate::net::NetAntenna;
use crate::net::RegionExposure;
use crate::net::Terminal;
use crate::regions::Collected;
use crate::scalar::Exact;
use crate::scalar::Scalar;
use vstd::prelude::*;

verus! {

/// All of `v`, added up.
pub open spec fn real_sum(v: Seq<real>) -> real
    decreases v.len(),
{
    if v.len() == 0 {
        0real
    } else {
        real_sum(v.drop_last()) + v.last()
    }
}

/// The listed terminals.
pub open spec fn listed<Q>(terminals: Seq<Terminal<Q>>, terms: Seq<usize>) -> Seq<Terminal<Q>> {
    terms.map_values(|t: usize| terminals[t as int])
}

/// Whether a gate area is one: any but a number that is not positive. An area that is no number
/// may be one, and is not passed over.
pub open spec fn is_area(gate: Exact) -> bool {
    !(exact::is_number(gate) && exact::number(gate) <= 0real)
}

/// Those of them that are gates: that have gate area.
pub open spec fn gates(v: Seq<Terminal<Exact>>) -> Seq<Terminal<Exact>> {
    v.filter(|t: Terminal<Exact>| is_area(t.gate_area_um2))
}

proof fn lemma_gate(t: Terminal<Exact>)
    ensures
        net::is_gate(t) <==> is_area(t.gate_area_um2),
{
    exact::lemma_zero();
    exact::only_numbers_compare(t.gate_area_um2, Exact::Value(0, 1));
    if exact::is_number(t.gate_area_um2) {
        exact::comparisons_are_of_the_numbers(t.gate_area_um2, Exact::Value(0, 1));
    }
}

/// One more terminal adds its gate area, if it has any, and nothing else; its diffusion, always;
/// and its name, if it is a gate: whatever its place in the list.
pub proof fn each_terminal_adds_its_own<Q: Scalar>(
    terminals: Seq<Terminal<Q>>,
    terms: Seq<usize>,
    t: usize,
)
    ensures
        ({
            let n = terms.len() as int;
            let more = terms.push(t);
            let one = terminals[t as int];
            let gate = !one.gate_area_um2.spec_le(Q::spec_zero());
            &&& net::gate_sum(terminals, more, n + 1) == (if gate {
                net::gate_sum(terminals, terms, n).spec_plus(one.gate_area_um2)
            } else {
                net::gate_sum(terminals, terms, n)
            })
            &&& net::diff_sum(terminals, more, n + 1) == net::diff_sum(
                terminals,
                terms,
                n,
            ).spec_plus(one.diff_area_um2)
            &&& net::gate_names(terminals, more, n + 1) == (if gate {
                net::gate_names(terminals, terms, n).push(one.name@)
            } else {
                net::gate_names(terminals, terms, n)
            })
        }),
{
    let n = terms.len() as int;
    let more = terms.push(t);
    assert(more[n] == t);
    lemma_prefix(terminals, terms, more, n);
}

proof fn lemma_prefix<Q: Scalar>(
    terminals: Seq<Terminal<Q>>,
    a: Seq<usize>,
    b: Seq<usize>,
    n: int,
)
    requires
        n <= a.len(),
        n <= b.len(),
        forall|k: int| 0 <= k < n ==> a[k] == b[k],
    ensures
        net::gate_sum(terminals, a, n) == net::gate_sum(terminals, b, n),
        net::diff_sum(terminals, a, n) == net::diff_sum(terminals, b, n),
        net::gate_names(terminals, a, n) == net::gate_names(terminals, b, n),
    decreases n,
{
    if n > 0 {
        lemma_prefix(terminals, a, b, n - 1);
    }
}

/// Of the terminals listed for it, a region adds up the areas of all that are gates, and the
/// diffusion of all, whatever their places; its pins are the names of those that are gates, in
/// their order.
pub proof fn a_region_sums_its_terminals(terminals: Seq<Terminal<Exact>>, terms: Seq<usize>)
    requires
        forall|k: int| 0 <= k < terms.len() ==> (#[trigger] terms[k]) < terminals.len(),
    ensures
        net::gate_names(terminals, terms, terms.len() as int) == gates(
            listed(terminals, terms),
        ).map_values(|t: Terminal<Exact>| t.name@),
        net::gate_sum(terminals, terms, terms.len() as int) is Value ==> exact::number(
            net::gate_sum(terminals, terms, terms.len() as int),
        ) == real_sum(
            gates(listed(terminals, terms)).map_values(
                |t: Terminal<Exact>| exact::number(t.gate_area_um2),
            ),
        ) && exact::is_number(net::gate_sum(terminals, terms, terms.len() as int)),
        net::diff_sum(terminals, terms, terms.len() as int) is Value ==> exact::number(
            net::diff_sum(terminals, terms, terms.len() as int),
        ) == real_sum(
            listed(terminals, terms).map_values(
                |t: Terminal<Exact>| exact::number(t.diff_area_um2),
            ),
        ) && exact::is_number(net::diff_sum(terminals, terms, terms.len() as int)),
    decreases terms.len(),
{
    reveal(Seq::filter);
    exact::lemma_zero();
    let n = terms.len() as int;
    let all = listed(terminals, terms);
    let name = |t: Terminal<Exact>| t.name@;
    let gate = |t: Terminal<Exact>| exact::number(t.gate_area_um2);
    let diff = |t: Terminal<Exact>| exact::number(t.diff_area_um2);
    if n > 0 {
        let front = terms.drop_last();
        let before = listed(terminals, front);
        let one = terminals[terms[n - 1] as int];
        a_region_sums_its_terminals(terminals, front);
        lemma_prefix(terminals, front, terms, n - 1);
        assert(all.drop_last() =~= before);
        assert(all.last() == one);
        assert(terms[n - 1] < terminals.len());
        lemma_gate(one);
        if is_area(one.gate_area_um2) {
            assert(gates(all) == gates(before).push(one));
            assert(gates(all).map_values(name) =~= gates(before).map_values(name).push(one.name@));
            let v = gates(all).map_values(gate);
            assert(v.drop_last() =~= gates(before).map_values(gate));
            assert(v.last() == gate(one));
            exact::results_are_made_of_numbers(
                net::gate_sum(terminals, terms, n - 1),
                one.gate_area_um2,
            );
            if net::gate_sum(terminals, terms, n) is Value {
                exact::nothing_is_rounded(
                    net::gate_sum(terminals, terms, n - 1),
                    one.gate_area_um2,
                );
            }
        } else {
            assert(gates(all) == gates(before));
        }
        let w = all.map_values(diff);
        assert(w.drop_last() =~= before.map_values(diff));
        assert(w.last() == diff(one));
        exact::results_are_made_of_numbers(
            net::diff_sum(terminals, terms, n - 1),
            one.diff_area_um2,
        );
        if net::diff_sum(terminals, terms, n) is Value {
            exact::nothing_is_rounded(net::diff_sum(terminals, terms, n - 1), one.diff_area_um2);
        }
    } else {
        assert(gates(all).map_values(name) =~= Seq::<Seq<char>>::empty());
        assert(gates(all).map_values(gate) =~= Seq::<real>::empty());
        assert(all.map_values(diff) =~= Seq::<real>::empty());
    }
}

/// Areas of a common denominator, not too many parts of it, have a sum.
pub proof fn areas_of_a_common_denominator_have_a_sum(
    terminals: Seq<Terminal<Exact>>,
    terms: Seq<usize>,
    n: int,
    d: int,
    most: int,
)
    requires
        0 <= n <= terms.len(),
        0 < d <= i128::MAX,
        0 <= most,
        n * most <= i128::MAX,
        forall|k: int|
            0 <= k < n ==> exact::in_parts(
                terminals[(#[trigger] terms[k]) as int].gate_area_um2,
                d,
                most,
            ) && exact::in_parts(terminals[terms[k] as int].diff_area_um2, d, most),
    ensures
        exact::in_parts(net::gate_sum(terminals, terms, n), d, n * most),
        exact::in_parts(net::diff_sum(terminals, terms, n), d, n * most),
    decreases n,
{
    if n > 0 {
        assert((n - 1) * most + most == n * most && (n - 1) * most >= 0) by (nonlinear_arith)
            requires
                n >= 1,
                most >= 0,
        ;
        areas_of_a_common_denominator_have_a_sum(terminals, terms, n - 1, d, most);
        let one = terminals[terms[n - 1] as int];
        exact::sums_over_a_common_denominator_are_defined(
            net::gate_sum(terminals, terms, n - 1),
            one.gate_area_um2,
            d,
            (n - 1) * most,
            most,
        );
        exact::sums_over_a_common_denominator_are_defined(
            net::diff_sum(terminals, terms, n - 1),
            one.diff_area_um2,
            d,
            (n - 1) * most,
            most,
        );
    } else {
        assert(0 * most == 0) by (nonlinear_arith);
        assert(d / 1 == d && d % 1 == 0);
        assert(0 * d == 0) by (nonlinear_arith);
    }
}

/// The diffusion of a net is that of all its terminals.
pub proof fn a_net_has_the_diffusion_of_its_terminals(terminals: Seq<Terminal<Exact>>, n: int)
    requires
        0 <= n <= terminals.len(),
        net::net_diffusion(terminals, n) is Value,
    ensures
        exact::is_number(net::net_diffusion(terminals, n)),
        exact::number(net::net_diffusion(terminals, n)) == real_sum(
            terminals.take(n).map_values(|t: Terminal<Exact>| exact::number(t.diff_area_um2)),
        ),
    decreases n,
{
    exact::lemma_zero();
    let diff = |t: Terminal<Exact>| exact::number(t.diff_area_um2);
    let v = terminals.take(n).map_values(diff);
    if n > 0 {
        let before = net::net_diffusion(terminals, n - 1);
        let one = terminals[n - 1].diff_area_um2;
        exact::results_are_made_of_numbers(before, one);
        exact::nothing_is_rounded(before, one);
        a_net_has_the_diffusion_of_its_terminals(terminals, n - 1);
        assert(v.drop_last() =~= terminals.take(n - 1).map_values(diff));
        assert(v.last() == diff(terminals[n - 1]));
    } else {
        assert(v =~= Seq::<real>::empty());
    }
}

/// Entry `k` is the last that the technology has of the layer.
pub open spec fn last_info(layers: Seq<LayerInfo>, number: i64, k: int) -> bool {
    &&& 0 <= k < layers.len()
    &&& layers[k].number == number
    &&& forall|j: int| k < j < layers.len() ==> (#[trigger] layers[j]).number != number
}

/// Name and thickness of a layer are those that the technology has of it, and without an entry
/// there is no name and no thickness.
pub proof fn a_layer_is_what_the_technology_says(layers: Seq<LayerInfo>, number: i64)
    ensures
        forall|k: int| #[trigger]
            last_info(layers, number, k) ==> net::layer_name(layers, number) == layers[k].name@
                && net::layer_thickness(layers, number) == layers[k].thickness,
        (forall|k: int| 0 <= k < layers.len() ==> (#[trigger] layers[k]).number != number)
            ==> net::layer_name(layers, number) == Seq::<char>::empty() && net::layer_thickness(
            layers,
            number,
        ) == 0,
    decreases layers.len(),
{
    if layers.len() > 0 {
        let front = layers.drop_last();
        let n = layers.len() - 1;
        a_layer_is_what_the_technology_says(front, number);
        assert forall|k: int| #[trigger] last_info(layers, number, k) implies net::layer_name(
            layers,
            number,
        ) == layers[k].name@ && net::layer_thickness(layers, number) == layers[k].thickness by {
            if k < n {
                assert(layers[n].number != number);
                assert forall|j: int| k < j < front.len() implies (#[trigger] front[j]).number
                    != number by {
                    assert(layers[j].number != number);
                }
                assert(last_info(front, number, k));
                assert(front[k] == layers[k]);
            }
        }
        if forall|k: int| 0 <= k < layers.len() ==> (#[trigger] layers[k]).number != number {
            assert(layers[n].number != number);
            assert forall|k: int| 0 <= k < front.len() implies (#[trigger] front[k]).number
                != number by {
                assert(layers[k].number != number);
            }
        }
    }
}

/// A quotient by the square of a scale.
proof fn lemma_scaled(v: Exact, dbu: i64)
    requires
        dbu > 0,
        v.spec_over(Exact::spec_of(dbu).spec_times(Exact::spec_of(dbu))) is Value,
    ensures
        exact::is_number(v),
        exact::number(v.spec_over(Exact::spec_of(dbu).spec_times(Exact::spec_of(dbu)))) * ((
        dbu as real) * (dbu as real)) == exact::number(v),
{
    let u = Exact::spec_of(dbu);
    exact::lemma_whole(dbu);
    let w = u.spec_times(u);
    exact::results_are_made_of_numbers(v, w);
    exact::nothing_is_rounded(u, u);
    exact::nothing_is_rounded(v, w);
    let (a, b) = (exact::number(v), exact::number(w));
    assert((a / b) * b == a) by (nonlinear_arith)
        requires
            b != 0real,
    ;
}

/// The perimeters of the first `n` stage layers, each times the thickness of its own layer.
pub open spec fn sides(
    stack: Seq<i64>,
    present: Seq<i64>,
    layers: Seq<LayerInfo>,
    n: int,
) -> Seq<real> {
    Seq::new(
        n as nat,
        |k: int| (stack[k] as real) * (net::layer_thickness(layers, present[k]) as real),
    )
}

proof fn lemma_sides(stack: Seq<i64>, present: Seq<i64>, layers: Seq<LayerInfo>, n: int)
    requires
        n >= 0,
        net::side_sum::<Exact>(stack, present, n, layers) is Value,
    ensures
        exact::is_number(net::side_sum::<Exact>(stack, present, n, layers)),
        exact::number(net::side_sum::<Exact>(stack, present, n, layers)) == real_sum(
            sides(stack, present, layers, n),
        ),
    decreases n,
{
    exact::lemma_zero();
    if n > 0 {
        let p = Exact::spec_of(stack[n - 1]);
        let t = Exact::spec_of(net::layer_thickness(layers, present[n - 1]));
        let before = net::side_sum::<Exact>(stack, present, n - 1, layers);
        exact::lemma_whole(stack[n - 1]);
        exact::lemma_whole(net::layer_thickness(layers, present[n - 1]));
        exact::results_are_made_of_numbers(before, p.spec_times(t));
        exact::nothing_is_rounded(p, t);
        exact::nothing_is_rounded(before, p.spec_times(t));
        lemma_sides(stack, present, layers, n - 1);
        let v = sides(stack, present, layers, n);
        assert(v.drop_last() =~= sides(stack, present, layers, n - 1));
    }
}

/// `e` says, in square micrometres, what the listed terminals share at stage `s`: where a figure
/// is defined, it is the measure in database units over the square of the scale. Side area is
/// perimeter times thickness, and up to a stage each layer has its own.
pub open spec fn tells(
    e: RegionExposure<Exact>,
    present: Seq<i64>,
    s: int,
    terms: Seq<usize>,
    m: Collected,
    stack: Seq<i64>,
    terminals: Seq<Terminal<Exact>>,
    layers: Seq<LayerInfo>,
    dbu: i64,
) -> bool {
    let unit = (dbu as real) * (dbu as real);
    let those = listed(terminals, terms);
    let thickness = net::layer_thickness(layers, present[s]) as real;
    &&& e.layer_number == present[s]
    &&& e.layer@ == net::layer_name(layers, present[s])
    &&& e.pins@.map_values(|p: String| p@) == gates(those).map_values(
        |t: Terminal<Exact>| t.name@,
    )
    &&& e.gate_area_um2 is Value ==> exact::number(e.gate_area_um2) == real_sum(
        gates(those).map_values(|t: Terminal<Exact>| exact::number(t.gate_area_um2)),
    )
    &&& e.diff_area_um2 is Value ==> exact::number(e.diff_area_um2) == real_sum(
        those.map_values(|t: Terminal<Exact>| exact::number(t.diff_area_um2)),
    )
    &&& e.area_um2 is Value ==> exact::number(e.area_um2) * unit == m.layer_area as real
    &&& e.cum_area_um2 is Value ==> exact::number(e.cum_area_um2) * unit
        == m.cumulative_area as real
    &&& e.side_area_um2 is Value ==> exact::number(e.side_area_um2) * unit == (
    m.layer_perimeter as real) * thickness
    &&& e.cum_side_area_um2 is Value ==> exact::number(e.cum_side_area_um2) * unit == real_sum(
        sides(stack, present, layers, s + 1),
    )
}

/// What is read of a region is in square micrometres what its terminals share.
pub proof fn a_reading_tells_what_is_shared(
    e: RegionExposure<Exact>,
    present: Seq<i64>,
    s: int,
    terms: Seq<usize>,
    m: Collected,
    stack: Seq<i64>,
    terminals: Seq<Terminal<Exact>>,
    layers: Seq<LayerInfo>,
    dbu: i64,
)
    requires
        net::is_exposure(
            e,
            present,
            s,
            terms,
            m,
            stack,
            terminals,
            layers,
            Exact::spec_of(dbu),
        ),
        dbu > 0,
        0 <= s < present.len(),
        forall|k: int| 0 <= k < terms.len() ==> (#[trigger] terms[k]) < terminals.len(),
    ensures
        tells(e, present, s, terms, m, stack, terminals, layers, dbu),
{
    a_region_sums_its_terminals(terminals, terms);
    let t = net::layer_thickness(layers, present[s]);
    exact::lemma_whole(m.layer_area);
    exact::lemma_whole(m.cumulative_area);
    exact::lemma_whole(m.layer_perimeter);
    exact::lemma_whole(t);
    if e.area_um2 is Value {
        lemma_scaled(Exact::spec_of(m.layer_area), dbu);
    }
    if e.cum_area_um2 is Value {
        lemma_scaled(Exact::spec_of(m.cumulative_area), dbu);
    }
    let side = Exact::spec_of(m.layer_perimeter).spec_times(Exact::spec_of(t));
    if e.side_area_um2 is Value {
        lemma_scaled(side, dbu);
        exact::nothing_is_rounded(Exact::spec_of(m.layer_perimeter), Exact::spec_of(t));
    }
    if e.cum_side_area_um2 is Value {
        let all = net::side_sum::<Exact>(stack, present, s + 1, layers);
        lemma_scaled(all, dbu);
        lemma_sides(stack, present, layers, s + 1);
    }
    assert(e.pins@.map_values(|p: String| p@) =~= net::texts(e.pins@));
}

/// Areas are defined for every scale of up to 31 bits; and so are the side areas of a layer whose
/// perimeter and thickness have up to 31 bits too.
pub proof fn areas_in_square_micrometres_are_defined(area: i64, thickness: i64, dbu: i64)
    requires
        0 < dbu <= 0x7fff_ffff,
        area > i64::MIN,
    ensures
        exact::is_number(net::in_um2(area, Exact::spec_of(dbu))),
        -0x7fff_ffff <= area <= 0x7fff_ffff && -0x7fff_ffff <= thickness <= 0x7fff_ffff
            ==> exact::is_number(net::side_um2(area, thickness, Exact::spec_of(dbu))),
{
    let b: int = 0x7fff_ffff;
    let u = Exact::spec_of(dbu);
    exact::lemma_whole(dbu);
    exact::lemma_whole(area);
    exact::lemma_whole(thickness);
    assert(b * b == 4611686014132420609) by (nonlinear_arith)
        requires
            b == 0x7fff_ffff,
    ;
    exact::moderate_figures_are_defined(u, u, b, b);
    exact::nothing_is_rounded(u, u);
    assert(exact::number(u.spec_times(u)) != 0real) by (nonlinear_arith)
        requires
            exact::number(u.spec_times(u)) == (dbu as real) * (dbu as real),
            dbu as real > 0real,
    ;
    let big: int = i64::MAX as int;
    assert(2 * (big * (b * b)) <= i128::MAX) by (nonlinear_arith)
        requires
            b * b == 4611686014132420609,
            big == 9223372036854775807,
    ;
    exact::moderate_figures_are_defined(Exact::spec_of(area), u.spec_times(u), big, b * b);
    if -0x7fff_ffff <= area <= 0x7fff_ffff && -0x7fff_ffff <= thickness <= 0x7fff_ffff {
        let v = Exact::spec_of(area).spec_times(Exact::spec_of(thickness));
        exact::moderate_figures_are_defined(
            Exact::spec_of(area),
            Exact::spec_of(thickness),
            b,
            b,
        );
        assert(2 * ((b * b) * (b * b)) <= i128::MAX) by (nonlinear_arith)
            requires
                b * b == 4611686014132420609,
        ;
        exact::moderate_figures_are_defined(v, u.spec_times(u), b * b, b * b);
    }
}

/// Whether a pin box of the terminal touches conductor `i`.
pub open spec fn terminal_touches<Q>(g: NetGraph, t: Terminal<Q>, i: int) -> bool {
    exists|k: int|
        0 <= k < t.pin_boxes@.len() && drawing::pin_touches(
            g.conductors@[i],
            #[trigger] t.pin_boxes@[k],
        )
}

proof fn lemma_touches<Q>(g: NetGraph, t: Terminal<Q>, i: int)
    ensures
        net::touches_pin(g, t, i) == terminal_touches(g, t, i),
{
    let c = g.conductors@[i];
    if net::touches_pin(g, t, i) {
        let k = choose|k: int|
            0 <= k < t.pin_boxes@.len() && crate::touch::pin_meets(c, #[trigger] t.pin_boxes@[k]);
        drawing::a_pin_touches_what_its_box_comes_near(c, t.pin_boxes@[k]);
        assert(drawing::pin_touches(c, t.pin_boxes@[k]));
    }
    if terminal_touches(g, t, i) {
        let k = choose|k: int|
            0 <= k < t.pin_boxes@.len() && drawing::pin_touches(c, #[trigger] t.pin_boxes@[k]);
        drawing::a_pin_touches_what_its_box_comes_near(c, t.pin_boxes@[k]);
        assert(crate::touch::pin_meets(c, t.pin_boxes@[k]));
    }
}

/// Each terminal is attached to exactly the conductors that a box of its pin touches.
pub open spec fn attached<Q>(
    g: NetGraph,
    terminals: Seq<Terminal<Q>>,
    attach: Seq<Vec<usize>>,
) -> bool {
    &&& attach.len() == terminals.len()
    &&& forall|t: int, i: usize|
        #![trigger attach[t]@.contains(i)]
        0 <= t < attach.len() ==> (attach[t]@.contains(i) <==> i < g.conductors@.len()
            && terminal_touches(g, terminals[t], i as int))
}

proof fn lemma_attached<Q>(g: NetGraph, terminals: Seq<Terminal<Q>>, attach: Seq<Vec<usize>>)
    requires
        net::is_attached(g, terminals, attach),
    ensures
        attached(g, terminals, attach),
{
    assert forall|t: int, i: usize|
        #![trigger attach[t]@.contains(i)]
        0 <= t < attach.len() implies (attach[t]@.contains(i) <==> i < g.conductors@.len()
        && terminal_touches(g, terminals[t], i as int)) by {
        lemma_touches(g, terminals[t], i as int);
        if attach[t]@.contains(i) {
            let k = choose|k: int| 0 <= k < attach[t]@.len() && attach[t]@[k] == i;
            assert(attach[t]@[k] < g.conductors@.len());
        }
    }
}

/// One of the region's terminals has gate area.
pub open spec fn gated(terminals: Seq<Terminal<Exact>>, terms: Seq<usize>) -> bool {
    exists|k: int|
        0 <= k < terms.len() && is_area(terminals[(#[trigger] terms[k]) as int].gate_area_um2)
}

/// `picked` names the regions that have a gate, stage by stage and each once.
pub open spec fn picks(
    picked: Seq<(int, int)>,
    terminals: Seq<Terminal<Exact>>,
    stages: Seq<Vec<(Vec<usize>, Collected)>>,
) -> bool {
    &&& forall|a: int, b: int|
        #![trigger picked[a], picked[b]]
        0 <= a < b < picked.len() ==> picked[a].0 < picked[b].0 || picked[a].0 == picked[b].0
            && picked[a].1 < picked[b].1
    &&& forall|s: int, r: int| #[trigger]
        picked.contains((s, r)) <==> 0 <= s < stages.len() && 0 <= r < stages[s]@.len() && gated(
            terminals,
            stages[s]@[r].0@,
        )
}

proof fn lemma_gated(terminals: Seq<Terminal<Exact>>, terms: Seq<usize>)
    requires
        forall|k: int| 0 <= k < terms.len() ==> (#[trigger] terms[k]) < terminals.len(),
    ensures
        net::has_gate(terminals, terms) == gated(terminals, terms),
{
    assert forall|k: int| 0 <= k < terms.len() implies net::is_gate(
        terminals[(#[trigger] terms[k]) as int],
    ) == is_area(terminals[terms[k] as int].gate_area_um2) by {
        assert(terms[k] < terminals.len());
        lemma_gate(terminals[terms[k] as int]);
    }
    if net::has_gate(terminals, terms) {
        let k = choose|k: int|
            0 <= k < terms.len() && net::is_gate(terminals[(#[trigger] terms[k]) as int]);
        assert(is_area(terminals[terms[k] as int].gate_area_um2));
    }
    if gated(terminals, terms) {
        let k = choose|k: int|
            0 <= k < terms.len() && is_area(
                terminals[(#[trigger] terms[k]) as int].gate_area_um2,
            );
        assert(net::is_gate(terminals[terms[k] as int]));
    }
}

/// The list of one stage goes up its regions.
proof fn lemma_picks_rise<Q: Scalar>(
    terminals: Seq<Terminal<Q>>,
    found: Seq<(Vec<usize>, Collected)>,
    s: int,
    n: int,
)
    requires
        n <= found.len(),
    ensures
        forall|a: int|
            0 <= a < net::gated_regions(terminals, found, s, n).len() ==> (
            #[trigger] net::gated_regions(terminals, found, s, n)[a]).0 == s && 0
                <= net::gated_regions(terminals, found, s, n)[a].1 < n,
        forall|a: int, b: int|
            #![trigger net::gated_regions(terminals, found, s, n)[a], net::gated_regions(terminals, found, s, n)[b]]
            0 <= a < b < net::gated_regions(terminals, found, s, n).len() ==> net::gated_regions(
                terminals,
                found,
                s,
                n,
            )[a].1 < net::gated_regions(terminals, found, s, n)[b].1,
    decreases n,
{
    if n > 0 {
        lemma_picks_rise(terminals, found, s, n - 1);
        let before = net::gated_regions(terminals, found, s, n - 1);
        let all = net::gated_regions(terminals, found, s, n);
        assert forall|a: int| 0 <= a < all.len() implies (#[trigger] all[a]).0 == s && 0 <= all[a].1
            < n by {
            if a < before.len() {
                assert(all[a] == before[a]);
            }
        }
        assert forall|a: int, b: int| #![trigger all[a], all[b]] 0 <= a < b < all.len() implies all[a].1
            < all[b].1 by {
            assert(all[a] == before[a]);
            if b < before.len() {
                assert(all[b] == before[b]);
            }
        }
    }
}

proof fn lemma_stages_rise<Q: Scalar>(
    terminals: Seq<Terminal<Q>>,
    stages: Seq<Vec<(Vec<usize>, Collected)>>,
    n: int,
)
    requires
        n <= stages.len(),
    ensures
        forall|a: int|
            0 <= a < net::gated_stages(terminals, stages, n).len() ==> 0 <= (
            #[trigger] net::gated_stages(terminals, stages, n)[a]).0 < n,
        forall|a: int, b: int|
            #![trigger net::gated_stages(terminals, stages, n)[a], net::gated_stages(terminals, stages, n)[b]]
            0 <= a < b < net::gated_stages(terminals, stages, n).len() ==> {
                let x = net::gated_stages(terminals, stages, n)[a];
                let y = net::gated_stages(terminals, stages, n)[b];
                x.0 < y.0 || x.0 == y.0 && x.1 < y.1
            },
    decreases n,
{
    if n > 0 {
        lemma_stages_rise(terminals, stages, n - 1);
        let found = stages[n - 1]@;
        lemma_picks_rise(terminals, found, n - 1, found.len() as int);
        let before = net::gated_stages(terminals, stages, n - 1);
        let own = net::gated_regions(terminals, found, n - 1, found.len() as int);
        let all = net::gated_stages(terminals, stages, n);
        let m = before.len() as int;
        assert(all == before + own);
        assert forall|a: int| 0 <= a < all.len() implies 0 <= (#[trigger] all[a]).0 < n by {
            if a < m {
                assert(all[a] == before[a]);
            } else {
                assert(all[a] == own[a - m]);
            }
        }
        assert forall|a: int, b: int| #![trigger all[a], all[b]] 0 <= a < b < all.len() implies {
            ||| all[a].0 < all[b].0
            ||| all[a].0 == all[b].0 && all[a].1 < all[b].1
        } by {
            if b < m {
                assert(all[a] == before[a] && all[b] == before[b]);
            } else {
                assert(all[b] == own[b - m]);
                if a < m {
                    assert(all[a] == before[a]);
                } else {
                    assert(all[a] == own[a - m]);
                }
            }
        }
    }
}

/// How many of the first `n` terminals have gate area and touch nothing that exists at any stage.
pub open spec fn adrift(g: NetGraph, terminals: Seq<Terminal<Exact>>) -> Seq<Terminal<Exact>> {
    terminals.filter(
        |t: Terminal<Exact>|
            is_area(t.gate_area_um2) && !(exists|s: int, i: int|
                0 <= s < g.layers@.len() && 0 <= i < g.conductors@.len() && (
                #[trigger] g.conductors@[i]).layer <= (#[trigger] g.layers@[s])
                    && terminal_touches(g, t, i)),
    )
}

proof fn lemma_adrift(g: NetGraph, terminals: Seq<Terminal<Exact>>)
    ensures
        net::unanchored_count(g, terminals, terminals.len() as int) == adrift(g, terminals).len(),
    decreases terminals.len(),
{
    reveal(Seq::filter);
    if terminals.len() > 0 {
        let front = terminals.drop_last();
        let n = terminals.len() as int;
        let one = terminals[n - 1];
        lemma_adrift(g, front);
        lemma_count_prefix(g, terminals, front, n - 1);
        lemma_gate(one);
        assert(net::meets_a_stage(g, one) <==> exists|s: int, i: int|
            0 <= s < g.layers@.len() && 0 <= i < g.conductors@.len() && (
            #[trigger] g.conductors@[i]).layer <= (#[trigger] g.layers@[s]) && terminal_touches(
                g,
                one,
                i,
            )) by {
            if net::meets_a_stage(g, one) {
                let (s, i) = choose|s: int, i: int|
                    0 <= s < g.layers@.len() && #[trigger] g.live(g.layers@[s], i)
                        && net::touches_pin(g, one, i);
                lemma_touches(g, one, i);
                assert(g.conductors@[i].layer <= g.layers@[s]);
            }
            if exists|s: int, i: int|
                0 <= s < g.layers@.len() && 0 <= i < g.conductors@.len() && (
                #[trigger] g.conductors@[i]).layer <= (#[trigger] g.layers@[s])
                    && terminal_touches(g, one, i) {
                let (s, i) = choose|s: int, i: int|
                    0 <= s < g.layers@.len() && 0 <= i < g.conductors@.len() && (
                    #[trigger] g.conductors@[i]).layer <= (#[trigger] g.layers@[s])
                        && terminal_touches(g, one, i);
                lemma_touches(g, one, i);
                assert(g.live(g.layers@[s], i));
            }
        }
    }
}

proof fn lemma_count_prefix<Q: Scalar>(
    g: NetGraph,
    a: Seq<Terminal<Q>>,
    b: Seq<Terminal<Q>>,
    n: int,
)
    requires
        n <= a.len(),
        n <= b.len(),
        forall|k: int| 0 <= k < n ==> a[k] == b[k],
    ensures
        net::unanchored_count(g, a, n) == net::unanchored_count(g, b, n),
    decreases n,
{
    if n > 0 {
        lemma_count_prefix(g, a, b, n - 1);
    }
}

/// `na` tells what the graph shows: the regions of every stage that have a gate, stage by stage,
/// each with what its terminals share, and how many gates are in none.
pub open spec fn tells_all(
    na: NetAntenna<Exact>,
    g: NetGraph,
    terminals: Seq<Terminal<Exact>>,
    layers: Seq<LayerInfo>,
    dbu: i64,
    attach: Seq<Vec<usize>>,
    stages: Seq<Vec<(Vec<usize>, Collected)>>,
    stacks: Seq<Vec<Vec<i64>>>,
    picked: Seq<(int, int)>,
) -> bool {
    &&& attached(g, terminals, attach)
    &&& stages.len() == g.layers@.len()
    &&& stacks.len() == g.layers@.len()
    &&& forall|s: int|
        0 <= s < stages.len() ==> g.are_regions(g.layers@[s], attach, (#[trigger] stages[s])@)
    &&& forall|s: int|
        0 <= s < stages.len() ==> g.are_stacks(
            g.layers@[s],
            attach,
            (#[trigger] stages[s])@,
            stacks[s]@,
        )
    &&& picks(picked, terminals, stages)
    &&& na.regions@.len() == picked.len()
    &&& forall|k: int|
        0 <= k < picked.len() ==> tells(
            #[trigger] na.regions@[k],
            g.layers@,
            picked[k].0,
            stages[picked[k].0]@[picked[k].1].0@,
            stages[picked[k].0]@[picked[k].1].1,
            stacks[picked[k].0]@[picked[k].1]@,
            terminals,
            layers,
            dbu,
        )
}

/// A reading tells of every stage the regions that have a gate, in order, each with what its
/// terminals share; the name and the diffusion of the net; and how many gates stand on nothing at
/// any stage.
pub proof fn a_reading_tells_all_that_is_shared(
    na: NetAntenna<Exact>,
    g: NetGraph,
    name: Seq<char>,
    terminals: Seq<Terminal<Exact>>,
    layers: Seq<LayerInfo>,
    dbu: i64,
)
    requires
        net::shows_graph(na, g, name, terminals, layers, Exact::spec_of(dbu)),
        dbu > 0,
    ensures
        na.net@ == name,
        na.diff_area_um2 is Value ==> exact::number(na.diff_area_um2) == real_sum(
            terminals.map_values(|t: Terminal<Exact>| exact::number(t.diff_area_um2)),
        ),
        na.gates_unanchored == adrift(g, terminals).len(),
        exists|
            attach: Seq<Vec<usize>>,
            stages: Seq<Vec<(Vec<usize>, Collected)>>,
            stacks: Seq<Vec<Vec<i64>>>,
            picked: Seq<(int, int)>,
        |
            #[trigger] tells_all(
                na,
                g,
                terminals,
                layers,
                dbu,
                attach,
                stages,
                stacks,
                picked,
            ),
{
    let n = g.layers@.len() as int;
    let unit = Exact::spec_of(dbu);
    lemma_adrift(g, terminals);
    if na.diff_area_um2 is Value {
        a_net_has_the_diffusion_of_its_terminals(terminals, terminals.len() as int);
        assert(terminals.take(terminals.len() as int) =~= terminals);
    }
    let (attach, stages, stacks) = choose|
        attach: Seq<Vec<usize>>,
        stages: Seq<Vec<(Vec<usize>, Collected)>>,
        stacks: Seq<Vec<Vec<i64>>>,
    |
        {
            &&& net::is_attached(g, terminals, attach)
            &&& #[trigger] net::are_stages(g, attach, stages, stacks, n)
            &&& net::shows_stages(na.regions@, g, stages, stacks, n, terminals, layers, unit)
        };
    let picked = net::gated_stages(terminals, stages, n);
    lemma_attached(g, terminals, attach);
    lemma_stages_rise(terminals, stages, n);
    assert forall|s: int, r: int|
        0 <= s < n && 0 <= r < stages[s]@.len() implies net::has_gate(
        terminals,
        (#[trigger] stages[s]@[r]).0@,
    ) == gated(terminals, stages[s]@[r].0@) by {
        net::lemma_terms_in_range(g, g.layers@[s], attach, stages[s]@, r);
        lemma_gated(terminals, stages[s]@[r].0@);
    }
    assert(picks(picked, terminals, stages)) by {
        assert forall|s: int, r: int| #[trigger] picked.contains((s, r)) <==> 0 <= s < stages.len()
            && 0 <= r < stages[s]@.len() && gated(terminals, stages[s]@[r].0@) by {
            if picked.contains((s, r)) {
                let k = choose|k: int| 0 <= k < picked.len() && picked[k] == (s, r);
                net::lemma_stage_gated(terminals, stages, n, k);
                assert(net::has_gate(terminals, stages[s]@[r].0@));
            }
            if 0 <= s < stages.len() && 0 <= r < stages[s]@.len() && gated(
                terminals,
                stages[s]@[r].0@,
            ) {
                net::lemma_stage_picked(terminals, stages, s, r, n);
            }
        }
    }
    assert forall|k: int| 0 <= k < picked.len() implies tells(
        #[trigger] na.regions@[k],
        g.layers@,
        picked[k].0,
        stages[picked[k].0]@[picked[k].1].0@,
        stages[picked[k].0]@[picked[k].1].1,
        stacks[picked[k].0]@[picked[k].1]@,
        terminals,
        layers,
        dbu,
    ) by {
        net::lemma_stage_gated(terminals, stages, n, k);
        let (s, r) = picked[k];
        net::lemma_terms_in_range(g, g.layers@[s], attach, stages[s]@, r);
        assert(net::is_exposure(
            na.regions@[k],
            g.layers@,
            s,
            stages[s]@[r].0@,
            stages[s]@[r].1,
            stacks[s]@[r]@,
            terminals,
            layers,
            unit,
        ));
        a_reading_tells_what_is_shared(
            na.regions@[k],
            g.layers@,
            s,
            stages[s]@[r].0@,
            stages[s]@[r].1,
            stacks[s]@[r]@,
            terminals,
            layers,
            dbu,
        );
    }
    assert(tells_all(na, g, terminals, layers, dbu, attach, stages, stacks, picked));
}

/// The pins that cut a net are the pin boxes of all its terminals.
pub proof fn every_pin_box_cuts<Q>(terminals: Seq<Terminal<Q>>, b: LayerBox)
    ensures
        net::all_pins(terminals).contains(b) <==> exists|t: int, k: int|
            0 <= t < terminals.len() && 0 <= k < terminals[t].pin_boxes@.len() && #[trigger]
                terminals[t].pin_boxes@[k] == b,
    decreases terminals.len(),
{
    let all = net::all_pins(terminals);
    if terminals.len() > 0 {
        let front = terminals.drop_last();
        let n = terminals.len() - 1;
        let before = net::all_pins(front);
        let own = terminals[n].pin_boxes@;
        every_pin_box_cuts(front, b);
        assert(all == before + own);
        if all.contains(b) {
            let a = choose|a: int| 0 <= a < all.len() && all[a] == b;
            if a < before.len() {
                assert(before[a] == b);
                assert(before.contains(b));
                let (t, k) = choose|t: int, k: int|
                    0 <= t < front.len() && 0 <= k < front[t].pin_boxes@.len() && #[trigger]
                        front[t].pin_boxes@[k] == b;
                assert(terminals[t].pin_boxes@[k] == b);
            } else {
                assert(terminals[n].pin_boxes@[a - before.len()] == b);
            }
        }
        if exists|t: int, k: int|
            0 <= t < terminals.len() && 0 <= k < terminals[t].pin_boxes@.len() && #[trigger]
                terminals[t].pin_boxes@[k] == b {
            let (t, k) = choose|t: int, k: int|
                0 <= t < terminals.len() && 0 <= k < terminals[t].pin_boxes@.len() && #[trigger]
                    terminals[t].pin_boxes@[k] == b;
            if t < n {
                assert(front[t].pin_boxes@[k] == b);
                let a = choose|a: int| 0 <= a < before.len() && before[a] == b;
                assert(all[a] == b);
            } else {
                assert(all[before.len() + k] == b);
            }
        }
    }
}

/// Whether a layer is a routing layer, as its first box says, and a box of it lies over a square
/// that no pin of it covers.
pub open spec fn left_over(boxes: Seq<LayerBox>, cuts: Seq<LayerBox>, k: int, x: int, y: int) -> bool {
    &&& 0 <= k < boxes.len()
    &&& boxes[k].is_routing
    &&& forall|j: int| 0 <= j < k ==> (#[trigger] boxes[j]).layer != boxes[k].layer
    &&& drawing::drawn(boxes, boxes[k].layer, x, y)
    &&& !drawing::drawn(cuts, boxes[k].layer, x, y)
}

/// A net is routed exactly when its pins leave a square of some routing layer.
pub proof fn a_net_is_routed_where_metal_is_left(boxes: Seq<LayerBox>, cuts: Seq<LayerBox>)
    ensures
        net::is_routed(boxes, cuts) <==> exists|k: int, x: int, y: int| #[trigger]
            left_over(boxes, cuts, k, x, y),
{
    if net::is_routed(boxes, cuts) {
        let (l, p) = choose|l: i64, p: (int, int)|
            conductor::layer_is_routing(boxes, l) && #[trigger] conductor::layer_metal(
                boxes,
                cuts,
                l,
            ).contains(p);
        let k = choose|k: int|
            0 <= k < boxes.len() && (#[trigger] boxes[k]).layer == l && boxes[k].is_routing && (
            forall|j: int| 0 <= j < k ==> (#[trigger] boxes[j]).layer != l);
        drawing::lemma_drawn(boxes, l, p.0, p.1);
        drawing::lemma_drawn(cuts, l, p.0, p.1);
        assert(p == (p.0, p.1));
        assert(left_over(boxes, cuts, k, p.0, p.1));
    }
    if exists|k: int, x: int, y: int| #[trigger] left_over(boxes, cuts, k, x, y) {
        let (k, x, y) = choose|k: int, x: int, y: int| #[trigger] left_over(boxes, cuts, k, x, y);
        let l = boxes[k].layer;
        drawing::lemma_drawn(boxes, l, x, y);
        drawing::lemma_drawn(cuts, l, x, y);
        assert(boxes[k].layer == l);
        assert(conductor::layer_is_routing(boxes, l));
        assert(conductor::layer_metal(boxes, cuts, l).contains((x, y)));
    }
}

/// What is read of a net is what the graph of its boxes, cut by all its pin boxes, shows.
pub proof fn a_net_is_read_through_its_graph(
    na: NetAntenna<Exact>,
    name: Seq<char>,
    boxes: Seq<LayerBox>,
    terminals: Seq<Terminal<Exact>>,
    layers: Seq<LayerInfo>,
    dbu: Exact,
)
    requires
        net::shows_routing(na, name, boxes, terminals, layers, dbu),
    ensures
        exists|g: NetGraph, cuts: Seq<LayerBox>|
            {
                &&& #[trigger] graph::shows_net(g.conductors@, boxes, cuts)
                &&& g.wf()
                &&& net::shows_graph(na, g, name, terminals, layers, dbu)
                &&& forall|b: LayerBox| #[trigger]
                    cuts.contains(b) <==> exists|t: int, k: int|
                        0 <= t < terminals.len() && 0 <= k < terminals[t].pin_boxes@.len()
                            && #[trigger] terminals[t].pin_boxes@[k] == b
            },
{
    let cuts = net::all_pins(terminals);
    let g = choose|g: NetGraph|
        {
            &&& #[trigger] g.wf()
            &&& graph::shows_net(g.conductors@, boxes, cuts)
            &&& net::shows_graph(na, g, name, terminals, layers, dbu)
        };
    assert forall|b: LayerBox| #[trigger] cuts.contains(b) <==> exists|t: int, k: int|
        0 <= t < terminals.len() && 0 <= k < terminals[t].pin_boxes@.len() && #[trigger]
            terminals[t].pin_boxes@[k] == b by {
        every_pin_box_cuts(terminals, b);
    }
    assert(graph::shows_net(g.conductors@, boxes, cuts));
}

/// A net is without a gate exactly when each of its terminals has a number for gate area, and
/// none of them is positive.
pub proof fn without_a_gate_means_without_gate_area(terminals: Seq<Terminal<Exact>>)
    ensures
        net::no_gate(terminals) <==> forall|t: int|
            0 <= t < terminals.len() ==> exact::is_number(
                (#[trigger] terminals[t]).gate_area_um2,
            ) && exact::number(terminals[t].gate_area_um2) <= 0real,
{
    assert forall|t: int| 0 <= t < terminals.len() implies net::is_gate(#[trigger] terminals[t])
        == is_area(terminals[t].gate_area_um2) by {
        lemma_gate(terminals[t]);
    }
}

} // verus!
