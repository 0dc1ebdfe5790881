//! Judging one net: each pin with gate area, on each layer, against what the layer states.

use crate::net;
use crate::net::NetAntenna;
use crate::net::RegionExposure;
use crate::rules::LayerRules;
use crate::rules::Ratio;
use crate::rules::RuleTable;
use crate::scalar;
use crate::scalar::Scalar;
use vstd::prelude::*;

verus! {

/// One ratio of one gate on one layer that exceeds its limit.
#[derive(Debug, Clone)]
pub struct Violation<Q> {
    pub net: String,
    /// The pin at risk. Each pin is judged for itself, so a net can appear more than once.
    pub pin: String,
    pub layer: String,
    pub ratio: Ratio,
    /// The computed ratio.
    pub value: Q,
    /// The LEF limit it exceeded.
    pub limit: Q,
    /// Gate area of the conductor, carried so a report reads as a diagnosis rather than a
    /// number: a tiny denominator and a huge numerator are very different problems.
    pub gate_area_um2: Q,
    /// Diffusion area of the conductor. It selects the limit on a diff-ratio curve, so a report
    /// that omitted it would show a limit no one could reproduce from the LEF.
    pub diff_area_um2: Q,
    /// Metal area charged against that limit, partial or cumulative to match `ratio`.
    pub metal_area_um2: Q,
}

/// What a violation says.
pub struct Finding<Q> {
    pub net: Seq<char>,
    pub pin: Seq<char>,
    pub layer: Seq<char>,
    pub ratio: Ratio,
    pub value: Q,
    pub limit: Q,
    pub gate: Q,
    pub diff: Q,
    pub metal: Q,
}

impl<Q> View for Violation<Q> {
    type V = Finding<Q>;

    open spec fn view(&self) -> Finding<Q> {
        Finding {
            net: self.net@,
            pin: self.pin@,
            layer: self.layer@,
            ratio: self.ratio,
            value: self.value,
            limit: self.limit,
            gate: self.gate_area_um2,
            diff: self.diff_area_um2,
            metal: self.metal_area_um2,
        }
    }
}

/// What a list of violations says.
pub open spec fn findings<Q>(v: Seq<Violation<Q>>) -> Seq<Finding<Q>> {
    v.map_values(|x: Violation<Q>| x@)
}

/// The metal that a ratio is taken of.
pub open spec fn metal_for<Q>(e: RegionExposure<Q>, ratio: Ratio) -> Q {
    match ratio {
        Ratio::Par => e.area_um2,
        Ratio::Car => e.cum_area_um2,
        Ratio::Psr => e.side_area_um2,
        Ratio::Csr => e.cum_side_area_um2,
    }
}

/// Whether the conductor has a part in the pin's ratio on the layer: the pin is on it, it has a
/// denominator, and a side-area ratio has a side area to be taken of.
pub open spec fn counts<Q: Scalar>(
    e: RegionExposure<Q>,
    pin: Seq<char>,
    layer: Seq<char>,
    ratio: Ratio,
) -> bool {
    &&& e.layer@ == layer
    &&& net::texts(e.pins@).contains(pin)
    &&& !e.gate_area_um2.spec_le(Q::spec_zero())
    &&& ratio.is_side() ==> scalar::positive(e.side_area_um2)
}

/// Conductor `k` is the first that counts.
pub open spec fn first_counting<Q: Scalar>(
    regions: Seq<RegionExposure<Q>>,
    pin: Seq<char>,
    layer: Seq<char>,
    ratio: Ratio,
    k: int,
) -> bool {
    &&& 0 <= k < regions.len()
    &&& counts(regions[k], pin, layer, ratio)
    &&& forall|j: int| 0 <= j < k ==> !counts(#[trigger] regions[j], pin, layer, ratio)
}

/// The ratios of those of the first `n` conductors that count, each against its own gate area and
/// its own diffusion, added up.
pub open spec fn value_sum<Q: Scalar>(
    regions: Seq<RegionExposure<Q>>,
    rule: LayerRules<Q>,
    pin: Seq<char>,
    layer: Seq<char>,
    ratio: Ratio,
    n: int,
) -> Q
    decreases n,
{
    if n <= 0 {
        Q::spec_zero()
    } else {
        let before = value_sum(regions, rule, pin, layer, ratio, n - 1);
        let e = regions[n - 1];
        if counts(e, pin, layer, ratio) {
            before.spec_plus(
                rule.ratio_value(ratio, metal_for(e, ratio), e.gate_area_um2, e.diff_area_um2),
            )
        } else {
            before
        }
    }
}

/// Their metal, added up.
pub open spec fn metal_sum<Q: Scalar>(
    regions: Seq<RegionExposure<Q>>,
    pin: Seq<char>,
    layer: Seq<char>,
    ratio: Ratio,
    n: int,
) -> Q
    decreases n,
{
    if n <= 0 {
        Q::spec_zero()
    } else {
        let before = metal_sum(regions, pin, layer, ratio, n - 1);
        let e = regions[n - 1];
        if counts(e, pin, layer, ratio) {
            before.spec_plus(metal_for(e, ratio))
        } else {
            before
        }
    }
}

/// The rules of the layer, if they state a limit.
pub open spec fn applied_rule<Q: Scalar>(
    rules: RuleTable<Q>,
    layer: Seq<char>,
) -> Option<LayerRules<Q>> {
    match rules.rules_of(layer) {
        Some(r) => if r.states_limit() {
            Some(r)
        } else {
            None
        },
        None => None,
    }
}

/// The verdict on one ratio of one pin on one layer: the sum of the ratios of the conductors the
/// pin is on, against the limit of the first of them. A ratio at the limit passes, and a limit
/// that is not declared is never exceeded.
pub open spec fn verdict<Q: Scalar>(
    name: Seq<char>,
    regions: Seq<RegionExposure<Q>>,
    rule: LayerRules<Q>,
    pin: Seq<char>,
    layer: Seq<char>,
    ratio: Ratio,
) -> Option<Finding<Q>> {
    if exists|k: int| first_counting(regions, pin, layer, ratio, k) {
        let k = choose|k: int| first_counting(regions, pin, layer, ratio, k);
        let first = regions[k];
        let n = regions.len() as int;
        let value = value_sum(regions, rule, pin, layer, ratio, n);
        let limit = rule.ratio_limit(ratio, first.diff_area_um2);
        if !limit.spec_le(Q::spec_zero()) && limit.spec_lt(value) {
            Some(
                Finding {
                    net: name,
                    pin,
                    layer,
                    ratio,
                    value,
                    limit,
                    gate: first.gate_area_um2,
                    diff: first.diff_area_um2,
                    metal: metal_sum(regions, pin, layer, ratio, n),
                },
            )
        } else {
            None
        }
    } else {
        None
    }
}

/// An optional finding as a list.
pub open spec fn listed<Q>(f: Option<Finding<Q>>) -> Seq<Finding<Q>> {
    match f {
        Some(x) => seq![x],
        None => Seq::empty(),
    }
}

/// The verdicts on one pin on one layer, ratio by ratio. A layer without a limit has none.
pub open spec fn pin_findings<Q: Scalar>(
    name: Seq<char>,
    regions: Seq<RegionExposure<Q>>,
    rules: RuleTable<Q>,
    pin: Seq<char>,
    layer: Seq<char>,
) -> Seq<Finding<Q>> {
    match applied_rule(rules, layer) {
        Some(r) => listed(verdict(name, regions, r, pin, layer, Ratio::Par)) + listed(
            verdict(name, regions, r, pin, layer, Ratio::Car),
        ) + listed(verdict(name, regions, r, pin, layer, Ratio::Psr)) + listed(
            verdict(name, regions, r, pin, layer, Ratio::Csr),
        ),
        None => Seq::empty(),
    }
}

/// Pin `p` of conductor `r` was met before on the same layer.
pub open spec fn met_before<Q>(regions: Seq<RegionExposure<Q>>, r: int, p: int) -> bool {
    exists|s: int, q: int|
        0 <= s <= r && 0 <= q < regions[s].pins@.len() && (s < r || q < p) && regions[s].layer@
            == regions[r].layer@ && (#[trigger] regions[s].pins@[q])@ == regions[r].pins@[p]@
}

/// The verdicts on the first `n` pins of conductor `r`, each pin where it is first met.
pub open spec fn region_findings<Q: Scalar>(
    name: Seq<char>,
    regions: Seq<RegionExposure<Q>>,
    rules: RuleTable<Q>,
    r: int,
    n: int,
) -> Seq<Finding<Q>>
    decreases n,
{
    if n <= 0 {
        Seq::empty()
    } else {
        let before = region_findings(name, regions, rules, r, n - 1);
        if met_before(regions, r, n - 1) {
            before
        } else {
            before + pin_findings(
                name,
                regions,
                rules,
                regions[r].pins@[n - 1]@,
                regions[r].layer@,
            )
        }
    }
}

/// The verdicts on the pins of the first `n` conductors.
pub open spec fn net_findings<Q: Scalar>(
    name: Seq<char>,
    regions: Seq<RegionExposure<Q>>,
    rules: RuleTable<Q>,
    n: int,
) -> Seq<Finding<Q>>
    decreases n,
{
    if n <= 0 {
        Seq::empty()
    } else {
        net_findings(name, regions, rules, n - 1) + region_findings(
            name,
            regions,
            rules,
            n - 1,
            regions[n - 1].pins@.len() as int,
        )
    }
}

/// All verdicts on a net.
pub open spec fn all_findings<Q: Scalar>(na: NetAntenna<Q>, rules: RuleTable<Q>) -> Seq<
    Finding<Q>,
> {
    net_findings(na.net@, na.regions@, rules, na.regions@.len() as int)
}

/// There is one first.
pub proof fn lemma_first_counting<Q: Scalar>(
    regions: Seq<RegionExposure<Q>>,
    pin: Seq<char>,
    layer: Seq<char>,
    ratio: Ratio,
    a: int,
    b: int,
)
    requires
        first_counting(regions, pin, layer, ratio, a),
        first_counting(regions, pin, layer, ratio, b),
    ensures
        a == b,
{
    if a < b {
        assert(!counts(regions[a], pin, layer, ratio));
    }
    if b < a {
        assert(!counts(regions[b], pin, layer, ratio));
    }
}

/// Whether `name` is in the list.
fn names<Q>(e: &RegionExposure<Q>, name: &String) -> (b: bool)
    ensures
        b == net::texts(e.pins@).contains(name@),
{
    let mut k: usize = 0;
    while k < e.pins.len()
        invariant
            k <= e.pins@.len(),
            forall|j: int| 0 <= j < k ==> (#[trigger] e.pins@[j])@ != name@,
        decreases e.pins@.len() - k,
    {
        if e.pins[k] == *name {
            assert(net::texts(e.pins@)[k as int] == name@);
            return true;
        }
        k += 1;
    }
    assert(!net::texts(e.pins@).contains(name@)) by {
        if net::texts(e.pins@).contains(name@) {
            let j = choose|j: int|
                0 <= j < net::texts(e.pins@).len() && net::texts(e.pins@)[j] == name@;
            assert(e.pins@[j]@ == name@);
        }
    }
    false
}

/// The first conductor that counts, the limit by its diffusion, the ratios added up and the metal.
fn weigh<Q: Scalar>(
    na: &NetAntenna<Q>,
    rule: &LayerRules<Q>,
    pin: &String,
    layer: &String,
    ratio: Ratio,
) -> (w: Option<(usize, Q, Q, Q)>)
    ensures
        match w {
            Some((f, limit, value, metal)) => {
                let n = na.regions@.len() as int;
                &&& first_counting(na.regions@, pin@, layer@, ratio, f as int)
                &&& limit == rule.ratio_limit(ratio, na.regions@[f as int].diff_area_um2)
                &&& value == value_sum(na.regions@, *rule, pin@, layer@, ratio, n)
                &&& metal == metal_sum(na.regions@, pin@, layer@, ratio, n)
            },
            None => forall|j: int| !first_counting(na.regions@, pin@, layer@, ratio, j),
        },
{
    let ghost regions = na.regions@;
    let mut first: Option<usize> = None;
    let mut limit = Q::zero();
    let mut value = Q::zero();
    let mut metal = Q::zero();
    let mut k: usize = 0;
    while k < na.regions.len()
        invariant
            k <= na.regions@.len(),
            regions == na.regions@,
            value == value_sum(regions, *rule, pin@, layer@, ratio, k as int),
            metal == metal_sum(regions, pin@, layer@, ratio, k as int),
            match first {
                Some(f) => f < k && first_counting(regions, pin@, layer@, ratio, f as int) && limit
                    == rule.ratio_limit(ratio, regions[f as int].diff_area_um2),
                None => forall|j: int|
                    0 <= j < k ==> !counts(#[trigger] regions[j], pin@, layer@, ratio),
            },
        decreases na.regions@.len() - k,
    {
        let e = &na.regions[k];
        let area = match ratio {
            Ratio::Par => e.area_um2,
            Ratio::Car => e.cum_area_um2,
            Ratio::Psr => e.side_area_um2,
            Ratio::Csr => e.cum_side_area_um2,
        };
        // Side-area ratios need a stated thickness; without one the side area is unknown, and
        // testing it as zero would report a pass that was not earned.
        let available = match ratio {
            Ratio::Par => true,
            Ratio::Car => true,
            Ratio::Psr => Q::zero().lt(e.side_area_um2),
            Ratio::Csr => Q::zero().lt(e.side_area_um2),
        };
        if available && !e.gate_area_um2.le(Q::zero()) && e.layer == *layer && names(e, pin) {
            let (one, own) = rule.evaluate(ratio, area, e.gate_area_um2, e.diff_area_um2);
            value = value.plus(one);
            metal = metal.plus(area);
            if first.is_none() {
                first = Some(k);
                limit = own;
            }
        }
        k += 1;
    }
    match first {
        None => {
            assert forall|j: int| !first_counting(regions, pin@, layer@, ratio, j) by {
                if 0 <= j < regions.len() {
                    assert(!counts(regions[j], pin@, layer@, ratio));
                }
            }
            None
        },
        Some(f) => Some((f, limit, value, metal)),
    }
}

/// Judge one ratio of one pin on one layer.
fn judge<Q: Scalar>(
    na: &NetAntenna<Q>,
    rule: &LayerRules<Q>,
    pin: &String,
    layer: &String,
    ratio: Ratio,
) -> (f: Option<Violation<Q>>)
    ensures
        match f {
            Some(v) => verdict(na.net@, na.regions@, *rule, pin@, layer@, ratio) == Some(v@),
            None => verdict(na.net@, na.regions@, *rule, pin@, layer@, ratio) is None,
        },
{
    let ghost regions = na.regions@;
    match weigh(na, rule, pin, layer, ratio) {
        None => None,
        Some((f, limit, value, metal)) => {
            proof {
                let c = choose|c: int| first_counting(regions, pin@, layer@, ratio, c);
                lemma_first_counting(regions, pin@, layer@, ratio, f as int, c);
            }
            if limit.le(Q::zero()) || !limit.lt(value) {
                return None;
            }
            let e = &na.regions[f];
            Some(
                Violation {
                    net: na.net.clone(),
                    pin: pin.clone(),
                    layer: layer.clone(),
                    ratio,
                    value,
                    limit,
                    gate_area_um2: e.gate_area_um2,
                    diff_area_um2: e.diff_area_um2,
                    metal_area_um2: metal,
                },
            )
        },
    }
}

/// All figures of the conductor are numbers.
pub open spec fn figures_known<Q: Scalar>(e: RegionExposure<Q>) -> bool {
    &&& scalar::known(e.gate_area_um2)
    &&& scalar::known(e.diff_area_um2)
    &&& scalar::known(e.area_um2)
    &&& scalar::known(e.side_area_um2)
    &&& scalar::known(e.cum_area_um2)
    &&& scalar::known(e.cum_side_area_um2)
}

/// A limit is stated for the ratio, but it or the ratio is no number, so that the comparison says
/// nothing.
pub open spec fn unjudged<Q: Scalar>(
    regions: Seq<RegionExposure<Q>>,
    rule: LayerRules<Q>,
    pin: Seq<char>,
    layer: Seq<char>,
    ratio: Ratio,
) -> bool {
    exists|k: int| #[trigger]
        first_counting(regions, pin, layer, ratio, k) && {
            let limit = rule.ratio_limit(ratio, regions[k].diff_area_um2);
            let value = value_sum(regions, rule, pin, layer, ratio, regions.len() as int);
            !limit.spec_le(Q::spec_zero()) && !(scalar::known(limit) && scalar::known(value))
        }
}

/// Whether something on conductor `r` could not be judged: a figure of it, or a ratio of one of its
/// pins.
pub open spec fn region_unsettled<Q: Scalar>(
    regions: Seq<RegionExposure<Q>>,
    rules: RuleTable<Q>,
    r: int,
) -> bool {
    &&& 0 <= r < regions.len()
    &&& applied_rule(rules, regions[r].layer@) matches Some(rule) && (!figures_known(regions[r])
        || exists|p: int, ratio: Ratio|
        0 <= p < regions[r].pins@.len() && #[trigger] unjudged(
            regions,
            rule,
            regions[r].pins@[p]@,
            regions[r].layer@,
            ratio,
        ))
}

/// Whether something on the net could not be judged, and so neither passed nor failed.
pub open spec fn unsettled<Q: Scalar>(na: NetAntenna<Q>, rules: RuleTable<Q>) -> bool {
    exists|r: int| #[trigger] region_unsettled(na.regions@, rules, r)
}

fn has_known_figures<Q: Scalar>(e: &RegionExposure<Q>) -> (b: bool)
    ensures
        b == figures_known(*e),
{
    e.gate_area_um2.le(e.gate_area_um2) && e.diff_area_um2.le(e.diff_area_um2) && e.area_um2.le(
        e.area_um2,
    ) && e.side_area_um2.le(e.side_area_um2) && e.cum_area_um2.le(e.cum_area_um2)
        && e.cum_side_area_um2.le(e.cum_side_area_um2)
}

fn is_unjudged<Q: Scalar>(
    na: &NetAntenna<Q>,
    rule: &LayerRules<Q>,
    pin: &String,
    layer: &String,
    ratio: Ratio,
) -> (b: bool)
    ensures
        b == unjudged(na.regions@, *rule, pin@, layer@, ratio),
{
    match weigh(na, rule, pin, layer, ratio) {
        None => false,
        Some((f, limit, value, _)) => {
            proof {
                assert forall|k: int| #[trigger]
                    first_counting(na.regions@, pin@, layer@, ratio, k) implies k == f by {
                    lemma_first_counting(na.regions@, pin@, layer@, ratio, f as int, k);
                }
            }
            !limit.le(Q::zero()) && !(limit.le(limit) && value.le(value))
        },
    }
}

/// Whether one of the four ratios of a pin could not be judged.
fn any_unjudged<Q: Scalar>(
    na: &NetAntenna<Q>,
    rule: &LayerRules<Q>,
    pin: &String,
    layer: &String,
) -> (b: bool)
    ensures
        b == exists|ratio: Ratio| #[trigger]
            unjudged(na.regions@, *rule, pin@, layer@, ratio),
{
    let par = is_unjudged(na, rule, pin, layer, Ratio::Par);
    let car = is_unjudged(na, rule, pin, layer, Ratio::Car);
    let psr = is_unjudged(na, rule, pin, layer, Ratio::Psr);
    let csr = is_unjudged(na, rule, pin, layer, Ratio::Csr);
    proof {
        if exists|ratio: Ratio| #[trigger] unjudged(na.regions@, *rule, pin@, layer@, ratio) {
            let ratio = choose|ratio: Ratio| #[trigger]
                unjudged(na.regions@, *rule, pin@, layer@, ratio);
            match ratio {
                Ratio::Par => {},
                Ratio::Car => {},
                Ratio::Psr => {},
                Ratio::Csr => {},
            }
        }
    }
    par || car || psr || csr
}

/// Whether something on the net could not be judged. With numbers that can always be told apart
/// nothing is; a ratio that is no number is neither a pass nor a violation, and is not to be taken
/// for either.
pub fn is_unsettled<Q: Scalar>(na: &NetAntenna<Q>, rules: &RuleTable<Q>) -> (b: bool)
    ensures
        b == unsettled(*na, *rules),
{
    let ghost regions = na.regions@;
    let mut r: usize = 0;
    while r < na.regions.len()
        invariant
            regions == na.regions@,
            r <= regions.len(),
            forall|q: int| 0 <= q < r ==> !#[trigger] region_unsettled(regions, *rules, q),
        decreases regions.len() - r,
    {
        let e = &na.regions[r];
        if let Some(rule) = rules.get(&e.layer) {
            if rule.has_any_limit() {
                if !has_known_figures(e) {
                    assert(region_unsettled(regions, *rules, r as int));
                    return true;
                }
                let mut p: usize = 0;
                while p < e.pins.len()
                    invariant
                        regions == na.regions@,
                        r < regions.len(),
                        *e == regions[r as int],
                        p <= e.pins@.len(),
                        applied_rule(*rules, e.layer@) == Some(*rule),
                        forall|q: int, ratio: Ratio|
                            0 <= q < p ==> !#[trigger] unjudged(
                                regions,
                                *rule,
                                e.pins@[q]@,
                                e.layer@,
                                ratio,
                            ),
                    decreases e.pins@.len() - p,
                {
                    if any_unjudged(na, rule, &e.pins[p], &e.layer) {
                        proof {
                            let ratio = choose|ratio: Ratio| #[trigger]
                                unjudged(
                                    regions,
                                    *rule,
                                    e.pins@[p as int]@,
                                    e.layer@,
                                    ratio,
                                );
                            assert(unjudged(
                                regions,
                                *rule,
                                regions[r as int].pins@[p as int]@,
                                regions[r as int].layer@,
                                ratio,
                            ));
                            assert(region_unsettled(regions, *rules, r as int));
                        }
                        return true;
                    }
                    p += 1;
                }
            }
        }
        r += 1;
    }
    false
}

/// Append the verdict on one ratio.
fn judge_into<Q: Scalar>(
    na: &NetAntenna<Q>,
    rule: &LayerRules<Q>,
    pin: &String,
    layer: &String,
    ratio: Ratio,
    out: &mut Vec<Violation<Q>>,
)
    ensures
        findings(final(out)@) == findings(old(out)@) + listed(
            verdict(na.net@, na.regions@, *rule, pin@, layer@, ratio),
        ),
{
    let ghost before = out@;
    if let Some(v) = judge(na, rule, pin, layer, ratio) {
        out.push(v);
        assert(findings(out@) =~= findings(before) + seq![v@]);
    } else {
        assert(findings(out@) =~= findings(before) + Seq::<Finding<Q>>::empty());
    }
}

/// Whether pin `p` of conductor `r` was met before on the same layer.
fn was_met<Q>(regions: &Vec<RegionExposure<Q>>, r: usize, p: usize) -> (b: bool)
    requires
        r < regions@.len(),
        p < regions@[r as int].pins@.len(),
    ensures
        b == met_before(regions@, r as int, p as int),
{
    let ghost rs = regions@;
    let mut s: usize = 0;
    while s <= r
        invariant
            rs == regions@,
            s <= r + 1,
            r < rs.len(),
            p < rs[r as int].pins@.len(),
            forall|t: int, q: int|
                0 <= t < s && 0 <= q < rs[t].pins@.len() && (t < r || q < p) ==> !(
                rs[t].layer@ == rs[r as int].layer@ && (#[trigger] rs[t].pins@[q])@
                    == rs[r as int].pins@[p as int]@),
        decreases r + 1 - s,
    {
        assert(r < regions.len());
        if regions[s].layer == regions[r].layer {
            let mut q: usize = 0;
            while q < regions[s].pins.len() && (s < r || q < p)
                invariant
                    rs == regions@,
                    s <= r,
                    r < rs.len(),
                    p < rs[r as int].pins@.len(),
                    rs[s as int].layer@ == rs[r as int].layer@,
                    q <= rs[s as int].pins@.len(),
                    forall|u: int|
                        0 <= u < q ==> (#[trigger] rs[s as int].pins@[u])@
                            != rs[r as int].pins@[p as int]@,
                decreases rs[s as int].pins@.len() - q,
            {
                if regions[s].pins[q] == regions[r].pins[p] {
                    assert(rs[s as int].pins@[q as int]@ == rs[r as int].pins@[p as int]@);
                    return true;
                }
                q += 1;
            }
        }
        s += 1;
    }
    false
}

/// Evaluate one net against the layer rules, appending any violations.
///
/// Pure over its inputs, without a database. A layer missing from the table is treated as having
/// no rule.
///
/// Each gate is judged, on each layer and ratio once, on the sum of the ratios of the conductors
/// it is on. A layer with no rule still contributes to the cumulative totals but is never itself
/// compared: omitting its metal from CAR would under-report the charge that layers above it
/// inherit, which is precisely the error the cumulative ratio exists to catch.
pub fn check_net<Q: Scalar>(na: &NetAntenna<Q>, rules: &RuleTable<Q>, out: &mut Vec<Violation<Q>>)
    ensures
        findings(final(out)@) == findings(old(out)@) + all_findings(*na, *rules),
{
    let ghost start = findings(out@);
    let ghost regions = na.regions@;
    let ghost name = na.net@;
    let mut r: usize = 0;
    assert(start + net_findings(name, regions, *rules, 0) =~= start);
    while r < na.regions.len()
        invariant
            regions == na.regions@,
            name == na.net@,
            r <= regions.len(),
            findings(out@) == start + net_findings(name, regions, *rules, r as int),
        decreases regions.len() - r,
    {
        let e = &na.regions[r];
        let rule = match rules.get(&e.layer) {
            Some(x) => if x.has_any_limit() {
                Some(x)
            } else {
                None
            },
            None => None,
        };
        let ghost done = findings(out@);
        let mut p: usize = 0;
        assert(done + region_findings(name, regions, *rules, r as int, 0) =~= done);
        while p < e.pins.len()
            invariant
                regions == na.regions@,
                name == na.net@,
                r < regions.len(),
                *e == regions[r as int],
                p <= e.pins@.len(),
                match rule {
                    Some(x) => applied_rule(*rules, e.layer@) == Some(*x),
                    None => applied_rule(*rules, e.layer@) is None,
                },
                findings(out@) == done + region_findings(
                    name,
                    regions,
                    *rules,
                    r as int,
                    p as int,
                ),
            decreases e.pins@.len() - p,
        {
            let ghost before = findings(out@);
            if !was_met(&na.regions, r, p) {
                if let Some(x) = rule {
                    let pin = &e.pins[p];
                    judge_into(na, x, pin, &e.layer, Ratio::Par, out);
                    judge_into(na, x, pin, &e.layer, Ratio::Car, out);
                    judge_into(na, x, pin, &e.layer, Ratio::Psr, out);
                    judge_into(na, x, pin, &e.layer, Ratio::Csr, out);
                }
                proof {
                    let more = pin_findings(
                        name,
                        regions,
                        *rules,
                        e.pins@[p as int]@,
                        e.layer@,
                    );
                    assert(findings(out@) =~= before + more);
                    assert(findings(out@) =~= done + region_findings(
                        name,
                        regions,
                        *rules,
                        r as int,
                        p + 1,
                    ));
                }
            }
            p += 1;
        }
        assert(findings(out@) =~= start + net_findings(name, regions, *rules, r + 1));
        r += 1;
    }
}

} // verus!
