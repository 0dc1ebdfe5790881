//! What a report's findings mean, and what its status promises.

use crate::check;
use crate::check::Finding;
use crate::net;
use crate::net::NetAntenna;
use crate::net::RegionExposure;
use crate::report;
use crate::report::Report;
use crate::rules;
use crate::rules::LayerRules;
use crate::rules::Ratio;
use crate::rules::RuleTable;
use crate::scalar;
use crate::scalar::Exact;
use crate::scalar::Scalar;
use vstd::prelude::*;

verus! {

/// `f` is the verdict on its own pin, layer and ratio, by rules that state a limit.
pub open spec fn is_verdict<Q: Scalar>(
    f: Finding<Q>,
    name: Seq<char>,
    regions: Seq<RegionExposure<Q>>,
    table: RuleTable<Q>,
) -> bool {
    match check::applied_rule(table, f.layer) {
        Some(rule) => check::verdict(name, regions, rule, f.pin, f.layer, f.ratio) == Some(f),
        None => false,
    }
}

/// Pin and layer of `f` were met at a position before pin `p` of conductor `r`.
spec fn from_before<Q>(f: Finding<Q>, regions: Seq<RegionExposure<Q>>, r: int, p: int) -> bool {
    exists|s: int, q: int|
        0 <= s <= r && s < regions.len() && 0 <= q < regions[s].pins@.len() && (s < r || q < p)
            && regions[s].layer@ == f.layer && (#[trigger] regions[s].pins@[q])@ == f.pin
}

/// No two findings have pin, layer and ratio in common.
pub open spec fn distinct_keys<Q>(s: Seq<Finding<Q>>) -> bool {
    forall|a: int, b: int|
        #![trigger s[a], s[b]]
        0 <= a < b < s.len() ==> !(s[a].pin == s[b].pin && s[a].layer == s[b].layer && s[a].ratio
            == s[b].ratio)
}

/// The verdicts on one pin and layer: each is one, and no two are on one ratio.
proof fn lemma_pin_findings<Q: Scalar>(
    name: Seq<char>,
    regions: Seq<RegionExposure<Q>>,
    table: RuleTable<Q>,
    pin: Seq<char>,
    layer: Seq<char>,
)
    ensures
        forall|k: int|
            #![trigger check::pin_findings(name, regions, table, pin, layer)[k]]
            0 <= k < check::pin_findings(name, regions, table, pin, layer).len() ==> {
                let f = check::pin_findings(name, regions, table, pin, layer)[k];
                f.pin == pin && f.layer == layer && is_verdict(f, name, regions, table)
            },
        distinct_keys(check::pin_findings(name, regions, table, pin, layer)),
{
    let all = check::pin_findings(name, regions, table, pin, layer);
    if let Some(rule) = check::applied_rule(table, layer) {
        let a = check::listed(check::verdict(name, regions, rule, pin, layer, Ratio::Par));
        let b = check::listed(check::verdict(name, regions, rule, pin, layer, Ratio::Car));
        let c = check::listed(check::verdict(name, regions, rule, pin, layer, Ratio::Psr));
        let d = check::listed(check::verdict(name, regions, rule, pin, layer, Ratio::Csr));
        assert(all == a + b + c + d);
        assert forall|k: int| #![trigger all[k]] 0 <= k < all.len() implies all[k].pin == pin
            && all[k].layer == layer && is_verdict(all[k], name, regions, table) by {
            if k < a.len() {
                assert(all[k] == a[k]);
            } else if k < a.len() + b.len() {
                assert(all[k] == b[k - a.len()]);
            } else if k < a.len() + b.len() + c.len() {
                assert(all[k] == c[k - a.len() - b.len()]);
            } else {
                assert(all[k] == d[k - a.len() - b.len() - c.len()]);
            }
        }
        assert forall|k: int| #![trigger all[k]] 0 <= k < all.len() implies all[k].ratio == (if k
            < a.len() {
            Ratio::Par
        } else if k < a.len() + b.len() {
            Ratio::Car
        } else if k < a.len() + b.len() + c.len() {
            Ratio::Psr
        } else {
            Ratio::Csr
        }) by {}
    }
}

/// The verdicts on the pins of one conductor up to pin `n`, after those before it.
proof fn lemma_positions<Q: Scalar>(
    name: Seq<char>,
    regions: Seq<RegionExposure<Q>>,
    table: RuleTable<Q>,
    r: int,
    n: int,
)
    requires
        0 <= r < regions.len(),
        0 <= n <= regions[r].pins@.len(),
        sound_to(
            check::net_findings(name, regions, table, r),
            name,
            regions,
            table,
            r,
            0,
        ),
    ensures
        sound_to(
            check::net_findings(name, regions, table, r) + check::region_findings(
                name,
                regions,
                table,
                r,
                n,
            ),
            name,
            regions,
            table,
            r,
            n,
        ),
    decreases n,
{
    let base = check::net_findings(name, regions, table, r);
    let done = base + check::region_findings(name, regions, table, r, n);
    if n == 0 {
        assert(done =~= base);
    } else {
        lemma_positions(name, regions, table, r, n - 1);
        let before = base + check::region_findings(name, regions, table, r, n - 1);
        lemma_sound_later(before, name, regions, table, r, n - 1, r, n);
        if check::met_before(regions, r, n - 1) {
            assert(done =~= before);
        } else {
            let pin = regions[r].pins@[n - 1]@;
            let layer = regions[r].layer@;
            let more = check::pin_findings(name, regions, table, pin, layer);
            lemma_pin_findings(name, regions, table, pin, layer);
            assert(done =~= before + more);
            assert forall|k: int| #![trigger done[k]] 0 <= k < done.len() implies is_verdict(
                done[k],
                name,
                regions,
                table,
            ) && from_before(done[k], regions, r, n) by {
                if k < before.len() {
                    assert(done[k] == before[k]);
                } else {
                    assert(done[k] == more[k - before.len()]);
                    assert(regions[r].pins@[n - 1]@ == done[k].pin);
                }
            }
            assert(distinct_keys(done)) by {
                assert forall|a: int, b: int|
                    #![trigger done[a], done[b]]
                    0 <= a < b < done.len() implies !(done[a].pin == done[b].pin && done[a].layer
                    == done[b].layer && done[a].ratio == done[b].ratio) by {
                    if b < before.len() {
                        assert(done[a] == before[a] && done[b] == before[b]);
                    } else if a < before.len() {
                        assert(done[a] == before[a]);
                        assert(done[b] == more[b - before.len()]);
                        lemma_not_met(before[a], regions, r, n - 1);
                    } else {
                        assert(done[a] == more[a - before.len()]);
                        assert(done[b] == more[b - before.len()]);
                    }
                }
            }
        }
    }
}

/// A pin that was not met before has another key than what was.
proof fn lemma_not_met<Q>(f: Finding<Q>, regions: Seq<RegionExposure<Q>>, r: int, p: int)
    requires
        0 <= r < regions.len(),
        0 <= p < regions[r].pins@.len(),
        from_before(f, regions, r, p),
        !check::met_before(regions, r, p),
    ensures
        !(f.pin == regions[r].pins@[p]@ && f.layer == regions[r].layer@),
{
    let (s, q) = choose|s: int, q: int|
        0 <= s <= r && s < regions.len() && 0 <= q < regions[s].pins@.len() && (s < r || q < p)
            && regions[s].layer@ == f.layer && (#[trigger] regions[s].pins@[q])@ == f.pin;
    assert(regions[s].pins@[q]@ == f.pin);
}

/// Each finding is a verdict on a pin met before, and no two are on one pin, layer and ratio.
spec fn sound_to<Q: Scalar>(
    s: Seq<Finding<Q>>,
    name: Seq<char>,
    regions: Seq<RegionExposure<Q>>,
    table: RuleTable<Q>,
    r: int,
    p: int,
) -> bool {
    &&& forall|k: int|
        #![trigger s[k]]
        0 <= k < s.len() ==> is_verdict(s[k], name, regions, table) && from_before(
            s[k],
            regions,
            r,
            p,
        )
    &&& distinct_keys(s)
}

proof fn lemma_sound_later<Q: Scalar>(
    s: Seq<Finding<Q>>,
    name: Seq<char>,
    regions: Seq<RegionExposure<Q>>,
    table: RuleTable<Q>,
    r: int,
    p: int,
    r2: int,
    p2: int,
)
    requires
        sound_to(s, name, regions, table, r, p),
        r < r2 || r == r2 && p <= p2,
    ensures
        sound_to(s, name, regions, table, r2, p2),
{
    assert forall|k: int| #![trigger s[k]] 0 <= k < s.len() implies from_before(
        s[k],
        regions,
        r2,
        p2,
    ) by {
        let f = s[k];
        let (a, q) = choose|a: int, q: int|
            0 <= a <= r && a < regions.len() && 0 <= q < regions[a].pins@.len() && (a < r || q < p)
                && regions[a].layer@ == f.layer && (#[trigger] regions[a].pins@[q])@ == f.pin;
        assert(regions[a].pins@[q]@ == f.pin);
    }
}

proof fn lemma_net_findings<Q: Scalar>(
    name: Seq<char>,
    regions: Seq<RegionExposure<Q>>,
    table: RuleTable<Q>,
    n: int,
)
    requires
        0 <= n <= regions.len(),
    ensures
        sound_to(check::net_findings(name, regions, table, n), name, regions, table, n, 0),
    decreases n,
{
    if n > 0 {
        lemma_net_findings(name, regions, table, n - 1);
        let pins = regions[n - 1].pins@.len() as int;
        lemma_positions(name, regions, table, n - 1, pins);
        lemma_sound_later(
            check::net_findings(name, regions, table, n),
            name,
            regions,
            table,
            n - 1,
            pins,
            n,
            0,
        );
    }
}

/// Every finding is the verdict on a pin of the net, on a layer that states a limit: the limit is
/// declared, and the value exceeds it. A ratio at the limit is no finding, and neither is one
/// whose limit is undeclared.
pub proof fn every_finding_exceeds_a_declared_limit<Q: Scalar>(
    na: NetAntenna<Q>,
    table: RuleTable<Q>,
    k: int,
)
    requires
        0 <= k < check::all_findings(na, table).len(),
    ensures
        is_verdict(check::all_findings(na, table)[k], na.net@, na.regions@, table),
        check::all_findings(na, table)[k].net == na.net@,
        !check::all_findings(na, table)[k].limit.spec_le(Q::spec_zero()),
        check::all_findings(na, table)[k].limit.spec_lt(check::all_findings(na, table)[k].value),
{
    lemma_net_findings(na.net@, na.regions@, table, na.regions@.len() as int);
}

/// One verdict per pin, layer and ratio, however many conductors the pin is on.
pub proof fn one_verdict_for_each_pin_layer_and_ratio<Q: Scalar>(
    na: NetAntenna<Q>,
    table: RuleTable<Q>,
)
    ensures
        distinct_keys(check::all_findings(na, table)),
{
    lemma_net_findings(na.net@, na.regions@, table, na.regions@.len() as int);
}

/// Nothing that exceeds is left out: a verdict on a pin of one of the conductors is among the
/// findings, so every gate on a violating conductor is named.
pub proof fn every_excess_is_found<Q: Scalar>(
    na: NetAntenna<Q>,
    table: RuleTable<Q>,
    r: int,
    p: int,
    ratio: Ratio,
    rule: LayerRules<Q>,
    f: Finding<Q>,
)
    requires
        0 <= r < na.regions@.len(),
        0 <= p < na.regions@[r].pins@.len(),
        check::applied_rule(table, na.regions@[r].layer@) == Some(rule),
        check::verdict(
            na.net@,
            na.regions@,
            rule,
            na.regions@[r].pins@[p]@,
            na.regions@[r].layer@,
            ratio,
        ) == Some(f),
    ensures
        check::all_findings(na, table).contains(f),
    decreases r, p,
{
    let regions = na.regions@;
    let name = na.net@;
    if check::met_before(regions, r, p) {
        let (s, q) = choose|s: int, q: int|
            0 <= s <= r && 0 <= q < regions[s].pins@.len() && (s < r || q < p)
                && regions[s].layer@ == regions[r].layer@ && (#[trigger] regions[s].pins@[q])@
                == regions[r].pins@[p]@;
        every_excess_is_found(na, table, s, q, ratio, rule, f);
    } else {
        let pin = regions[r].pins@[p]@;
        let layer = regions[r].layer@;
        lemma_listed(name, regions, table, pin, layer, ratio, rule, f);
        lemma_region_holds(name, regions, table, r, p, regions[r].pins@.len() as int, f);
        lemma_net_holds(name, regions, table, r, regions.len() as int, f);
    }
}

proof fn lemma_listed<Q: Scalar>(
    name: Seq<char>,
    regions: Seq<RegionExposure<Q>>,
    table: RuleTable<Q>,
    pin: Seq<char>,
    layer: Seq<char>,
    ratio: Ratio,
    rule: LayerRules<Q>,
    f: Finding<Q>,
)
    requires
        check::applied_rule(table, layer) == Some(rule),
        check::verdict(name, regions, rule, pin, layer, ratio) == Some(f),
    ensures
        check::pin_findings(name, regions, table, pin, layer).contains(f),
{
    let a = check::listed(check::verdict(name, regions, rule, pin, layer, Ratio::Par));
    let b = check::listed(check::verdict(name, regions, rule, pin, layer, Ratio::Car));
    let c = check::listed(check::verdict(name, regions, rule, pin, layer, Ratio::Psr));
    let d = check::listed(check::verdict(name, regions, rule, pin, layer, Ratio::Csr));
    let all = a + b + c + d;
    let k: int = match ratio {
        Ratio::Par => 0,
        Ratio::Car => a.len() as int,
        Ratio::Psr => (a.len() + b.len()) as int,
        Ratio::Csr => (a.len() + b.len() + c.len()) as int,
    };
    assert(all[k] == f);
    assert(check::pin_findings(name, regions, table, pin, layer) == all);
}

proof fn lemma_held<Q>(a: Seq<Finding<Q>>, b: Seq<Finding<Q>>, f: Finding<Q>)
    requires
        a.contains(f) || b.contains(f),
    ensures
        (a + b).contains(f),
{
    let ab = a + b;
    if a.contains(f) {
        let k = choose|k: int| 0 <= k < a.len() && a[k] == f;
        assert(ab[k] == f);
    } else {
        let k = choose|k: int| 0 <= k < b.len() && b[k] == f;
        assert(ab[a.len() + k] == f);
    }
}

proof fn lemma_region_holds<Q: Scalar>(
    name: Seq<char>,
    regions: Seq<RegionExposure<Q>>,
    table: RuleTable<Q>,
    r: int,
    p: int,
    n: int,
    f: Finding<Q>,
)
    requires
        0 <= r < regions.len(),
        0 <= p < n <= regions[r].pins@.len(),
        !check::met_before(regions, r, p),
        check::pin_findings(
            name,
            regions,
            table,
            regions[r].pins@[p]@,
            regions[r].layer@,
        ).contains(f),
    ensures
        check::region_findings(name, regions, table, r, n).contains(f),
    decreases n,
{
    let before = check::region_findings(name, regions, table, r, n - 1);
    let more = check::pin_findings(
        name,
        regions,
        table,
        regions[r].pins@[n - 1]@,
        regions[r].layer@,
    );
    if p < n - 1 {
        lemma_region_holds(name, regions, table, r, p, n - 1, f);
    }
    if !check::met_before(regions, r, n - 1) {
        lemma_held(before, more, f);
    }
}

proof fn lemma_net_holds<Q: Scalar>(
    name: Seq<char>,
    regions: Seq<RegionExposure<Q>>,
    table: RuleTable<Q>,
    r: int,
    n: int,
    f: Finding<Q>,
)
    requires
        0 <= r < n <= regions.len(),
        check::region_findings(
            name,
            regions,
            table,
            r,
            regions[r].pins@.len() as int,
        ).contains(f),
    ensures
        check::net_findings(name, regions, table, n).contains(f),
    decreases n,
{
    if r < n - 1 {
        lemma_net_holds(name, regions, table, r, n - 1, f);
    }
    lemma_held(
        check::net_findings(name, regions, table, n - 1),
        check::region_findings(
            name,
            regions,
            table,
            n - 1,
            regions[n - 1].pins@.len() as int,
        ),
        f,
    );
}

/// Pins that are on the same conductors are judged alike, each in its own name.
pub proof fn pins_sharing_conductors_are_judged_alike<Q: Scalar>(
    name: Seq<char>,
    regions: Seq<RegionExposure<Q>>,
    rule: LayerRules<Q>,
    a: Seq<char>,
    b: Seq<char>,
    layer: Seq<char>,
    ratio: Ratio,
)
    requires
        forall|k: int|
            0 <= k < regions.len() ==> (net::texts((#[trigger] regions[k]).pins@).contains(a)
                <==> net::texts(regions[k].pins@).contains(b)),
    ensures
        check::verdict(name, regions, rule, b, layer, ratio) == (match check::verdict(
            name,
            regions,
            rule,
            a,
            layer,
            ratio,
        ) {
            Some(f) => Some(Finding { pin: b, ..f }),
            None => None,
        }),
{
    assert forall|k: int| 0 <= k < regions.len() implies check::counts(
        #[trigger] regions[k],
        a,
        layer,
        ratio,
    ) == check::counts(regions[k], b, layer, ratio) by {}
    lemma_same_sums(regions, rule, a, b, layer, ratio, regions.len() as int);
    if exists|k: int| check::first_counting(regions, a, layer, ratio, k) {
        let k = choose|k: int| check::first_counting(regions, a, layer, ratio, k);
        assert(check::first_counting(regions, b, layer, ratio, k));
        let j = choose|j: int| check::first_counting(regions, b, layer, ratio, j);
        check::lemma_first_counting(regions, b, layer, ratio, k, j);
    }
    if exists|k: int| check::first_counting(regions, b, layer, ratio, k) {
        let k = choose|k: int| check::first_counting(regions, b, layer, ratio, k);
        assert(check::first_counting(regions, a, layer, ratio, k));
    }
}

proof fn lemma_same_sums<Q: Scalar>(
    regions: Seq<RegionExposure<Q>>,
    rule: LayerRules<Q>,
    a: Seq<char>,
    b: Seq<char>,
    layer: Seq<char>,
    ratio: Ratio,
    n: int,
)
    requires
        n <= regions.len(),
        forall|k: int|
            0 <= k < regions.len() ==> check::counts(#[trigger] regions[k], a, layer, ratio)
                == check::counts(regions[k], b, layer, ratio),
    ensures
        check::value_sum(regions, rule, a, layer, ratio, n) == check::value_sum(
            regions,
            rule,
            b,
            layer,
            ratio,
            n,
        ),
        check::metal_sum(regions, a, layer, ratio, n) == check::metal_sum(
            regions,
            b,
            layer,
            ratio,
            n,
        ),
    decreases n,
{
    if n > 0 {
        lemma_same_sums(regions, rule, a, b, layer, ratio, n - 1);
        assert(check::counts(regions[n - 1], a, layer, ratio) == check::counts(
            regions[n - 1],
            b,
            layer,
            ratio,
        ));
    }
}

/// The verdict goes by each conductor's own diffusion, never by the net's total.
pub proof fn the_diffusion_of_the_net_decides_nothing<Q: Scalar>(
    a: NetAntenna<Q>,
    b: NetAntenna<Q>,
    table: RuleTable<Q>,
)
    requires
        a.net@ == b.net@,
        a.regions@ == b.regions@,
    ensures
        check::all_findings(a, table) == check::all_findings(b, table),
{
}

/// A layer without a stated limit has no findings, whatever numbers its rules hold.
pub proof fn a_layer_without_a_limit_has_no_findings<Q: Scalar>(
    na: NetAntenna<Q>,
    table: RuleTable<Q>,
    layer: Seq<char>,
    k: int,
)
    requires
        check::applied_rule(table, layer) is None,
        0 <= k < check::all_findings(na, table).len(),
    ensures
        check::all_findings(na, table)[k].layer != layer,
{
    every_finding_exceeds_a_declared_limit(na, table, k);
}

/// No denominator, no ratio: conductors whose gate area is not positive have no findings.
pub proof fn no_gate_area_no_findings<Q: Scalar>(na: NetAntenna<Q>, table: RuleTable<Q>)
    requires
        forall|k: int|
            0 <= k < na.regions@.len() ==> (#[trigger] na.regions@[k]).gate_area_um2.spec_le(
                Q::spec_zero(),
            ),
    ensures
        check::all_findings(na, table).len() == 0,
{
    let all = check::all_findings(na, table);
    if all.len() > 0 {
        every_finding_exceeds_a_declared_limit(na, table, 0);
        let f = all[0];
        let k = choose|k: int|
            check::first_counting(na.regions@, f.pin, f.layer, f.ratio, k);
        assert(check::first_counting(na.regions@, f.pin, f.layer, f.ratio, k));
        assert(check::counts(na.regions@[k], f.pin, f.layer, f.ratio));
    }
}

/// A side-area ratio is not reported of a layer on which no side area is known.
pub proof fn no_side_area_no_side_findings<Q: Scalar>(
    na: NetAntenna<Q>,
    table: RuleTable<Q>,
    layer: Seq<char>,
    k: int,
)
    requires
        forall|r: int|
            0 <= r < na.regions@.len() && (#[trigger] na.regions@[r]).layer@ == layer
                ==> !scalar::positive(na.regions@[r].side_area_um2),
        0 <= k < check::all_findings(na, table).len(),
        check::all_findings(na, table)[k].layer == layer,
    ensures
        !check::all_findings(na, table)[k].ratio.is_side(),
{
    every_finding_exceeds_a_declared_limit(na, table, k);
    let f = check::all_findings(na, table)[k];
    let r = choose|r: int| check::first_counting(na.regions@, f.pin, f.layer, f.ratio, r);
    assert(check::first_counting(na.regions@, f.pin, f.layer, f.ratio, r));
    assert(check::counts(na.regions@[r], f.pin, f.layer, f.ratio));
}

/// In exact arithmetic nothing is less than itself, so a ratio at the limit passes.
pub proof fn at_the_limit_is_legal(limit: Exact)
    ensures
        !limit.spec_lt(limit),
{
}

/// Where a layer states a curve, the curve is the limit, whatever the plain ratio; without one
/// the plain ratio is.
pub proof fn the_curve_goes_before_the_plain_ratio<Q: Scalar>(
    rule: LayerRules<Q>,
    ratio: Ratio,
    diff: Q,
)
    ensures
        rules::limit_at(rule.curve(ratio), diff) matches Some(l) ==> rule.limit_for(ratio, diff)
            == l,
        rule.curve(ratio).len() == 0 ==> rule.limit_for(ratio, diff) == rule.plain(ratio),
        rule.curve(ratio).len() == 1 ==> rule.limit_for(ratio, diff) == rule.curve(ratio)[0].1,
        rule.curve(ratio).len() > 0 && diff.spec_le(rule.curve(ratio)[0].0) ==> rule.limit_for(
            ratio,
            diff,
        ) == rule.curve(ratio)[0].1,
{
}

/// The two reasons for a vacuous verdict exclude each other.
pub proof fn vacuous_for_one_reason<Q: Scalar>(
    r: Report<Q>,
    nets: Seq<Option<NetAntenna<Q>>>,
    table: RuleTable<Q>,
)
    requires
        report::is_summary(r, nets, table),
    ensures
        !(r.no_rules_found && r.no_routing_found),
{
}

/// A clean report is a claim that was checked: a net was routed, a layer that was met states a
/// limit, and no net has a finding.
pub proof fn clean_means_checked<Q: Scalar>(
    r: Report<Q>,
    nets: Seq<Option<NetAntenna<Q>>>,
    table: RuleTable<Q>,
)
    requires
        report::is_summary(r, nets, table),
        r.status@ == "clean"@,
    ensures
        report::any_routed(nets, nets.len() as int),
        report::any_limited(nets, table, nets.len() as int),
        r.count == 0,
        report::design_findings(nets, table, nets.len() as int).len() == 0,
{
    reveal_strlit("clean");
    reveal_strlit("vacuous");
    reveal_strlit("violations");
    assert("clean"@.len() != "vacuous"@.len());
    assert("clean"@.len() != "violations"@.len());
}

/// The status follows the findings: `violations` exactly when something was checked and
/// something was found.
pub proof fn violations_mean_findings<Q: Scalar>(
    r: Report<Q>,
    nets: Seq<Option<NetAntenna<Q>>>,
    table: RuleTable<Q>,
)
    requires
        report::is_summary(r, nets, table),
    ensures
        r.status@ == "violations"@ <==> !r.no_rules_found && !r.no_routing_found
            && report::design_findings(nets, table, nets.len() as int).len() > 0,
        r.status@ == "vacuous"@ <==> r.no_rules_found || r.no_routing_found,
{
    reveal_strlit("clean");
    reveal_strlit("vacuous");
    reveal_strlit("violations");
    assert("clean"@.len() != "vacuous"@.len());
    assert("clean"@.len() != "violations"@.len());
    assert("vacuous"@.len() != "violations"@.len());
}

/// Every net is counted once: as checked, as without a gate, or as unrouted.
pub proof fn every_net_is_counted_once<Q: Scalar>(
    r: Report<Q>,
    nets: Seq<Option<NetAntenna<Q>>>,
    table: RuleTable<Q>,
)
    requires
        report::is_summary(r, nets, table),
    ensures
        r.nets_checked + r.nets_no_gate + r.nets_unrouted == nets.len(),
{
}

/// A net without a gate adds no finding, and neither does one whose gates are all unanchored.
pub proof fn only_read_gates_have_findings<Q: Scalar>(na: NetAntenna<Q>, table: RuleTable<Q>)
    requires
        na.regions@.len() == 0,
    ensures
        check::all_findings(na, table).len() == 0,
{
}

} // verus!
