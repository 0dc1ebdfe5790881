//! What a report counts, lists and concludes, over the nets that it is on.

use crate::check;
use crate::check::Finding;
use crate::cli::Command;
use crate::cli::Request;
use crate::laws::exact;
use crate::laws::findings;
use crate::laws::sharing;
use crate::names;
use crate::net;
use crate::net::LayerInfo;
use crate::net::NetAntenna;
use crate::net::RoutedNet;
use crate::report;
use crate::report::Report;
use crate::rules::LayerRules;
use crate::rules::Ratio;
use crate::rules::RuleTable;
use crate::scalar;
use crate::scalar::Exact;
use crate::scalar::Scalar;
use vstd::prelude::*;

verus! {

/// Lists, one after the other.
pub open spec fn joined<A>(v: Seq<Seq<A>>) -> Seq<A>
    decreases v.len(),
{
    if v.len() == 0 {
        Seq::empty()
    } else {
        joined(v.drop_last()) + v.last()
    }
}

/// Routed, and without a gate: none that was read, and none that is unanchored.
pub open spec fn has_no_gate<Q>(x: Option<NetAntenna<Q>>) -> bool {
    x matches Some(na) && na.regions@.len() == 0 && na.gates_unanchored == 0
}

/// Routed, and with a gate.
pub open spec fn has_a_gate<Q>(x: Option<NetAntenna<Q>>) -> bool {
    x matches Some(na) && (na.regions@.len() > 0 || na.gates_unanchored > 0)
}

/// How many gates of a net are unanchored.
pub open spec fn unanchored<Q>(x: Option<NetAntenna<Q>>) -> int {
    match x {
        Some(na) => na.gates_unanchored as int,
        None => 0,
    }
}

/// The findings on a net.
pub open spec fn found<Q: Scalar>(x: Option<NetAntenna<Q>>, table: RuleTable<Q>) -> Seq<
    Finding<Q>,
> {
    match x {
        Some(na) => check::all_findings(na, table),
        None => Seq::empty(),
    }
}

proof fn lemma_counts<Q: Scalar>(
    nets: Seq<Option<NetAntenna<Q>>>,
    table: RuleTable<Q>,
    n: int,
)
    requires
        0 <= n <= nets.len(),
    ensures
        report::unrouted_count(nets, n) == nets.take(n).filter(
            |x: Option<NetAntenna<Q>>| x is None,
        ).len(),
        report::gateless_count(nets, n) == nets.take(n).filter(
            |x: Option<NetAntenna<Q>>| has_no_gate(x),
        ).len(),
        n - report::unrouted_count(nets, n) - report::gateless_count(nets, n) == nets.take(
            n,
        ).filter(|x: Option<NetAntenna<Q>>| has_a_gate(x)).len(),
        report::unsettled_count(nets, table, n) == nets.take(n).filter(
            |x: Option<NetAntenna<Q>>| x matches Some(na) && check::unsettled(na, table),
        ).len(),
        report::unanchored_total(nets, n) == sharing::sum(
            nets.take(n).map_values(|x: Option<NetAntenna<Q>>| unanchored(x)),
        ),
        report::design_findings(nets, table, n) == joined(
            nets.take(n).map_values(|x: Option<NetAntenna<Q>>| found(x, table)),
        ),
    decreases n,
{
    reveal(Seq::filter);
    let now = nets.take(n);
    let many = |x: Option<NetAntenna<Q>>| unanchored(x);
    let each = |x: Option<NetAntenna<Q>>| found(x, table);
    if n > 0 {
        lemma_counts(nets, table, n - 1);
        assert(now.drop_last() =~= nets.take(n - 1));
        assert(now.last() == nets[n - 1]);
        assert(now.map_values(many).drop_last() =~= nets.take(n - 1).map_values(many));
        assert(now.map_values(each).drop_last() =~= nets.take(n - 1).map_values(each));
    } else {
        assert(now.map_values(many) =~= Seq::<int>::empty());
        assert(now.map_values(each) =~= Seq::<Seq<Finding<Q>>>::empty());
    }
}

/// A report counts its nets: those without routed metal, those with it and no gate, those with
/// both, and those on which something could not be judged; it adds up the gates that are
/// unanchored; and it lists the findings on every net, net by net, and says how many they are.
pub proof fn a_report_counts_its_nets<Q: Scalar>(
    r: Report<Q>,
    nets: Seq<Option<NetAntenna<Q>>>,
    table: RuleTable<Q>,
)
    requires
        report::is_summary(r, nets, table),
    ensures
        r.nets_unrouted == nets.filter(|x: Option<NetAntenna<Q>>| x is None).len(),
        r.nets_no_gate == nets.filter(|x: Option<NetAntenna<Q>>| has_no_gate(x)).len(),
        r.nets_checked == nets.filter(|x: Option<NetAntenna<Q>>| has_a_gate(x)).len(),
        r.nets_unsettled == nets.filter(
            |x: Option<NetAntenna<Q>>| x matches Some(na) && check::unsettled(na, table),
        ).len(),
        r.gates_unanchored == sharing::sum(
            nets.map_values(|x: Option<NetAntenna<Q>>| unanchored(x)),
        ),
        check::findings(r.violations@) == joined(
            nets.map_values(|x: Option<NetAntenna<Q>>| found(x, table)),
        ),
        r.count == r.violations@.len(),
{
    lemma_counts(nets, table, nets.len() as int);
    assert(nets.take(nets.len() as int) =~= nets);
}

/// Whether a region of some net lies on the layer.
pub open spec fn met<Q>(nets: Seq<Option<NetAntenna<Q>>>, layer: Seq<char>) -> bool {
    exists|k: int, a: int|
        #![trigger nets[k]->0.regions@[a]]
        0 <= k < nets.len() && nets[k] is Some && 0 <= a < nets[k]->0.regions@.len()
            && nets[k]->0.regions@[a].layer@ == layer
}

proof fn lemma_met<Q>(nets: Seq<Option<NetAntenna<Q>>>, layer: Seq<char>)
    ensures
        report::layer_seen(nets, layer, nets.len() as int) == met(nets, layer),
{
    let n = nets.len() as int;
    if report::layer_seen(nets, layer, n) {
        let k = choose|k: int|
            0 <= k < n && ((#[trigger] nets[k]) matches Some(na) && report::region_on(
                na,
                layer,
                na.regions@.len() as int,
            ));
        let na = nets[k]->0;
        let a = choose|a: int|
            0 <= a < na.regions@.len() && (#[trigger] na.regions@[a]).layer@ == layer;
        assert(nets[k]->0.regions@[a].layer@ == layer);
    }
    if met(nets, layer) {
        let (k, a) = choose|k: int, a: int|
            #![trigger nets[k]->0.regions@[a]]
            0 <= k < nets.len() && nets[k] is Some && 0 <= a < nets[k]->0.regions@.len()
                && nets[k]->0.regions@[a].layer@ == layer;
        let na = nets[k]->0;
        assert(na.regions@[a].layer@ == layer);
        assert(report::region_on(na, layer, na.regions@.len() as int));
        assert(nets[k] is Some);
    }
}

/// Whether rules that state a limit apply to the layer.
pub open spec fn ruled<Q>(table: RuleTable<Q>, layer: Seq<char>) -> bool {
    exists|k: int| #[trigger] findings::applies(table, layer, k)
}

proof fn lemma_ruled<Q: Scalar>(table: RuleTable<Q>, layer: Seq<char>)
    ensures
        check::applied_rule(table, layer) is Some <==> ruled(table, layer),
{
    findings::a_layer_is_judged_by_its_own_rules(table, layer);
    if ruled(table, layer) {
        let k = choose|k: int| #[trigger] findings::applies(table, layer, k);
        assert(findings::applies(table, layer, k));
    }
}

/// A report concludes: no routing where no net is routed; no rules where a net is, and no layer
/// that was met has a limit; vacuous for either reason, whatever was found; else violations where
/// there are any, and clean where there are none. It lists the layers that were met and have no
/// limit, in order and each once.
pub proof fn a_report_concludes<Q: Scalar>(
    r: Report<Q>,
    nets: Seq<Option<NetAntenna<Q>>>,
    table: RuleTable<Q>,
)
    requires
        report::is_summary(r, nets, table),
    ensures
        r.no_routing_found <==> forall|k: int| 0 <= k < nets.len() ==> (#[trigger] nets[k]) is None,
        r.no_rules_found <==> !r.no_routing_found && forall|layer: Seq<char>| #[trigger]
            met(nets, layer) ==> !ruled(table, layer),
        r.no_routing_found || r.no_rules_found ==> r.status@ == "vacuous"@,
        !r.no_routing_found && !r.no_rules_found && r.violations@.len() > 0 ==> r.status@
            == "violations"@,
        !r.no_routing_found && !r.no_rules_found && r.violations@.len() == 0 ==> r.status@
            == "clean"@,
        forall|layer: Seq<char>|
            (exists|k: int|
                0 <= k < r.layers_without_rules@.len() && (#[trigger] r.layers_without_rules@[k])@
                    == layer) <==> #[trigger] met(nets, layer) && !ruled(table, layer),
        forall|a: int, b: int|
            #![trigger r.layers_without_rules@[a], r.layers_without_rules@[b]]
            0 <= a < b < r.layers_without_rules@.len() ==> names::text_less(
                r.layers_without_rules@[a]@,
                r.layers_without_rules@[b]@,
            ),
{
    let n = nets.len() as int;
    assert forall|layer: Seq<char>| #[trigger] met(nets, layer) == report::layer_seen(
        nets,
        layer,
        n,
    ) by {
        lemma_met(nets, layer);
    }
    assert forall|layer: Seq<char>| #[trigger] ruled(table, layer) == (check::applied_rule(
        table,
        layer,
    ) is Some) by {
        lemma_ruled(table, layer);
    }
    assert(report::any_routed(nets, n) <==> !(forall|k: int|
        0 <= k < nets.len() ==> (#[trigger] nets[k]) is None));
    if report::any_limited(nets, table, n) {
        let layer = choose|layer: Seq<char>| #[trigger]
            report::layer_seen(nets, layer, n) && check::applied_rule(table, layer) is Some;
        assert(met(nets, layer) && ruled(table, layer));
    }
    if !(forall|layer: Seq<char>| #[trigger] met(nets, layer) ==> !ruled(table, layer)) {
        let layer = choose|layer: Seq<char>| #[trigger] met(nets, layer) && ruled(table, layer);
        assert(report::layer_seen(nets, layer, n));
    }
    assert forall|layer: Seq<char>|
        (exists|k: int|
            0 <= k < r.layers_without_rules@.len() && (#[trigger] r.layers_without_rules@[k])@
                == layer) <==> #[trigger] met(nets, layer) && !ruled(table, layer) by {
        assert(names::lists(r.layers_without_rules@, layer) <==> report::layer_seen(
            nets,
            layer,
            n,
        ) && check::applied_rule(table, layer) is None);
    }
    assert forall|a: int, b: int|
        #![trigger r.layers_without_rules@[a], r.layers_without_rules@[b]]
        0 <= a < b < r.layers_without_rules@.len() implies names::text_less(
        r.layers_without_rules@[a]@,
        r.layers_without_rules@[b]@,
    ) by {
        assert(names::in_text_order(r.layers_without_rules@));
    }
}

/// Whether the pins of the net leave routing metal.
pub open spec fn is_routed<Q>(x: RoutedNet<Q>) -> bool {
    net::is_routed(x.boxes@, net::all_pins(x.terminals@))
}

proof fn lemma_design_counts<Q: Scalar>(nets: Seq<RoutedNet<Q>>, n: int)
    requires
        0 <= n <= nets.len(),
    ensures
        report::bare_nets(nets, n) == nets.take(n).filter(
            |x: RoutedNet<Q>| !is_routed(x),
        ).len(),
        report::gateless_nets(nets, n) == nets.take(n).filter(
            |x: RoutedNet<Q>| is_routed(x) && net::no_gate(x.terminals@),
        ).len(),
        report::terminal_total(nets, n) == sharing::sum(
            nets.take(n).map_values(|x: RoutedNet<Q>| x.terminals@.len() as int),
        ),
    decreases n,
{
    reveal(Seq::filter);
    let now = nets.take(n);
    let many = |x: RoutedNet<Q>| x.terminals@.len() as int;
    if n > 0 {
        lemma_design_counts(nets, n - 1);
        assert(now.drop_last() =~= nets.take(n - 1));
        assert(now.last() == nets[n - 1]);
        assert(now.map_values(many).drop_last() =~= nets.take(n - 1).map_values(many));
    } else {
        assert(now.map_values(many) =~= Seq::<int>::empty());
    }
}

/// The counts of a design are of its nets: those that are not routed, and those that are and have
/// no gate.
pub proof fn a_design_is_counted_net_by_net<Q: Scalar>(nets: Seq<RoutedNet<Q>>)
    ensures
        report::bare_nets(nets, nets.len() as int) == nets.filter(
            |x: RoutedNet<Q>| !is_routed(x),
        ).len(),
        report::gateless_nets(nets, nets.len() as int) == nets.filter(
            |x: RoutedNet<Q>| is_routed(x) && net::no_gate(x.terminals@),
        ).len(),
        report::terminal_total(nets, nets.len() as int) == sharing::sum(
            nets.map_values(|x: RoutedNet<Q>| x.terminals@.len() as int),
        ),
{
    lemma_design_counts(nets, nets.len() as int);
    assert(nets.take(nets.len() as int) =~= nets);
}

/// A design without a scale is refused, with nothing counted and nothing found; one with a scale
/// is the summary of its nets, each read as it is, where it is routed.
pub proof fn a_design_is_refused_or_read<Q: Scalar>(
    r: Report<Q>,
    dbu: i64,
    nets: Seq<RoutedNet<Q>>,
    layers: Seq<LayerInfo>,
    table: RuleTable<Q>,
)
    requires
        report::is_report(r, dbu, nets, layers, table),
    ensures
        dbu <= 0 ==> {
            &&& r.status@ == "error"@
            &&& r.count == 0 && r.violations@.len() == 0
            &&& r.nets_checked == 0 && r.nets_no_gate == 0 && r.nets_unrouted == 0
            &&& r.gates_unanchored == 0 && r.nets_unsettled == 0
            &&& r.layers_without_rules@.len() == 0
            &&& r.no_rules_found && !r.no_routing_found
        },
        dbu > 0 ==> exists|read: Seq<Option<NetAntenna<Q>>>|
            {
                &&& #[trigger] report::is_summary(r, read, table)
                &&& read.len() == nets.len()
                &&& forall|k: int|
                    0 <= k < nets.len() ==> match #[trigger] read[k] {
                        Some(na) => is_routed(nets[k]) && net::shows_routing(
                            na,
                            nets[k].net@,
                            nets[k].boxes@,
                            nets[k].terminals@,
                            layers,
                            Q::spec_of(dbu),
                        ),
                        None => !is_routed(nets[k]),
                    }
            },
{
    if dbu > 0 {
        let read = choose|read: Seq<Option<NetAntenna<Q>>>| #[trigger]
            report::reads_design(read, nets, layers, Q::spec_of(dbu), nets.len() as int)
                && report::is_summary(r, read, table);
        assert(report::is_summary(r, read, table));
        assert forall|k: int| 0 <= k < nets.len() implies match #[trigger] read[k] {
            Some(na) => is_routed(nets[k]) && net::shows_routing(
                na,
                nets[k].net@,
                nets[k].boxes@,
                nets[k].terminals@,
                layers,
                Q::spec_of(dbu),
            ),
            None => !is_routed(nets[k]),
        } by {
            assert(read[k] is Some <==> report::has_routing(nets[k]));
        }
    }
}

/// On conductor `r` something is left open: a figure of it is no number; or a pin of it has, on
/// its layer, a limit for a ratio that is not known to be none, and the limit or the sum of the
/// ratios is no number.
pub open spec fn left_open(na: NetAntenna<Exact>, table: RuleTable<Exact>, r: int, k: int) -> bool {
    let regions = na.regions@;
    let e = regions[r];
    let rule = table.entries@[k].1;
    &&& 0 <= r < regions.len()
    &&& findings::applies(table, e.layer@, k)
    &&& {
        ||| !(exact::is_number(e.gate_area_um2) && exact::is_number(e.diff_area_um2)
            && exact::is_number(e.area_um2) && exact::is_number(e.side_area_um2)
            && exact::is_number(e.cum_area_um2) && exact::is_number(e.cum_side_area_um2))
        ||| exists|p: int, ratio: Ratio, j: int|
            0 <= p < e.pins@.len() && #[trigger] findings::first_bearing(
                regions,
                e.pins@[p]@,
                e.layer@,
                ratio,
                j,
            ) && {
                let limit = findings::held_to(rule, ratio, regions[j].diff_area_um2);
                let value = check::value_sum(
                    regions,
                    rule,
                    e.pins@[p]@,
                    e.layer@,
                    ratio,
                    regions.len() as int,
                );
                !(exact::is_number(limit) && exact::number(limit) <= 0real) && !(exact::is_number(
                    limit,
                ) && exact::is_number(value))
            }
    }
}

proof fn lemma_unjudged(
    na: NetAntenna<Exact>,
    rule: LayerRules<Exact>,
    pin: Seq<char>,
    layer: Seq<char>,
    ratio: Ratio,
    j: int,
)
    requires
        0 <= j < na.regions@.len(),
        na.regions@[j].layer@ == layer,
    ensures
        check::first_counting(na.regions@, pin, layer, ratio, j) == findings::first_bearing(
            na.regions@,
            pin,
            layer,
            ratio,
            j,
        ),
        rule.ratio_limit(ratio, na.regions@[j].diff_area_um2) == findings::held_to(
            rule,
            ratio,
            na.regions@[j].diff_area_um2,
        ),
        ({
            let limit = rule.ratio_limit(ratio, na.regions@[j].diff_area_um2);
            limit.spec_le(Exact::Value(0, 1)) <==> exact::is_number(limit) && exact::number(limit)
                <= 0real
        }),
{
    let regions = na.regions@;
    assert forall|k: int| 0 <= k < regions.len() implies check::counts(
        #[trigger] regions[k],
        pin,
        layer,
        ratio,
    ) == findings::bears(regions[k], pin, layer, ratio) by {
        findings::lemma_bears(regions, pin, layer, ratio, k);
    }
    findings::lemma_held_to(rule, ratio, regions[j].diff_area_um2);
    let limit = rule.ratio_limit(ratio, regions[j].diff_area_um2);
    let zero = Exact::Value(0, 1);
    exact::lemma_zero();
    exact::only_numbers_compare(limit, zero);
    if exact::is_number(limit) {
        exact::comparisons_are_of_the_numbers(limit, zero);
    }
}

/// A net is unsettled exactly when something is left open on a conductor of it.
pub proof fn a_net_is_unsettled_where_something_is_left_open(
    na: NetAntenna<Exact>,
    table: RuleTable<Exact>,
)
    ensures
        check::unsettled(na, table) <==> exists|r: int, k: int| #[trigger]
            left_open(na, table, r, k),
{
    let regions = na.regions@;
    let n = regions.len() as int;
    assert forall|e: net::RegionExposure<Exact>| #[trigger] check::figures_known(e) == (
    exact::is_number(e.gate_area_um2) && exact::is_number(e.diff_area_um2) && exact::is_number(
        e.area_um2,
    ) && exact::is_number(e.side_area_um2) && exact::is_number(e.cum_area_um2)
        && exact::is_number(e.cum_side_area_um2)) by {
        exact::only_numbers_compare(e.gate_area_um2, e.gate_area_um2);
        exact::only_numbers_compare(e.diff_area_um2, e.diff_area_um2);
        exact::only_numbers_compare(e.area_um2, e.area_um2);
        exact::only_numbers_compare(e.side_area_um2, e.side_area_um2);
        exact::only_numbers_compare(e.cum_area_um2, e.cum_area_um2);
        exact::only_numbers_compare(e.cum_side_area_um2, e.cum_side_area_um2);
    }
    if check::unsettled(na, table) {
        let r = choose|r: int| #[trigger] check::region_unsettled(regions, table, r);
        let e = regions[r];
        findings::a_layer_is_judged_by_its_own_rules(table, e.layer@);
        let k = choose|k: int| #[trigger] findings::applies(table, e.layer@, k);
        assert(findings::applies(table, e.layer@, k));
        if !check::figures_known(e) {
            assert(left_open(na, table, r, k));
        } else {
            let rule = table.entries@[k].1;
            let (p, ratio) = choose|p: int, ratio: Ratio|
                0 <= p < e.pins@.len() && #[trigger] check::unjudged(
                    regions,
                    rule,
                    e.pins@[p]@,
                    e.layer@,
                    ratio,
                );
            let j = choose|j: int| #[trigger]
                check::first_counting(regions, e.pins@[p]@, e.layer@, ratio, j) && {
                    let limit = rule.ratio_limit(ratio, regions[j].diff_area_um2);
                    let value = check::value_sum(
                        regions,
                        rule,
                        e.pins@[p]@,
                        e.layer@,
                        ratio,
                        n,
                    );
                    !limit.spec_le(Exact::spec_zero()) && !(scalar::known(limit) && scalar::known(
                        value,
                    ))
                };
            lemma_unjudged(na, rule, e.pins@[p]@, e.layer@, ratio, j);
            let limit = rule.ratio_limit(ratio, regions[j].diff_area_um2);
            let value = check::value_sum(regions, rule, e.pins@[p]@, e.layer@, ratio, n);
            exact::only_numbers_compare(limit, limit);
            exact::only_numbers_compare(value, value);
            assert(findings::first_bearing(regions, e.pins@[p]@, e.layer@, ratio, j));
            assert(left_open(na, table, r, k));
        }
    }
    if exists|r: int, k: int| #[trigger] left_open(na, table, r, k) {
        let (r, k) = choose|r: int, k: int| #[trigger] left_open(na, table, r, k);
        let e = regions[r];
        let rule = table.entries@[k].1;
        findings::a_layer_is_judged_by_its_own_rules(table, e.layer@);
        assert(check::applied_rule(table, e.layer@) == Some(rule));
        if check::figures_known(e) {
            let (p, ratio, j) = choose|p: int, ratio: Ratio, j: int|
                0 <= p < e.pins@.len() && #[trigger] findings::first_bearing(
                    regions,
                    e.pins@[p]@,
                    e.layer@,
                    ratio,
                    j,
                ) && {
                    let limit = findings::held_to(rule, ratio, regions[j].diff_area_um2);
                    let value = check::value_sum(
                        regions,
                        rule,
                        e.pins@[p]@,
                        e.layer@,
                        ratio,
                        regions.len() as int,
                    );
                    !(exact::is_number(limit) && exact::number(limit) <= 0real) && !(
                    exact::is_number(limit) && exact::is_number(value))
                };
            lemma_unjudged(na, rule, e.pins@[p]@, e.layer@, ratio, j);
            let limit = rule.ratio_limit(ratio, regions[j].diff_area_um2);
            let value = check::value_sum(regions, rule, e.pins@[p]@, e.layer@, ratio, n);
            exact::only_numbers_compare(limit, limit);
            exact::only_numbers_compare(value, value);
            assert(check::first_counting(regions, e.pins@[p]@, e.layer@, ratio, j));
            assert(check::unjudged(regions, rule, e.pins@[p]@, e.layer@, ratio));
        }
        assert(check::region_unsettled(regions, table, r));
    }
}

/// A command says what it holds, and arguments say what they are.
pub proof fn a_command_says_what_it_holds(
    a: String,
    b: String,
    args: Seq<String>,
    i: int,
)
    ensures
        Command::Describe@ == Request::Describe,
        Command::Help@ == Request::Help,
        Command::Nothing@ == Request::Nothing,
        Command::Check(a, None)@ == Request::Check(a@, None),
        Command::Check(a, Some(b))@ == Request::Check(a@, Some(b@)),
        Command::Explain(a, b)@ == Request::Explain(a@, b@),
        Command::UnknownCommand(a)@ == Request::UnknownCommand(a@),
        Command::UnknownOption(a)@ == Request::UnknownOption(a@),
        Command::MissingFile@ == Request::MissingFile,
        Command::MissingName@ == Request::MissingName,
        Command::CheckWithoutDatabase@ == Request::CheckWithoutDatabase,
        Command::ExplainWithoutNet@ == Request::ExplainWithoutNet,
        net::texts(args).len() == args.len(),
        0 <= i < args.len() ==> net::texts(args)[i] == args[i]@,
{
}

/// The exit status says what the report concludes: 0 that it is clean, 1 that there are findings,
/// 2 that nothing was checked, or that the design has no scale.
pub proof fn the_exit_status_is_the_conclusion<Q: Scalar>(
    r: Report<Q>,
    dbu: i64,
    nets: Seq<RoutedNet<Q>>,
    layers: Seq<LayerInfo>,
    table: RuleTable<Q>,
)
    requires
        report::is_report(r, dbu, nets, layers, table),
    ensures
        dbu <= 0 ==> r.exit_status() == 2,
        r.exit_status() == 0 <==> r.status@ == "clean"@,
        r.exit_status() == 1 <==> r.status@ == "violations"@,
        r.exit_status() == 2 <==> r.status@ == "vacuous"@ || r.status@ == "error"@,
        r.exit_status() == 0 ==> r.violations@.len() == 0,
        r.exit_status() == 1 ==> r.violations@.len() > 0,
{
    reveal_strlit("clean");
    reveal_strlit("violations");
    reveal_strlit("vacuous");
    reveal_strlit("error");
    assert("clean"@.len() == 5 && "violations"@.len() == 10 && "vacuous"@.len() == 7);
    assert("error"@.len() == 5 && "error"@[0] == 'e' && "clean"@[0] == 'c');
    a_design_is_refused_or_read(r, dbu, nets, layers, table);
    if dbu > 0 {
        let read = choose|read: Seq<Option<NetAntenna<Q>>>| #[trigger]
            report::is_summary(r, read, table) && read.len() == nets.len();
        a_report_concludes(r, read, table);
        a_report_counts_its_nets(r, read, table);
    }
}

} // verus!
