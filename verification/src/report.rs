//! The report on a whole design, and when its verdict is not a verdict.

use crate::check;
use crate::check::check_net;
use crate::check::is_unsettled;
use crate::check::Finding;
use crate::check::Violation;
use crate::conductor;
use crate::names;
use crate::names::insert_name;
use crate::net;
use crate::net::read_net;
use crate::net::LayerInfo;
use crate::net::NetAntenna;
use crate::net::RoutedNet;
use crate::rules::RuleTable;
use crate::scalar::Scalar;
use vstd::prelude::*;

verus! {

/// The report on a design.
#[derive(Debug, Clone)]
pub struct Report<Q> {
    /// `clean` when no violation was found, `violations` when one was, `vacuous` when nothing was
    /// checked, `error` when nothing could be. It speaks of what was judged: what was not is in
    /// `gates_unanchored` and `nets_unsettled`.
    pub status: &'static str,
    pub count: usize,
    /// Nets that had both routed metal and a gate. One whose gates were all unanchored is among
    /// them, and those gates are in `gates_unanchored`.
    pub nets_checked: usize,
    /// Nets with routed metal but no gate area on any connected pin. Not applicable rather than
    /// passing: with no denominator there is no ratio. A large number here means the library's antenna
    /// models are missing, and the check is quietly covering less than it appears to, which is
    /// why it is reported, not swallowed.
    pub nets_no_gate: usize,
    /// Nets with no routed metal (unrouted, or fully abstracted away).
    pub nets_unrouted: usize,
    /// Gates that could not be anchored to the routing. Each is a gate that went unchecked.
    pub gates_unanchored: usize,
    /// Nets on which a ratio, a limit or an area is no number, so that something on them could not
    /// be judged. None of it is in the violations, and none of it passed.
    pub nets_unsettled: usize,
    /// Layers whose LEF states no antenna limit at all, in order. Metal there is accumulated into
    /// CAR but never itself compared, because there is no limit to compare it to.
    pub layers_without_rules: Vec<String>,
    /// No layer in the design carried a usable antenna limit: the verdict is then vacuous and
    /// must not be read as "clean".
    pub no_rules_found: bool,
    /// No net of the design was routed: the rules were never read, and nothing is said of them.
    pub no_routing_found: bool,
    pub violations: Vec<Violation<Q>>,
}

/// Whether nothing was checked, and why: `(no_rules, no_routing)`.
///
/// The two causes send the reader to different places. A database taken one step too early has
/// no routed metal on any net, so no layer's rules are ever consulted, and blaming the technology
/// for that would be wrong.
pub fn settle_vacuity(saw_region: bool, any_limit: bool) -> (r: (bool, bool))
    ensures
        r.0 == (saw_region && !any_limit),
        r.1 == !saw_region,
{
    (saw_region && !any_limit, !saw_region)
}

/// The status of a report: vacuity outranks the violation count.
pub open spec fn status_of(no_rules: bool, no_routing: bool, count: int) -> Seq<char> {
    if no_rules || no_routing {
        "vacuous"@
    } else if count > 0 {
        "violations"@
    } else {
        "clean"@
    }
}

/// How many of the first `n` nets were not routed.
pub open spec fn unrouted_count<Q>(nets: Seq<Option<NetAntenna<Q>>>, n: int) -> int
    decreases n,
{
    if n <= 0 {
        0
    } else {
        unrouted_count(nets, n - 1) + if nets[n - 1] is None {
            1int
        } else {
            0
        }
    }
}

/// Whether a reading has no gate: none that it read, and none that it counts as unanchored.
pub open spec fn reads_no_gate<Q>(na: NetAntenna<Q>) -> bool {
    na.regions@.len() == 0 && na.gates_unanchored == 0
}

/// How many of the first `n` nets were routed and have no gate.
pub open spec fn gateless_count<Q>(nets: Seq<Option<NetAntenna<Q>>>, n: int) -> int
    decreases n,
{
    if n <= 0 {
        0
    } else {
        gateless_count(nets, n - 1) + if nets[n - 1] matches Some(na) && reads_no_gate(na) {
            1int
        } else {
            0
        }
    }
}

/// How many gates of the first `n` nets no region has.
pub open spec fn unanchored_total<Q>(nets: Seq<Option<NetAntenna<Q>>>, n: int) -> int
    decreases n,
{
    if n <= 0 {
        0
    } else {
        unanchored_total(nets, n - 1) + match nets[n - 1] {
            Some(na) => na.gates_unanchored as int,
            None => 0,
        }
    }
}

/// On how many of the first `n` nets something could not be judged.
pub open spec fn unsettled_count<Q: Scalar>(
    nets: Seq<Option<NetAntenna<Q>>>,
    rules: RuleTable<Q>,
    n: int,
) -> int
    decreases n,
{
    if n <= 0 {
        0
    } else {
        unsettled_count(nets, rules, n - 1) + if nets[n - 1] matches Some(na) && check::unsettled(
            na,
            rules,
        ) {
            1int
        } else {
            0
        }
    }
}

/// The verdicts on the first `n` nets.
pub open spec fn design_findings<Q: Scalar>(
    nets: Seq<Option<NetAntenna<Q>>>,
    rules: RuleTable<Q>,
    n: int,
) -> Seq<Finding<Q>>
    decreases n,
{
    if n <= 0 {
        Seq::empty()
    } else {
        design_findings(nets, rules, n - 1) + match nets[n - 1] {
            Some(na) => check::all_findings(na, rules),
            None => Seq::empty(),
        }
    }
}

/// Whether one of the first `n` nets was routed.
pub open spec fn any_routed<Q>(nets: Seq<Option<NetAntenna<Q>>>, n: int) -> bool {
    exists|k: int| 0 <= k < n && (#[trigger] nets[k]) is Some
}

/// Whether one of the first `n` regions lies on the layer.
pub open spec fn region_on<Q>(na: NetAntenna<Q>, layer: Seq<char>, n: int) -> bool {
    exists|r: int| 0 <= r < n && (#[trigger] na.regions@[r]).layer@ == layer
}

/// Whether a region of one of the first `n` nets lies on the layer.
pub open spec fn layer_seen<Q>(
    nets: Seq<Option<NetAntenna<Q>>>,
    layer: Seq<char>,
    n: int,
) -> bool {
    exists|k: int|
        0 <= k < n && ((#[trigger] nets[k]) matches Some(na) && region_on(
            na,
            layer,
            na.regions@.len() as int,
        ))
}

/// Whether a layer seen states a limit.
pub open spec fn any_limited<Q: Scalar>(
    nets: Seq<Option<NetAntenna<Q>>>,
    rules: RuleTable<Q>,
    n: int,
) -> bool {
    exists|layer: Seq<char>| #[trigger]
        layer_seen(nets, layer, n) && check::applied_rule(rules, layer) is Some
}

/// The report says of the first `n` nets what the check of them found.
pub open spec fn tallies<Q: Scalar>(
    r: Report<Q>,
    nets: Seq<Option<NetAntenna<Q>>>,
    rules: RuleTable<Q>,
    n: int,
) -> bool {
    &&& r.nets_unrouted == unrouted_count(nets, n)
    &&& r.nets_no_gate == gateless_count(nets, n)
    &&& r.nets_checked == n - unrouted_count(nets, n) - gateless_count(nets, n)
    &&& r.gates_unanchored == unanchored_total(nets, n)
    &&& r.nets_unsettled == unsettled_count(nets, rules, n)
    &&& names::in_text_order(r.layers_without_rules@)
    &&& forall|layer: Seq<char>| #[trigger]
        names::lists(r.layers_without_rules@, layer) <==> layer_seen(nets, layer, n)
            && check::applied_rule(rules, layer) is None
    &&& check::findings(r.violations@) == design_findings(nets, rules, n)
}

/// The report on nets that were read.
pub open spec fn is_summary<Q: Scalar>(
    r: Report<Q>,
    nets: Seq<Option<NetAntenna<Q>>>,
    rules: RuleTable<Q>,
) -> bool {
    let n = nets.len() as int;
    &&& tallies(r, nets, rules, n)
    &&& r.count == r.violations@.len()
    &&& r.no_routing_found == !any_routed(nets, n)
    &&& r.no_rules_found == (any_routed(nets, n) && !any_limited(nets, rules, n))
    &&& r.status@ == status_of(r.no_rules_found, r.no_routing_found, r.count as int)
}

/// The report that refuses a database without a scale: every ratio would be meaningless, and
/// numbers that look plausible and are off by orders of magnitude are worse than none.
pub open spec fn is_refusal<Q>(r: Report<Q>) -> bool {
    &&& r.status@ == "error"@
    &&& r.count == 0
    &&& r.nets_checked == 0
    &&& r.nets_no_gate == 0
    &&& r.nets_unrouted == 0
    &&& r.gates_unanchored == 0
    &&& r.nets_unsettled == 0
    &&& r.layers_without_rules@.len() == 0
    &&& r.no_rules_found
    &&& !r.no_routing_found
    &&& r.violations@.len() == 0
}

fn empty_report<Q: Scalar>() -> (r: Report<Q>)
    ensures
        is_refusal(r),
{
    Report {
        status: "error",
        count: 0,
        nets_checked: 0,
        nets_no_gate: 0,
        nets_unrouted: 0,
        gates_unanchored: 0,
        nets_unsettled: 0,
        layers_without_rules: Vec::new(),
        no_rules_found: true,
        no_routing_found: false,
        violations: Vec::new(),
    }
}

/// Note the layers of one net: whether any states a limit, and the names of those that do not.
fn note_layers<Q: Scalar>(
    na: &NetAntenna<Q>,
    rules: &RuleTable<Q>,
    without: &mut Vec<String>,
) -> (limited: bool)
    requires
        names::in_text_order(old(without)@),
    ensures
        names::in_text_order(final(without)@),
        forall|layer: Seq<char>| #[trigger]
            names::lists(final(without)@, layer) <==> names::lists(old(without)@, layer)
                || region_on(*na, layer, na.regions@.len() as int) && check::applied_rule(
                *rules,
                layer,
            ) is None,
        limited <==> exists|layer: Seq<char>| #[trigger]
            region_on(*na, layer, na.regions@.len() as int) && check::applied_rule(
                *rules,
                layer,
            ) is Some,
{
    let ghost before = without@;
    let mut limited = false;
    let mut k: usize = 0;
    while k < na.regions.len()
        invariant
            k <= na.regions@.len(),
            before == old(without)@,
            names::in_text_order(without@),
            forall|layer: Seq<char>| #[trigger]
                names::lists(without@, layer) <==> names::lists(before, layer) || region_on(
                    *na,
                    layer,
                    k as int,
                ) && check::applied_rule(*rules, layer) is None,
            limited <==> exists|layer: Seq<char>| #[trigger]
                region_on(*na, layer, k as int) && check::applied_rule(*rules, layer) is Some,
        decreases na.regions@.len() - k,
    {
        let layer = &na.regions[k].layer;
        let usable = match rules.get(layer) {
            Some(x) => x.has_any_limit(),
            None => false,
        };
        let ghost held = without@;
        let ghost was = limited;
        if usable {
            limited = true;
        } else {
            insert_name(without, layer);
        }
        proof {
            assert(usable <==> check::applied_rule(*rules, layer@) is Some);
            assert forall|x: Seq<char>| #[trigger] region_on(*na, x, k + 1) <==> region_on(
                *na,
                x,
                k as int,
            ) || x == layer@ by {
                if region_on(*na, x, k + 1) {
                    let r = choose|r: int|
                        0 <= r < k + 1 && (#[trigger] na.regions@[r]).layer@ == x;
                    if r < k {
                        assert(na.regions@[r].layer@ == x);
                    }
                }
                if region_on(*na, x, k as int) {
                    let r = choose|r: int| 0 <= r < k && (#[trigger] na.regions@[r]).layer@ == x;
                    assert(na.regions@[r].layer@ == x);
                }
                if x == layer@ {
                    assert(na.regions@[k as int].layer@ == x);
                }
            }
            assert(region_on(*na, layer@, k + 1));
            if was {
                let x = choose|x: Seq<char>| #[trigger]
                    region_on(*na, x, k as int) && check::applied_rule(*rules, x) is Some;
                assert(region_on(*na, x, k + 1));
            }
            if !limited {
                assert forall|x: Seq<char>| !(#[trigger] region_on(*na, x, k + 1)
                    && check::applied_rule(*rules, x) is Some) by {
                    assert(!(region_on(*na, x, k as int) && check::applied_rule(
                        *rules,
                        x,
                    ) is Some));
                }
            }
        }
        k += 1;
    }
    limited
}

/// Check the nets that were read, and report.
pub fn summarize<Q: Scalar>(nets: &[Option<NetAntenna<Q>>], rules: &RuleTable<Q>) -> (r: Report<Q>)
    requires
        unanchored_total(nets@, nets@.len() as int) <= usize::MAX,
    ensures
        is_summary(r, nets@, *rules),
{
    let mut r: Report<Q> = empty_report();
    let mut routed = false;
    let mut limited = false;
    let mut k: usize = 0;
    proof {
        assert forall|layer: Seq<char>| !#[trigger] names::lists(
            r.layers_without_rules@,
            layer,
        ) && !layer_seen(nets@, layer, 0) by {}
        assert(check::findings(r.violations@) =~= design_findings(nets@, *rules, 0));
    }
    while k < nets.len()
        invariant
            k <= nets@.len(),
            unanchored_total(nets@, nets@.len() as int) <= usize::MAX,
            tallies(r, nets@, *rules, k as int),
            0 <= unrouted_count(nets@, k as int),
            0 <= gateless_count(nets@, k as int),
            unrouted_count(nets@, k as int) + gateless_count(nets@, k as int) <= k,
            0 <= unsettled_count(nets@, *rules, k as int) <= k,
            routed == any_routed(nets@, k as int),
            limited == any_limited(nets@, *rules, k as int),
        decreases nets@.len() - k,
    {
        proof {
            lemma_unanchored_grows(nets@, k + 1, nets@.len() as int);
            lemma_layer_seen(nets@, *rules, k as int);
            lemma_routed_next(nets@, k as int);
        }
        match &nets[k] {
            None => {
                r.nets_unrouted = r.nets_unrouted + 1;
                assert(check::findings(r.violations@) =~= design_findings(nets@, *rules, k + 1));
            },
            Some(na) => {
                routed = true;
                r.gates_unanchored = r.gates_unanchored + na.gates_unanchored;
                if is_unsettled(na, rules) {
                    r.nets_unsettled = r.nets_unsettled + 1;
                }
                if note_layers(na, rules, &mut r.layers_without_rules) {
                    limited = true;
                }
                if na.regions.len() == 0 && na.gates_unanchored == 0 {
                    r.nets_no_gate = r.nets_no_gate + 1;
                    assert(check::findings(r.violations@) =~= design_findings(
                        nets@,
                        *rules,
                        k + 1,
                    ));
                } else {
                    r.nets_checked = r.nets_checked + 1;
                    check_net(na, rules, &mut r.violations);
                }
            },
        }
        k += 1;
    }
    let (no_rules, no_routing) = settle_vacuity(routed, limited);
    r.no_rules_found = no_rules;
    r.no_routing_found = no_routing;
    r.count = r.violations.len();
    r.status = if no_rules || no_routing {
        "vacuous"
    } else if r.count > 0 {
        "violations"
    } else {
        "clean"
    };
    r
}

/// A total over more nets is no less.
proof fn lemma_unanchored_grows<Q>(nets: Seq<Option<NetAntenna<Q>>>, a: int, b: int)
    requires
        0 <= a <= b,
    ensures
        0 <= unanchored_total(nets, a) <= unanchored_total(nets, b),
    decreases b,
{
    if a < b {
        lemma_unanchored_grows(nets, a, b - 1);
    } else if a > 0 {
        lemma_unanchored_grows(nets, a - 1, a - 1);
    }
}

/// One more net shows the layers of its own regions.
proof fn lemma_layer_seen<Q: Scalar>(
    nets: Seq<Option<NetAntenna<Q>>>,
    rules: RuleTable<Q>,
    k: int,
)
    requires
        0 <= k < nets.len(),
    ensures
        forall|layer: Seq<char>| #[trigger]
            layer_seen(nets, layer, k + 1) <==> layer_seen(nets, layer, k) || (nets[k] matches Some(
                na,
            ) && region_on(na, layer, na.regions@.len() as int)),
        any_limited(nets, rules, k + 1) <==> any_limited(nets, rules, k) || (nets[k] matches Some(
            na,
        ) && exists|layer: Seq<char>| #[trigger]
            region_on(na, layer, na.regions@.len() as int) && check::applied_rule(
                rules,
                layer,
            ) is Some),
{
    assert forall|layer: Seq<char>| #[trigger] layer_seen(nets, layer, k + 1) <==> layer_seen(
        nets,
        layer,
        k,
    ) || (nets[k] matches Some(na) && region_on(na, layer, na.regions@.len() as int)) by {
        if layer_seen(nets, layer, k + 1) {
            let j = choose|j: int|
                0 <= j < k + 1 && ((#[trigger] nets[j]) matches Some(na) && region_on(
                    na,
                    layer,
                    na.regions@.len() as int,
                ));
            if j < k {
                assert(nets[j] is Some);
            }
        }
        if layer_seen(nets, layer, k) {
            let j = choose|j: int|
                0 <= j < k && ((#[trigger] nets[j]) matches Some(na) && region_on(
                    na,
                    layer,
                    na.regions@.len() as int,
                ));
            assert(nets[j] is Some);
        }
        if nets[k] matches Some(na) && region_on(na, layer, na.regions@.len() as int) {
            assert(nets[k] is Some);
        }
    }
    if any_limited(nets, rules, k + 1) {
        let layer = choose|layer: Seq<char>| #[trigger]
            layer_seen(nets, layer, k + 1) && check::applied_rule(rules, layer) is Some;
        if !layer_seen(nets, layer, k) {
            assert(nets[k] matches Some(na) && region_on(na, layer, na.regions@.len() as int));
        }
    }
    if any_limited(nets, rules, k) {
        let layer = choose|layer: Seq<char>| #[trigger]
            layer_seen(nets, layer, k) && check::applied_rule(rules, layer) is Some;
        assert(layer_seen(nets, layer, k + 1));
    }
    if nets[k] matches Some(na) && exists|layer: Seq<char>| #[trigger]
        region_on(na, layer, na.regions@.len() as int) && check::applied_rule(
            rules,
            layer,
        ) is Some {
        let na = nets[k]->0;
        let layer = choose|layer: Seq<char>| #[trigger]
            region_on(na, layer, na.regions@.len() as int) && check::applied_rule(
                rules,
                layer,
            ) is Some;
        assert(layer_seen(nets, layer, k + 1));
    }
}

proof fn lemma_routed_next<Q>(nets: Seq<Option<NetAntenna<Q>>>, k: int)
    requires
        0 <= k < nets.len(),
    ensures
        any_routed(nets, k + 1) <==> any_routed(nets, k) || nets[k] is Some,
{
    if any_routed(nets, k + 1) {
        let j = choose|j: int| 0 <= j < k + 1 && (#[trigger] nets[j]) is Some;
        if j < k {
            assert(nets[j] is Some);
        }
    }
    if any_routed(nets, k) {
        let j = choose|j: int| 0 <= j < k && (#[trigger] nets[j]) is Some;
        assert(nets[j] is Some);
    }
}

/// How many terminals the first `n` nets have.
pub open spec fn terminal_total<Q>(nets: Seq<RoutedNet<Q>>, n: int) -> int
    decreases n,
{
    if n <= 0 {
        0
    } else {
        terminal_total(nets, n - 1) + nets[n - 1].terminals@.len()
    }
}

/// Whether the net's boxes leave routing metal beside its pins.
pub open spec fn has_routing<Q>(net: RoutedNet<Q>) -> bool {
    net::is_routed(net.boxes@, net::all_pins(net.terminals@))
}

/// How many of the first `n` nets have no routing metal beside their pins.
pub open spec fn bare_nets<Q>(nets: Seq<RoutedNet<Q>>, n: int) -> int
    decreases n,
{
    if n <= 0 {
        0
    } else {
        bare_nets(nets, n - 1) + if has_routing(nets[n - 1]) {
            0int
        } else {
            1
        }
    }
}

/// How many of the first `n` nets have routing metal and no gate among their terminals.
pub open spec fn gateless_nets<Q: Scalar>(nets: Seq<RoutedNet<Q>>, n: int) -> int
    decreases n,
{
    if n <= 0 {
        0
    } else {
        gateless_nets(nets, n - 1) + if has_routing(nets[n - 1]) && net::no_gate(
            nets[n - 1].terminals@,
        ) {
            1int
        } else {
            0
        }
    }
}

/// Every net can be measured in `i64`.
pub open spec fn design_fits<Q>(nets: Seq<RoutedNet<Q>>) -> bool {
    forall|k: int|
        0 <= k < nets.len() ==> conductor::net_fits(
            (#[trigger] nets[k]).boxes@,
            net::all_pins(nets[k].terminals@),
        )
}

/// Whether a design can be checked: everything measured of its nets fits, and so does the number
/// of their terminals.
pub fn can_check<Q: Scalar>(nets: &[RoutedNet<Q>]) -> (b: bool)
    ensures
        b == (design_fits(nets@) && terminal_total(nets@, nets@.len() as int) <= usize::MAX),
{
    let mut total: usize = 0;
    let mut k: usize = 0;
    while k < nets.len()
        invariant
            k <= nets@.len(),
            total == terminal_total(nets@, k as int),
            forall|j: int|
                0 <= j < k ==> conductor::net_fits(
                    (#[trigger] nets@[j]).boxes@,
                    net::all_pins(nets@[j].terminals@),
                ),
        decreases nets@.len() - k,
    {
        let net = &nets[k];
        if !net.fits() {
            assert(!conductor::net_fits(
                nets@[k as int].boxes@,
                net::all_pins(nets@[k as int].terminals@),
            ));
            return false;
        }
        proof {
            lemma_terminals_grow(nets@, k + 1, nets@.len() as int);
        }
        match total.checked_add(net.terminals.len()) {
            Some(t) => {
                total = t;
            },
            None => {
                return false;
            },
        }
        k += 1;
    }
    true
}

/// More nets have no fewer terminals.
proof fn lemma_terminals_grow<Q>(nets: Seq<RoutedNet<Q>>, a: int, b: int)
    requires
        0 <= a <= b,
    ensures
        terminal_total(nets, a) <= terminal_total(nets, b),
    decreases b,
{
    if a < b {
        lemma_terminals_grow(nets, a, b - 1);
    }
}

/// `na` is what the net shows.
pub open spec fn reads_net<Q: Scalar>(
    na: NetAntenna<Q>,
    net: RoutedNet<Q>,
    layers: Seq<LayerInfo>,
    dbu: Q,
) -> bool {
    net::shows_routing(na, net.net@, net.boxes@, net.terminals@, layers, dbu)
}

/// The first `n` nets were read: those that are routed, each as it is.
pub open spec fn reads_design<Q: Scalar>(
    read: Seq<Option<NetAntenna<Q>>>,
    nets: Seq<RoutedNet<Q>>,
    layers: Seq<LayerInfo>,
    dbu: Q,
    n: int,
) -> bool {
    &&& read.len() == n
    &&& forall|k: int|
        #![trigger read[k]]
        0 <= k < n ==> {
            &&& read[k] is Some <==> has_routing(nets[k])
            &&& read[k] matches Some(na) ==> reads_net(na, nets[k], layers, dbu)
        }
}

/// The report on a design: a refusal without a scale, and with one the summary of its nets as they
/// are read.
pub open spec fn is_report<Q: Scalar>(
    r: Report<Q>,
    dbu: i64,
    nets: Seq<RoutedNet<Q>>,
    layers: Seq<LayerInfo>,
    rules: RuleTable<Q>,
) -> bool {
    if dbu <= 0 {
        is_refusal(r)
    } else {
        exists|read: Seq<Option<NetAntenna<Q>>>| #[trigger]
            reads_design(read, nets, layers, Q::spec_of(dbu), nets.len() as int) && is_summary(
                r,
                read,
                rules,
            )
    }
}

/// Check every net in the design. `dbu` is the number of database units in a micrometre.
pub fn check_design<Q: Scalar>(
    dbu: i64,
    nets: &[RoutedNet<Q>],
    layers: &[LayerInfo],
    rules: &RuleTable<Q>,
) -> (r: Report<Q>)
    requires
        dbu > 0 ==> design_fits(nets@),
        dbu > 0 ==> terminal_total(nets@, nets@.len() as int) <= usize::MAX,
    ensures
        is_report(r, dbu, nets@, layers@, *rules),
        dbu > 0 ==> r.nets_unrouted == bare_nets(nets@, nets@.len() as int),
        dbu > 0 ==> r.nets_no_gate == gateless_nets(nets@, nets@.len() as int),
        dbu > 0 ==> r.nets_checked + r.nets_no_gate + r.nets_unrouted == nets@.len(),
{
    if dbu <= 0 {
        return empty_report();
    }
    let scale = Q::of(dbu);
    let mut read: Vec<Option<NetAntenna<Q>>> = Vec::new();
    let mut k: usize = 0;
    while k < nets.len()
        invariant
            k <= nets@.len(),
            design_fits(nets@),
            reads_design(read@, nets@, layers@, scale, k as int),
            unrouted_count(read@, k as int) == bare_nets(nets@, k as int),
            gateless_count(read@, k as int) == gateless_nets(nets@, k as int),
            0 <= unanchored_total(read@, k as int) <= terminal_total(nets@, k as int),
        decreases nets@.len() - k,
    {
        let net = &nets[k];
        let one = read_net(
            &net.net,
            net.boxes.as_slice(),
            net.terminals.as_slice(),
            layers,
            scale,
        );
        let ghost before = read@;
        read.push(one);
        proof {
            assert forall|j: int|
                #![trigger read@[j]]
                0 <= j < k + 1 implies {
                &&& read@[j] is Some <==> has_routing(nets@[j])
                &&& read@[j] matches Some(na) ==> reads_net(na, nets@[j], layers@, scale)
            } by {
                if j < k {
                    assert(read@[j] == before[j]);
                }
            }
            lemma_totals_prefix(read@, before, k as int);
        }
        k += 1;
    }
    summarize(read.as_slice(), rules)
}

/// Totals read only the nets before `n`.
proof fn lemma_totals_prefix<Q>(
    a: Seq<Option<NetAntenna<Q>>>,
    b: Seq<Option<NetAntenna<Q>>>,
    n: int,
)
    requires
        n <= a.len(),
        n <= b.len(),
        forall|k: int| 0 <= k < n ==> a[k] == b[k],
    ensures
        unanchored_total(a, n) == unanchored_total(b, n),
        unrouted_count(a, n) == unrouted_count(b, n),
        gateless_count(a, n) == gateless_count(b, n),
    decreases n,
{
    if n > 0 {
        lemma_totals_prefix(a, b, n - 1);
    }
}

impl<Q: Scalar> Report<Q> {
    /// The exit status that the report calls for.
    pub open spec fn exit_status(&self) -> int {
        if self.no_rules_found || self.no_routing_found {
            2
        } else if self.count > 0 {
            1
        } else {
            0
        }
    }

    /// The exit status: 0 when the design is clean, 1 when it has violations, 2 when nothing was
    /// checked or nothing could be. A vacuous pass is not a pass.
    pub fn exit_code(&self) -> (c: u8)
        ensures
            c == (if self.no_rules_found || self.no_routing_found {
                2u8
            } else if self.count > 0 {
                1
            } else {
                0
            }),
            c == self.exit_status(),
    {
        if self.no_rules_found || self.no_routing_found {
            2
        } else if self.count > 0 {
            1
        } else {
            0
        }
    }
}

} // verus!
