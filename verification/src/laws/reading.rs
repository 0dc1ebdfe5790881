//! What a reading of a net keeps, and what it leaves out.

use crate::conductor;
use crate::conductor::LayerBox;
use crate::graph;
use crate::graph::NetGraph;
use crate::net;
use crate::net::LayerInfo;
use crate::net::NetAntenna;
use crate::net::Terminal;
use crate::regions::Collected;
use crate::scalar::Scalar;
use vstd::prelude::*;

verus! {

/// The stages of the list never fall.
spec fn rising_stages(s: Seq<(int, int)>) -> bool {
    forall|a: int, b: int|
        #![trigger s[a], s[b]]
        0 <= a < b < s.len() ==> s[a].0 <= s[b].0
}

proof fn lemma_one_stage<Q: Scalar>(
    terminals: Seq<Terminal<Q>>,
    regions: Seq<(Vec<usize>, Collected)>,
    s: int,
    n: int,
)
    ensures
        forall|k: int|
            #![trigger net::gated_regions(terminals, regions, s, n)[k]]
            0 <= k < net::gated_regions(terminals, regions, s, n).len() ==> net::gated_regions(
                terminals,
                regions,
                s,
                n,
            )[k].0 == s,
    decreases n,
{
    if n > 0 {
        lemma_one_stage(terminals, regions, s, n - 1);
        let before = net::gated_regions(terminals, regions, s, n - 1);
        let after = net::gated_regions(terminals, regions, s, n);
        assert forall|k: int| #![trigger after[k]] 0 <= k < after.len() implies after[k].0 == s by {
            if k < before.len() {
                assert(after[k] == before[k]);
            }
        }
    }
}

proof fn lemma_rising_stages<Q: Scalar>(
    terminals: Seq<Terminal<Q>>,
    stages: Seq<Vec<(Vec<usize>, Collected)>>,
    n: int,
)
    ensures
        rising_stages(net::gated_stages(terminals, stages, n)),
        forall|k: int|
            #![trigger net::gated_stages(terminals, stages, n)[k]]
            0 <= k < net::gated_stages(terminals, stages, n).len() ==> 0 <= net::gated_stages(
                terminals,
                stages,
                n,
            )[k].0 < n,
    decreases n,
{
    if n > 0 {
        lemma_rising_stages(terminals, stages, n - 1);
        let before = net::gated_stages(terminals, stages, n - 1);
        let own = net::gated_regions(
            terminals,
            stages[n - 1]@,
            n - 1,
            stages[n - 1]@.len() as int,
        );
        lemma_one_stage(terminals, stages[n - 1]@, n - 1, stages[n - 1]@.len() as int);
        let after = net::gated_stages(terminals, stages, n);
        assert(after == before + own);
        assert forall|a: int, b: int|
            #![trigger after[a], after[b]]
            0 <= a < b < after.len() implies after[a].0 <= after[b].0 by {
            if b < before.len() {
                assert(after[a] == before[a] && after[b] == before[b]);
            } else {
                assert(after[b] == own[b - before.len()]);
                if a < before.len() {
                    assert(after[a] == before[a]);
                } else {
                    assert(after[a] == own[a - before.len()]);
                }
            }
        }
        assert forall|k: int| #![trigger after[k]] 0 <= k < after.len() implies 0 <= after[k].0
            < n by {
            if k < before.len() {
                assert(after[k] == before[k]);
            } else {
                assert(after[k] == own[k - before.len()]);
            }
        }
    }
}

/// A reading goes up the stack: its regions come in manufacturing order, which the cumulative
/// ratios need to mean anything.
pub proof fn regions_go_up_the_stack<Q: Scalar>(
    na: NetAntenna<Q>,
    name: Seq<char>,
    boxes: Seq<LayerBox>,
    terminals: Seq<Terminal<Q>>,
    layers: Seq<LayerInfo>,
    dbu: Q,
    a: int,
    b: int,
)
    requires
        net::shows_routing(na, name, boxes, terminals, layers, dbu),
        0 <= a < b < na.regions@.len(),
    ensures
        na.regions@[a].layer_number <= na.regions@[b].layer_number,
{
    let g = choose|g: NetGraph|
        {
            &&& #[trigger] g.wf()
            &&& graph::shows_net(g.conductors@, boxes, net::all_pins(terminals))
            &&& net::shows_graph(na, g, name, terminals, layers, dbu)
        };
    let n = g.layers@.len() as int;
    let (attach, stages, stacks) = choose|
        attach: Seq<Vec<usize>>,
        stages: Seq<Vec<(Vec<usize>, Collected)>>,
        stacks: Seq<Vec<Vec<i64>>>,
    |
        {
            &&& net::is_attached(g, terminals, attach)
            &&& #[trigger] net::are_stages(g, attach, stages, stacks, n)
            &&& net::shows_stages(na.regions@, g, stages, stacks, n, terminals, layers, dbu)
        };
    let picked = net::gated_stages(terminals, stages, n);
    lemma_rising_stages(terminals, stages, n);
    assert(picked[a].0 <= picked[b].0);
    assert(conductor::rising_layers(g.layers@));
    if picked[a].0 < picked[b].0 {
        assert(g.layers@[picked[a].0] < g.layers@[picked[b].0]);
    }
}

proof fn lemma_gate_named<Q: Scalar>(
    terminals: Seq<Terminal<Q>>,
    terms: Seq<usize>,
    k: int,
    n: int,
)
    requires
        0 <= k < n <= terms.len(),
        net::is_gate(terminals[terms[k] as int]),
    ensures
        net::gate_names(terminals, terms, n).contains(terminals[terms[k] as int].name@),
    decreases n,
{
    let name = terminals[terms[k] as int].name@;
    let before = net::gate_names(terminals, terms, n - 1);
    let after = net::gate_names(terminals, terms, n);
    if k < n - 1 {
        lemma_gate_named(terminals, terms, k, n - 1);
        let j = choose|j: int| 0 <= j < before.len() && before[j] == name;
        assert(after[j] == name);
    } else {
        assert(after[before.len() as int] == name);
    }
}

/// A gate is named among the regions of every stage at which metal that it touches exists.
pub proof fn a_gate_that_touches_metal_is_read<Q: Scalar>(
    na: NetAntenna<Q>,
    g: NetGraph,
    name: Seq<char>,
    terminals: Seq<Terminal<Q>>,
    layers: Seq<LayerInfo>,
    dbu: Q,
    t: int,
    s: int,
    i: int,
)
    requires
        net::shows_graph(na, g, name, terminals, layers, dbu),
        0 <= t < terminals.len(),
        terminals.len() <= usize::MAX,
        net::is_gate(terminals[t]),
        0 <= s < g.layers@.len(),
        g.live(g.layers@[s], i),
        net::touches_pin(g, terminals[t], i),
    ensures
        exists|k: int|
            0 <= k < na.regions@.len() && (#[trigger] na.regions@[k]).layer_number == g.layers@[s]
                && net::texts(na.regions@[k].pins@).contains(terminals[t].name@),
{
    let n = g.layers@.len() as int;
    let (attach, stages, stacks) = choose|
        attach: Seq<Vec<usize>>,
        stages: Seq<Vec<(Vec<usize>, Collected)>>,
        stacks: Seq<Vec<Vec<i64>>>,
    |
        {
            &&& net::is_attached(g, terminals, attach)
            &&& #[trigger] net::are_stages(g, attach, stages, stacks, n)
            &&& net::shows_stages(na.regions@, g, stages, stacks, n, terminals, layers, dbu)
        };
    let stage = g.layers@[s];
    let u = t as usize;
    assert(g.conductors.len() == g.conductors@.len());
    assert(attach[t]@.contains(i as usize));
    assert(g.anchors(stage, attach, u as int, i));
    assert(g.anchored(stage, attach, u as int));
    assert(g.are_regions(stage, attach, stages[s]@));
    let r = choose|r: int| 0 <= r < stages[s]@.len() && #[trigger] stages[s]@[r].0@.contains(u);
    let terms = stages[s]@[r].0@;
    let k = choose|k: int| 0 <= k < terms.len() && terms[k] == u;
    assert(net::is_gate(terminals[terms[k] as int]));
    assert(net::has_gate(terminals, terms));
    net::lemma_stage_picked(terminals, stages, s, r, n);
    lemma_gate_named(terminals, terms, k, terms.len() as int);
    let picked = net::gated_stages(terminals, stages, n);
    let j = choose|j: int| 0 <= j < picked.len() && picked[j] == (s, r);
    assert(net::is_exposure(
        na.regions@[j],
        g.layers@,
        picked[j].0,
        stages[picked[j].0]@[picked[j].1].0@,
        stages[picked[j].0]@[picked[j].1].1,
        stacks[picked[j].0]@[picked[j].1]@,
        terminals,
        layers,
        dbu,
    ));
    assert(na.regions@[j].layer_number == g.layers@[s]);
}

/// No gate is dropped in silence: each is named in a region, or it is one of those that
/// `gates_unanchored` counts.
pub proof fn every_gate_is_read_or_counted<Q: Scalar>(
    na: NetAntenna<Q>,
    g: NetGraph,
    name: Seq<char>,
    terminals: Seq<Terminal<Q>>,
    layers: Seq<LayerInfo>,
    dbu: Q,
    t: int,
)
    requires
        net::shows_graph(na, g, name, terminals, layers, dbu),
        0 <= t < terminals.len(),
        terminals.len() <= usize::MAX,
        net::is_gate(terminals[t]),
    ensures
        na.gates_unanchored == net::unanchored_count(g, terminals, terminals.len() as int),
        net::is_unanchored(g, terminals[t]) || exists|k: int|
            0 <= k < na.regions@.len() && net::texts((#[trigger] na.regions@[k]).pins@).contains(
                terminals[t].name@,
            ),
{
    if !net::is_unanchored(g, terminals[t]) {
        let (s, i) = choose|s: int, i: int|
            0 <= s < g.layers@.len() && #[trigger] g.live(g.layers@[s], i) && net::touches_pin(
                g,
                terminals[t],
                i,
            );
        a_gate_that_touches_metal_is_read(na, g, name, terminals, layers, dbu, t, s, i);
    }
}

/// Whether a region of some stage has terminal `t`.
pub open spec fn in_a_region(stages: Seq<Vec<(Vec<usize>, Collected)>>, t: usize) -> bool {
    exists|s: int, r: int|
        0 <= s < stages.len() && 0 <= r < stages[s]@.len()
            && #[trigger] stages[s]@[r].0@.contains(t)
}

/// A gate is unanchored exactly when no region of any stage has it.
pub proof fn an_unanchored_gate_is_in_no_region<Q: Scalar>(
    g: NetGraph,
    terminals: Seq<Terminal<Q>>,
    attach: Seq<Vec<usize>>,
    stages: Seq<Vec<(Vec<usize>, Collected)>>,
    stacks: Seq<Vec<Vec<i64>>>,
    t: usize,
)
    requires
        net::is_attached(g, terminals, attach),
        net::are_stages(g, attach, stages, stacks, g.layers@.len() as int),
        t < terminals.len(),
    ensures
        net::is_unanchored(g, terminals[t as int]) <==> net::is_gate(terminals[t as int])
            && !in_a_region(stages, t),
{
    let term = terminals[t as int];
    if net::meets_a_stage(g, term) {
        let (s, i) = choose|s: int, i: int|
            0 <= s < g.layers@.len() && #[trigger] g.live(g.layers@[s], i) && net::touches_pin(
                g,
                term,
                i,
            );
        let found = stages[s]@;
        net::lemma_region_of(g, terminals, attach, g.layers@[s], found, t);
        let r = choose|r: int| 0 <= r < found.len() && #[trigger] found[r].0@.contains(t);
        assert(stages[s]@[r].0@.contains(t));
    }
    if in_a_region(stages, t) {
        let (s, r) = choose|s: int, r: int|
            0 <= s < stages.len() && 0 <= r < stages[s]@.len()
                && #[trigger] stages[s]@[r].0@.contains(t);
        let found = stages[s]@;
        assert(found[r].0@.contains(t));
        net::lemma_region_of(g, terminals, attach, g.layers@[s], found, t);
        let i = choose|i: int| #[trigger]
            g.live(g.layers@[s], i) && net::touches_pin(g, term, i);
        assert(g.live(g.layers@[s], i) && net::touches_pin(g, term, i));
    }
}

/// How many of the first `n` terminals are gates.
pub open spec fn gate_count<Q: Scalar>(terminals: Seq<Terminal<Q>>, n: int) -> int
    decreases n,
{
    if n <= 0 {
        0
    } else {
        gate_count(terminals, n - 1) + if net::is_gate(terminals[n - 1]) {
            1int
        } else {
            0
        }
    }
}

/// How many of the first `n` terminals are gates that a region of some stage has.
pub open spec fn read_count<Q: Scalar>(
    terminals: Seq<Terminal<Q>>,
    stages: Seq<Vec<(Vec<usize>, Collected)>>,
    n: int,
) -> int
    decreases n,
{
    if n <= 0 {
        0
    } else {
        read_count(terminals, stages, n - 1) + if net::is_gate(terminals[n - 1]) && in_a_region(
            stages,
            (n - 1) as usize,
        ) {
            1int
        } else {
            0
        }
    }
}

/// The gates add up: those that are read and those that are counted as unanchored are all of them.
pub proof fn gates_read_and_unanchored_are_all<Q: Scalar>(
    g: NetGraph,
    terminals: Seq<Terminal<Q>>,
    attach: Seq<Vec<usize>>,
    stages: Seq<Vec<(Vec<usize>, Collected)>>,
    stacks: Seq<Vec<Vec<i64>>>,
    n: int,
)
    requires
        net::is_attached(g, terminals, attach),
        net::are_stages(g, attach, stages, stacks, g.layers@.len() as int),
        0 <= n <= terminals.len(),
        terminals.len() <= usize::MAX,
    ensures
        read_count(terminals, stages, n) + net::unanchored_count(g, terminals, n) == gate_count(
            terminals,
            n,
        ),
    decreases n,
{
    if n > 0 {
        gates_read_and_unanchored_are_all(g, terminals, attach, stages, stacks, n - 1);
        let t = (n - 1) as usize;
        an_unanchored_gate_is_in_no_region(g, terminals, attach, stages, stacks, t);
    }
}

} // verus!
