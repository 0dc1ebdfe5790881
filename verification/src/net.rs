//! One net's antenna inputs: which gates share which metal at each stage, in square micrometres.

use crate::conductor;
use crate::conductor::LayerBox;
use crate::graph;
use crate::graph::NetGraph;
use crate::regions::Collected;
use crate::scalar::Scalar;
use crate::touch;
use vstd::prelude::*;

verus! {

/// One conductor at one stage: the gates on it and the metal they share.
#[derive(Debug, Clone)]
pub struct RegionExposure<Q> {
    pub layer: String,
    /// Layer number: the stage order, ascending.
    pub layer_number: i64,
    /// The pins with gate area on the conductor.
    pub pins: Vec<String>,
    /// Gate area of all of them. Gates sharing a conductor share its charge.
    pub gate_area_um2: Q,
    /// Diffusion area on this conductor, not on the net.
    pub diff_area_um2: Q,
    /// Metal on this layer alone.
    pub area_um2: Q,
    /// Perimeter times layer thickness. Zero when the LEF states no thickness, in which case the
    /// side-area ratios are *unavailable*, not zero, and are skipped rather than passed.
    pub side_area_um2: Q,
    /// Metal on this layer and every layer below.
    pub cum_area_um2: Q,
    /// Side area on this layer and every layer below, each layer with its own thickness.
    pub cum_side_area_um2: Q,
}

/// What the check reads of one net.
#[derive(Debug, Clone)]
pub struct NetAntenna<Q> {
    pub net: String,
    /// Diffusion area on the whole net. For diagnosis: limits go by each conductor's own.
    pub diff_area_um2: Q,
    /// Every conductor that carries a gate, stage by stage in manufacturing order.
    pub regions: Vec<RegionExposure<Q>>,
    /// Gates whose pin metal meets nothing at any stage, so that no region has them. Reported
    /// rather than dropped: such a gate is unchecked, and silently skipping it would look
    /// identical to passing.
    pub gates_unanchored: usize,
}

/// A terminal of a net: a gate, a diffusion, both or neither, and the metal of its pin.
#[derive(Debug, Clone)]
pub struct Terminal<Q> {
    pub name: String,
    pub gate_area_um2: Q,
    pub diff_area_um2: Q,
    pub pin_boxes: Vec<LayerBox>,
}

/// What the technology says of a layer.
#[derive(Debug, Clone)]
pub struct LayerInfo {
    pub number: i64,
    pub name: String,
    /// In database units; zero when none is stated.
    pub thickness: i64,
}

/// One net as the database has it.
#[derive(Debug, Clone)]
pub struct RoutedNet<Q> {
    pub net: String,
    /// Wires, and vias decomposed onto the layers they occupy.
    pub boxes: Vec<LayerBox>,
    pub terminals: Vec<Terminal<Q>>,
}

/// The pin metal of all terminals.
pub open spec fn all_pins<Q>(terminals: Seq<Terminal<Q>>) -> Seq<LayerBox>
    decreases terminals.len(),
{
    if terminals.len() == 0 {
        Seq::empty()
    } else {
        all_pins(terminals.drop_last()) + terminals.last().pin_boxes@
    }
}

/// The pins leave routing metal on some layer.
pub open spec fn is_routed(boxes: Seq<LayerBox>, pins: Seq<LayerBox>) -> bool {
    exists|layer: i64, p: (int, int)|
        conductor::layer_is_routing(boxes, layer) && #[trigger] conductor::layer_metal(
            boxes,
            pins,
            layer,
        ).contains(p)
}

/// Whether the terminal is a gate: without gate area there is no denominator.
pub open spec fn is_gate<Q: Scalar>(t: Terminal<Q>) -> bool {
    !t.gate_area_um2.spec_le(Q::spec_zero())
}

/// The diffusion area of the first `n` terminals.
pub open spec fn net_diffusion<Q: Scalar>(terminals: Seq<Terminal<Q>>, n: int) -> Q
    decreases n,
{
    if n <= 0 {
        Q::spec_zero()
    } else {
        net_diffusion(terminals, n - 1).spec_plus(terminals[n - 1].diff_area_um2)
    }
}

/// Gate area of the gates among the first `n` of the listed terminals.
pub open spec fn gate_sum<Q: Scalar>(
    terminals: Seq<Terminal<Q>>,
    terms: Seq<usize>,
    n: int,
) -> Q
    decreases n,
{
    if n <= 0 {
        Q::spec_zero()
    } else {
        let before = gate_sum(terminals, terms, n - 1);
        let t = terminals[terms[n - 1] as int];
        if is_gate(t) {
            before.spec_plus(t.gate_area_um2)
        } else {
            before
        }
    }
}

/// The diffusion area of the first `n` of the listed terminals.
pub open spec fn diff_sum<Q: Scalar>(
    terminals: Seq<Terminal<Q>>,
    terms: Seq<usize>,
    n: int,
) -> Q
    decreases n,
{
    if n <= 0 {
        Q::spec_zero()
    } else {
        diff_sum(terminals, terms, n - 1).spec_plus(
            terminals[terms[n - 1] as int].diff_area_um2,
        )
    }
}

/// The names of the gates among the first `n` of the listed terminals.
pub open spec fn gate_names<Q: Scalar>(
    terminals: Seq<Terminal<Q>>,
    terms: Seq<usize>,
    n: int,
) -> Seq<Seq<char>>
    decreases n,
{
    if n <= 0 {
        Seq::empty()
    } else {
        let before = gate_names(terminals, terms, n - 1);
        let t = terminals[terms[n - 1] as int];
        if is_gate(t) {
            before.push(t.name@)
        } else {
            before
        }
    }
}

/// The views of a list of strings.
pub open spec fn texts(v: Seq<String>) -> Seq<Seq<char>> {
    v.map_values(|s: String| s@)
}

/// The name of a layer, empty when the technology has no such layer.
pub open spec fn layer_name(layers: Seq<LayerInfo>, number: i64) -> Seq<char>
    decreases layers.len(),
{
    if layers.len() == 0 {
        Seq::empty()
    } else if layers.last().number == number {
        layers.last().name@
    } else {
        layer_name(layers.drop_last(), number)
    }
}

/// The thickness of a layer, zero when the technology has no such layer.
pub open spec fn layer_thickness(layers: Seq<LayerInfo>, number: i64) -> i64
    decreases layers.len(),
{
    if layers.len() == 0 {
        0
    } else if layers.last().number == number {
        layers.last().thickness
    } else {
        layer_thickness(layers.drop_last(), number)
    }
}

/// An area in squared database units, in square micrometres.
pub open spec fn in_um2<Q: Scalar>(area: i64, dbu: Q) -> Q {
    Q::spec_of(area).spec_over(dbu.spec_times(dbu))
}

/// The side area of a perimeter, in square micrometres.
pub open spec fn side_um2<Q: Scalar>(perimeter: i64, thickness: i64, dbu: Q) -> Q {
    Q::spec_of(perimeter).spec_times(Q::spec_of(thickness)).spec_over(dbu.spec_times(dbu))
}

/// The perimeters on the first `n` stage layers, each times the thickness of its own layer, added
/// up: `stack` has the perimeter on each of them.
pub open spec fn side_sum<Q: Scalar>(
    stack: Seq<i64>,
    present: Seq<i64>,
    n: int,
    layers: Seq<LayerInfo>,
) -> Q
    decreases n,
{
    if n <= 0 {
        Q::spec_zero()
    } else {
        side_sum::<Q>(stack, present, n - 1, layers).spec_plus(
            Q::spec_of(stack[n - 1]).spec_times(
                Q::spec_of(layer_thickness(layers, present[n - 1])),
            ),
        )
    }
}

/// The side area up to stage `s`, in square micrometres.
pub open spec fn stack_um2<Q: Scalar>(
    stack: Seq<i64>,
    present: Seq<i64>,
    s: int,
    layers: Seq<LayerInfo>,
    dbu: Q,
) -> Q {
    side_sum::<Q>(stack, present, s + 1, layers).spec_over(dbu.spec_times(dbu))
}

/// `e` says what the listed terminals share at stage `s` of the layers that are `present`, where
/// they collect the metal `m` in all, and the perimeters of `stack` layer by layer.
pub open spec fn is_exposure<Q: Scalar>(
    e: RegionExposure<Q>,
    present: Seq<i64>,
    s: int,
    terms: Seq<usize>,
    m: Collected,
    stack: Seq<i64>,
    terminals: Seq<Terminal<Q>>,
    layers: Seq<LayerInfo>,
    dbu: Q,
) -> bool {
    let n = terms.len() as int;
    let layer = present[s];
    &&& e.layer@ == layer_name(layers, layer)
    &&& e.layer_number == layer
    &&& texts(e.pins@) == gate_names(terminals, terms, n)
    &&& e.gate_area_um2 == gate_sum(terminals, terms, n)
    &&& e.diff_area_um2 == diff_sum(terminals, terms, n)
    &&& e.area_um2 == in_um2(m.layer_area, dbu)
    &&& e.side_area_um2 == side_um2(m.layer_perimeter, layer_thickness(layers, layer), dbu)
    &&& e.cum_area_um2 == in_um2(m.cumulative_area, dbu)
    &&& e.cum_side_area_um2 == stack_um2(stack, present, s, layers, dbu)
}

/// Whether one of the listed terminals is a gate.
pub open spec fn has_gate<Q: Scalar>(terminals: Seq<Terminal<Q>>, terms: Seq<usize>) -> bool {
    exists|k: int| 0 <= k < terms.len() && is_gate(terminals[(#[trigger] terms[k]) as int])
}

/// Which of the first `n` regions of stage `s` carry a gate, in order.
pub open spec fn gated_regions<Q: Scalar>(
    terminals: Seq<Terminal<Q>>,
    regions: Seq<(Vec<usize>, Collected)>,
    s: int,
    n: int,
) -> Seq<(int, int)>
    decreases n,
{
    if n <= 0 {
        Seq::empty()
    } else {
        let before = gated_regions(terminals, regions, s, n - 1);
        if has_gate(terminals, regions[n - 1].0@) {
            before.push((s, n - 1))
        } else {
            before
        }
    }
}

/// Which regions of the first `n` stages carry a gate, in order.
pub open spec fn gated_stages<Q: Scalar>(
    terminals: Seq<Terminal<Q>>,
    stages: Seq<Vec<(Vec<usize>, Collected)>>,
    n: int,
) -> Seq<(int, int)>
    decreases n,
{
    if n <= 0 {
        Seq::empty()
    } else {
        gated_stages(terminals, stages, n - 1) + gated_regions(
            terminals,
            stages[n - 1]@,
            n - 1,
            stages[n - 1]@.len() as int,
        )
    }
}

/// `attach` lists for every terminal the conductors that its pin metal touches.
pub open spec fn is_attached<Q>(
    g: NetGraph,
    terminals: Seq<Terminal<Q>>,
    attach: Seq<Vec<usize>>,
) -> bool {
    &&& attach.len() == terminals.len()
    &&& g.attach_fits(attach)
    &&& forall|t: int, i: usize|
        0 <= t < attach.len() && i < g.conductors@.len() ==> (#[trigger] attach[t]@.contains(i)
            <==> touches_pin(g, terminals[t], i as int))
}

/// Whether the terminal's pin metal touches conductor `i`.
pub open spec fn touches_pin<Q>(g: NetGraph, t: Terminal<Q>, i: int) -> bool {
    exists|k: int|
        0 <= k < t.pin_boxes@.len() && touch::pin_meets(
            g.conductors@[i],
            #[trigger] t.pin_boxes@[k],
        )
}

/// Whether the terminal's pin metal touches metal that exists at some stage.
pub open spec fn meets_a_stage<Q>(g: NetGraph, t: Terminal<Q>) -> bool {
    exists|s: int, i: int|
        0 <= s < g.layers@.len() && #[trigger] g.live(g.layers@[s], i) && touches_pin(g, t, i)
}

/// Whether the terminal is a gate that meets nothing at any stage.
pub open spec fn is_unanchored<Q: Scalar>(g: NetGraph, t: Terminal<Q>) -> bool {
    is_gate(t) && !meets_a_stage(g, t)
}

/// Whether none of the terminals is a gate.
pub open spec fn no_gate<Q: Scalar>(terminals: Seq<Terminal<Q>>) -> bool {
    forall|t: int| 0 <= t < terminals.len() ==> !is_gate(#[trigger] terminals[t])
}

/// How many of the first `n` terminals are gates that meet nothing at any stage.
pub open spec fn unanchored_count<Q: Scalar>(
    g: NetGraph,
    terminals: Seq<Terminal<Q>>,
    n: int,
) -> int
    decreases n,
{
    if n <= 0 {
        0
    } else {
        unanchored_count(g, terminals, n - 1) + if is_unanchored(g, terminals[n - 1]) {
            1int
        } else {
            0
        }
    }
}

/// There are no more such gates than terminals.
proof fn lemma_unanchored_few<Q: Scalar>(g: NetGraph, terminals: Seq<Terminal<Q>>, n: int)
    requires
        n >= 0,
    ensures
        0 <= unanchored_count(g, terminals, n) <= n,
    decreases n,
{
    if n > 0 {
        lemma_unanchored_few(g, terminals, n - 1);
    }
}

/// The exposures are those of the picked regions, one by one.
pub open spec fn shows_picked<Q: Scalar>(
    exposures: Seq<RegionExposure<Q>>,
    picked: Seq<(int, int)>,
    g: NetGraph,
    stages: Seq<Vec<(Vec<usize>, Collected)>>,
    stacks: Seq<Vec<Vec<i64>>>,
    terminals: Seq<Terminal<Q>>,
    layers: Seq<LayerInfo>,
    dbu: Q,
) -> bool {
    &&& exposures.len() == picked.len()
    &&& forall|k: int|
        0 <= k < exposures.len() ==> is_exposure(
            #[trigger] exposures[k],
            g.layers@,
            picked[k].0,
            stages[picked[k].0]@[picked[k].1].0@,
            stages[picked[k].0]@[picked[k].1].1,
            stacks[picked[k].0]@[picked[k].1]@,
            terminals,
            layers,
            dbu,
        )
}

/// The exposures are those of the gated regions, stage by stage.
pub open spec fn shows_stages<Q: Scalar>(
    exposures: Seq<RegionExposure<Q>>,
    g: NetGraph,
    stages: Seq<Vec<(Vec<usize>, Collected)>>,
    stacks: Seq<Vec<Vec<i64>>>,
    n: int,
    terminals: Seq<Terminal<Q>>,
    layers: Seq<LayerInfo>,
    dbu: Q,
) -> bool {
    shows_picked(
        exposures,
        gated_stages(terminals, stages, n),
        g,
        stages,
        stacks,
        terminals,
        layers,
        dbu,
    )
}

/// The regions of the first `n` stages of the graph, and the perimeters that they collect.
pub open spec fn are_stages(
    g: NetGraph,
    attach: Seq<Vec<usize>>,
    stages: Seq<Vec<(Vec<usize>, Collected)>>,
    stacks: Seq<Vec<Vec<i64>>>,
    n: int,
) -> bool {
    &&& stages.len() == n
    &&& stacks.len() == n
    &&& forall|s: int|
        0 <= s < n ==> g.are_regions(g.layers@[s], attach, (#[trigger] stages[s])@)
    &&& forall|s: int|
        0 <= s < n ==> g.are_stacks(
            g.layers@[s],
            attach,
            (#[trigger] stages[s])@,
            stacks[s]@,
        )
}

/// `na` is what the graph shows of the net.
pub open spec fn shows_graph<Q: Scalar>(
    na: NetAntenna<Q>,
    g: NetGraph,
    net: Seq<char>,
    terminals: Seq<Terminal<Q>>,
    layers: Seq<LayerInfo>,
    dbu: Q,
) -> bool {
    &&& na.net@ == net
    &&& na.diff_area_um2 == net_diffusion(terminals, terminals.len() as int)
    &&& na.gates_unanchored == unanchored_count(g, terminals, terminals.len() as int)
    &&& exists|
        attach: Seq<Vec<usize>>,
        stages: Seq<Vec<(Vec<usize>, Collected)>>,
        stacks: Seq<Vec<Vec<i64>>>,
    |
        {
            &&& is_attached(g, terminals, attach)
            &&& #[trigger] are_stages(g, attach, stages, stacks, g.layers@.len() as int)
            &&& shows_stages(
                na.regions@,
                g,
                stages,
                stacks,
                g.layers@.len() as int,
                terminals,
                layers,
                dbu,
            )
        }
}

/// `na` is what the boxes, cut by the pins of the terminals, show of the net.
pub open spec fn shows_routing<Q: Scalar>(
    na: NetAntenna<Q>,
    net: Seq<char>,
    boxes: Seq<LayerBox>,
    terminals: Seq<Terminal<Q>>,
    layers: Seq<LayerInfo>,
    dbu: Q,
) -> bool {
    exists|g: NetGraph|
        {
            &&& #[trigger] g.wf()
            &&& graph::shows_net(g.conductors@, boxes, all_pins(terminals))
            &&& shows_graph(na, g, net, terminals, layers, dbu)
        }
}

/// The name and the thickness of a layer.
fn layer_info(layers: &[LayerInfo], number: i64) -> (r: (String, i64))
    ensures
        r.0@ == layer_name(layers@, number),
        r.1 == layer_thickness(layers@, number),
{
    let mut k: usize = layers.len();
    assert(layers@.take(k as int) =~= layers@);
    while k > 0
        invariant
            k <= layers@.len(),
            layer_name(layers@, number) == layer_name(layers@.take(k as int), number),
            layer_thickness(layers@, number) == layer_thickness(layers@.take(k as int), number),
        decreases k,
    {
        k -= 1;
        assert(layers@.take(k + 1).drop_last() =~= layers@.take(k as int));
        if layers[k].number == number {
            return (layers[k].name.clone(), layers[k].thickness);
        }
    }
    (String::new(), 0)
}

/// The pin metal of all terminals, in one list.
fn pins_of<Q: Scalar>(terminals: &[Terminal<Q>]) -> (pins: Vec<LayerBox>)
    ensures
        pins@ == all_pins(terminals@),
{
    let mut pins: Vec<LayerBox> = Vec::new();
    let mut t: usize = 0;
    while t < terminals.len()
        invariant
            t <= terminals@.len(),
            pins@ == all_pins(terminals@.take(t as int)),
        decreases terminals@.len() - t,
    {
        let ghost before = pins@;
        let boxes = &terminals[t].pin_boxes;
        let mut k: usize = 0;
        while k < boxes.len()
            invariant
                k <= boxes@.len(),
                pins@ == before + boxes@.take(k as int),
            decreases boxes@.len() - k,
        {
            pins.push(boxes[k]);
            k += 1;
            assert(boxes@.take(k as int) =~= boxes@.take(k - 1).push(boxes@[k - 1]));
        }
        assert(boxes@.take(k as int) =~= boxes@);
        t += 1;
        assert(terminals@.take(t as int).drop_last() =~= terminals@.take(t - 1));
    }
    assert(terminals@.take(t as int) =~= terminals@);
    pins
}

impl<Q: Scalar> RoutedNet<Q> {
    /// Whether everything measured of the net fits.
    pub fn fits(&self) -> (b: bool)
        ensures
            b == conductor::net_fits(self.boxes@, all_pins(self.terminals@)),
    {
        let pins = pins_of(self.terminals.as_slice());
        conductor::fits(self.boxes.as_slice(), pins.as_slice())
    }
}

/// Whether one of the listed terminals is a gate.
fn any_gate<Q: Scalar>(terminals: &[Terminal<Q>], terms: &Vec<usize>) -> (b: bool)
    requires
        forall|k: int| 0 <= k < terms@.len() ==> (#[trigger] terms@[k]) < terminals@.len(),
    ensures
        b == has_gate(terminals@, terms@),
{
    let mut k: usize = 0;
    while k < terms.len()
        invariant
            k <= terms@.len(),
            forall|k: int| 0 <= k < terms@.len() ==> (#[trigger] terms@[k]) < terminals@.len(),
            forall|j: int| 0 <= j < k ==> !is_gate(terminals@[(#[trigger] terms@[j]) as int]),
        decreases terms@.len() - k,
    {
        if !terminals[terms[k]].gate_area_um2.le(Q::zero()) {
            assert(is_gate(terminals@[terms@[k as int] as int]));
            return true;
        }
        k += 1;
    }
    false
}

/// The side area up to stage `s`, each layer with its own thickness.
fn side_below<Q: Scalar>(
    stack: &Vec<i64>,
    present: &Vec<i64>,
    s: usize,
    layers: &[LayerInfo],
    dbu: Q,
) -> (side: Q)
    requires
        s < present@.len(),
        stack@.len() == present@.len(),
    ensures
        side == stack_um2(stack@, present@, s as int, layers@, dbu),
{
    let mut side = Q::zero();
    let mut k: usize = 0;
    while k <= s
        invariant
            k <= s + 1,
            s < present@.len(),
            stack@.len() == present@.len(),
            side == side_sum::<Q>(stack@, present@, k as int, layers@),
        decreases s + 1 - k,
    {
        let (_, thickness) = layer_info(layers, present[k]);
        side = side.plus(Q::of(stack[k]).times(Q::of(thickness)));
        assert(present.len() == present@.len());
        k += 1;
    }
    side.over(dbu.times(dbu))
}

/// What the listed terminals share at one stage.
fn expose_region<Q: Scalar>(
    terminals: &[Terminal<Q>],
    terms: &Vec<usize>,
    m: Collected,
    stack: &Vec<i64>,
    present: &Vec<i64>,
    s: usize,
    layers: &[LayerInfo],
    dbu: Q,
) -> (e: RegionExposure<Q>)
    requires
        s < present@.len(),
        stack@.len() == present@.len(),
        forall|k: int| 0 <= k < terms@.len() ==> (#[trigger] terms@[k]) < terminals@.len(),
    ensures
        is_exposure(e, present@, s as int, terms@, m, stack@, terminals@, layers@, dbu),
{
    let mut pins: Vec<String> = Vec::new();
    let mut gate = Q::zero();
    let mut diff = Q::zero();
    let mut k: usize = 0;
    assert(texts(pins@) =~= gate_names(terminals@, terms@, 0));
    while k < terms.len()
        invariant
            k <= terms@.len(),
            forall|k: int| 0 <= k < terms@.len() ==> (#[trigger] terms@[k]) < terminals@.len(),
            texts(pins@) == gate_names(terminals@, terms@, k as int),
            gate == gate_sum(terminals@, terms@, k as int),
            diff == diff_sum(terminals@, terms@, k as int),
        decreases terms@.len() - k,
    {
        let t = &terminals[terms[k]];
        diff = diff.plus(t.diff_area_um2);
        if !t.gate_area_um2.le(Q::zero()) {
            let ghost before = pins@;
            gate = gate.plus(t.gate_area_um2);
            pins.push(t.name.clone());
            assert(texts(pins@) =~= texts(before).push(t.name@));
        }
        k += 1;
    }
    let layer = present[s];
    let (name, thickness) = layer_info(layers, layer);
    let cum_side = side_below(stack, present, s, layers, dbu);
    // Gate area is stated in square micrometres while geometry is stated in database units.
    let dbu2 = dbu.times(dbu);
    RegionExposure {
        layer: name,
        layer_number: layer,
        pins,
        gate_area_um2: gate,
        diff_area_um2: diff,
        area_um2: Q::of(m.layer_area).over(dbu2),
        side_area_um2: Q::of(m.layer_perimeter).times(Q::of(thickness)).over(dbu2),
        cum_area_um2: Q::of(m.cumulative_area).over(dbu2),
        cum_side_area_um2: cum_side,
    }
}

/// Whether one of the listed conductors exists at some stage.
fn meets_stage(g: &NetGraph, hits: &Vec<usize>) -> (b: bool)
    requires
        g.wf(),
        forall|k: int| 0 <= k < hits@.len() ==> (#[trigger] hits@[k]) < g.conductors@.len(),
    ensures
        b == lists_live(*g, hits@),
{
    if g.layers.len() == 0 {
        return false;
    }
    let n = g.layers.len() - 1;
    let top = g.layers[n];
    let mut k: usize = 0;
    while k < hits.len()
        invariant
            k <= hits@.len(),
            n == g.layers@.len() - 1,
            0 <= n,
            top == g.layers@[n as int],
            g.wf(),
            forall|k: int| 0 <= k < hits@.len() ==> (#[trigger] hits@[k]) < g.conductors@.len(),
            forall|j: int| 0 <= j < k ==> g.conductors@[(#[trigger] hits@[j]) as int].layer > top,
        decreases hits@.len() - k,
    {
        if g.conductors[hits[k]].layer <= top {
            assert(g.live(g.layers@[n as int], hits@[k as int] as int));
            return true;
        }
        k += 1;
    }
    assert forall|s: int, j: int|
        0 <= s < g.layers@.len() && 0 <= j < hits@.len() implies !#[trigger] g.live(
        g.layers@[s],
        hits@[j] as int,
    ) by {
        if s < n {
            assert(g.layers@[s] < g.layers@[n as int]);
        }
    }
    false
}

/// One of the listed conductors exists at some stage.
spec fn lists_live(g: NetGraph, hits: Seq<usize>) -> bool {
    exists|s: int, j: int|
        0 <= s < g.layers@.len() && 0 <= j < hits.len() && #[trigger] g.live(
            g.layers@[s],
            hits[j] as int,
        )
}

proof fn lemma_meets_stage<Q>(g: NetGraph, t: Terminal<Q>, hits: Seq<usize>)
    requires
        forall|k: int| 0 <= k < hits.len() ==> (#[trigger] hits[k]) < g.conductors@.len(),
        forall|i: usize|
            i < g.conductors@.len() ==> (#[trigger] hits.contains(i) <==> touches_pin(
                g,
                t,
                i as int,
            )),
    ensures
        meets_a_stage(g, t) == lists_live(g, hits),
{
    if meets_a_stage(g, t) {
        let (s, i) = choose|s: int, i: int|
            0 <= s < g.layers@.len() && #[trigger] g.live(g.layers@[s], i) && touches_pin(g, t, i);
        assert(g.conductors.len() == g.conductors@.len());
        assert(hits.contains(i as usize));
        let j = choose|j: int| 0 <= j < hits.len() && hits[j] == i as usize;
        assert(g.live(g.layers@[s], hits[j] as int));
    }
    if lists_live(g, hits) {
        let (s, j) = choose|s: int, j: int|
            0 <= s < g.layers@.len() && 0 <= j < hits.len() && #[trigger] g.live(
                g.layers@[s],
                hits[j] as int,
            );
        assert(hits.contains(hits[j]));
        assert(touches_pin(g, t, hits[j] as int));
        assert(g.live(g.layers@[s], hits[j] as int));
    }
}

/// Attach every terminal to the conductors that its pin metal touches. Returns the lists, the
/// diffusion area of the net, and how many gates meet nothing at any stage.
fn attach_terminals<Q: Scalar>(g: &NetGraph, terminals: &[Terminal<Q>]) -> (r: (
    Vec<Vec<usize>>,
    Q,
    usize,
))
    requires
        g.wf(),
    ensures
        is_attached(*g, terminals@, r.0@),
        r.1 == net_diffusion(terminals@, terminals@.len() as int),
        r.2 == unanchored_count(*g, terminals@, terminals@.len() as int),
{
    let mut attach: Vec<Vec<usize>> = Vec::new();
    let mut diff = Q::zero();
    let mut unanchored: usize = 0;
    let mut t: usize = 0;
    while t < terminals.len()
        invariant
            t <= terminals@.len(),
            attach@.len() == t,
            g.wf(),
            g.attach_fits(attach@),
            forall|u: int, i: usize|
                0 <= u < t && i < g.conductors@.len() ==> (#[trigger] attach@[u]@.contains(i)
                    <==> touches_pin(*g, terminals@[u], i as int)),
            diff == net_diffusion(terminals@, t as int),
            unanchored == unanchored_count(*g, terminals@, t as int),
            unanchored <= t,
        decreases terminals@.len() - t,
    {
        let term = &terminals[t];
        diff = diff.plus(term.diff_area_um2);
        let hits = g.touched_by(term.pin_boxes.as_slice());
        let ghost found = hits@;
        let met = meets_stage(g, &hits);
        if !met && !term.gate_area_um2.le(Q::zero()) {
            unanchored += 1;
        }
        proof {
            lemma_meets_stage(*g, *term, found);
        }
        let ghost before = attach@;
        attach.push(hits);
        proof {
            assert forall|u: int, k: int|
                0 <= u < attach@.len() && 0 <= k < attach@[u]@.len() implies (
            #[trigger] attach@[u]@[k]) < g.conductors@.len() by {
                if u < t {
                    assert(attach@[u] == before[u]);
                }
            }
            assert forall|u: int, i: usize|
                0 <= u < t + 1 && i < g.conductors@.len() implies (
            #[trigger] attach@[u]@.contains(i) <==> touches_pin(*g, terminals@[u], i as int)) by {
                if u < t {
                    assert(attach@[u] == before[u]);
                    assert(before[u]@.contains(i) <==> touches_pin(
                        *g,
                        terminals@[u],
                        i as int,
                    ));
                } else {
                    assert(found.contains(i) <==> touches_pin(*g, *term, i as int));
                }
            }
        }
        t += 1;
    }
    (attach, diff, unanchored)
}

/// The terminals that a region lists are terminals of the net.
pub proof fn lemma_terms_in_range(
    g: NetGraph,
    stage: i64,
    attach: Seq<Vec<usize>>,
    regions: Seq<(Vec<usize>, Collected)>,
    r: int,
)
    requires
        g.are_regions(stage, attach, regions),
        0 <= r < regions.len(),
    ensures
        forall|k: int| 0 <= k < regions[r].0@.len() ==> (#[trigger] regions[r].0@[k]) < attach.len(),
{
    assert forall|k: int| 0 <= k < regions[r].0@.len() implies (#[trigger] regions[r].0@[k])
        < attach.len() by {
        let t = regions[r].0@[k];
        assert(regions[r].0@.contains(t));
        assert(g.anchored(stage, attach, t as int));
        let i = choose|i: int| g.anchors(stage, attach, t as int, i);
        assert(g.anchors(stage, attach, t as int, i));
    }
}

/// What the graph shows of the net, stage by stage.
pub fn expose<Q: Scalar>(
    g: &NetGraph,
    net: &String,
    terminals: &[Terminal<Q>],
    layers: &[LayerInfo],
    dbu: Q,
) -> (na: NetAntenna<Q>)
    requires
        g.wf(),
        g.totals_fit(),
    ensures
        shows_graph(na, *g, net@, terminals@, layers@, dbu),
{
    let (attach, diff, unanchored) = attach_terminals(g, terminals);
    let mut exposures: Vec<RegionExposure<Q>> = Vec::new();
    let ghost mut stages: Seq<Vec<(Vec<usize>, Collected)>> = Seq::empty();
    let ghost mut stacks: Seq<Vec<Vec<i64>>> = Seq::empty();
    let mut s: usize = 0;
    while s < g.layers.len()
        invariant
            s <= g.layers@.len(),
            g.wf(),
            g.totals_fit(),
            is_attached(*g, terminals@, attach@),
            are_stages(*g, attach@, stages, stacks, s as int),
            shows_stages(exposures@, *g, stages, stacks, s as int, terminals@, layers@, dbu),
        decreases g.layers@.len() - s,
    {
        let layer = g.layers[s];
        let regions = g.regions_at(layer, attach.as_slice());
        let heaps = g.perimeters_at(layer, attach.as_slice(), regions.as_slice());
        let ghost n0 = gated_stages(terminals@, stages, s as int);
        let ghost next = stages.push(regions);
        let ghost pile = stacks.push(heaps);
        let mut r: usize = 0;
        proof {
            assert(n0 + gated_regions(terminals@, regions@, s as int, 0) =~= n0);
            lemma_gated_stages(terminals@, stages, next, s as int);
        }
        while r < regions.len()
            invariant
                s < g.layers@.len(),
                layer == g.layers@[s as int],
                r <= regions@.len(),
                attach@.len() == terminals@.len(),
                g.are_regions(layer, attach@, regions@),
                g.are_stacks(layer, attach@, regions@, heaps@),
                next == stages.push(regions),
                pile == stacks.push(heaps),
                stages.len() == s,
                stacks.len() == s,
                shows_picked(
                    exposures@,
                    n0 + gated_regions(terminals@, regions@, s as int, r as int),
                    *g,
                    next,
                    pile,
                    terminals@,
                    layers@,
                    dbu,
                ),
            decreases regions@.len() - r,
        {
            proof {
                lemma_terms_in_range(*g, layer, attach@, regions@, r as int);
            }
            let ghost picked = n0 + gated_regions(terminals@, regions@, s as int, r as int);
            let ghost held = exposures@;
            if any_gate(terminals, &regions[r].0) {
                let e = expose_region(
                    terminals,
                    &regions[r].0,
                    regions[r].1,
                    &heaps[r],
                    &g.layers,
                    s,
                    layers,
                    dbu,
                );
                exposures.push(e);
                proof {
                    let more = n0 + gated_regions(terminals@, regions@, s as int, r + 1);
                    assert(more =~= picked.push((s as int, r as int)));
                    assert forall|k: int| 0 <= k < exposures@.len() implies is_exposure(
                        #[trigger] exposures@[k],
                        g.layers@,
                        more[k].0,
                        next[more[k].0]@[more[k].1].0@,
                        next[more[k].0]@[more[k].1].1,
                        pile[more[k].0]@[more[k].1]@,
                        terminals@,
                        layers@,
                        dbu,
                    ) by {
                        if k < held.len() {
                            assert(exposures@[k] == held[k]);
                            assert(more[k] == picked[k]);
                        } else {
                            assert(more[k] == (s as int, r as int));
                        }
                    }
                }
            }
            r += 1;
        }
        proof {
            lemma_gated_stages(terminals@, stages, next, s as int);
            assert forall|k: int| 0 <= k < s + 1 implies g.are_regions(
                g.layers@[k],
                attach@,
                (#[trigger] next[k])@,
            ) by {
                if k < s {
                    assert(next[k] == stages[k]);
                }
            }
            assert forall|k: int| 0 <= k < s + 1 implies g.are_stacks(
                g.layers@[k],
                attach@,
                (#[trigger] next[k])@,
                pile[k]@,
            ) by {
                if k < s {
                    assert(next[k] == stages[k]);
                    assert(pile[k] == stacks[k]);
                }
            }
            stages = next;
            stacks = pile;
        }
        s += 1;
    }
    NetAntenna {
        net: net.clone(),
        diff_area_um2: diff,
        regions: exposures,
        gates_unanchored: unanchored,
    }
}

/// Stages after the first `n` have no part in the list, which names only the first `n`.
proof fn lemma_gated_stages<Q: Scalar>(
    terminals: Seq<Terminal<Q>>,
    a: Seq<Vec<(Vec<usize>, Collected)>>,
    b: Seq<Vec<(Vec<usize>, Collected)>>,
    n: int,
)
    requires
        0 <= n <= a.len(),
        n <= b.len(),
        forall|i: int| 0 <= i < n ==> a[i] == b[i],
    ensures
        gated_stages(terminals, a, n) == gated_stages(terminals, b, n),
        forall|k: int|
            0 <= k < gated_stages(terminals, a, n).len() ==> 0 <= (#[trigger] gated_stages(
                terminals,
                a,
                n,
            )[k]).0 < n,
    decreases n,
{
    if n > 0 {
        lemma_gated_stages(terminals, a, b, n - 1);
        lemma_gated_regions(terminals, a[n - 1]@, n - 1, a[n - 1]@.len() as int);
    }
}

proof fn lemma_gated_regions<Q: Scalar>(
    terminals: Seq<Terminal<Q>>,
    regions: Seq<(Vec<usize>, Collected)>,
    s: int,
    n: int,
)
    ensures
        forall|k: int|
            0 <= k < gated_regions(terminals, regions, s, n).len() ==> (#[trigger] gated_regions(
                terminals,
                regions,
                s,
                n,
            )[k]).0 == s,
    decreases n,
{
    if n > 0 {
        lemma_gated_regions(terminals, regions, s, n - 1);
        let before = gated_regions(terminals, regions, s, n - 1);
        let after = gated_regions(terminals, regions, s, n);
        assert forall|k: int| 0 <= k < after.len() implies (#[trigger] after[k]).0 == s by {
            if k < before.len() {
                assert(after[k] == before[k]);
            }
        }
    }
}

/// A region with a gate is listed.
proof fn lemma_region_picked<Q: Scalar>(
    terminals: Seq<Terminal<Q>>,
    regions: Seq<(Vec<usize>, Collected)>,
    s: int,
    r: int,
    n: int,
)
    requires
        0 <= r < n <= regions.len(),
        has_gate(terminals, regions[r].0@),
    ensures
        gated_regions(terminals, regions, s, n).contains((s, r)),
    decreases n,
{
    let before = gated_regions(terminals, regions, s, n - 1);
    let after = gated_regions(terminals, regions, s, n);
    if r < n - 1 {
        lemma_region_picked(terminals, regions, s, r, n - 1);
        let j = choose|j: int| 0 <= j < before.len() && before[j] == (s, r);
        assert(after[j] == (s, r));
    } else {
        assert(after[before.len() as int] == (s, r));
    }
}

/// A region with a gate is listed, whatever its stage.
pub proof fn lemma_stage_picked<Q: Scalar>(
    terminals: Seq<Terminal<Q>>,
    stages: Seq<Vec<(Vec<usize>, Collected)>>,
    s: int,
    r: int,
    n: int,
)
    requires
        0 <= s < n <= stages.len(),
        0 <= r < stages[s]@.len(),
        has_gate(terminals, stages[s]@[r].0@),
    ensures
        gated_stages(terminals, stages, n).contains((s, r)),
    decreases n,
{
    let before = gated_stages(terminals, stages, n - 1);
    let own = gated_regions(
        terminals,
        stages[n - 1]@,
        n - 1,
        stages[n - 1]@.len() as int,
    );
    let after = gated_stages(terminals, stages, n);
    assert(after == before + own);
    if s < n - 1 {
        lemma_stage_picked(terminals, stages, s, r, n - 1);
        let j = choose|j: int| 0 <= j < before.len() && before[j] == (s, r);
        assert(after[j] == (s, r));
    } else {
        lemma_region_picked(terminals, stages[s]@, s, r, stages[s]@.len() as int);
        let j = choose|j: int| 0 <= j < own.len() && own[j] == (s, r);
        assert(after[before.len() + j] == (s, r));
    }
}

/// Only regions with a gate are listed.
proof fn lemma_region_gated<Q: Scalar>(
    terminals: Seq<Terminal<Q>>,
    regions: Seq<(Vec<usize>, Collected)>,
    s: int,
    n: int,
    k: int,
)
    requires
        n <= regions.len(),
        0 <= k < gated_regions(terminals, regions, s, n).len(),
    ensures
        ({
            let at = gated_regions(terminals, regions, s, n)[k];
            at.0 == s && 0 <= at.1 < n && has_gate(terminals, regions[at.1].0@)
        }),
    decreases n,
{
    if n > 0 {
        let before = gated_regions(terminals, regions, s, n - 1);
        if k < before.len() {
            lemma_region_gated(terminals, regions, s, n - 1, k);
            assert(gated_regions(terminals, regions, s, n)[k] == before[k]);
        }
    }
}

/// Only regions with a gate are listed, whatever their stage.
pub proof fn lemma_stage_gated<Q: Scalar>(
    terminals: Seq<Terminal<Q>>,
    stages: Seq<Vec<(Vec<usize>, Collected)>>,
    n: int,
    k: int,
)
    requires
        n <= stages.len(),
        0 <= k < gated_stages(terminals, stages, n).len(),
    ensures
        ({
            let at = gated_stages(terminals, stages, n)[k];
            0 <= at.0 < n && 0 <= at.1 < stages[at.0]@.len() && has_gate(
                terminals,
                stages[at.0]@[at.1].0@,
            )
        }),
    decreases n,
{
    if n > 0 {
        let before = gated_stages(terminals, stages, n - 1);
        let own = stages[n - 1]@;
        let all = gated_stages(terminals, stages, n);
        if k < before.len() {
            lemma_stage_gated(terminals, stages, n - 1, k);
            assert(all[k] == before[k]);
        } else {
            lemma_region_gated(terminals, own, n - 1, own.len() as int, k - before.len());
            assert(all[k] == gated_regions(terminals, own, n - 1, own.len() as int)[k
                - before.len()]);
        }
    }
}

/// An unanchored gate is counted.
proof fn lemma_unanchored_counted<Q: Scalar>(
    g: NetGraph,
    terminals: Seq<Terminal<Q>>,
    n: int,
    t: int,
)
    requires
        0 <= t < n <= terminals.len(),
        is_unanchored(g, terminals[t]),
    ensures
        unanchored_count(g, terminals, n) > 0,
    decreases n,
{
    lemma_unanchored_few(g, terminals, n - 1);
    if t < n - 1 {
        lemma_unanchored_counted(g, terminals, n - 1, t);
    }
}

/// Without a gate none is counted.
proof fn lemma_none_counted<Q: Scalar>(g: NetGraph, terminals: Seq<Terminal<Q>>, n: int)
    requires
        no_gate(terminals),
        n <= terminals.len(),
    ensures
        unanchored_count(g, terminals, n) == 0 || n < 0,
    decreases n,
{
    if n > 0 {
        lemma_none_counted(g, terminals, n - 1);
        assert(!is_gate(terminals[n - 1]));
    }
}

/// A terminal is in a region of a stage exactly when it touches metal that exists there.
pub proof fn lemma_region_of<Q>(
    g: NetGraph,
    terminals: Seq<Terminal<Q>>,
    attach: Seq<Vec<usize>>,
    stage: i64,
    regions: Seq<(Vec<usize>, Collected)>,
    t: usize,
)
    requires
        is_attached(g, terminals, attach),
        g.are_regions(stage, attach, regions),
        t < terminals.len(),
    ensures
        (exists|r: int| 0 <= r < regions.len() && #[trigger] regions[r].0@.contains(t)) <==> (
        exists|i: int| #[trigger] g.live(stage, i) && touches_pin(g, terminals[t as int], i)),
{
    assert(g.conductors.len() == g.conductors@.len());
    if exists|r: int| 0 <= r < regions.len() && #[trigger] regions[r].0@.contains(t) {
        let r = choose|r: int| 0 <= r < regions.len() && #[trigger] regions[r].0@.contains(t);
        assert(g.anchored(stage, attach, t as int));
        let i = choose|i: int| g.anchors(stage, attach, t as int, i);
        assert(attach[t as int]@.contains(i as usize));
        assert(g.live(stage, i));
        assert(touches_pin(g, terminals[t as int], i));
    }
    if exists|i: int| #[trigger] g.live(stage, i) && touches_pin(g, terminals[t as int], i) {
        let i = choose|i: int| #[trigger]
            g.live(stage, i) && touches_pin(g, terminals[t as int], i);
        assert(attach[t as int]@.contains(i as usize));
        assert(g.anchors(stage, attach, t as int, i));
        assert(g.anchored(stage, attach, t as int));
    }
}

/// Nothing is read and nothing counted exactly when no terminal is a gate.
pub proof fn lemma_no_gate<Q: Scalar>(
    na: NetAntenna<Q>,
    g: NetGraph,
    net: Seq<char>,
    terminals: Seq<Terminal<Q>>,
    layers: Seq<LayerInfo>,
    dbu: Q,
)
    requires
        shows_graph(na, g, net, terminals, layers, dbu),
        terminals.len() <= usize::MAX,
    ensures
        no_gate(terminals) <==> na.regions@.len() == 0 && na.gates_unanchored == 0,
{
    let n = g.layers@.len() as int;
    let (attach, stages, stacks) = choose|
        attach: Seq<Vec<usize>>,
        stages: Seq<Vec<(Vec<usize>, Collected)>>,
        stacks: Seq<Vec<Vec<i64>>>,
    |
        {
            &&& is_attached(g, terminals, attach)
            &&& #[trigger] are_stages(g, attach, stages, stacks, n)
            &&& shows_stages(na.regions@, g, stages, stacks, n, terminals, layers, dbu)
        };
    let picked = gated_stages(terminals, stages, n);
    if no_gate(terminals) {
        lemma_none_counted(g, terminals, terminals.len() as int);
        if picked.len() > 0 {
            lemma_stage_gated(terminals, stages, n, 0);
            let at = picked[0];
            let regions = stages[at.0]@;
            lemma_terms_in_range(g, g.layers@[at.0], attach, regions, at.1);
            let k = choose|k: int|
                0 <= k < regions[at.1].0@.len() && is_gate(
                    terminals[(#[trigger] regions[at.1].0@[k]) as int],
                );
            assert(is_gate(terminals[regions[at.1].0@[k] as int]));
        }
    } else {
        let t = choose|t: int| 0 <= t < terminals.len() && is_gate(#[trigger] terminals[t]);
        if is_unanchored(g, terminals[t]) {
            lemma_unanchored_counted(g, terminals, terminals.len() as int, t);
        } else {
            let (s, i) = choose|s: int, i: int|
                0 <= s < g.layers@.len() && #[trigger] g.live(g.layers@[s], i) && touches_pin(
                    g,
                    terminals[t],
                    i,
                );
            let regions = stages[s]@;
            let u = t as usize;
            assert(g.live(g.layers@[s], i) && touches_pin(g, terminals[u as int], i));
            lemma_region_of(g, terminals, attach, g.layers@[s], regions, u);
            let r = choose|r: int| 0 <= r < regions.len() && #[trigger] regions[r].0@.contains(u);
            let k = choose|k: int| 0 <= k < regions[r].0@.len() && regions[r].0@[k] == u;
            assert(is_gate(terminals[regions[r].0@[k] as int]));
            assert(has_gate(terminals, regions[r].0@));
            lemma_stage_picked(terminals, stages, s, r, n);
        }
    }
}

/// Read one net's antenna inputs, in square micrometres.
///
/// `None` for a net with no routed metal, which is not an error: an unrouted net collects
/// nothing.
pub fn read_net<Q: Scalar>(
    net: &String,
    boxes: &[LayerBox],
    terminals: &[Terminal<Q>],
    layers: &[LayerInfo],
    dbu: Q,
) -> (r: Option<NetAntenna<Q>>)
    requires
        conductor::net_fits(boxes@, all_pins(terminals@)),
    ensures
        r is Some <==> is_routed(boxes@, all_pins(terminals@)),
        r matches Some(na) ==> shows_routing(na, net@, boxes@, terminals@, layers@, dbu),
        r matches Some(na) ==> na.gates_unanchored <= terminals@.len(),
        r matches Some(na) ==> (no_gate(terminals@) <==> na.regions@.len() == 0
            && na.gates_unanchored == 0),
{
    let pins = pins_of(terminals);
    let g = build_graph(boxes, pins.as_slice());
    proof {
        lemma_built(g, boxes@, pins@);
    }
    if g.is_empty() || g.layers.len() == 0 {
        return None;
    }
    Some(read_graph(&g, net, boxes, terminals, layers, dbu))
}

/// The graph of the boxes, cut by the pins, with totals that fit.
#[verifier::opaque]
spec fn is_built(g: NetGraph, boxes: Seq<LayerBox>, pins: Seq<LayerBox>) -> bool {
    g.wf() && g.totals_fit() && graph::shows_net(g.conductors@, boxes, pins)
}

fn build_graph(boxes: &[LayerBox], pins: &[LayerBox]) -> (g: NetGraph)
    requires
        conductor::net_fits(boxes@, pins@),
    ensures
        is_built(g, boxes@, pins@),
{
    let g = NetGraph::build(boxes, pins);
    proof {
        reveal(is_built);
    }
    g
}

proof fn lemma_built(g: NetGraph, boxes: Seq<LayerBox>, pins: Seq<LayerBox>)
    requires
        is_built(g, boxes, pins),
    ensures
        is_routed(boxes, pins) <==> g.layers@.len() > 0,
        g.conductors@.len() == 0 ==> g.layers@.len() == 0,
{
    reveal(is_built);
    lemma_routed(g, boxes, pins);
}

/// What the net's graph shows.
fn read_graph<Q: Scalar>(
    g: &NetGraph,
    net: &String,
    boxes: &[LayerBox],
    terminals: &[Terminal<Q>],
    layers: &[LayerInfo],
    dbu: Q,
) -> (na: NetAntenna<Q>)
    requires
        is_built(*g, boxes@, all_pins(terminals@)),
    ensures
        shows_routing(na, net@, boxes@, terminals@, layers@, dbu),
        na.gates_unanchored <= terminals@.len(),
        no_gate(terminals@) <==> na.regions@.len() == 0 && na.gates_unanchored == 0,
{
    proof {
        reveal(is_built);
    }
    let na = expose(g, net, terminals, layers, dbu);
    proof {
        assert(terminals.len() == terminals@.len());
        lemma_read(na, *g, net@, boxes@, terminals@, layers@, dbu);
    }
    na
}

/// What the graph shows is what the net shows.
proof fn lemma_read<Q: Scalar>(
    na: NetAntenna<Q>,
    g: NetGraph,
    net: Seq<char>,
    boxes: Seq<LayerBox>,
    terminals: Seq<Terminal<Q>>,
    layers: Seq<LayerInfo>,
    dbu: Q,
)
    requires
        g.wf(),
        graph::shows_net(g.conductors@, boxes, all_pins(terminals)),
        shows_graph(na, g, net, terminals, layers, dbu),
        terminals.len() <= usize::MAX,
    ensures
        shows_routing(na, net, boxes, terminals, layers, dbu),
        na.gates_unanchored <= terminals.len(),
        no_gate(terminals) <==> na.regions@.len() == 0 && na.gates_unanchored == 0,
{
    assert(g.wf());
    lemma_unanchored_few(g, terminals, terminals.len() as int);
    lemma_no_gate(na, g, net, terminals, layers, dbu);
}

/// The graph has a stage exactly when the pins leave routing metal.
proof fn lemma_routed(g: NetGraph, boxes: Seq<LayerBox>, pins: Seq<LayerBox>)
    requires
        g.wf(),
        graph::shows_net(g.conductors@, boxes, pins),
    ensures
        is_routed(boxes, pins) <==> g.layers@.len() > 0,
        g.conductors@.len() == 0 ==> g.layers@.len() == 0,
{
    let cs = g.conductors@;
    if g.layers@.len() > 0 {
        let l = g.layers@[0];
        assert(g.layers@.contains(l));
        let i = choose|i: int| 0 <= i < cs.len() && (#[trigger] cs[i]).layer == l && cs[i].is_routing;
        let m = conductor::layer_metal(boxes, pins, l);
        assert(crate::squares::is_component(cs[i].squares(), m));
        let p = choose|p: (int, int)| cs[i].squares().contains(p);
        assert(m.contains(p));
    }
    if is_routed(boxes, pins) {
        let (l, p) = choose|l: i64, p: (int, int)|
            conductor::layer_is_routing(boxes, l) && #[trigger] conductor::layer_metal(
                boxes,
                pins,
                l,
            ).contains(p);
        let i = choose|i: int|
            0 <= i < cs.len() && (#[trigger] cs[i]).layer == l && cs[i].squares().contains(p);
        assert(cs[i].is_routing);
        assert(g.layers@.contains(l));
    }
}

} // verus!
