//! What manufacturing order does to the regions of a net.

use crate::conductor;
use crate::conductor::Conductor;
use crate::conductor::LayerBox;
use crate::graph;
use crate::graph::NetGraph;
use crate::reach;
use crate::regions;
use crate::regions::Collected;
use crate::squares;
use vstd::prelude::*;

verus! {

/// A terminal that touches nothing that exists at the stage is in no region: a pin touching
/// nothing is attached to nothing.
pub proof fn an_unattached_terminal_is_in_no_region(
    g: NetGraph,
    stage: i64,
    attach: Seq<Vec<usize>>,
    found: Seq<(Vec<usize>, Collected)>,
    t: usize,
    r: int,
)
    requires
        g.are_regions(stage, attach, found),
        forall|i: int| !#[trigger] g.anchors(stage, attach, t as int, i),
        0 <= r < found.len(),
    ensures
        !found[r].0@.contains(t),
{
    if found[r].0@.contains(t) {
        assert(g.anchored(stage, attach, t as int));
    }
}

/// Every terminal that touches something at the stage is in exactly one region.
pub proof fn every_anchored_terminal_is_in_one_region(
    g: NetGraph,
    stage: i64,
    attach: Seq<Vec<usize>>,
    found: Seq<(Vec<usize>, Collected)>,
    t: usize,
)
    requires
        g.are_regions(stage, attach, found),
        g.anchored(stage, attach, t as int),
    ensures
        exists|r: int| 0 <= r < found.len() && #[trigger] found[r].0@.contains(t),
        forall|r: int, s: int|
            0 <= r < found.len() && 0 <= s < found.len() && #[trigger] found[r].0@.contains(t)
                && #[trigger] found[s].0@.contains(t) ==> r == s,
{
    let i = choose|i: int| g.anchors(stage, attach, t as int, i);
    assert(g.anchors(stage, attach, t as int, i));
    assert forall|r: int, s: int|
        0 <= r < found.len() && 0 <= s < found.len() && #[trigger] found[r].0@.contains(t)
            && #[trigger] found[s].0@.contains(t) implies r == s by {
        assert(g.joined(stage, attach, i, i));
        assert(g.anchors(stage, attach, t as int, i));
    }
}

/// All that one terminal touches is one conductor: a terminal shorts what it touches.
pub proof fn a_terminal_shorts_what_it_touches(
    g: NetGraph,
    stage: i64,
    attach: Seq<Vec<usize>>,
    t: int,
    i: int,
    j: int,
)
    requires
        g.anchors(stage, attach, t, i),
        g.anchors(stage, attach, t, j),
    ensures
        g.joined(stage, attach, i, j),
{
    g.lemma_same_terminal(stage, attach, t, i, j);
}

/// Later stages only join: what is one at a stage is one at every later stage.
pub proof fn what_is_joined_stays_joined(
    g: NetGraph,
    early: i64,
    late: i64,
    attach: Seq<Vec<usize>>,
    i: int,
    j: int,
)
    requires
        early <= late,
        g.joined(early, attach, i, j),
    ensures
        g.joined(late, attach, i, j),
{
    let less = g.joins(early, attach);
    let more = g.joins(late, attach);
    assert forall|p: int, q: int| #[trigger] less(p, q) implies more(p, q) by {}
    reach::lemma_reaches_mono(less, more, i, j);
}

/// Terminals that share a region at a stage share one at every later stage.
pub proof fn terminals_together_stay_together(
    g: NetGraph,
    early: i64,
    late: i64,
    attach: Seq<Vec<usize>>,
    before: Seq<(Vec<usize>, Collected)>,
    after: Seq<(Vec<usize>, Collected)>,
    r: int,
    t: usize,
    u: usize,
)
    requires
        early <= late,
        g.are_regions(early, attach, before),
        g.are_regions(late, attach, after),
        0 <= r < before.len(),
        before[r].0@.contains(t),
        before[r].0@.contains(u),
    ensures
        exists|s: int|
            0 <= s < after.len() && #[trigger] after[s].0@.contains(t) && after[s].0@.contains(u),
{
    assert(g.anchored(early, attach, t as int));
    assert(g.anchored(early, attach, u as int));
    let i = choose|i: int| g.anchors(early, attach, t as int, i);
    let j = choose|j: int| g.anchors(early, attach, u as int, j);
    assert(g.anchors(early, attach, t as int, i));
    assert(g.anchors(early, attach, u as int, j));
    assert(g.joined(early, attach, i, j));
    what_is_joined_stays_joined(g, early, late, attach, i, j);
    assert(g.anchors(late, attach, t as int, i));
    assert(g.anchors(late, attach, u as int, j));
    assert(g.anchored(late, attach, t as int));
    assert(g.anchored(late, attach, u as int));
    let s = choose|s: int| 0 <= s < after.len() && #[trigger] after[s].0@.contains(t);
    let v = choose|v: int| 0 <= v < after.len() && #[trigger] after[v].0@.contains(u);
    assert(s == v);
}

/// Cut layers carry connection, not metal: a conductor that is not on a routing layer is never
/// collected, and neither is one that does not exist yet.
pub proof fn only_routing_metal_that_exists_is_collected(
    g: NetGraph,
    stage: i64,
    attach: Seq<Vec<usize>>,
    anchor: int,
    i: int,
)
    requires
        0 <= i < g.conductors@.len(),
        !g.conductors@[i].is_routing || g.conductors@[i].layer > stage,
    ensures
        !(g.collects(stage, attach, anchor))(i),
        !(g.collects_on(stage, attach, anchor))(i),
{
}

/// What a layer collects is part of what is collected up to it.
pub proof fn a_layer_is_part_of_the_stack(
    g: NetGraph,
    stage: i64,
    attach: Seq<Vec<usize>>,
    anchor: int,
    m: Collected,
)
    requires
        g.wf(),
        g.is_metal(stage, attach, anchor, m),
    ensures
        0 <= m.layer_area <= m.cumulative_area,
        0 <= m.layer_perimeter <= m.cumulative_perimeter,
{
    let on = g.collects_on(stage, attach, anchor);
    let all = g.collects(stage, attach, anchor);
    let cs = g.conductors@;
    let n = cs.len() as int;
    lemma_measures_positive(cs);
    assert forall|i: int| 0 <= i < n && #[trigger] on(i) implies all(i) by {}
    regions::lemma_gathered_less(cs, n, on, all, regions::area_of());
    regions::lemma_gathered_less(cs, n, on, all, regions::perimeter_of());
}

/// The cumulative metal of what a conductor is part of never shrinks from stage to stage.
pub proof fn the_stack_only_grows(
    g: NetGraph,
    early: i64,
    late: i64,
    attach: Seq<Vec<usize>>,
    anchor: int,
    before: Collected,
    after: Collected,
)
    requires
        g.wf(),
        early <= late,
        g.is_metal(early, attach, anchor, before),
        g.is_metal(late, attach, anchor, after),
    ensures
        before.cumulative_area <= after.cumulative_area,
        before.cumulative_perimeter <= after.cumulative_perimeter,
{
    let less = g.collects(early, attach, anchor);
    let more = g.collects(late, attach, anchor);
    let cs = g.conductors@;
    let n = cs.len() as int;
    lemma_measures_positive(cs);
    assert forall|i: int| 0 <= i < n && #[trigger] less(i) implies more(i) by {
        what_is_joined_stays_joined(g, early, late, attach, anchor, i);
    }
    regions::lemma_gathered_less(cs, n, less, more, regions::area_of());
    regions::lemma_gathered_less(cs, n, less, more, regions::perimeter_of());
}

/// The perimeter on the layer of the stage itself is the top of the region's stack.
pub proof fn the_top_of_the_stack_is_the_layer(
    g: NetGraph,
    attach: Seq<Vec<usize>>,
    found: Seq<(Vec<usize>, Collected)>,
    stacks: Seq<Vec<i64>>,
    s: int,
    r: int,
)
    requires
        0 <= s < g.layers@.len(),
        g.are_regions(g.layers@[s], attach, found),
        g.are_stacks(g.layers@[s], attach, found, stacks),
        0 <= r < found.len(),
    ensures
        stacks[r]@[s] == found[r].1.layer_perimeter,
{
    let stage = g.layers@[s];
    let (t, i) = lemma_anchor_of(g, stage, attach, found, r);
    assert(stacks[r]@[s] == g.total(
        g.collects_layer(stage, attach, i, stage),
        regions::perimeter_of(),
    ));
    let on = g.collects_on(stage, attach, i);
    let own = g.collects_layer(stage, attach, i, stage);
    let cs = g.conductors@;
    assert forall|k: int| 0 <= k < cs.len() implies #[trigger] on(k) == own(k) by {}
    regions::lemma_gathered_same(cs, cs.len() as int, on, own, regions::perimeter_of());
}

/// Every region has a terminal with something under it.
proof fn lemma_anchor_of(
    g: NetGraph,
    stage: i64,
    attach: Seq<Vec<usize>>,
    found: Seq<(Vec<usize>, Collected)>,
    r: int,
) -> (at: (usize, int))
    requires
        g.are_regions(stage, attach, found),
        0 <= r < found.len(),
    ensures
        found[r].0@.contains(at.0),
        g.anchors(stage, attach, at.0 as int, at.1),
        g.is_metal(stage, attach, at.1, found[r].1),
{
    assert(found[r].0@.len() > 0);
    let t = found[r].0@[0];
    assert(found[r].0@.contains(t));
    assert(g.anchored(stage, attach, t as int));
    let i = choose|i: int| g.anchors(stage, attach, t as int, i);
    assert(g.anchors(stage, attach, t as int, i));
    (t, i)
}

/// The first `n` entries of a stack, added up.
pub open spec fn stack_total(stack: Seq<i64>, n: int) -> int
    decreases n,
{
    if n <= 0 {
        0
    } else {
        stack_total(stack, n - 1) + stack[n - 1]
    }
}

/// What is collected on the first `n` stage layers.
spec fn on_first(g: NetGraph, stage: i64, attach: Seq<Vec<usize>>, anchor: int, n: int) -> spec_fn(
    int,
) -> bool {
    |i: int|
        g.collects(stage, attach, anchor)(i) && exists|s: int|
            0 <= s < n && g.conductors@[i].layer == #[trigger] g.layers@[s]
}

proof fn lemma_stack_total(
    g: NetGraph,
    stage: i64,
    attach: Seq<Vec<usize>>,
    anchor: int,
    stack: Seq<i64>,
    n: int,
)
    requires
        g.wf(),
        0 <= n <= g.layers@.len(),
        forall|s: int|
            0 <= s < n ==> #[trigger] stack[s] == g.total(
                g.collects_layer(stage, attach, anchor, g.layers@[s]),
                regions::perimeter_of(),
            ),
    ensures
        stack_total(stack, n) == g.total(
            on_first(g, stage, attach, anchor, n),
            regions::perimeter_of(),
        ),
    decreases n,
{
    let cs = g.conductors@;
    let all = cs.len() as int;
    let now = on_first(g, stage, attach, anchor, n);
    if n > 0 {
        lemma_stack_total(g, stage, attach, anchor, stack, n - 1);
        let before = on_first(g, stage, attach, anchor, n - 1);
        let own = g.collects_layer(stage, attach, anchor, g.layers@[n - 1]);
        assert(stack[n - 1] == g.total(own, regions::perimeter_of()));
        assert forall|i: int| 0 <= i < all implies #[trigger] splits(
            before,
            own,
            now,
            i,
        ) by {
            if own(i) {
                assert(cs[i].layer == g.layers@[n - 1]);
                if before(i) {
                    let s = choose|s: int|
                        0 <= s < n - 1 && cs[i].layer == #[trigger] g.layers@[s];
                    assert(g.layers@[s] < g.layers@[n - 1]);
                }
            }
            if before(i) {
                let s = choose|s: int| 0 <= s < n - 1 && cs[i].layer == #[trigger] g.layers@[s];
                assert(cs[i].layer == g.layers@[s]);
            }
            if now(i) && !own(i) {
                let s = choose|s: int| 0 <= s < n && cs[i].layer == #[trigger] g.layers@[s];
                assert(s < n - 1);
            }
        }
        lemma_gathered_joined(cs, all, before, own, now, regions::perimeter_of());
    } else {
        lemma_gathered_none(cs, all, now, regions::perimeter_of());
    }
}

/// The layers of a region's stack make up its cumulative perimeter.
pub proof fn the_layers_make_up_the_stack(
    g: NetGraph,
    attach: Seq<Vec<usize>>,
    found: Seq<(Vec<usize>, Collected)>,
    stacks: Seq<Vec<i64>>,
    s: int,
    r: int,
)
    requires
        g.wf(),
        0 <= s < g.layers@.len(),
        g.are_regions(g.layers@[s], attach, found),
        g.are_stacks(g.layers@[s], attach, found, stacks),
        0 <= r < found.len(),
    ensures
        stack_total(stacks[r]@, s + 1) == found[r].1.cumulative_perimeter,
{
    let stage = g.layers@[s];
    let (t, a) = lemma_anchor_of(g, stage, attach, found, r);
    let cs = g.conductors@;
    assert forall|k: int| 0 <= k < s + 1 implies #[trigger] stacks[r]@[k] == g.total(
        g.collects_layer(stage, attach, a, g.layers@[k]),
        regions::perimeter_of(),
    ) by {}
    lemma_stack_total(g, stage, attach, a, stacks[r]@, s + 1);
    let first = on_first(g, stage, attach, a, s + 1);
    let all = g.collects(stage, attach, a);
    assert forall|i: int| 0 <= i < cs.len() implies #[trigger] first(i) == all(i) by {
        if all(i) {
            let l = cs[i].layer;
            assert(g.layers@.contains(l));
            let k = choose|k: int| 0 <= k < g.layers@.len() && g.layers@[k] == l;
            if k > s {
                assert(g.layers@[s] < g.layers@[k]);
            }
            assert(cs[i].layer == g.layers@[k]);
        }
    }
    regions::lemma_gathered_same(cs, cs.len() as int, first, all, regions::perimeter_of());
}

/// `i` is one of `both` exactly when it is one of `a` or one of `b`, and it is not one of each.
spec fn splits(
    a: spec_fn(int) -> bool,
    b: spec_fn(int) -> bool,
    both: spec_fn(int) -> bool,
    i: int,
) -> bool {
    !(a(i) && b(i)) && both(i) == (a(i) || b(i))
}

/// Members of two kinds that exclude each other add up.
proof fn lemma_gathered_joined(
    cs: Seq<Conductor>,
    n: int,
    a: spec_fn(int) -> bool,
    b: spec_fn(int) -> bool,
    both: spec_fn(int) -> bool,
    measure: spec_fn(Conductor) -> int,
)
    requires
        n <= cs.len(),
        forall|i: int| 0 <= i < n ==> #[trigger] splits(a, b, both, i),
    ensures
        regions::gathered(cs, n, both, measure) == regions::gathered(cs, n, a, measure)
            + regions::gathered(cs, n, b, measure),
    decreases n,
{
    if n > 0 {
        lemma_gathered_joined(cs, n - 1, a, b, both, measure);
        assert(splits(a, b, both, n - 1));
    }
}

proof fn lemma_gathered_none(
    cs: Seq<Conductor>,
    n: int,
    a: spec_fn(int) -> bool,
    measure: spec_fn(Conductor) -> int,
)
    requires
        forall|i: int| 0 <= i < n ==> !#[trigger] a(i),
    ensures
        regions::gathered(cs, n, a, measure) == 0,
    decreases n,
{
    if n > 0 {
        lemma_gathered_none(cs, n - 1, a, measure);
        assert(!a(n - 1));
    }
}

/// The cumulative areas of the first `n` regions, added up.
pub open spec fn areas_of(found: Seq<(Vec<usize>, Collected)>, n: int) -> int
    decreases n,
{
    if n <= 0 {
        0
    } else {
        areas_of(found, n - 1) + found[n - 1].1.cumulative_area
    }
}

/// The cumulative perimeters of the first `n` regions, added up.
pub open spec fn perimeters_of(found: Seq<(Vec<usize>, Collected)>, n: int) -> int
    decreases n,
{
    if n <= 0 {
        0
    } else {
        perimeters_of(found, n - 1) + found[n - 1].1.cumulative_perimeter
    }
}

/// The routing conductors that exist at the stage.
pub open spec fn routed_by(g: NetGraph, stage: i64) -> spec_fn(int) -> bool {
    |i: int| g.live(stage, i) && g.conductors@[i].is_routing
}

/// What the first `n` regions collect.
spec fn held_by(
    g: NetGraph,
    stage: i64,
    attach: Seq<Vec<usize>>,
    found: Seq<(Vec<usize>, Collected)>,
    n: int,
) -> spec_fn(int) -> bool {
    |i: int|
        exists|r: int, t: usize, a: int|
            0 <= r < n && #[trigger] found[r].0@.contains(t) && #[trigger] g.anchors(
                stage,
                attach,
                t as int,
                a,
            ) && g.collects(stage, attach, a)(i)
}

/// What two regions both collected would make them one.
proof fn lemma_collected_once(
    g: NetGraph,
    stage: i64,
    attach: Seq<Vec<usize>>,
    found: Seq<(Vec<usize>, Collected)>,
    r: int,
    s: int,
    t: usize,
    u: usize,
    a: int,
    b: int,
    i: int,
)
    requires
        g.are_regions(stage, attach, found),
        0 <= r < found.len(),
        0 <= s < found.len(),
        found[r].0@.contains(t),
        found[s].0@.contains(u),
        g.anchors(stage, attach, t as int, a),
        g.anchors(stage, attach, u as int, b),
        g.collects(stage, attach, a)(i),
        g.collects(stage, attach, b)(i),
    ensures
        r == s,
{
    let step = g.joins(stage, attach);
    g.lemma_joins_two_way(stage, attach);
    reach::lemma_reaches_sym(step, b, i);
    reach::lemma_reaches_trans(step, a, i, b);
    assert(g.joined(stage, attach, a, b));
}

proof fn lemma_held(
    g: NetGraph,
    stage: i64,
    attach: Seq<Vec<usize>>,
    found: Seq<(Vec<usize>, Collected)>,
    n: int,
)
    requires
        g.are_regions(stage, attach, found),
        0 <= n <= found.len(),
    ensures
        areas_of(found, n) == g.total(
            held_by(g, stage, attach, found, n),
            regions::area_of(),
        ),
        perimeters_of(found, n) == g.total(
            held_by(g, stage, attach, found, n),
            regions::perimeter_of(),
        ),
    decreases n,
{
    let cs = g.conductors@;
    let all = cs.len() as int;
    let now = held_by(g, stage, attach, found, n);
    if n > 0 {
        lemma_held(g, stage, attach, found, n - 1);
        let (t, a) = lemma_anchor_of(g, stage, attach, found, n - 1);
        let before = held_by(g, stage, attach, found, n - 1);
        let own = g.collects(stage, attach, a);
        assert forall|i: int| 0 <= i < all implies #[trigger] splits(
            before,
            own,
            now,
            i,
        ) by {
            if before(i) {
                let (r, u, b) = choose|r: int, u: usize, b: int|
                    0 <= r < n - 1 && #[trigger] found[r].0@.contains(u) && #[trigger] g.anchors(
                        stage,
                        attach,
                        u as int,
                        b,
                    ) && g.collects(stage, attach, b)(i);
                if own(i) {
                    lemma_collected_once(g, stage, attach, found, r, n - 1, u, t, b, a, i);
                }
                assert(found[r].0@.contains(u) && g.anchors(stage, attach, u as int, b));
            }
            if own(i) {
                assert(found[n - 1].0@.contains(t) && g.anchors(stage, attach, t as int, a));
            }
            if now(i) && !before(i) {
                let (r, u, b) = choose|r: int, u: usize, b: int|
                    0 <= r < n && #[trigger] found[r].0@.contains(u) && #[trigger] g.anchors(
                        stage,
                        attach,
                        u as int,
                        b,
                    ) && g.collects(stage, attach, b)(i);
                assert(r == n - 1);
                assert(g.joined(stage, attach, a, b));
                reach::lemma_reaches_trans(g.joins(stage, attach), a, b, i);
            }
        }
        lemma_gathered_joined(cs, all, before, own, now, regions::area_of());
        lemma_gathered_joined(cs, all, before, own, now, regions::perimeter_of());
    } else {
        lemma_gathered_none(cs, all, now, regions::area_of());
        lemma_gathered_none(cs, all, now, regions::perimeter_of());
    }
}

/// No metal is collected twice: what all regions of a stage collect together is at most the
/// routing metal up to that stage.
pub proof fn regions_share_out_the_metal(
    g: NetGraph,
    stage: i64,
    attach: Seq<Vec<usize>>,
    found: Seq<(Vec<usize>, Collected)>,
)
    requires
        g.wf(),
        g.are_regions(stage, attach, found),
    ensures
        areas_of(found, found.len() as int) <= g.total(routed_by(g, stage), regions::area_of()),
        perimeters_of(found, found.len() as int) <= g.total(
            routed_by(g, stage),
            regions::perimeter_of(),
        ),
{
    let cs = g.conductors@;
    let n = cs.len() as int;
    let held = held_by(g, stage, attach, found, found.len() as int);
    let all = routed_by(g, stage);
    lemma_held(g, stage, attach, found, found.len() as int);
    lemma_measures_positive(cs);
    assert forall|i: int| 0 <= i < n && #[trigger] held(i) implies all(i) by {}
    regions::lemma_gathered_less(cs, n, held, all, regions::area_of());
    regions::lemma_gathered_less(cs, n, held, all, regions::perimeter_of());
}

/// The first box on a layer.
proof fn lemma_first_box(boxes: Seq<LayerBox>, layer: i64, k: int) -> (j: int)
    requires
        0 <= k < boxes.len(),
        boxes[k].layer == layer,
    ensures
        0 <= j <= k,
        boxes[j].layer == layer,
        forall|h: int| 0 <= h < j ==> (#[trigger] boxes[h]).layer != layer,
    decreases k,
{
    if exists|h: int| 0 <= h < k && (#[trigger] boxes[h]).layer == layer {
        let h = choose|h: int| 0 <= h < k && (#[trigger] boxes[h]).layer == layer;
        lemma_first_box(boxes, layer, h)
    } else {
        k
    }
}

/// Some box of a routing layer keeps a square that no pin of the layer covers.
pub open spec fn keeps_routing(boxes: Seq<LayerBox>, cuts: Seq<LayerBox>, layer: i64) -> bool {
    exists|k: int, p: (int, int)|
        0 <= k < boxes.len() && boxes[k].layer == layer && boxes[k].is_routing
            && #[trigger] squares::in_rect(boxes[k].rect(), p) && !conductor::boxed(
            cuts,
            layer,
            p,
        )
}

/// Boxes of one layer agree on whether it is a routing layer.
pub open spec fn layers_agree(boxes: Seq<LayerBox>) -> bool {
    forall|j: int, k: int|
        #![trigger boxes[j], boxes[k]]
        0 <= j < boxes.len() && 0 <= k < boxes.len() && boxes[j].layer == boxes[k].layer
            ==> boxes[j].is_routing == boxes[k].is_routing
}

/// A layer keeps routing exactly when it is a routing layer with metal left.
proof fn lemma_keeps_routing(boxes: Seq<LayerBox>, cuts: Seq<LayerBox>, layer: i64)
    requires
        layers_agree(boxes),
    ensures
        keeps_routing(boxes, cuts, layer) <==> conductor::layer_is_routing(boxes, layer) && exists|
            p: (int, int),
        | #[trigger] conductor::layer_metal(boxes, cuts, layer).contains(p),
{
    let m = conductor::layer_metal(boxes, cuts, layer);
    if keeps_routing(boxes, cuts, layer) {
        let (k, p) = choose|k: int, p: (int, int)|
            0 <= k < boxes.len() && boxes[k].layer == layer && boxes[k].is_routing
                && #[trigger] squares::in_rect(boxes[k].rect(), p) && !conductor::boxed(
                cuts,
                layer,
                p,
            );
        assert(boxes[k].layer == layer);
        assert(conductor::boxed(boxes, layer, p));
        assert(m.contains(p));
        let j = lemma_first_box(boxes, layer, k);
        assert(boxes[j].is_routing == boxes[k].is_routing);
        assert(boxes[j].layer == layer);
    }
    if conductor::layer_is_routing(boxes, layer) && exists|p: (int, int)| #[trigger] m.contains(p) {
        let p = choose|p: (int, int)| #[trigger] m.contains(p);
        let k = choose|k: int|
            0 <= k < boxes.len() && (#[trigger] boxes[k]).layer == layer && squares::in_rect(
                boxes[k].rect(),
                p,
            );
        let j = choose|j: int|
            0 <= j < boxes.len() && (#[trigger] boxes[j]).layer == layer && boxes[j].is_routing && (
            forall|h: int| 0 <= h < j ==> (#[trigger] boxes[h]).layer != layer);
        assert(boxes[j].is_routing == boxes[k].is_routing);
        assert(squares::in_rect(boxes[k].rect(), p));
    }
}

/// A stage is a routing layer with metal left.
#[verifier::spinoff_prover]
proof fn lemma_stage_metal(
    g: NetGraph,
    boxes: Seq<LayerBox>,
    cuts: Seq<LayerBox>,
    layer: i64,
)
    requires
        g.wf(),
        graph::shows_net(g.conductors@, boxes, cuts),
    ensures
        g.layers@.contains(layer) <==> conductor::layer_is_routing(boxes, layer) && exists|
            p: (int, int),
        | #[trigger] conductor::layer_metal(boxes, cuts, layer).contains(p),
{
    let cs = g.conductors@;
    let m = conductor::layer_metal(boxes, cuts, layer);
    if g.layers@.contains(layer) {
        let i = choose|i: int|
            0 <= i < cs.len() && (#[trigger] cs[i]).layer == layer && cs[i].is_routing;
        assert(squares::is_component(cs[i].squares(), m));
        let p = choose|p: (int, int)| cs[i].squares().contains(p);
        assert(m.contains(p));
    }
    if conductor::layer_is_routing(boxes, layer) && exists|p: (int, int)| #[trigger] m.contains(p) {
        let p = choose|p: (int, int)| #[trigger] m.contains(p);
        let i = choose|i: int|
            0 <= i < cs.len() && (#[trigger] cs[i]).layer == layer && cs[i].squares().contains(p);
        assert(cs[i].is_routing);
        assert(g.layers@.contains(layer));
    }
}

/// The stages are the routed layers: ascending, and exactly those on which a box of a routing
/// layer keeps a square that no pin of the layer covers. A cut layer is never among them, nor a
/// routing layer that the pins use up.
pub proof fn the_stages_are_the_routed_layers(
    g: NetGraph,
    boxes: Seq<LayerBox>,
    cuts: Seq<LayerBox>,
    layer: i64,
)
    requires
        g.wf(),
        graph::shows_net(g.conductors@, boxes, cuts),
        layers_agree(boxes),
    ensures
        conductor::rising_layers(g.layers@),
        g.layers@.contains(layer) <==> keeps_routing(boxes, cuts, layer),
{
    lemma_stage_metal(g, boxes, cuts, layer);
    lemma_keeps_routing(boxes, cuts, layer);
}

proof fn lemma_measures_positive(cs: Seq<Conductor>)
    requires
        graph::all_measured(cs),
    ensures
        forall|i: int| 0 <= i < cs.len() ==> (regions::area_of())(#[trigger] cs[i]) >= 0,
        forall|i: int| 0 <= i < cs.len() ==> (regions::perimeter_of())(#[trigger] cs[i]) >= 0,
{
    assert forall|i: int| 0 <= i < cs.len() implies (regions::area_of())(#[trigger] cs[i]) >= 0
        && (regions::perimeter_of())(cs[i]) >= 0 by {
        assert(cs[i].wf());
    }
}

} // verus!
