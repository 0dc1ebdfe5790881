//! Who shares metal at a stage, and how much, by walks over the conductors.

use crate::conductor::Conductor;
use crate::graph;
use crate::graph::NetGraph;
use crate::laws::drawing;
use crate::regions;
use crate::regions::Collected;
use vstd::prelude::*;

verus! {

/// All of `v`, added up.
pub open spec fn sum(v: Seq<int>) -> int
    decreases v.len(),
{
    if v.len() == 0 {
        0
    } else {
        sum(v.drop_last()) + v.last()
    }
}

/// One step at a stage: both conductors lie no higher than the stage, and they are linked, or one
/// terminal is attached to both.
pub open spec fn step_at(g: NetGraph, stage: i64, attach: Seq<Vec<usize>>) -> spec_fn(
    int,
    int,
) -> bool {
    |a: int, b: int|
        {
            &&& 0 <= a < g.conductors@.len() && g.conductors@[a].layer <= stage
            &&& 0 <= b < g.conductors@.len() && g.conductors@[b].layer <= stage
            &&& {
                ||| g.links@.contains((a as usize, b as usize))
                ||| g.links@.contains((b as usize, a as usize))
                ||| exists|t: int|
                    0 <= t < attach.len() && (#[trigger] attach[t])@.contains(a as usize)
                        && attach[t]@.contains(b as usize)
            }
        }
}

/// Whether conductor `b` is one with conductor `a` at the stage: a walk leads from one to the
/// other.
pub open spec fn one_with(
    g: NetGraph,
    stage: i64,
    attach: Seq<Vec<usize>>,
    a: int,
    b: int,
) -> bool {
    exists|path: Seq<int>| drawing::is_walk(step_at(g, stage, attach), path, a, b)
}

/// Conductors are one at a stage exactly when a walk over links and terminals, no higher than the
/// stage, leads from one to the other.
pub proof fn conductors_are_one_by_walking(
    g: NetGraph,
    stage: i64,
    attach: Seq<Vec<usize>>,
    a: int,
    b: int,
)
    requires
        g.wf(),
    ensures
        g.joined(stage, attach, a, b) <==> one_with(g, stage, attach, a, b),
{
    let x = g.joins(stage, attach);
    let y = step_at(g, stage, attach);
    assert(g.conductors.len() == g.conductors@.len());
    assert forall|i: int, j: int| #[trigger] x(i, j) == y(i, j) by {
        if 0 <= i < g.conductors@.len() && 0 <= j < g.conductors@.len() {
            assert(g.links@.contains((i as usize, j as usize)) <==> graph::in_contact(
                g.conductors@,
                i,
                j,
            ));
            assert(g.links@.contains((j as usize, i as usize)) <==> graph::in_contact(
                g.conductors@,
                j,
                i,
            ));
            assert(regions::shorted(attach, i, j) <==> exists|t: int|
                0 <= t < attach.len() && (#[trigger] attach[t])@.contains(i as usize)
                    && attach[t]@.contains(j as usize));
        }
    }
    assert(x =~= y);
    drawing::to_reach_is_to_walk(x, a, b);
}

/// Whether terminal `t` is attached to conductor `i`, no higher than the stage.
pub open spec fn stands_on(
    g: NetGraph,
    stage: i64,
    attach: Seq<Vec<usize>>,
    t: int,
    i: int,
) -> bool {
    &&& 0 <= t < attach.len()
    &&& 0 <= i < g.conductors@.len()
    &&& g.conductors@[i].layer <= stage
    &&& attach[t]@.contains(i as usize)
}

/// Whether a walk leads from what one terminal stands on to what the other stands on.
pub open spec fn share(
    g: NetGraph,
    stage: i64,
    attach: Seq<Vec<usize>>,
    t: int,
    u: int,
) -> bool {
    exists|i: int, j: int| #[trigger]
        stands_on(g, stage, attach, t, i) && #[trigger] stands_on(g, stage, attach, u, j)
            && one_with(g, stage, attach, i, j)
}

/// Whether one of the regions has both terminals.
pub open spec fn grouped(found: Seq<(Vec<usize>, Collected)>, t: usize, u: usize) -> bool {
    exists|r: int|
        0 <= r < found.len() && (#[trigger] found[r]).0@.contains(t) && found[r].0@.contains(u)
}

/// Two terminals are in one region exactly when a walk leads from what one stands on to what the
/// other stands on. A terminal is in one region only; a region lists its terminals in rising
/// order, each once; and the regions come in the order of their first terminals.
pub proof fn terminals_are_grouped_by_walking(
    g: NetGraph,
    stage: i64,
    attach: Seq<Vec<usize>>,
    found: Seq<(Vec<usize>, Collected)>,
    t: usize,
    u: usize,
)
    requires
        g.wf(),
        g.are_regions(stage, attach, found),
    ensures
        grouped(found, t, u) <==> share(g, stage, attach, t as int, u as int),
        forall|r: int, s: int|
            0 <= r < found.len() && 0 <= s < found.len() && #[trigger] found[r].0@.contains(t)
                && #[trigger] found[s].0@.contains(t) ==> r == s,
        forall|r: int|
            0 <= r < found.len() ==> (#[trigger] found[r]).0@.len() > 0,
        forall|r: int, a: int, b: int|
            #![trigger found[r].0@[a], found[r].0@[b]]
            0 <= r < found.len() && 0 <= a < b < found[r].0@.len() ==> found[r].0@[a]
                < found[r].0@[b],
        forall|r: int, s: int|
            #![trigger found[r], found[s]]
            0 <= r < s < found.len() ==> found[r].0@[0] < found[s].0@[0],
{
    assert forall|x: usize, i: int| stands_on(g, stage, attach, x as int, i) == #[trigger] g.anchors(
        stage,
        attach,
        x as int,
        i,
    ) by {}
    if grouped(found, t, u) {
        let r = choose|r: int|
            0 <= r < found.len() && (#[trigger] found[r]).0@.contains(t) && found[r].0@.contains(u);
        assert(g.anchored(stage, attach, t as int));
        assert(g.anchored(stage, attach, u as int));
        let i = choose|i: int| g.anchors(stage, attach, t as int, i);
        let j = choose|j: int| g.anchors(stage, attach, u as int, j);
        assert(g.anchors(stage, attach, t as int, i) && g.anchors(stage, attach, u as int, j));
        assert(g.joined(stage, attach, i, j));
        conductors_are_one_by_walking(g, stage, attach, i, j);
        assert(stands_on(g, stage, attach, t as int, i) && stands_on(
            g,
            stage,
            attach,
            u as int,
            j,
        ));
    }
    if share(g, stage, attach, t as int, u as int) {
        let (i, j) = choose|i: int, j: int| #[trigger]
            stands_on(g, stage, attach, t as int, i) && #[trigger] stands_on(
                g,
                stage,
                attach,
                u as int,
                j,
            ) && one_with(g, stage, attach, i, j);
        conductors_are_one_by_walking(g, stage, attach, i, j);
        assert(g.anchors(stage, attach, t as int, i) && g.anchors(stage, attach, u as int, j));
        assert(g.anchored(stage, attach, t as int) && g.anchored(stage, attach, u as int));
        let r = choose|r: int| 0 <= r < found.len() && #[trigger] found[r].0@.contains(t);
        let s = choose|s: int| 0 <= s < found.len() && #[trigger] found[s].0@.contains(u);
        assert(r == s);
        assert(found[r].0@.contains(t));
    }
    assert forall|r: int, s: int|
        0 <= r < found.len() && 0 <= s < found.len() && #[trigger] found[r].0@.contains(t)
            && #[trigger] found[s].0@.contains(t) implies r == s by {
        assert(g.anchored(stage, attach, t as int));
        let i = choose|i: int| g.anchors(stage, attach, t as int, i);
        assert(g.anchors(stage, attach, t as int, i));
        assert(g.joined(stage, attach, i, i));
    }
    assert forall|r: int, a: int, b: int|
        #![trigger found[r].0@[a], found[r].0@[b]]
        0 <= r < found.len() && 0 <= a < b < found[r].0@.len() implies found[r].0@[a]
        < found[r].0@[b] by {
        assert(regions::rising_terms(found[r].0@));
    }
}

/// What each conductor gives of a measure, where it is routing metal that is one with conductor
/// `a` at the stage, and on a layer that `on` admits; nothing otherwise.
pub open spec fn shares_of(
    g: NetGraph,
    stage: i64,
    attach: Seq<Vec<usize>>,
    a: int,
    on: spec_fn(i64) -> bool,
    measure: spec_fn(Conductor) -> int,
) -> Seq<int> {
    Seq::new(
        g.conductors@.len(),
        |k: int|
            if g.conductors@[k].is_routing && g.conductors@[k].layer <= stage && on(
                g.conductors@[k].layer,
            ) && one_with(g, stage, attach, a, k) {
                measure(g.conductors@[k])
            } else {
                0
            },
    )
}

proof fn lemma_gathered_sum(
    cs: Seq<Conductor>,
    n: int,
    member: spec_fn(int) -> bool,
    measure: spec_fn(Conductor) -> int,
    v: Seq<int>,
)
    requires
        0 <= n <= cs.len(),
        v.len() == cs.len(),
        forall|k: int|
            0 <= k < cs.len() ==> #[trigger] v[k] == (if member(k) {
                measure(cs[k])
            } else {
                0
            }),
    ensures
        regions::gathered(cs, n, member, measure) == sum(v.take(n)),
    decreases n,
{
    if n > 0 {
        lemma_gathered_sum(cs, n - 1, member, measure, v);
        assert(v.take(n).drop_last() =~= v.take(n - 1));
        assert(v.take(n).last() == v[n - 1]);
    }
}

/// Sums over members are plain sums.
proof fn lemma_total(
    g: NetGraph,
    stage: i64,
    attach: Seq<Vec<usize>>,
    a: int,
    on: spec_fn(i64) -> bool,
    member: spec_fn(int) -> bool,
    measure: spec_fn(Conductor) -> int,
)
    requires
        g.wf(),
        forall|k: int|
            0 <= k < g.conductors@.len() ==> #[trigger] member(k) == (g.conductors@[k].is_routing
                && g.conductors@[k].layer <= stage && on(g.conductors@[k].layer) && g.joined(
                stage,
                attach,
                a,
                k,
            )),
    ensures
        g.total(member, measure) == sum(shares_of(g, stage, attach, a, on, measure)),
{
    let cs = g.conductors@;
    let v = shares_of(g, stage, attach, a, on, measure);
    assert forall|k: int| 0 <= k < cs.len() implies #[trigger] v[k] == (if member(k) {
        measure(cs[k])
    } else {
        0
    }) by {
        conductors_are_one_by_walking(g, stage, attach, a, k);
    }
    lemma_gathered_sum(cs, cs.len() as int, member, measure, v);
    assert(v.take(cs.len() as int) =~= v);
}

/// What a region collects is the area and the perimeter of all routing metal, no higher than the
/// stage, that is one with what its terminals stand on; and of that on the layer of the stage
/// alone.
pub proof fn a_region_collects_what_is_one_with_it(
    g: NetGraph,
    stage: i64,
    attach: Seq<Vec<usize>>,
    found: Seq<(Vec<usize>, Collected)>,
    r: int,
    t: usize,
    a: int,
)
    requires
        g.wf(),
        g.are_regions(stage, attach, found),
        0 <= r < found.len(),
        found[r].0@.contains(t),
        stands_on(g, stage, attach, t as int, a),
    ensures
        found[r].1.cumulative_area == sum(
            shares_of(g, stage, attach, a, |l: i64| true, |c: Conductor| c.area as int),
        ),
        found[r].1.cumulative_perimeter == sum(
            shares_of(g, stage, attach, a, |l: i64| true, |c: Conductor| c.perimeter as int),
        ),
        found[r].1.layer_area == sum(
            shares_of(g, stage, attach, a, |l: i64| l == stage, |c: Conductor| c.area as int),
        ),
        found[r].1.layer_perimeter == sum(
            shares_of(g, stage, attach, a, |l: i64| l == stage, |c: Conductor| c.perimeter as int),
        ),
{
    assert(g.anchors(stage, attach, t as int, a));
    assert(g.is_metal(stage, attach, a, found[r].1));
    let all = g.collects(stage, attach, a);
    let own = g.collects_on(stage, attach, a);
    let area = |c: Conductor| c.area as int;
    let rim = |c: Conductor| c.perimeter as int;
    assert(area =~= regions::area_of());
    assert(rim =~= regions::perimeter_of());
    lemma_total(g, stage, attach, a, |l: i64| true, all, area);
    lemma_total(g, stage, attach, a, |l: i64| true, all, rim);
    lemma_total(g, stage, attach, a, |l: i64| l == stage, own, area);
    lemma_total(g, stage, attach, a, |l: i64| l == stage, own, rim);
}

/// The perimeters of a region are kept layer by layer.
pub proof fn a_stack_is_kept_layer_by_layer(
    g: NetGraph,
    stage: i64,
    attach: Seq<Vec<usize>>,
    found: Seq<(Vec<usize>, Collected)>,
    stacks: Seq<Vec<i64>>,
    r: int,
    t: usize,
    a: int,
    s: int,
)
    requires
        g.wf(),
        g.are_stacks(stage, attach, found, stacks),
        0 <= r < found.len(),
        found[r].0@.contains(t),
        stands_on(g, stage, attach, t as int, a),
        0 <= s < g.layers@.len(),
    ensures
        stacks.len() == found.len(),
        stacks[r]@.len() == g.layers@.len(),
        stacks[r]@[s] == sum(
            shares_of(
                g,
                stage,
                attach,
                a,
                |l: i64| l == g.layers@[s],
                |c: Conductor| c.perimeter as int,
            ),
        ),
{
    assert(g.anchors(stage, attach, t as int, a));
    let own = g.collects_layer(stage, attach, a, g.layers@[s]);
    let rim = |c: Conductor| c.perimeter as int;
    assert(rim =~= regions::perimeter_of());
    assert(stacks[r]@[s] == g.total(own, regions::perimeter_of()));
    lemma_total(g, stage, attach, a, |l: i64| l == g.layers@[s], own, rim);
}

} // verus!
