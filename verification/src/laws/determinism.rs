//! The same database gives the same answer: nothing in a reading is left open.

use crate::check;
use crate::conductor;
use crate::conductor::Conductor;
use crate::conductor::LayerBox;
use crate::graph;
use crate::graph::NetGraph;
use crate::names;
use crate::net;
use crate::net::LayerInfo;
use crate::net::NetAntenna;
use crate::net::RegionExposure;
use crate::net::RoutedNet;
use crate::net::Terminal;
use crate::reach;
use crate::regions;
use crate::regions::Collected;
use crate::report;
use crate::report::Report;
use crate::rules::LayerRules;
use crate::rules::Ratio;
use crate::rules::RuleTable;
use crate::scalar;
use crate::scalar::Scalar;
use crate::squares;
use crate::squares::Rect;
use crate::touch;
use vstd::prelude::*;

verus! {

/// Two conductors that are the same metal, cell by cell.
pub open spec fn alike(a: Conductor, b: Conductor) -> bool {
    &&& a.layer == b.layer
    &&& a.is_routing == b.is_routing
    &&& a.cells@ == b.cells@
}

/// Two lists of the same metal, in the same order.
pub open spec fn all_alike(a: Seq<Conductor>, b: Seq<Conductor>) -> bool {
    a.len() == b.len() && forall|k: int|
        #![trigger a[k]]
        #![trigger b[k]]
        0 <= k < a.len() ==> alike(a[k], b[k])
}

/// Cells of one layer that share a square are one cell.
proof fn lemma_one_cell(
    c: Rect,
    d: Rect,
    boxes: Seq<LayerBox>,
    cuts: Seq<LayerBox>,
    layer: i64,
    p: (int, int),
)
    requires
        conductor::is_cell(c, boxes, cuts, layer),
        conductor::is_cell(d, boxes, cuts, layer),
        squares::in_rect(c, p),
        squares::in_rect(d, p),
    ensures
        c == d,
{
    assert(conductor::x_line(boxes, cuts, layer, c.0));
    assert(conductor::x_line(boxes, cuts, layer, c.2));
    assert(conductor::x_line(boxes, cuts, layer, d.0));
    assert(conductor::x_line(boxes, cuts, layer, d.2));
    assert(conductor::y_line(boxes, cuts, layer, c.1));
    assert(conductor::y_line(boxes, cuts, layer, c.3));
    assert(conductor::y_line(boxes, cuts, layer, d.1));
    assert(conductor::y_line(boxes, cuts, layer, d.3));
}

/// Every cell of one list is in another that covers it.
proof fn lemma_cell_partner(
    a: Seq<Rect>,
    b: Seq<Rect>,
    boxes: Seq<LayerBox>,
    cuts: Seq<LayerBox>,
    layer: i64,
    k: int,
) -> (j: int)
    requires
        conductor::in_cells(a, boxes, cuts, layer),
        conductor::in_cells(b, boxes, cuts, layer),
        squares::squares_of(a) == squares::squares_of(b),
        0 <= k < a.len(),
    ensures
        0 <= j < b.len(),
        a[k] == b[j],
{
    reveal(conductor::in_cells);
    let c = a[k];
    let p = (c.0 as int, c.1 as int);
    assert(conductor::is_cell(c, boxes, cuts, layer));
    assert(squares::in_rect(a[k], p));
    assert(squares::squares_of(a).contains(p));
    assert(squares::squares_of(b).contains(p));
    let j = choose|j: int| 0 <= j < b.len() && squares::in_rect(#[trigger] b[j], p);
    assert(conductor::is_cell(b[j], boxes, cuts, layer));
    lemma_one_cell(c, b[j], boxes, cuts, layer, p);
    j
}

proof fn lemma_cells_prefix(
    a: Seq<Rect>,
    b: Seq<Rect>,
    boxes: Seq<LayerBox>,
    cuts: Seq<LayerBox>,
    layer: i64,
    k: int,
)
    requires
        conductor::in_cells(a, boxes, cuts, layer),
        conductor::in_cells(b, boxes, cuts, layer),
        squares::squares_of(a) == squares::squares_of(b),
        0 <= k <= a.len(),
    ensures
        k <= b.len(),
        forall|i: int| 0 <= i < k ==> a[i] == b[i],
    decreases k,
{
    if k > 0 {
        lemma_cells_prefix(a, b, boxes, cuts, layer, k - 1);
        let m = k - 1;
        assert(conductor::by_columns(a) && conductor::by_columns(b)) by {
            reveal(conductor::in_cells);
        }
        let j = lemma_cell_partner(a, b, boxes, cuts, layer, m);
        if j < m {
            assert(a[j] == b[j]);
        }
        let i = lemma_cell_partner(b, a, boxes, cuts, layer, m);
        if i < m {
            assert(a[i] == b[i]);
        }
    }
}

/// The squares and the lines of the layer decide the cells and their order.
proof fn lemma_same_cells(
    a: Seq<Rect>,
    b: Seq<Rect>,
    boxes: Seq<LayerBox>,
    cuts: Seq<LayerBox>,
    layer: i64,
)
    requires
        conductor::in_cells(a, boxes, cuts, layer),
        conductor::in_cells(b, boxes, cuts, layer),
        squares::squares_of(a) == squares::squares_of(b),
    ensures
        a == b,
{
    lemma_cells_prefix(a, b, boxes, cuts, layer, a.len() as int);
    lemma_cells_prefix(b, a, boxes, cuts, layer, b.len() as int);
    assert(a =~= b);
}

/// Components that share a square are one.
proof fn lemma_one_component(
    c: Set<(int, int)>,
    d: Set<(int, int)>,
    m: Set<(int, int)>,
    p: (int, int),
)
    requires
        squares::is_component(c, m),
        squares::is_component(d, m),
        c.contains(p),
        d.contains(p),
    ensures
        c == d,
{
    lemma_component_within(c, d, m, p);
    lemma_component_within(d, c, m, p);
    assert(c =~= d);
}

proof fn lemma_component_within(
    c: Set<(int, int)>,
    d: Set<(int, int)>,
    m: Set<(int, int)>,
    p: (int, int),
)
    requires
        squares::is_component(c, m),
        squares::is_component(d, m),
        c.contains(p),
        d.contains(p),
    ensures
        c.subset_of(d),
{
    let step = squares::step_in(c);
    assert(reach::closed_under(d, step)) by {
        assert forall|x: (int, int), y: (int, int)| d.contains(x) && #[trigger] step(
            x,
            y,
        ) implies d.contains(y) by {
            assert(squares::adjacent(x, y));
            assert(m.contains(y));
        }
    }
    assert forall|q: (int, int)| c.contains(q) implies d.contains(q) by {
        assert(reach::reaches(step, p, q));
    }
}

/// The order of the list: lower layers first, and on one layer what begins first.
spec fn precedes(a: Conductor, b: Conductor) -> bool {
    a.layer < b.layer || a.layer == b.layer && conductor::begins_before(a.squares(), b.squares())
}

proof fn lemma_precedes_one_way(a: Conductor, b: Conductor)
    requires
        precedes(a, b),
    ensures
        !precedes(b, a),
{
    if precedes(b, a) {
        let s = a.squares();
        let t = b.squares();
        let p = choose|p: (int, int)| #[trigger]
            s.contains(p) && forall|q: (int, int)| #[trigger]
                t.contains(q) ==> p.0 < q.0 || p.0 == q.0 && p.1 < q.1;
        let q = choose|q: (int, int)| #[trigger]
            t.contains(q) && forall|o: (int, int)| #[trigger]
                s.contains(o) ==> q.0 < o.0 || q.0 == o.0 && q.1 < o.1;
        assert(t.contains(q));
        assert(s.contains(p));
    }
}

/// `graph::shows_net`, kept closed: the proofs below need one fact of it at a time.
#[verifier::opaque]
spec fn shown(cs: Seq<Conductor>, boxes: Seq<LayerBox>, cuts: Seq<LayerBox>) -> bool {
    graph::shows_net(cs, boxes, cuts)
}

proof fn lemma_shown_component(
    cs: Seq<Conductor>,
    boxes: Seq<LayerBox>,
    cuts: Seq<LayerBox>,
    i: int,
)
    requires
        shown(cs, boxes, cuts),
        0 <= i < cs.len(),
    ensures
        cs[i].is_routing == conductor::layer_is_routing(boxes, cs[i].layer),
        squares::is_component(
            cs[i].squares(),
            conductor::layer_metal(boxes, cuts, cs[i].layer),
        ),
        conductor::in_cells(cs[i].cells@, boxes, cuts, cs[i].layer),
{
    reveal(shown);
}

proof fn lemma_shown_metal(
    cs: Seq<Conductor>,
    boxes: Seq<LayerBox>,
    cuts: Seq<LayerBox>,
    layer: i64,
    p: (int, int),
) -> (i: int)
    requires
        shown(cs, boxes, cuts),
        conductor::layer_metal(boxes, cuts, layer).contains(p),
    ensures
        0 <= i < cs.len(),
        cs[i].layer == layer,
        cs[i].squares().contains(p),
{
    reveal(shown);
    choose|i: int|
        0 <= i < cs.len() && (#[trigger] cs[i]).layer == layer && cs[i].squares().contains(p)
}

proof fn lemma_shown_order(
    cs: Seq<Conductor>,
    boxes: Seq<LayerBox>,
    cuts: Seq<LayerBox>,
    i: int,
    j: int,
)
    requires
        shown(cs, boxes, cuts),
        0 <= i < j < cs.len(),
    ensures
        precedes(cs[i], cs[j]),
        !alike(cs[i], cs[j]),
{
    lemma_shown_component(cs, boxes, cuts, i);
    let p = choose|p: (int, int)| cs[i].squares().contains(p);
    assert(cs[i].layer < cs[j].layer || cs[i].layer == cs[j].layer && cs[i].squares().disjoint(
        cs[j].squares(),
    ) && conductor::begins_before(cs[i].squares(), cs[j].squares())) by {
        reveal(shown);
    }
    if alike(cs[i], cs[j]) {
        assert(cs[j].squares().contains(p));
    }
}

/// Every conductor of one list is in the other.
proof fn lemma_partner(
    a: Seq<Conductor>,
    b: Seq<Conductor>,
    boxes: Seq<LayerBox>,
    cuts: Seq<LayerBox>,
    k: int,
) -> (j: int)
    requires
        shown(a, boxes, cuts),
        shown(b, boxes, cuts),
        0 <= k < a.len(),
    ensures
        0 <= j < b.len(),
        alike(a[k], b[j]),
{
    let layer = a[k].layer;
    let m = conductor::layer_metal(boxes, cuts, layer);
    lemma_shown_component(a, boxes, cuts, k);
    let p = choose|p: (int, int)| a[k].squares().contains(p);
    assert(m.contains(p));
    let j = lemma_shown_metal(b, boxes, cuts, layer, p);
    lemma_shown_component(b, boxes, cuts, j);
    lemma_one_component(a[k].squares(), b[j].squares(), m, p);
    lemma_same_cells(a[k].cells@, b[j].cells@, boxes, cuts, layer);
    j
}

proof fn lemma_alike_order(a: Conductor, b: Conductor, x: Conductor, y: Conductor)
    requires
        precedes(a, b),
        alike(a, x),
        alike(b, y),
    ensures
        precedes(x, y),
{
}

proof fn lemma_next_alike(
    a: Seq<Conductor>,
    b: Seq<Conductor>,
    boxes: Seq<LayerBox>,
    cuts: Seq<LayerBox>,
    k: int,
)
    requires
        shown(a, boxes, cuts),
        shown(b, boxes, cuts),
        0 <= k < a.len(),
        k <= b.len(),
        forall|i: int| 0 <= i < k ==> alike(#[trigger] a[i], b[i]),
    ensures
        k < b.len(),
        alike(a[k], b[k]),
{
    let j = lemma_partner(a, b, boxes, cuts, k);
    if j < k {
        assert(alike(a[j], b[j]));
        lemma_shown_order(a, boxes, cuts, j, k);
    }
    if j > k {
        let i = lemma_partner(b, a, boxes, cuts, k);
        if i < k {
            assert(alike(a[i], b[i]));
            lemma_shown_order(b, boxes, cuts, i, k);
        }
        if i > k {
            lemma_shown_order(a, boxes, cuts, k, i);
            lemma_shown_order(b, boxes, cuts, k, j);
            lemma_alike_order(b[k], b[j], b[k], a[k]);
            lemma_alike_order(a[k], a[i], a[k], b[k]);
            lemma_precedes_one_way(a[k], b[k]);
        }
    }
}

/// The metal of a net and its pins decide the conductors: any two lists of them agree in layers,
/// in cells and so in every measure, and in order.
pub proof fn conductors_are_determined(
    a: Seq<Conductor>,
    b: Seq<Conductor>,
    boxes: Seq<LayerBox>,
    cuts: Seq<LayerBox>,
)
    requires
        graph::shows_net(a, boxes, cuts),
        graph::shows_net(b, boxes, cuts),
    ensures
        all_alike(a, b),
{
    assert(shown(a, boxes, cuts) && shown(b, boxes, cuts)) by {
        reveal(shown);
    }
    lemma_prefix_alike(a, b, boxes, cuts, a.len() as int);
    lemma_prefix_alike(b, a, boxes, cuts, b.len() as int);
    assert forall|k: int|
        #![trigger a[k]]
        #![trigger b[k]]
        0 <= k < a.len() implies alike(a[k], b[k]) by {
        assert(alike(a[k], b[k]));
    }
}

proof fn lemma_prefix_alike(
    a: Seq<Conductor>,
    b: Seq<Conductor>,
    boxes: Seq<LayerBox>,
    cuts: Seq<LayerBox>,
    k: int,
)
    requires
        shown(a, boxes, cuts),
        shown(b, boxes, cuts),
        0 <= k <= a.len(),
    ensures
        k <= b.len(),
        forall|i: int| 0 <= i < k ==> alike(#[trigger] a[i], b[i]),
    decreases k,
{
    if k > 0 {
        lemma_prefix_alike(a, b, boxes, cuts, k - 1);
        lemma_next_alike(a, b, boxes, cuts, k - 1);
    }
}

/// `NetGraph::are_regions`, kept closed: the proofs below need one fact of it at a time.
#[verifier::opaque]
spec fn parted(
    g: NetGraph,
    stage: i64,
    attach: Seq<Vec<usize>>,
    x: Seq<(Vec<usize>, Collected)>,
) -> bool {
    g.are_regions(stage, attach, x)
}

proof fn lemma_parted_terms(
    g: NetGraph,
    stage: i64,
    attach: Seq<Vec<usize>>,
    x: Seq<(Vec<usize>, Collected)>,
    r: int,
)
    requires
        parted(g, stage, attach, x),
        0 <= r < x.len(),
    ensures
        x[r].0@.len() > 0,
        regions::rising_terms(x[r].0@),
{
    reveal(parted);
}

proof fn lemma_parted_anchor(
    g: NetGraph,
    stage: i64,
    attach: Seq<Vec<usize>>,
    x: Seq<(Vec<usize>, Collected)>,
    r: int,
    t: usize,
) -> (i: int)
    requires
        parted(g, stage, attach, x),
        0 <= r < x.len(),
        x[r].0@.contains(t),
    ensures
        g.anchors(stage, attach, t as int, i),
{
    assert(g.anchored(stage, attach, t as int)) by {
        reveal(parted);
    }
    choose|i: int| g.anchors(stage, attach, t as int, i)
}

proof fn lemma_parted_find(
    g: NetGraph,
    stage: i64,
    attach: Seq<Vec<usize>>,
    x: Seq<(Vec<usize>, Collected)>,
    t: usize,
    i: int,
) -> (r: int)
    requires
        parted(g, stage, attach, x),
        g.anchors(stage, attach, t as int, i),
    ensures
        0 <= r < x.len(),
        x[r].0@.contains(t),
{
    assert(g.anchored(stage, attach, t as int));
    reveal(parted);
    choose|r: int| 0 <= r < x.len() && #[trigger] x[r].0@.contains(t)
}

proof fn lemma_parted_together(
    g: NetGraph,
    stage: i64,
    attach: Seq<Vec<usize>>,
    x: Seq<(Vec<usize>, Collected)>,
    r: int,
    s: int,
    t: usize,
    u: usize,
    i: int,
    j: int,
)
    requires
        parted(g, stage, attach, x),
        0 <= r < x.len(),
        0 <= s < x.len(),
        x[r].0@.contains(t),
        x[s].0@.contains(u),
        g.anchors(stage, attach, t as int, i),
        g.anchors(stage, attach, u as int, j),
    ensures
        r == s <==> g.joined(stage, attach, i, j),
{
    reveal(parted);
}

proof fn lemma_parted_metal(
    g: NetGraph,
    stage: i64,
    attach: Seq<Vec<usize>>,
    x: Seq<(Vec<usize>, Collected)>,
    r: int,
    t: usize,
    i: int,
)
    requires
        parted(g, stage, attach, x),
        0 <= r < x.len(),
        x[r].0@.contains(t),
        g.anchors(stage, attach, t as int, i),
    ensures
        g.is_metal(stage, attach, i, x[r].1),
{
    reveal(parted);
}

proof fn lemma_parted_order(
    g: NetGraph,
    stage: i64,
    attach: Seq<Vec<usize>>,
    x: Seq<(Vec<usize>, Collected)>,
    r: int,
    s: int,
)
    requires
        parted(g, stage, attach, x),
        0 <= r < s < x.len(),
    ensures
        x[r].0@[0] < x[s].0@[0],
{
    reveal(parted);
}

/// A terminal is in one region only.
proof fn lemma_parted_once(
    g: NetGraph,
    stage: i64,
    attach: Seq<Vec<usize>>,
    x: Seq<(Vec<usize>, Collected)>,
    r: int,
    s: int,
    t: usize,
)
    requires
        parted(g, stage, attach, x),
        0 <= r < x.len(),
        0 <= s < x.len(),
        x[r].0@.contains(t),
        x[s].0@.contains(t),
    ensures
        r == s,
{
    let i = lemma_parted_anchor(g, stage, attach, x, r, t);
    lemma_parted_together(g, stage, attach, x, r, s, t, t, i, i);
}

/// Rising lists with the same elements are the same.
proof fn lemma_rising_same(a: Seq<usize>, b: Seq<usize>)
    requires
        regions::rising_terms(a),
        regions::rising_terms(b),
        forall|t: usize| #[trigger] a.contains(t) <==> b.contains(t),
    ensures
        a == b,
{
    lemma_rising_prefix(a, b, a.len() as int);
    lemma_rising_prefix(b, a, b.len() as int);
    assert(a =~= b);
}

proof fn lemma_rising_prefix(a: Seq<usize>, b: Seq<usize>, k: int)
    requires
        regions::rising_terms(a),
        regions::rising_terms(b),
        forall|t: usize| #[trigger] a.contains(t) <==> b.contains(t),
        0 <= k <= a.len(),
    ensures
        k <= b.len(),
        forall|i: int| 0 <= i < k ==> a[i] == b[i],
    decreases k,
{
    if k > 0 {
        lemma_rising_prefix(a, b, k - 1);
        let m = k - 1;
        assert(a.contains(a[m]));
        assert(b.contains(a[m]));
        let j = choose|j: int| 0 <= j < b.len() && b[j] == a[m];
        if j < m {
            assert(a[j] == b[j]);
            assert(a[j] < a[m]);
        }
        assert(m < b.len());
        assert(b.contains(b[m]));
        assert(a.contains(b[m]));
        let i = choose|i: int| 0 <= i < a.len() && a[i] == b[m];
        if i < m {
            assert(a[i] == b[i]);
            assert(b[i] < b[m]);
        }
        if m < j {
            assert(b[m] < b[j]);
        }
        if m < i {
            assert(a[m] < a[i]);
        }
    }
}

/// The same regions: the same terminals in the same order, with the same metal.
pub open spec fn same_regions(
    x: Seq<(Vec<usize>, Collected)>,
    y: Seq<(Vec<usize>, Collected)>,
) -> bool {
    x.len() == y.len() && forall|r: int|
        #![trigger x[r]]
        #![trigger y[r]]
        0 <= r < x.len() ==> x[r].0@ == y[r].0@ && x[r].1 == y[r].1
}

/// Regions of two partitions that share a terminal are the same.
proof fn lemma_region_same(
    g: NetGraph,
    stage: i64,
    attach: Seq<Vec<usize>>,
    x: Seq<(Vec<usize>, Collected)>,
    y: Seq<(Vec<usize>, Collected)>,
    r: int,
    s: int,
    t: usize,
)
    requires
        parted(g, stage, attach, x),
        parted(g, stage, attach, y),
        0 <= r < x.len(),
        0 <= s < y.len(),
        x[r].0@.contains(t),
        y[s].0@.contains(t),
    ensures
        x[r].0@ == y[s].0@,
        x[r].1 == y[s].1,
{
    let i = lemma_parted_anchor(g, stage, attach, x, r, t);
    lemma_region_within(g, stage, attach, x, y, r, s, t, i);
    lemma_region_within(g, stage, attach, y, x, s, r, t, i);
    lemma_parted_terms(g, stage, attach, x, r);
    lemma_parted_terms(g, stage, attach, y, s);
    lemma_rising_same(x[r].0@, y[s].0@);
    lemma_parted_metal(g, stage, attach, x, r, t, i);
    lemma_parted_metal(g, stage, attach, y, s, t, i);
}

proof fn lemma_region_within(
    g: NetGraph,
    stage: i64,
    attach: Seq<Vec<usize>>,
    x: Seq<(Vec<usize>, Collected)>,
    y: Seq<(Vec<usize>, Collected)>,
    r: int,
    s: int,
    t: usize,
    i: int,
)
    requires
        parted(g, stage, attach, x),
        parted(g, stage, attach, y),
        0 <= r < x.len(),
        0 <= s < y.len(),
        x[r].0@.contains(t),
        y[s].0@.contains(t),
        g.anchors(stage, attach, t as int, i),
    ensures
        forall|u: usize| #[trigger] x[r].0@.contains(u) ==> y[s].0@.contains(u),
{
    assert forall|u: usize| #[trigger] x[r].0@.contains(u) implies y[s].0@.contains(u) by {
        let j = lemma_parted_anchor(g, stage, attach, x, r, u);
        lemma_parted_together(g, stage, attach, x, r, r, t, u, i, j);
        let v = lemma_parted_find(g, stage, attach, y, u, j);
        lemma_parted_together(g, stage, attach, y, s, v, t, u, i, j);
    }
}

proof fn lemma_regions_prefix(
    g: NetGraph,
    stage: i64,
    attach: Seq<Vec<usize>>,
    x: Seq<(Vec<usize>, Collected)>,
    y: Seq<(Vec<usize>, Collected)>,
    k: int,
)
    requires
        parted(g, stage, attach, x),
        parted(g, stage, attach, y),
        0 <= k <= x.len(),
    ensures
        k <= y.len(),
        forall|r: int| 0 <= r < k ==> (#[trigger] x[r]).0@ == y[r].0@ && x[r].1 == y[r].1,
    decreases k,
{
    if k > 0 {
        lemma_regions_prefix(g, stage, attach, x, y, k - 1);
        let m = k - 1;
        lemma_parted_terms(g, stage, attach, x, m);
        let t = x[m].0@[0];
        assert(x[m].0@.contains(t));
        let i = lemma_parted_anchor(g, stage, attach, x, m, t);
        let s = lemma_parted_find(g, stage, attach, y, t, i);
        lemma_region_same(g, stage, attach, x, y, m, s, t);
        if s < m {
            assert(x[s].0@ == y[s].0@);
            lemma_parted_once(g, stage, attach, x, s, m, t);
        }
        if s > m {
            lemma_parted_terms(g, stage, attach, y, m);
            let u = y[m].0@[0];
            assert(y[m].0@.contains(u));
            let j = lemma_parted_anchor(g, stage, attach, y, m, u);
            let v = lemma_parted_find(g, stage, attach, x, u, j);
            lemma_region_same(g, stage, attach, x, y, v, m, u);
            if v < m {
                assert(x[v].0@ == y[v].0@);
                lemma_parted_once(g, stage, attach, y, v, m, u);
            }
            if v == m {
                lemma_parted_once(g, stage, attach, y, m, s, t);
            }
            if v > m {
                lemma_parted_order(g, stage, attach, x, m, v);
                lemma_parted_order(g, stage, attach, y, m, s);
            }
        }
    }
}

/// The graph and the attachments decide the regions of a stage, with their metal and their order.
pub proof fn regions_are_determined(
    g: NetGraph,
    stage: i64,
    attach: Seq<Vec<usize>>,
    x: Seq<(Vec<usize>, Collected)>,
    y: Seq<(Vec<usize>, Collected)>,
)
    requires
        g.are_regions(stage, attach, x),
        g.are_regions(stage, attach, y),
    ensures
        same_regions(x, y),
{
    assert(parted(g, stage, attach, x) && parted(g, stage, attach, y)) by {
        reveal(parted);
    }
    lemma_regions_prefix(g, stage, attach, x, y, x.len() as int);
    lemma_regions_prefix(g, stage, attach, y, x, y.len() as int);
}

/// Two lists of attachments that name the same conductors for every terminal.
spec fn same_attach(a: Seq<Vec<usize>>, b: Seq<Vec<usize>>) -> bool {
    a.len() == b.len() && forall|t: int, i: usize|
        #![trigger a[t]@.contains(i)]
        #![trigger b[t]@.contains(i)]
        0 <= t < a.len() ==> (a[t]@.contains(i) <==> b[t]@.contains(i))
}

/// Two graphs of the same metal.
spec fn same_metal(g: NetGraph, h: NetGraph) -> bool {
    g.wf() && h.wf() && all_alike(g.conductors@, h.conductors@)
}

proof fn lemma_same_contact(a: Conductor, b: Conductor, x: Conductor, y: Conductor)
    requires
        alike(a, x),
        alike(b, y),
    ensures
        a.contacts(&b) == x.contacts(&y),
{
    assert forall|r: Rect| #[trigger] a.meets(r, 0) == x.meets(r, 0) by {
        lemma_same_meets(a, x, r, 0);
    }
    if a.contacts(&b) {
        let k = choose|k: int| 0 <= k < b.cells@.len() && a.meets(#[trigger] b.cells@[k], 0);
        assert(x.meets(y.cells@[k], 0));
    }
    if x.contacts(&y) {
        let k = choose|k: int| 0 <= k < y.cells@.len() && x.meets(#[trigger] y.cells@[k], 0);
        assert(a.meets(b.cells@[k], 0));
    }
}

/// What is the same cell by cell meets the same.
proof fn lemma_same_meets(a: Conductor, x: Conductor, r: Rect, halo: int)
    requires
        alike(a, x),
    ensures
        a.meets(r, halo) == x.meets(r, halo),
{
    if a.meets(r, halo) {
        let k = choose|k: int|
            0 <= k < a.cells@.len() && conductor::near(#[trigger] a.cells@[k], r, halo);
        assert(conductor::near(x.cells@[k], r, halo));
    }
    if x.meets(r, halo) {
        let k = choose|k: int|
            0 <= k < x.cells@.len() && conductor::near(#[trigger] x.cells@[k], r, halo);
        assert(conductor::near(a.cells@[k], r, halo));
    }
}

/// The same metal is in contact alike.
proof fn lemma_same_links(g: NetGraph, h: NetGraph, a: int, b: int)
    requires
        same_metal(g, h),
    ensures
        g.linked(a, b) == h.linked(a, b),
{
    let cs = g.conductors@;
    let ds = h.conductors@;
    if 0 <= a < b < cs.len() {
        assert(alike(cs[a], ds[a]) && alike(cs[b], ds[b]));
        lemma_same_contact(cs[a], cs[b], ds[a], ds[b]);
    }
}

/// The same metal has the same stages.
proof fn lemma_same_layers(g: NetGraph, h: NetGraph)
    requires
        same_metal(g, h),
    ensures
        g.layers@ == h.layers@,
{
    let cs = g.conductors@;
    let ds = h.conductors@;
    assert forall|l: i64| #[trigger] g.layers@.contains(l) <==> h.layers@.contains(l) by {
        if g.layers@.contains(l) {
            let i = choose|i: int|
                0 <= i < cs.len() && (#[trigger] cs[i]).layer == l && cs[i].is_routing;
            assert(alike(cs[i], ds[i]));
            assert(ds[i].layer == l);
        }
        if h.layers@.contains(l) {
            let i = choose|i: int|
                0 <= i < ds.len() && (#[trigger] ds[i]).layer == l && ds[i].is_routing;
            assert(alike(cs[i], ds[i]));
            assert(cs[i].layer == l);
        }
    }
    lemma_layers_prefix(g.layers@, h.layers@, g.layers@.len() as int);
    lemma_layers_prefix(h.layers@, g.layers@, h.layers@.len() as int);
    assert(g.layers@ =~= h.layers@);
}

proof fn lemma_layers_prefix(a: Seq<i64>, b: Seq<i64>, k: int)
    requires
        conductor::rising_layers(a),
        conductor::rising_layers(b),
        forall|l: i64| #[trigger] a.contains(l) <==> b.contains(l),
        0 <= k <= a.len(),
    ensures
        k <= b.len(),
        forall|i: int| 0 <= i < k ==> a[i] == b[i],
    decreases k,
{
    if k > 0 {
        lemma_layers_prefix(a, b, k - 1);
        let m = k - 1;
        assert(a.contains(a[m]));
        assert(b.contains(a[m]));
        let j = choose|j: int| 0 <= j < b.len() && b[j] == a[m];
        if j < m {
            assert(a[j] == b[j]);
            assert(a[j] < a[m]);
        }
        assert(m < b.len());
        assert(b.contains(b[m]));
        assert(a.contains(b[m]));
        let i = choose|i: int| 0 <= i < a.len() && a[i] == b[m];
        if i < m {
            assert(a[i] == b[i]);
            assert(b[i] < b[m]);
        }
        if m < j {
            assert(b[m] < b[j]);
        }
        if m < i {
            assert(a[m] < a[i]);
        }
    }
}

/// The same metal, attached alike, is joined alike.
proof fn lemma_same_joins(
    g: NetGraph,
    h: NetGraph,
    stage: i64,
    a: Seq<Vec<usize>>,
    b: Seq<Vec<usize>>,
)
    requires
        same_metal(g, h),
        same_attach(a, b),
    ensures
        g.joins(stage, a) == h.joins(stage, b),
{
    let x = g.joins(stage, a);
    let y = h.joins(stage, b);
    assert forall|i: int, j: int| #[trigger] x(i, j) == y(i, j) by {
        lemma_same_links(g, h, i, j);
        lemma_same_links(g, h, j, i);
        lemma_same_live(g, h, stage, i);
        lemma_same_live(g, h, stage, j);
        if regions::shorted(a, i, j) {
            lemma_same_shorts(a, b, i, j);
        }
        if regions::shorted(b, i, j) {
            lemma_same_shorts(b, a, i, j);
        }
    }
    assert(x =~= y);
}

proof fn lemma_same_live(g: NetGraph, h: NetGraph, stage: i64, i: int)
    requires
        same_metal(g, h),
    ensures
        g.live(stage, i) == h.live(stage, i),
        0 <= i < g.conductors@.len() ==> g.conductors@[i].is_routing == h.conductors@[i].is_routing
            && g.conductors@[i].layer == h.conductors@[i].layer && g.conductors@[i].area
            == h.conductors@[i].area && g.conductors@[i].perimeter == h.conductors@[i].perimeter,
{
    if 0 <= i < g.conductors@.len() {
        assert(alike(g.conductors@[i], h.conductors@[i]));
        assert(g.conductors@[i].wf() && h.conductors@[i].wf());
    }
}

proof fn lemma_same_shorts(a: Seq<Vec<usize>>, b: Seq<Vec<usize>>, i: int, j: int)
    requires
        same_attach(a, b),
        regions::shorted(a, i, j),
    ensures
        regions::shorted(b, i, j),
{
    let t = choose|t: int|
        #![trigger a[t]]
        0 <= t < a.len() && a[t]@.contains(i as usize) && a[t]@.contains(j as usize);
    assert(b[t]@.contains(i as usize));
    assert(b[t]@.contains(j as usize));
}

/// Sums over the same metal are the same.
proof fn lemma_same_total(
    g: NetGraph,
    h: NetGraph,
    n: int,
    x: spec_fn(int) -> bool,
    y: spec_fn(int) -> bool,
)
    requires
        same_metal(g, h),
        n <= g.conductors@.len(),
        forall|i: int| 0 <= i < n ==> #[trigger] x(i) == y(i),
    ensures
        regions::gathered(g.conductors@, n, x, regions::area_of()) == regions::gathered(
            h.conductors@,
            n,
            y,
            regions::area_of(),
        ),
        regions::gathered(g.conductors@, n, x, regions::perimeter_of()) == regions::gathered(
            h.conductors@,
            n,
            y,
            regions::perimeter_of(),
        ),
    decreases n,
{
    if n > 0 {
        lemma_same_total(g, h, n - 1, x, y);
        lemma_same_live(g, h, 0, n - 1);
        assert(x(n - 1) == y(n - 1));
    }
}

/// The same metal, attached alike, collects alike.
proof fn lemma_same_metal_collected(
    g: NetGraph,
    h: NetGraph,
    stage: i64,
    a: Seq<Vec<usize>>,
    b: Seq<Vec<usize>>,
    anchor: int,
    m: Collected,
)
    requires
        same_metal(g, h),
        same_attach(a, b),
    ensures
        g.is_metal(stage, a, anchor, m) == h.is_metal(stage, b, anchor, m),
{
    lemma_same_joins(g, h, stage, a, b);
    let n = g.conductors@.len() as int;
    let x = g.collects(stage, a, anchor);
    let y = h.collects(stage, b, anchor);
    let u = g.collects_on(stage, a, anchor);
    let v = h.collects_on(stage, b, anchor);
    assert forall|i: int| 0 <= i < n implies #[trigger] x(i) == y(i) by {
        lemma_same_live(g, h, stage, i);
    }
    assert forall|i: int| 0 <= i < n implies #[trigger] u(i) == v(i) by {
        lemma_same_live(g, h, stage, i);
    }
    lemma_same_total(g, h, n, x, y);
    lemma_same_total(g, h, n, u, v);
}

/// Regions of one graph are regions of every graph of the same metal, attached alike.
proof fn lemma_same_parts(
    g: NetGraph,
    h: NetGraph,
    stage: i64,
    a: Seq<Vec<usize>>,
    b: Seq<Vec<usize>>,
    y: Seq<(Vec<usize>, Collected)>,
)
    requires
        same_metal(g, h),
        same_attach(a, b),
        parted(h, stage, b, y),
    ensures
        parted(g, stage, a, y),
{
    lemma_same_joins(g, h, stage, a, b);
    assert forall|t: int, i: int| #[trigger]
        g.anchors(stage, a, t, i) == h.anchors(stage, b, t, i) by {
        lemma_same_live(g, h, stage, i);
    }
    assert forall|t: int| #[trigger] g.anchored(stage, a, t) == h.anchored(stage, b, t) by {
        if g.anchored(stage, a, t) {
            let i = choose|i: int| g.anchors(stage, a, t, i);
            assert(g.anchors(stage, a, t, i) == h.anchors(stage, b, t, i));
        }
        if h.anchored(stage, b, t) {
            let i = choose|i: int| h.anchors(stage, b, t, i);
            assert(g.anchors(stage, a, t, i) == h.anchors(stage, b, t, i));
        }
    }
    assert forall|r: int|
        #![trigger y[r]]
        0 <= r < y.len() implies y[r].0@.len() > 0 && regions::rising_terms(y[r].0@) by {
        lemma_parted_terms(h, stage, b, y, r);
    }
    assert forall|r: int, t: usize|
        0 <= r < y.len() && #[trigger] y[r].0@.contains(t) implies g.anchored(
        stage,
        a,
        t as int,
    ) by {
        let i = lemma_parted_anchor(h, stage, b, y, r, t);
        assert(h.anchored(stage, b, t as int));
        assert(g.anchored(stage, a, t as int) == h.anchored(stage, b, t as int));
    }
    assert forall|t: usize| #[trigger] g.anchored(stage, a, t as int) implies exists|r: int|
        0 <= r < y.len() && #[trigger] y[r].0@.contains(t) by {
        let i = choose|i: int| g.anchors(stage, a, t as int, i);
        assert(g.anchors(stage, a, t as int, i) == h.anchors(stage, b, t as int, i));
        let r = lemma_parted_find(h, stage, b, y, t, i);
        assert(y[r].0@.contains(t));
    }
    assert forall|r: int, s: int, t: usize, u: usize, i: int, j: int|
        #![trigger y[r].0@.contains(t), y[s].0@.contains(u), g.anchors(stage, a, t as int, i), g.anchors(stage, a, u as int, j)]
        0 <= r < y.len() && 0 <= s < y.len() && y[r].0@.contains(t) && y[s].0@.contains(u)
            && g.anchors(stage, a, t as int, i) && g.anchors(stage, a, u as int, j) implies (r == s
        <==> g.joined(stage, a, i, j)) by {
        assert(g.anchors(stage, a, t as int, i) == h.anchors(stage, b, t as int, i));
        assert(g.anchors(stage, a, u as int, j) == h.anchors(stage, b, u as int, j));
        lemma_parted_together(h, stage, b, y, r, s, t, u, i, j);
    }
    assert forall|r: int, t: usize, i: int|
        0 <= r < y.len() && #[trigger] y[r].0@.contains(t) && #[trigger] g.anchors(
            stage,
            a,
            t as int,
            i,
        ) implies g.is_metal(stage, a, i, y[r].1) by {
        assert(g.anchors(stage, a, t as int, i) == h.anchors(stage, b, t as int, i));
        lemma_parted_metal(h, stage, b, y, r, t, i);
        lemma_same_metal_collected(g, h, stage, a, b, i, y[r].1);
    }
    assert forall|r: int, s: int|
        #![trigger y[r], y[s]]
        0 <= r < s < y.len() implies y[r].0@[0] < y[s].0@[0] by {
        lemma_parted_order(h, stage, b, y, r, s);
    }
    reveal(parted);
}

/// The same exposure, text by text.
pub open spec fn same_exposure<Q>(a: RegionExposure<Q>, b: RegionExposure<Q>) -> bool {
    &&& a.layer@ == b.layer@
    &&& a.layer_number == b.layer_number
    &&& net::texts(a.pins@) == net::texts(b.pins@)
    &&& a.gate_area_um2 == b.gate_area_um2
    &&& a.diff_area_um2 == b.diff_area_um2
    &&& a.area_um2 == b.area_um2
    &&& a.side_area_um2 == b.side_area_um2
    &&& a.cum_area_um2 == b.cum_area_um2
    &&& a.cum_side_area_um2 == b.cum_side_area_um2
}

/// The same reading of a net, region by region.
pub open spec fn same_reading<Q>(a: NetAntenna<Q>, b: NetAntenna<Q>) -> bool {
    &&& a.net@ == b.net@
    &&& a.diff_area_um2 == b.diff_area_um2
    &&& a.gates_unanchored == b.gates_unanchored
    &&& a.regions@.len() == b.regions@.len()
    &&& forall|k: int|
        #![trigger a.regions@[k]]
        #![trigger b.regions@[k]]
        0 <= k < a.regions@.len() ==> same_exposure(a.regions@[k], b.regions@[k])
}

/// Pins touch the same metal alike.
proof fn lemma_same_touch<Q>(g: NetGraph, h: NetGraph, t: Terminal<Q>, i: int)
    requires
        same_metal(g, h),
        0 <= i < g.conductors@.len(),
    ensures
        net::touches_pin(g, t, i) == net::touches_pin(h, t, i),
{
    let c = g.conductors@[i];
    let d = h.conductors@[i];
    assert(alike(c, d));
    assert forall|k: int| 0 <= k < t.pin_boxes@.len() implies touch::pin_meets(
        c,
        #[trigger] t.pin_boxes@[k],
    ) == touch::pin_meets(d, t.pin_boxes@[k]) by {
        lemma_same_meets(c, d, t.pin_boxes@[k].rect(), 1);
    }
    if net::touches_pin(g, t, i) {
        let k = choose|k: int|
            0 <= k < t.pin_boxes@.len() && touch::pin_meets(c, #[trigger] t.pin_boxes@[k]);
        assert(touch::pin_meets(d, t.pin_boxes@[k]));
    }
    if net::touches_pin(h, t, i) {
        let k = choose|k: int|
            0 <= k < t.pin_boxes@.len() && touch::pin_meets(d, #[trigger] t.pin_boxes@[k]);
        assert(touch::pin_meets(c, t.pin_boxes@[k]));
    }
}

proof fn lemma_same_unanchored<Q: Scalar>(
    g: NetGraph,
    h: NetGraph,
    terminals: Seq<Terminal<Q>>,
    n: int,
)
    requires
        same_metal(g, h),
        n <= terminals.len(),
    ensures
        net::unanchored_count(g, terminals, n) == net::unanchored_count(h, terminals, n),
    decreases n,
{
    if n > 0 {
        lemma_same_unanchored(g, h, terminals, n - 1);
        let t = terminals[n - 1];
        assert forall|i: int| 0 <= i < g.conductors@.len() implies #[trigger] net::touches_pin(
            g,
            t,
            i,
        ) == net::touches_pin(h, t, i) by {
            lemma_same_touch(g, h, t, i);
        }
        lemma_same_layers(g, h);
        if net::meets_a_stage(g, t) {
            let (s, i) = choose|s: int, i: int|
                0 <= s < g.layers@.len() && #[trigger] g.live(g.layers@[s], i)
                    && net::touches_pin(g, t, i);
            lemma_same_live(g, h, g.layers@[s], i);
            assert(h.live(h.layers@[s], i) && net::touches_pin(h, t, i));
        }
        if net::meets_a_stage(h, t) {
            let (s, i) = choose|s: int, i: int|
                0 <= s < h.layers@.len() && #[trigger] h.live(h.layers@[s], i)
                    && net::touches_pin(h, t, i);
            lemma_same_live(g, h, h.layers@[s], i);
            assert(g.live(g.layers@[s], i) && net::touches_pin(g, t, i));
        }
    }
}

proof fn lemma_attached_alike<Q>(
    g: NetGraph,
    h: NetGraph,
    terminals: Seq<Terminal<Q>>,
    a: Seq<Vec<usize>>,
    b: Seq<Vec<usize>>,
)
    requires
        same_metal(g, h),
        net::is_attached(g, terminals, a),
        net::is_attached(h, terminals, b),
    ensures
        same_attach(a, b),
{
    assert forall|t: int, i: usize|
        #![trigger a[t]@.contains(i)]
        #![trigger b[t]@.contains(i)]
        0 <= t < a.len() implies (a[t]@.contains(i) <==> b[t]@.contains(i)) by {
        if i < g.conductors@.len() {
            lemma_same_touch(g, h, terminals[t], i as int);
            assert(a[t]@.contains(i) <==> net::touches_pin(g, terminals[t], i as int));
            assert(b[t]@.contains(i) <==> net::touches_pin(h, terminals[t], i as int));
        } else {
            if a[t]@.contains(i) {
                let k = choose|k: int| 0 <= k < a[t]@.len() && a[t]@[k] == i;
                assert(a[t]@[k] < g.conductors@.len());
            }
            if b[t]@.contains(i) {
                let k = choose|k: int| 0 <= k < b[t]@.len() && b[t]@[k] == i;
                assert(b[t]@[k] < h.conductors@.len());
            }
        }
    }
}

/// The same regions carry gates alike.
proof fn lemma_same_gated<Q: Scalar>(
    terminals: Seq<Terminal<Q>>,
    x: Seq<(Vec<usize>, Collected)>,
    y: Seq<(Vec<usize>, Collected)>,
    s: int,
    n: int,
)
    requires
        same_regions(x, y),
        n <= x.len(),
    ensures
        net::gated_regions(terminals, x, s, n) == net::gated_regions(terminals, y, s, n),
        forall|k: int|
            #![trigger net::gated_regions(terminals, x, s, n)[k]]
            0 <= k < net::gated_regions(terminals, x, s, n).len()
                ==> net::gated_regions(terminals, x, s, n)[k].0 == s
                && 0 <= net::gated_regions(terminals, x, s, n)[k].1 < n,
    decreases n,
{
    if n > 0 {
        lemma_same_gated(terminals, x, y, s, n - 1);
        assert(x[n - 1].0@ == y[n - 1].0@);
        let before = net::gated_regions(terminals, x, s, n - 1);
        let after = net::gated_regions(terminals, x, s, n);
        assert forall|k: int| #![trigger after[k]] 0 <= k < after.len() implies after[k].0 == s && 0
            <= after[k].1 < n by {
            if k < before.len() {
                assert(after[k] == before[k]);
            }
        }
    }
}

/// Two lists of stages with the same regions.
spec fn same_stages(
    x: Seq<Vec<(Vec<usize>, Collected)>>,
    y: Seq<Vec<(Vec<usize>, Collected)>>,
    n: int,
) -> bool {
    x.len() == n && y.len() == n && forall|s: int|
        0 <= s < n ==> same_regions((#[trigger] x[s])@, y[s]@)
}

proof fn lemma_same_gated_stages<Q: Scalar>(
    terminals: Seq<Terminal<Q>>,
    x: Seq<Vec<(Vec<usize>, Collected)>>,
    y: Seq<Vec<(Vec<usize>, Collected)>>,
    all: int,
    n: int,
)
    requires
        same_stages(x, y, all),
        n <= all,
    ensures
        net::gated_stages(terminals, x, n) == net::gated_stages(terminals, y, n),
        forall|k: int|
            #![trigger net::gated_stages(terminals, x, n)[k]]
            0 <= k < net::gated_stages(terminals, x, n).len() ==> {
                let at = net::gated_stages(terminals, x, n)[k];
                0 <= at.0 < n && 0 <= at.1 < x[at.0]@.len()
            },
    decreases n,
{
    if n > 0 {
        lemma_same_gated_stages(terminals, x, y, all, n - 1);
        assert(same_regions(x[n - 1]@, y[n - 1]@));
        lemma_same_gated(terminals, x[n - 1]@, y[n - 1]@, n - 1, x[n - 1]@.len() as int);
    }
}

/// The same metal, attached alike, has the same perimeters on every layer.
proof fn lemma_same_stack(
    g: NetGraph,
    h: NetGraph,
    stage: i64,
    a: Seq<Vec<usize>>,
    b: Seq<Vec<usize>>,
    x: Seq<(Vec<usize>, Collected)>,
    y: Seq<(Vec<usize>, Collected)>,
    u: Seq<Vec<i64>>,
    v: Seq<Vec<i64>>,
    r: int,
)
    requires
        same_metal(g, h),
        same_attach(a, b),
        g.layers@ == h.layers@,
        g.are_regions(stage, a, x),
        g.are_stacks(stage, a, x, u),
        h.are_stacks(stage, b, y, v),
        same_regions(x, y),
        0 <= r < x.len(),
    ensures
        u[r]@ == v[r]@,
{
    assert(x[r].0@ == y[r].0@);
    assert(x[r].0@.len() > 0);
    let t = x[r].0@[0];
    assert(x[r].0@.contains(t) && y[r].0@.contains(t));
    assert(g.anchored(stage, a, t as int));
    let i = choose|i: int| g.anchors(stage, a, t as int, i);
    assert(g.anchors(stage, a, t as int, i));
    lemma_same_live(g, h, stage, i);
    assert(h.anchors(stage, b, t as int, i));
    lemma_same_joins(g, h, stage, a, b);
    assert forall|s: int| 0 <= s < g.layers@.len() implies u[r]@[s] == v[r]@[s] by {
        let n = g.conductors@.len() as int;
        let m = g.collects_layer(stage, a, i, g.layers@[s]);
        let o = h.collects_layer(stage, b, i, h.layers@[s]);
        assert forall|k: int| 0 <= k < n implies #[trigger] m(k) == o(k) by {
            lemma_same_live(g, h, stage, k);
        }
        lemma_same_total(g, h, n, m, o);
        assert(u[r]@[s] == g.total(m, regions::perimeter_of()));
        assert(v[r]@[s] == h.total(o, regions::perimeter_of()));
    }
    assert(u[r]@ =~= v[r]@);
}

/// The readings of two graphs of the same metal are the same.
proof fn lemma_same_shows<Q: Scalar>(
    a: NetAntenna<Q>,
    b: NetAntenna<Q>,
    g: NetGraph,
    h: NetGraph,
    name: Seq<char>,
    terminals: Seq<Terminal<Q>>,
    layers: Seq<LayerInfo>,
    dbu: Q,
)
    requires
        same_metal(g, h),
        net::shows_graph(a, g, name, terminals, layers, dbu),
        net::shows_graph(b, h, name, terminals, layers, dbu),
    ensures
        same_reading(a, b),
{
    lemma_same_unanchored(g, h, terminals, terminals.len() as int);
    lemma_same_layers(g, h);
    let n = g.layers@.len() as int;
    let (p, x, u) = choose|
        p: Seq<Vec<usize>>,
        x: Seq<Vec<(Vec<usize>, Collected)>>,
        u: Seq<Vec<Vec<i64>>>,
    |
        {
            &&& net::is_attached(g, terminals, p)
            &&& #[trigger] net::are_stages(g, p, x, u, n)
            &&& net::shows_stages(a.regions@, g, x, u, n, terminals, layers, dbu)
        };
    let (q, y, v) = choose|
        q: Seq<Vec<usize>>,
        y: Seq<Vec<(Vec<usize>, Collected)>>,
        v: Seq<Vec<Vec<i64>>>,
    |
        {
            &&& net::is_attached(h, terminals, q)
            &&& #[trigger] net::are_stages(h, q, y, v, n)
            &&& net::shows_stages(b.regions@, h, y, v, n, terminals, layers, dbu)
        };
    lemma_attached_alike(g, h, terminals, p, q);
    assert(same_stages(x, y, n)) by {
        assert forall|s: int| 0 <= s < n implies same_regions((#[trigger] x[s])@, y[s]@) by {
            let stage = g.layers@[s];
            assert(parted(h, stage, q, y[s]@)) by {
                reveal(parted);
            }
            lemma_same_parts(g, h, stage, p, q, y[s]@);
            assert(g.are_regions(stage, p, y[s]@)) by {
                reveal(parted);
            }
            regions_are_determined(g, stage, p, x[s]@, y[s]@);
        }
    }
    lemma_same_gated_stages(terminals, x, y, n, n);
    let picked = net::gated_stages(terminals, x, n);
    assert forall|k: int|
        #![trigger a.regions@[k]]
        #![trigger b.regions@[k]]
        0 <= k < a.regions@.len() implies same_exposure(a.regions@[k], b.regions@[k]) by {
        let at = picked[k];
        assert(same_regions(x[at.0]@, y[at.0]@));
        assert(x[at.0]@[at.1].0@ == y[at.0]@[at.1].0@);
        lemma_same_stack(g, h, g.layers@[at.0], p, q, x[at.0]@, y[at.0]@, u[at.0]@, v[at.0]@, at.1);
        assert(net::is_exposure(
            a.regions@[k],
            g.layers@,
            at.0,
            x[at.0]@[at.1].0@,
            x[at.0]@[at.1].1,
            u[at.0]@[at.1]@,
            terminals,
            layers,
            dbu,
        ));
        assert(net::is_exposure(
            b.regions@[k],
            h.layers@,
            at.0,
            y[at.0]@[at.1].0@,
            y[at.0]@[at.1].1,
            v[at.0]@[at.1]@,
            terminals,
            layers,
            dbu,
        ));
    }
}

/// Reading is deterministic: what a net's boxes, terminals and layers show is one thing, region by
/// region, in one order.
pub proof fn reading_is_determined<Q: Scalar>(
    a: NetAntenna<Q>,
    b: NetAntenna<Q>,
    name: Seq<char>,
    boxes: Seq<LayerBox>,
    terminals: Seq<Terminal<Q>>,
    layers: Seq<LayerInfo>,
    dbu: Q,
)
    requires
        net::shows_routing(a, name, boxes, terminals, layers, dbu),
        net::shows_routing(b, name, boxes, terminals, layers, dbu),
    ensures
        same_reading(a, b),
{
    let cuts = net::all_pins(terminals);
    let g = choose|g: NetGraph|
        {
            &&& #[trigger] g.wf()
            &&& graph::shows_net(g.conductors@, boxes, cuts)
            &&& net::shows_graph(a, g, name, terminals, layers, dbu)
        };
    let h = choose|h: NetGraph|
        {
            &&& #[trigger] h.wf()
            &&& graph::shows_net(h.conductors@, boxes, cuts)
            &&& net::shows_graph(b, h, name, terminals, layers, dbu)
        };
    conductors_are_determined(g.conductors@, h.conductors@, boxes, cuts);
    lemma_same_shows(a, b, g, h, name, terminals, layers, dbu);
}

/// Two lists of the same exposures.
spec fn same_exposures<Q>(a: Seq<RegionExposure<Q>>, b: Seq<RegionExposure<Q>>) -> bool {
    a.len() == b.len() && forall|k: int|
        #![trigger a[k]]
        #![trigger b[k]]
        0 <= k < a.len() ==> same_exposure(a[k], b[k])
}

proof fn lemma_same_counts<Q: Scalar>(
    a: RegionExposure<Q>,
    b: RegionExposure<Q>,
    pin: Seq<char>,
    layer: Seq<char>,
    ratio: Ratio,
)
    requires
        same_exposure(a, b),
    ensures
        check::counts(a, pin, layer, ratio) == check::counts(b, pin, layer, ratio),
        check::metal_for(a, ratio) == check::metal_for(b, ratio),
{
}

proof fn lemma_same_sums<Q: Scalar>(
    a: Seq<RegionExposure<Q>>,
    b: Seq<RegionExposure<Q>>,
    rule: LayerRules<Q>,
    pin: Seq<char>,
    layer: Seq<char>,
    ratio: Ratio,
    n: int,
)
    requires
        same_exposures(a, b),
        n <= a.len(),
    ensures
        check::value_sum(a, rule, pin, layer, ratio, n) == check::value_sum(
            b,
            rule,
            pin,
            layer,
            ratio,
            n,
        ),
        check::metal_sum(a, pin, layer, ratio, n) == check::metal_sum(b, pin, layer, ratio, n),
    decreases n,
{
    if n > 0 {
        lemma_same_sums(a, b, rule, pin, layer, ratio, n - 1);
        assert(same_exposure(a[n - 1], b[n - 1]));
        lemma_same_counts(a[n - 1], b[n - 1], pin, layer, ratio);
    }
}

proof fn lemma_same_first<Q: Scalar>(
    a: Seq<RegionExposure<Q>>,
    b: Seq<RegionExposure<Q>>,
    pin: Seq<char>,
    layer: Seq<char>,
    ratio: Ratio,
    k: int,
)
    requires
        same_exposures(a, b),
        check::first_counting(a, pin, layer, ratio, k),
    ensures
        check::first_counting(b, pin, layer, ratio, k),
{
    assert(same_exposure(a[k], b[k]));
    assert forall|j: int| 0 <= j < k implies !check::counts(
        #[trigger] b[j],
        pin,
        layer,
        ratio,
    ) by {
        assert(same_exposure(a[j], b[j]));
        assert(!check::counts(a[j], pin, layer, ratio));
    }
}

proof fn lemma_same_verdict<Q: Scalar>(
    name: Seq<char>,
    a: Seq<RegionExposure<Q>>,
    b: Seq<RegionExposure<Q>>,
    rule: LayerRules<Q>,
    pin: Seq<char>,
    layer: Seq<char>,
    ratio: Ratio,
)
    requires
        same_exposures(a, b),
    ensures
        check::verdict(name, a, rule, pin, layer, ratio) == check::verdict(
            name,
            b,
            rule,
            pin,
            layer,
            ratio,
        ),
{
    lemma_same_sums(a, b, rule, pin, layer, ratio, a.len() as int);
    if exists|k: int| check::first_counting(a, pin, layer, ratio, k) {
        let k = choose|k: int| check::first_counting(a, pin, layer, ratio, k);
        lemma_same_first(a, b, pin, layer, ratio, k);
        let j = choose|j: int| check::first_counting(b, pin, layer, ratio, j);
        check::lemma_first_counting(b, pin, layer, ratio, k, j);
        assert(same_exposure(a[k], b[k]));
    }
    if exists|k: int| check::first_counting(b, pin, layer, ratio, k) {
        let k = choose|k: int| check::first_counting(b, pin, layer, ratio, k);
        lemma_same_first(b, a, pin, layer, ratio, k);
    }
}

proof fn lemma_same_pin_findings<Q: Scalar>(
    name: Seq<char>,
    a: Seq<RegionExposure<Q>>,
    b: Seq<RegionExposure<Q>>,
    table: RuleTable<Q>,
    pin: Seq<char>,
    layer: Seq<char>,
)
    requires
        same_exposures(a, b),
    ensures
        check::pin_findings(name, a, table, pin, layer) == check::pin_findings(
            name,
            b,
            table,
            pin,
            layer,
        ),
{
    if let Some(rule) = check::applied_rule(table, layer) {
        lemma_same_verdict(name, a, b, rule, pin, layer, Ratio::Par);
        lemma_same_verdict(name, a, b, rule, pin, layer, Ratio::Car);
        lemma_same_verdict(name, a, b, rule, pin, layer, Ratio::Psr);
        lemma_same_verdict(name, a, b, rule, pin, layer, Ratio::Csr);
    }
}

/// The same pin, text by text.
proof fn lemma_same_pin<Q>(a: RegionExposure<Q>, b: RegionExposure<Q>, p: int)
    requires
        same_exposure(a, b),
        0 <= p < a.pins@.len(),
    ensures
        a.pins@.len() == b.pins@.len(),
        a.pins@[p]@ == b.pins@[p]@,
{
    assert(net::texts(a.pins@).len() == net::texts(b.pins@).len());
    assert(net::texts(a.pins@)[p] == net::texts(b.pins@)[p]);
}

proof fn lemma_same_met<Q>(
    a: Seq<RegionExposure<Q>>,
    b: Seq<RegionExposure<Q>>,
    r: int,
    p: int,
)
    requires
        same_exposures(a, b),
        0 <= r < a.len(),
        0 <= p < a[r].pins@.len(),
        check::met_before(a, r, p),
    ensures
        check::met_before(b, r, p),
{
    let (s, q) = choose|s: int, q: int|
        0 <= s <= r && 0 <= q < a[s].pins@.len() && (s < r || q < p) && a[s].layer@ == a[r].layer@
            && (#[trigger] a[s].pins@[q])@ == a[r].pins@[p]@;
    assert(same_exposure(a[s], b[s]));
    assert(same_exposure(a[r], b[r]));
    lemma_same_pin(a[s], b[s], q);
    lemma_same_pin(a[r], b[r], p);
    assert(b[s].pins@[q]@ == b[r].pins@[p]@);
}

proof fn lemma_same_region_findings<Q: Scalar>(
    name: Seq<char>,
    a: Seq<RegionExposure<Q>>,
    b: Seq<RegionExposure<Q>>,
    table: RuleTable<Q>,
    r: int,
    n: int,
)
    requires
        same_exposures(a, b),
        0 <= r < a.len(),
        n <= a[r].pins@.len(),
    ensures
        check::region_findings(name, a, table, r, n) == check::region_findings(
            name,
            b,
            table,
            r,
            n,
        ),
    decreases n,
{
    if n > 0 {
        lemma_same_region_findings(name, a, b, table, r, n - 1);
        assert(same_exposure(a[r], b[r]));
        lemma_same_pin(a[r], b[r], n - 1);
        if check::met_before(a, r, n - 1) {
            lemma_same_met(a, b, r, n - 1);
        }
        if check::met_before(b, r, n - 1) {
            lemma_same_met(b, a, r, n - 1);
        }
        lemma_same_pin_findings(name, a, b, table, a[r].pins@[n - 1]@, a[r].layer@);
    }
}

proof fn lemma_same_net_findings<Q: Scalar>(
    name: Seq<char>,
    a: Seq<RegionExposure<Q>>,
    b: Seq<RegionExposure<Q>>,
    table: RuleTable<Q>,
    n: int,
)
    requires
        same_exposures(a, b),
        n <= a.len(),
    ensures
        check::net_findings(name, a, table, n) == check::net_findings(name, b, table, n),
    decreases n,
{
    if n > 0 {
        lemma_same_net_findings(name, a, b, table, n - 1);
        assert(same_exposure(a[n - 1], b[n - 1]));
        assert(net::texts(a[n - 1].pins@).len() == net::texts(b[n - 1].pins@).len());
        lemma_same_region_findings(
            name,
            a,
            b,
            table,
            n - 1,
            a[n - 1].pins@.len() as int,
        );
    }
}

/// The verdict is deterministic: the same reading has the same findings, in the same order.
pub proof fn the_verdict_is_determined<Q: Scalar>(
    a: NetAntenna<Q>,
    b: NetAntenna<Q>,
    table: RuleTable<Q>,
)
    requires
        same_reading(a, b),
    ensures
        check::all_findings(a, table) == check::all_findings(b, table),
{
    lemma_same_net_findings(a.net@, a.regions@, b.regions@, table, a.regions@.len() as int);
}

/// Two readings of a design, net by net.
pub open spec fn same_readings<Q>(
    a: Seq<Option<NetAntenna<Q>>>,
    b: Seq<Option<NetAntenna<Q>>>,
) -> bool {
    a.len() == b.len() && forall|k: int|
        #![trigger a[k]]
        #![trigger b[k]]
        0 <= k < a.len() ==> match (a[k], b[k]) {
            (Some(x), Some(y)) => same_reading(x, y),
            (None, None) => true,
            _ => false,
        }
}

proof fn lemma_same_tallies<Q: Scalar>(
    a: Seq<Option<NetAntenna<Q>>>,
    b: Seq<Option<NetAntenna<Q>>>,
    table: RuleTable<Q>,
    n: int,
)
    requires
        same_readings(a, b),
        n <= a.len(),
    ensures
        report::unrouted_count(a, n) == report::unrouted_count(b, n),
        report::gateless_count(a, n) == report::gateless_count(b, n),
        report::unanchored_total(a, n) == report::unanchored_total(b, n),
        report::unsettled_count(a, table, n) == report::unsettled_count(b, table, n),
        report::design_findings(a, table, n) == report::design_findings(b, table, n),
    decreases n,
{
    if n > 0 {
        lemma_same_tallies(a, b, table, n - 1);
        if let (Some(x), Some(y)) = (a[n - 1], b[n - 1]) {
            assert(same_reading(x, y));
            the_verdict_is_determined(x, y, table);
            if check::unsettled(x, table) {
                lemma_same_unsettled(x, y, table);
            }
            if check::unsettled(y, table) {
                lemma_same_unsettled(y, x, table);
            }
        }
    }
}

proof fn lemma_same_unjudged<Q: Scalar>(
    a: Seq<RegionExposure<Q>>,
    b: Seq<RegionExposure<Q>>,
    rule: LayerRules<Q>,
    pin: Seq<char>,
    layer: Seq<char>,
    ratio: Ratio,
)
    requires
        same_exposures(a, b),
        check::unjudged(a, rule, pin, layer, ratio),
    ensures
        check::unjudged(b, rule, pin, layer, ratio),
{
    let k = choose|k: int| #[trigger]
        check::first_counting(a, pin, layer, ratio, k) && {
            let limit = rule.ratio_limit(ratio, a[k].diff_area_um2);
            let value = check::value_sum(a, rule, pin, layer, ratio, a.len() as int);
            !limit.spec_le(Q::spec_zero()) && !(scalar::known(limit) && scalar::known(value))
        };
    lemma_same_sums(a, b, rule, pin, layer, ratio, a.len() as int);
    lemma_same_first(a, b, pin, layer, ratio, k);
    assert(same_exposure(a[k], b[k]));
    assert(check::first_counting(b, pin, layer, ratio, k));
}

proof fn lemma_same_unsettled<Q: Scalar>(x: NetAntenna<Q>, y: NetAntenna<Q>, table: RuleTable<Q>)
    requires
        same_reading(x, y),
        check::unsettled(x, table),
    ensures
        check::unsettled(y, table),
{
    let a = x.regions@;
    let b = y.regions@;
    assert(same_exposures(a, b));
    let r = choose|r: int| #[trigger] check::region_unsettled(a, table, r);
    assert(same_exposure(a[r], b[r]));
    let rule = check::applied_rule(table, a[r].layer@)->0;
    if check::figures_known(a[r]) {
        let (p, ratio) = choose|p: int, ratio: Ratio|
            0 <= p < a[r].pins@.len() && #[trigger] check::unjudged(
                a,
                rule,
                a[r].pins@[p]@,
                a[r].layer@,
                ratio,
            );
        lemma_same_pin(a[r], b[r], p);
        lemma_same_unjudged(a, b, rule, a[r].pins@[p]@, a[r].layer@, ratio);
        assert(check::unjudged(b, rule, b[r].pins@[p]@, b[r].layer@, ratio));
    }
    assert(check::region_unsettled(b, table, r));
}

proof fn lemma_same_seen<Q>(
    a: Seq<Option<NetAntenna<Q>>>,
    b: Seq<Option<NetAntenna<Q>>>,
    layer: Seq<char>,
)
    requires
        same_readings(a, b),
        report::layer_seen(a, layer, a.len() as int),
    ensures
        report::layer_seen(b, layer, b.len() as int),
{
    let k = choose|k: int|
        0 <= k < a.len() && ((#[trigger] a[k]) matches Some(na) && report::region_on(
            na,
            layer,
            na.regions@.len() as int,
        ));
    let x = a[k]->0;
    let y = b[k]->0;
    assert(same_reading(x, y));
    let r = choose|r: int|
        0 <= r < x.regions@.len() && (#[trigger] x.regions@[r]).layer@ == layer;
    assert(same_exposure(x.regions@[r], y.regions@[r]));
    assert(y.regions@[r].layer@ == layer);
    assert(report::region_on(y, layer, y.regions@.len() as int));
    assert(b[k] is Some);
}

proof fn lemma_same_routed<Q>(a: Seq<Option<NetAntenna<Q>>>, b: Seq<Option<NetAntenna<Q>>>)
    requires
        same_readings(a, b),
        report::any_routed(a, a.len() as int),
    ensures
        report::any_routed(b, b.len() as int),
{
    let k = choose|k: int| 0 <= k < a.len() && (#[trigger] a[k]) is Some;
    assert(b[k] is Some);
}

proof fn lemma_same_limited<Q: Scalar>(
    a: Seq<Option<NetAntenna<Q>>>,
    b: Seq<Option<NetAntenna<Q>>>,
    table: RuleTable<Q>,
)
    requires
        same_readings(a, b),
        report::any_limited(a, table, a.len() as int),
    ensures
        report::any_limited(b, table, b.len() as int),
{
    let layer = choose|layer: Seq<char>| #[trigger]
        report::layer_seen(a, layer, a.len() as int) && check::applied_rule(
            table,
            layer,
        ) is Some;
    lemma_same_seen(a, b, layer);
}

/// Names in order, with the same contents, are the same names.
proof fn lemma_same_names(a: Seq<String>, b: Seq<String>, k: int)
    requires
        names::in_text_order(a),
        names::in_text_order(b),
        forall|x: Seq<char>| #[trigger] names::lists(a, x) <==> names::lists(b, x),
        0 <= k <= a.len(),
    ensures
        k <= b.len(),
        forall|i: int| 0 <= i < k ==> (#[trigger] a[i])@ == b[i]@,
    decreases k,
{
    if k > 0 {
        lemma_same_names(a, b, k - 1);
        let m = k - 1;
        assert(names::lists(a, a[m]@));
        assert(names::lists(b, a[m]@));
        let j = choose|j: int| 0 <= j < b.len() && (#[trigger] b[j])@ == a[m]@;
        if j < m {
            assert(a[j]@ == b[j]@);
            assert(names::text_less(a[j]@, a[m]@));
            lemma_text_one_way(a[j]@, a[m]@);
        }
        if j > m {
            assert(names::lists(b, b[m]@));
            assert(names::lists(a, b[m]@));
            let i = choose|i: int| 0 <= i < a.len() && (#[trigger] a[i])@ == b[m]@;
            assert(names::text_less(b[m]@, b[j]@));
            if i < m {
                assert(a[i]@ == b[i]@);
                assert(names::text_less(b[i]@, b[m]@));
                lemma_text_one_way(b[i]@, b[m]@);
            } else if i > m {
                assert(names::text_less(a[m]@, a[i]@));
                lemma_text_one_way(a[m]@, b[m]@);
            } else {
                lemma_text_one_way(b[m]@, b[j]@);
            }
        }
    }
}

proof fn lemma_text_one_way(a: Seq<char>, b: Seq<char>)
    requires
        names::text_less(a, b),
    ensures
        !names::text_less(b, a),
        a != b,
{
    let j = choose|k: int| names::parts_at(a, b, k);
    if names::text_less(b, a) {
        let k = choose|k: int| names::parts_at(b, a, k);
        if j < k {
            assert(b[j] == a[j]);
        }
        if k < j {
            assert(a[k] == b[k]);
        }
    }
}

/// `report::reads_net`, kept closed.
#[verifier::opaque]
spec fn read_as<Q: Scalar>(
    na: NetAntenna<Q>,
    routed: RoutedNet<Q>,
    layers: Seq<LayerInfo>,
    dbu: Q,
) -> bool {
    report::reads_net(na, routed, layers, dbu)
}

/// `report::has_routing`, kept closed.
#[verifier::opaque]
spec fn carries_metal<Q>(routed: RoutedNet<Q>) -> bool {
    report::has_routing(routed)
}

/// `report::reads_design` of all nets, kept closed.
#[verifier::opaque]
spec fn design_read<Q: Scalar>(
    a: Seq<Option<NetAntenna<Q>>>,
    nets: Seq<RoutedNet<Q>>,
    layers: Seq<LayerInfo>,
    dbu: Q,
) -> bool {
    report::reads_design(a, nets, layers, dbu, nets.len() as int)
}

proof fn lemma_read_one<Q: Scalar>(
    a: Seq<Option<NetAntenna<Q>>>,
    nets: Seq<RoutedNet<Q>>,
    layers: Seq<LayerInfo>,
    dbu: Q,
    k: int,
)
    requires
        0 <= k < nets.len(),
        design_read(a, nets, layers, dbu),
    ensures
        a.len() == nets.len(),
        a[k] is Some <==> carries_metal(nets[k]),
        a[k] matches Some(x) ==> read_as(x, nets[k], layers, dbu),
{
    reveal(design_read);
    reveal(read_as);
    reveal(carries_metal);
    assert(a[k] is Some <==> report::has_routing(nets[k]));
}

proof fn lemma_read_same<Q: Scalar>(
    x: NetAntenna<Q>,
    y: NetAntenna<Q>,
    routed: RoutedNet<Q>,
    layers: Seq<LayerInfo>,
    dbu: Q,
)
    requires
        read_as(x, routed, layers, dbu),
        read_as(y, routed, layers, dbu),
    ensures
        same_reading(x, y),
{
    reveal(read_as);
    reading_is_determined(
        x,
        y,
        routed.net@,
        routed.boxes@,
        routed.terminals@,
        layers,
        dbu,
    );
}

/// A design is read one way.
proof fn lemma_read_alike<Q: Scalar>(
    a: Seq<Option<NetAntenna<Q>>>,
    b: Seq<Option<NetAntenna<Q>>>,
    nets: Seq<RoutedNet<Q>>,
    layers: Seq<LayerInfo>,
    dbu: Q,
)
    requires
        a.len() == nets.len(),
        b.len() == nets.len(),
        design_read(a, nets, layers, dbu),
        design_read(b, nets, layers, dbu),
    ensures
        same_readings(a, b),
{
    assert forall|k: int|
        #![trigger a[k]]
        #![trigger b[k]]
        0 <= k < a.len() implies match (a[k], b[k]) {
        (Some(x), Some(y)) => same_reading(x, y),
        (None, None) => true,
        _ => false,
    } by {
        lemma_read_one(a, nets, layers, dbu, k);
        lemma_read_one(b, nets, layers, dbu, k);
        if let (Some(x), Some(y)) = (a[k], b[k]) {
            lemma_read_same(x, y, nets[k], layers, dbu);
        }
    }
}

/// The same report, text by text.
pub open spec fn same_report<Q>(r: Report<Q>, s: Report<Q>) -> bool {
    &&& r.status@ == s.status@
    &&& r.count == s.count
    &&& r.nets_checked == s.nets_checked
    &&& r.nets_no_gate == s.nets_no_gate
    &&& r.nets_unrouted == s.nets_unrouted
    &&& r.gates_unanchored == s.gates_unanchored
    &&& r.nets_unsettled == s.nets_unsettled
    &&& net::texts(r.layers_without_rules@) == net::texts(s.layers_without_rules@)
    &&& r.no_rules_found == s.no_rules_found
    &&& r.no_routing_found == s.no_routing_found
    &&& check::findings(r.violations@) == check::findings(s.violations@)
}

/// The layers that a report lists are decided by the readings.
proof fn lemma_same_listed<Q: Scalar>(
    r: Report<Q>,
    s: Report<Q>,
    a: Seq<Option<NetAntenna<Q>>>,
    b: Seq<Option<NetAntenna<Q>>>,
    table: RuleTable<Q>,
)
    requires
        same_readings(a, b),
        report::tallies(r, a, table, a.len() as int),
        report::tallies(s, b, table, b.len() as int),
    ensures
        net::texts(r.layers_without_rules@) == net::texts(s.layers_without_rules@),
{
    let n = a.len() as int;
    let x = r.layers_without_rules@;
    let y = s.layers_without_rules@;
    assert forall|layer: Seq<char>| #[trigger] names::lists(x, layer) <==> names::lists(
        y,
        layer,
    ) by {
        if report::layer_seen(a, layer, n) {
            lemma_same_seen(a, b, layer);
        }
        if report::layer_seen(b, layer, n) {
            lemma_same_seen(b, a, layer);
        }
    }
    lemma_same_names(x, y, x.len() as int);
    lemma_same_names(y, x, y.len() as int);
    assert(net::texts(x) =~= net::texts(y));
}

proof fn lemma_same_flags<Q: Scalar>(
    a: Seq<Option<NetAntenna<Q>>>,
    b: Seq<Option<NetAntenna<Q>>>,
    table: RuleTable<Q>,
)
    requires
        same_readings(a, b),
    ensures
        report::any_routed(a, a.len() as int) == report::any_routed(b, b.len() as int),
        report::any_limited(a, table, a.len() as int) == report::any_limited(
            b,
            table,
            b.len() as int,
        ),
{
    if report::any_routed(a, a.len() as int) {
        lemma_same_routed(a, b);
    }
    if report::any_routed(b, b.len() as int) {
        lemma_same_routed(b, a);
    }
    if report::any_limited(a, table, a.len() as int) {
        lemma_same_limited(a, b, table);
    }
    if report::any_limited(b, table, b.len() as int) {
        lemma_same_limited(b, a, table);
    }
}

/// The same readings make the same report.
pub proof fn the_same_readings_make_the_same_report<Q: Scalar>(
    r: Report<Q>,
    s: Report<Q>,
    a: Seq<Option<NetAntenna<Q>>>,
    b: Seq<Option<NetAntenna<Q>>>,
    table: RuleTable<Q>,
)
    requires
        same_readings(a, b),
        report::is_summary(r, a, table),
        report::is_summary(s, b, table),
    ensures
        same_report(r, s),
{
    lemma_same_tallies(a, b, table, a.len() as int);
    lemma_same_flags(a, b, table);
    lemma_same_listed(r, s, a, b, table);
    assert(check::findings(r.violations@).len() == r.violations@.len());
    assert(check::findings(s.violations@).len() == s.violations@.len());
}

/// The report is deterministic: what a design's nets, layers and rules make of it is one report,
/// with the same status, the same counts, the same layers and the same findings in the same order.
pub proof fn the_report_is_determined<Q: Scalar>(
    r: Report<Q>,
    s: Report<Q>,
    a: Seq<Option<NetAntenna<Q>>>,
    b: Seq<Option<NetAntenna<Q>>>,
    nets: Seq<RoutedNet<Q>>,
    layers: Seq<LayerInfo>,
    table: RuleTable<Q>,
    dbu: Q,
)
    requires
        report::reads_design(a, nets, layers, dbu, nets.len() as int),
        report::reads_design(b, nets, layers, dbu, nets.len() as int),
        report::is_summary(r, a, table),
        report::is_summary(s, b, table),
    ensures
        same_report(r, s),
{
    assert(design_read(a, nets, layers, dbu) && design_read(b, nets, layers, dbu)) by {
        reveal(design_read);
    }
    lemma_read_alike(a, b, nets, layers, dbu);
    the_same_readings_make_the_same_report(r, s, a, b, table);
}

/// A design that is checked twice is reported alike both times.
pub proof fn a_second_check_reports_the_same<Q: Scalar>(
    r: Report<Q>,
    s: Report<Q>,
    dbu: i64,
    nets: Seq<RoutedNet<Q>>,
    layers: Seq<LayerInfo>,
    table: RuleTable<Q>,
)
    requires
        report::is_report(r, dbu, nets, layers, table),
        report::is_report(s, dbu, nets, layers, table),
    ensures
        same_report(r, s),
{
    if dbu <= 0 {
        assert(check::findings(r.violations@) =~= check::findings(s.violations@));
        assert(net::texts(r.layers_without_rules@) =~= net::texts(s.layers_without_rules@));
    } else {
        let n = nets.len() as int;
        let unit = Q::spec_of(dbu);
        let a = choose|a: Seq<Option<NetAntenna<Q>>>| #[trigger]
            report::reads_design(a, nets, layers, unit, n) && report::is_summary(r, a, table);
        let b = choose|b: Seq<Option<NetAntenna<Q>>>| #[trigger]
            report::reads_design(b, nets, layers, unit, n) && report::is_summary(s, b, table);
        the_report_is_determined(r, s, a, b, nets, layers, table, unit);
    }
}

} // verus!
