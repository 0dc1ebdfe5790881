//! Conductors: the connected pieces that a layer's metal falls into once the pins are cut out.

use crate::components;
use crate::components::label_components;
use crate::grid;
use crate::grid::Grid;
use crate::squares;
use crate::squares::Rect;
use vstd::prelude::*;

verus! {

/// A box of metal, or of a cut, on one layer.
#[derive(Debug, Clone, Copy)]
pub struct LayerBox {
    pub layer: i64,
    pub x0: i32,
    pub y0: i32,
    pub x1: i32,
    pub y1: i32,
    /// Whether the layer is a routing layer, as opposed to a cut layer.
    pub is_routing: bool,
    /// Whether the box is a part of a via.
    pub from_via: bool,
}

impl LayerBox {
    pub open spec fn rect(self) -> Rect {
        (self.x0, self.y0, self.x1, self.y1)
    }
}

/// The rectangles of the boxes on `layer`, in order.
pub open spec fn rects_of(boxes: Seq<LayerBox>, layer: i64) -> Seq<Rect>
    decreases boxes.len(),
{
    if boxes.len() == 0 {
        Seq::empty()
    } else if boxes.last().layer == layer {
        rects_of(boxes.drop_last(), layer).push(boxes.last().rect())
    } else {
        rects_of(boxes.drop_last(), layer)
    }
}

/// Whether a box or a pin of `layer` has an edge at `x`. A box without width or height has none.
pub open spec fn x_line(boxes: Seq<LayerBox>, pins: Seq<LayerBox>, layer: i64, x: i32) -> bool {
    grid::x_edge_of(grid::live_of(rects_of(boxes, layer)), x) || grid::x_edge_of(
        rects_of(pins, layer),
        x,
    )
}

/// Whether a box or a pin of `layer` has an edge at `y`. A box without width or height has none.
pub open spec fn y_line(boxes: Seq<LayerBox>, pins: Seq<LayerBox>, layer: i64, y: i32) -> bool {
    grid::y_edge_of(grid::live_of(rects_of(boxes, layer)), y) || grid::y_edge_of(
        rects_of(pins, layer),
        y,
    )
}

/// A cell of the layer: it lies between lines that have no line between them.
pub open spec fn is_cell(
    c: Rect,
    boxes: Seq<LayerBox>,
    pins: Seq<LayerBox>,
    layer: i64,
) -> bool {
    &&& c.0 < c.2 && c.1 < c.3
    &&& x_line(boxes, pins, layer, c.0) && x_line(boxes, pins, layer, c.2)
    &&& y_line(boxes, pins, layer, c.1) && y_line(boxes, pins, layer, c.3)
    &&& forall|x: i32| c.0 < x < c.2 ==> !#[trigger] x_line(boxes, pins, layer, x)
    &&& forall|y: i32| c.1 < y < c.3 ==> !#[trigger] y_line(boxes, pins, layer, y)
}

/// The cells are cells of the layer, column by column.
#[verifier::opaque]
pub open spec fn in_cells(
    cells: Seq<Rect>,
    boxes: Seq<LayerBox>,
    pins: Seq<LayerBox>,
    layer: i64,
) -> bool {
    &&& forall|k: int|
        0 <= k < cells.len() ==> is_cell(#[trigger] cells[k], boxes, pins, layer)
    &&& by_columns(cells)
}

/// Rising in the left edge, and in one column in the lower edge.
pub open spec fn by_columns(cells: Seq<Rect>) -> bool {
    forall|a: int, b: int|
        #![trigger cells[a], cells[b]]
        0 <= a < b < cells.len() ==> cells[a].0 < cells[b].0 || cells[a].0 == cells[b].0
            && cells[a].1 < cells[b].1
}

/// Whether one of `boxes` on `layer` holds the unit square at `p`.
pub open spec fn boxed(boxes: Seq<LayerBox>, layer: i64, p: (int, int)) -> bool {
    exists|k: int|
        0 <= k < boxes.len() && (#[trigger] boxes[k]).layer == layer && squares::in_rect(
            boxes[k].rect(),
            p,
        )
}

/// What the pins leave of the metal on one layer.
pub open spec fn layer_metal(boxes: Seq<LayerBox>, pins: Seq<LayerBox>, layer: i64) -> Set<
    (int, int),
> {
    Set::new(|p: (int, int)| boxed(boxes, layer, p) && !boxed(pins, layer, p))
}

/// Whether some box lies on `layer`.
pub open spec fn has_layer(boxes: Seq<LayerBox>, layer: i64) -> bool {
    exists|k: int| 0 <= k < boxes.len() && (#[trigger] boxes[k]).layer == layer
}

/// Whether `layer` is a routing layer, which its first box decides.
pub open spec fn layer_is_routing(boxes: Seq<LayerBox>, layer: i64) -> bool {
    exists|k: int|
        0 <= k < boxes.len() && (#[trigger] boxes[k]).layer == layer && boxes[k].is_routing && (
        forall|j: int| 0 <= j < k ==> (#[trigger] boxes[j]).layer != layer)
}

/// The areas of those among the first `n` boxes that `keep` chooses, added up one by one.
pub open spec fn drawn_area(
    boxes: Seq<LayerBox>,
    n: int,
    keep: spec_fn(LayerBox) -> bool,
) -> int
    decreases n,
{
    if n <= 0 {
        0
    } else {
        drawn_area(boxes, n - 1, keep) + if keep(boxes[n - 1]) {
            squares::rect_area(boxes[n - 1].rect())
        } else {
            0
        }
    }
}

/// The boxes of one layer.
pub open spec fn on_layer(layer: i64) -> spec_fn(LayerBox) -> bool {
    |b: LayerBox| b.layer == layer
}

/// So little metal is drawn that every sum over the net fits in `i64`. A perimeter is at most
/// four times the area.
pub open spec fn modest_net(boxes: Seq<LayerBox>) -> bool {
    4 * drawn_area(boxes, boxes.len() as int, |b: LayerBox| true) <= i64::MAX
}

/// The area and the perimeter of each layer fit in `i64`.
pub open spec fn layers_fit(boxes: Seq<LayerBox>, pins: Seq<LayerBox>) -> bool {
    forall|layer: i64|
        squares::area(#[trigger] layer_metal(boxes, pins, layer)) <= i64::MAX && squares::perimeter(
            layer_metal(boxes, pins, layer),
        ) <= i64::MAX
}

/// The area of metal, as a measure.
pub open spec fn metal_area() -> spec_fn(Set<(int, int)>) -> int {
    |m: Set<(int, int)>| squares::area(m) as int
}

/// The perimeter of metal, as a measure.
pub open spec fn metal_perimeter() -> spec_fn(Set<(int, int)>) -> int {
    |m: Set<(int, int)>| squares::perimeter(m) as int
}

/// No earlier box is on the layer of box `k`.
pub open spec fn opens_layer(boxes: Seq<LayerBox>, k: int) -> bool {
    forall|j: int| 0 <= j < k ==> (#[trigger] boxes[j]).layer != boxes[k].layer
}

/// A measure of what the pins leave, added up over the routing layers up to `top` of the first `n`
/// boxes, each layer once.
pub open spec fn routing_sum(
    boxes: Seq<LayerBox>,
    pins: Seq<LayerBox>,
    n: int,
    top: int,
    measure: spec_fn(Set<(int, int)>) -> int,
) -> int
    decreases n,
{
    if n <= 0 {
        0
    } else {
        let b = boxes[n - 1];
        routing_sum(boxes, pins, n - 1, top, measure) + if b.layer <= top && b.is_routing
            && opens_layer(boxes, n - 1) {
            measure(layer_metal(boxes, pins, b.layer))
        } else {
            0
        }
    }
}

/// The routing metal of the net, all layers together.
pub open spec fn routing_total(
    boxes: Seq<LayerBox>,
    pins: Seq<LayerBox>,
    measure: spec_fn(Set<(int, int)>) -> int,
) -> int {
    routing_sum(boxes, pins, boxes.len() as int, i64::MAX as int, measure)
}

/// Everything measured of the net fits in `i64`: each layer, and the routing layers together.
pub open spec fn net_fits(boxes: Seq<LayerBox>, pins: Seq<LayerBox>) -> bool {
    &&& layers_fit(boxes, pins)
    &&& routing_total(boxes, pins, metal_area()) <= i64::MAX
    &&& routing_total(boxes, pins, metal_perimeter()) <= i64::MAX
}

/// The first box of a layer decides whether it is a routing layer.
proof fn lemma_opening_box(boxes: Seq<LayerBox>, k: int)
    requires
        0 <= k < boxes.len(),
        opens_layer(boxes, k),
    ensures
        layer_is_routing(boxes, boxes[k].layer) == boxes[k].is_routing,
{
    let layer = boxes[k].layer;
    if layer_is_routing(boxes, layer) {
        let j = choose|j: int|
            0 <= j < boxes.len() && (#[trigger] boxes[j]).layer == layer && boxes[j].is_routing && (
            forall|i: int| 0 <= i < j ==> (#[trigger] boxes[i]).layer != layer);
        if j < k {
            assert(boxes[j].layer != boxes[k].layer);
        }
        if k < j {
            assert(boxes[k].layer != layer);
        }
    }
    if boxes[k].is_routing {
        assert(boxes[k].layer == layer);
    }
}

/// Raising the bound from one layer to the next adds that layer.
proof fn lemma_routing_sum_step(
    boxes: Seq<LayerBox>,
    pins: Seq<LayerBox>,
    n: int,
    low: int,
    layer: i64,
    measure: spec_fn(Set<(int, int)>) -> int,
)
    requires
        0 <= n <= boxes.len(),
        low < layer,
        forall|k: int|
            0 <= k < boxes.len() ==> !(low < (#[trigger] boxes[k]).layer && boxes[k].layer < layer),
    ensures
        routing_sum(boxes, pins, n, layer as int, measure) == routing_sum(
            boxes,
            pins,
            n,
            low,
            measure,
        ) + if has_layer(boxes.take(n), layer) && layer_is_routing(boxes, layer) {
            measure(layer_metal(boxes, pins, layer))
        } else {
            0
        },
    decreases n,
{
    if n > 0 {
        lemma_routing_sum_step(boxes, pins, n - 1, low, layer, measure);
        let b = boxes[n - 1];
        let some = has_layer(boxes.take(n), layer);
        let before = has_layer(boxes.take(n - 1), layer);
        assert(some <==> before || b.layer == layer) by {
            if some {
                let k = choose|k: int|
                    0 <= k < n && (#[trigger] boxes.take(n)[k]).layer == layer;
                if k < n - 1 {
                    assert(boxes.take(n - 1)[k].layer == layer);
                }
            }
            if before {
                let k = choose|k: int|
                    0 <= k < n - 1 && (#[trigger] boxes.take(n - 1)[k]).layer == layer;
                assert(boxes.take(n)[k].layer == layer);
            }
            if b.layer == layer {
                assert(boxes.take(n)[n - 1].layer == layer);
            }
        }
        if b.layer == layer {
            assert(opens_layer(boxes, n - 1) <==> !before) by {
                if before {
                    let k = choose|k: int|
                        0 <= k < n - 1 && (#[trigger] boxes.take(n - 1)[k]).layer == layer;
                    assert(boxes[k].layer == b.layer);
                }
                if !opens_layer(boxes, n - 1) {
                    let k = choose|k: int|
                        0 <= k < n - 1 && (#[trigger] boxes[k]).layer == b.layer;
                    assert(boxes.take(n - 1)[k].layer == layer);
                }
            }
            if opens_layer(boxes, n - 1) {
                lemma_opening_box(boxes, n - 1);
            }
        }
    } else {
        assert(!has_layer(boxes.take(n), layer));
    }
}

/// Raising the bound past all layers adds nothing.
proof fn lemma_routing_sum_top(
    boxes: Seq<LayerBox>,
    pins: Seq<LayerBox>,
    n: int,
    low: int,
    high: int,
    measure: spec_fn(Set<(int, int)>) -> int,
)
    requires
        0 <= n <= boxes.len(),
        low <= high,
        forall|k: int|
            0 <= k < boxes.len() ==> (#[trigger] boxes[k]).layer <= low || boxes[k].layer > high,
    ensures
        routing_sum(boxes, pins, n, low, measure) == routing_sum(boxes, pins, n, high, measure),
    decreases n,
{
    if n > 0 {
        lemma_routing_sum_top(boxes, pins, n - 1, low, high, measure);
        assert(boxes[n - 1].layer <= low || boxes[n - 1].layer > high);
    }
}

/// Below all layers there is nothing.
proof fn lemma_routing_sum_none(
    boxes: Seq<LayerBox>,
    pins: Seq<LayerBox>,
    n: int,
    low: int,
    measure: spec_fn(Set<(int, int)>) -> int,
)
    requires
        0 <= n <= boxes.len(),
        forall|k: int| 0 <= k < boxes.len() ==> (#[trigger] boxes[k]).layer > low,
    ensures
        routing_sum(boxes, pins, n, low, measure) == 0,
    decreases n,
{
    if n > 0 {
        lemma_routing_sum_none(boxes, pins, n - 1, low, measure);
        assert(boxes[n - 1].layer > low);
    }
}

/// No area is negative.
proof fn lemma_rect_area(r: Rect)
    ensures
        squares::rect_area(r) >= 0,
{
    if r.0 < r.2 && r.1 < r.3 {
        assert((r.2 - r.0) * (r.3 - r.1) >= 0) by (nonlinear_arith)
            requires
                r.0 < r.2,
                r.1 < r.3,
        ;
    }
}

/// More boxes draw no less.
proof fn lemma_drawn_more(
    boxes: Seq<LayerBox>,
    n: int,
    less: spec_fn(LayerBox) -> bool,
    more: spec_fn(LayerBox) -> bool,
)
    requires
        forall|b: LayerBox| #[trigger] less(b) ==> more(b),
    ensures
        0 <= drawn_area(boxes, n, less) <= drawn_area(boxes, n, more),
    decreases n,
{
    if n > 0 {
        lemma_drawn_more(boxes, n - 1, less, more);
        lemma_rect_area(boxes[n - 1].rect());
        assert(less(boxes[n - 1]) ==> more(boxes[n - 1]));
    }
}

/// What two exclusive choices draw is part of what a choice that allows both draws.
proof fn lemma_drawn_apart(
    boxes: Seq<LayerBox>,
    n: int,
    a: spec_fn(LayerBox) -> bool,
    b: spec_fn(LayerBox) -> bool,
    both: spec_fn(LayerBox) -> bool,
)
    requires
        forall|x: LayerBox| #![trigger a(x)] #![trigger b(x)] !(a(x) && b(x)),
        forall|x: LayerBox| #[trigger] both(x) == (a(x) || b(x)),
    ensures
        drawn_area(boxes, n, a) + drawn_area(boxes, n, b) == drawn_area(boxes, n, both),
    decreases n,
{
    if n > 0 {
        lemma_drawn_apart(boxes, n - 1, a, b, both);
        let x = boxes[n - 1];
        assert(both(x) == (a(x) || b(x)));
        assert(!(a(x) && b(x)));
    }
}

/// The rectangles of a layer hold what its boxes hold, and draw what they draw.
proof fn lemma_rects_of(boxes: Seq<LayerBox>, layer: i64, n: int)
    requires
        0 <= n <= boxes.len(),
    ensures
        forall|p: (int, int)|
            squares::in_rects(rects_of(boxes.take(n), layer), p) <==> #[trigger] boxed(
                boxes.take(n),
                layer,
                p,
            ),
        squares::area_total(rects_of(boxes.take(n), layer)) == drawn_area(
            boxes,
            n,
            on_layer(layer),
        ),
    decreases n,
{
    let now = boxes.take(n);
    if n > 0 {
        lemma_rects_of(boxes, layer, n - 1);
        let before = boxes.take(n - 1);
        let b = boxes[n - 1];
        assert(now.drop_last() =~= before);
        assert(now.last() == b);
        let was = rects_of(before, layer);
        let is = rects_of(now, layer);
        if b.layer == layer {
            assert(is.drop_last() =~= was);
            assert(is.last() == b.rect());
        }
        assert forall|p: (int, int)| squares::in_rects(is, p) <==> #[trigger] boxed(
            now,
            layer,
            p,
        ) by {
            lemma_boxed_last(now, layer, p);
            assert(boxed(before, layer, p) <==> squares::in_rects(was, p));
            if squares::in_rects(is, p) {
                let k = choose|k: int| 0 <= k < is.len() && squares::in_rect(#[trigger] is[k], p);
                if k < was.len() {
                    assert(squares::in_rect(was[k], p));
                }
            }
            if squares::in_rects(was, p) {
                let k = choose|k: int|
                    0 <= k < was.len() && squares::in_rect(#[trigger] was[k], p);
                assert(squares::in_rect(is[k], p));
            }
            if b.layer == layer && squares::in_rect(b.rect(), p) {
                assert(squares::in_rect(is[was.len() as int], p));
            }
        }
    } else {
        assert(now =~= Seq::empty());
        assert forall|p: (int, int)| squares::in_rects(
            rects_of(now, layer),
            p,
        ) <==> #[trigger] boxed(now, layer, p) by {}
    }
}

proof fn lemma_boxed_last(boxes: Seq<LayerBox>, layer: i64, p: (int, int))
    requires
        boxes.len() > 0,
    ensures
        boxed(boxes, layer, p) <==> boxed(boxes.drop_last(), layer, p) || boxes.last().layer == layer
            && squares::in_rect(boxes.last().rect(), p),
{
    let front = boxes.drop_last();
    if boxed(boxes, layer, p) {
        let k = choose|k: int|
            0 <= k < boxes.len() && (#[trigger] boxes[k]).layer == layer && squares::in_rect(
                boxes[k].rect(),
                p,
            );
        if k < front.len() {
            assert(front[k].layer == layer);
        }
    }
    if boxed(front, layer, p) {
        let k = choose|k: int|
            0 <= k < front.len() && (#[trigger] front[k]).layer == layer && squares::in_rect(
                front[k].rect(),
                p,
            );
        assert(boxes[k].layer == layer);
    }
    if boxes.last().layer == layer && squares::in_rect(boxes.last().rect(), p) {
        assert(boxes[boxes.len() - 1].layer == layer);
    }
}

/// Whether two rectangles, edges included, come within `halo` of each other in both directions.
pub open spec fn near(a: Rect, b: Rect, halo: int) -> bool {
    a.0 <= b.2 + halo && b.0 - halo <= a.2 && a.1 <= b.3 + halo && b.1 - halo <= a.3
}

/// One connected piece of metal (or cut) on one layer, after pins have cut it.
#[derive(Debug, Clone)]
pub struct Conductor {
    pub layer: i64,
    pub is_routing: bool,
    /// Exact union area, in squared database units.
    pub area: i64,
    /// Exact union perimeter, in database units.
    pub perimeter: i64,
    /// The cells it occupies, for touch tests against pins and across layers.
    pub cells: Vec<Rect>,
}

impl Conductor {
    /// The unit squares of the conductor.
    pub open spec fn squares(&self) -> Set<(int, int)> {
        squares::squares_of(self.cells@)
    }

    /// The cells have area, and the measures are those of their union.
    pub open spec fn wf(&self) -> bool {
        &&& self.cells@.len() > 0
        &&& forall|k: int|
            0 <= k < self.cells@.len() ==> {
                let c = #[trigger] self.cells@[k];
                c.0 < c.2 && c.1 < c.3
            }
        &&& self.area == squares::area(self.squares())
        &&& self.perimeter == squares::perimeter(self.squares())
    }

    /// Whether a cell of the conductor comes within `halo` of `r`.
    pub open spec fn meets(&self, r: Rect, halo: int) -> bool {
        exists|k: int| 0 <= k < self.cells@.len() && near(#[trigger] self.cells@[k], r, halo)
    }

    /// Whether a cell of the conductor touches a cell of `o`.
    pub open spec fn contacts(&self, o: &Conductor) -> bool {
        exists|k: int| 0 <= k < o.cells@.len() && self.meets(#[trigger] o.cells@[k], 0)
    }

    pub fn touches_rect(&self, r: Rect, halo: i32) -> (b: bool)
        ensures
            b == self.meets(r, halo as int),
    {
        let x0: i64 = r.0 as i64 - halo as i64;
        let y0: i64 = r.1 as i64 - halo as i64;
        let x1: i64 = r.2 as i64 + halo as i64;
        let y1: i64 = r.3 as i64 + halo as i64;
        let mut k: usize = 0;
        while k < self.cells.len()
            invariant
                k <= self.cells@.len(),
                x0 == r.0 - halo,
                y0 == r.1 - halo,
                x1 == r.2 + halo,
                y1 == r.3 + halo,
                forall|a: int| 0 <= a < k ==> !near(#[trigger] self.cells@[a], r, halo as int),
            decreases self.cells@.len() - k,
        {
            let c = self.cells[k];
            if c.0 as i64 <= x1 && x0 <= c.2 as i64 && c.1 as i64 <= y1 && y0 <= c.3 as i64 {
                assert(near(self.cells@[k as int], r, halo as int));
                return true;
            }
            k += 1;
        }
        false
    }

    pub fn touches(&self, o: &Conductor) -> (b: bool)
        ensures
            b == self.contacts(o),
    {
        let mut k: usize = 0;
        while k < o.cells.len()
            invariant
                k <= o.cells@.len(),
                forall|a: int| 0 <= a < k ==> !self.meets(#[trigger] o.cells@[a], 0),
            decreases o.cells@.len() - k,
        {
            if self.touches_rect(o.cells[k], 0) {
                assert(self.meets(o.cells@[k as int], 0));
                return true;
            }
            k += 1;
        }
        false
    }
}

/// The rectangles are those of the listed cells of the grid.
spec fn cells_of(rects: Seq<Rect>, g: Grid, comp: Seq<(usize, usize)>) -> bool {
    &&& rects.len() == comp.len()
    &&& forall|a: int|
        0 <= a < rects.len() ==> {
            let r = #[trigger] rects[a];
            &&& r.0 == g.xs@[comp[a].0 as int] && r.1 == g.ys@[comp[a].1 as int]
            &&& r.2 == g.xs@[comp[a].0 + 1] && r.3 == g.ys@[comp[a].1 + 1]
        }
}

/// The lines of the grid are the edges of the layer.
#[verifier::opaque]
spec fn lined(g: Grid, boxes: Seq<LayerBox>, pins: Seq<LayerBox>, layer: i64) -> bool {
    g.on_edges(rects_of(boxes, layer), rects_of(pins, layer))
}

/// The grid of one layer.
fn layer_grid(boxes: &[LayerBox], pins: &[LayerBox], layer: i64) -> (g: Grid)
    ensures
        g.wf(),
        lined(g, boxes@, pins@, layer),
        g.metal() == layer_metal(boxes@, pins@, layer),
        g.metal().finite(),
{
    let rects = rects_on(boxes, layer);
    let subs = rects_on(pins, layer);
    let g = Grid::build(rects.as_slice(), subs.as_slice());
    proof {
        reveal(lined);
        lemma_layer_metal(boxes@, pins@, layer);
    }
    g
}

/// Cells of a grid whose lines are the edges of the layer are cells of the layer.
proof fn lemma_in_cells(
    rects: Seq<Rect>,
    g: Grid,
    comp: Seq<(usize, usize)>,
    boxes: Seq<LayerBox>,
    pins: Seq<LayerBox>,
    layer: i64,
)
    requires
        g.wf(),
        lined(g, boxes, pins, layer),
        g.covered_list(comp),
        components::in_order(comp),
        cells_of(rects, g, comp),
    ensures
        in_cells(rects, boxes, pins, layer),
{
    reveal(in_cells);
    reveal(lined);
    assert forall|k: int| 0 <= k < rects.len() implies is_cell(
        #[trigger] rects[k],
        boxes,
        pins,
        layer,
    ) by {
        let i = comp[k].0 as int;
        let j = comp[k].1 as int;
        assert(g.is_covered((i, j)));
        let r = rects[k];
        assert(g.xs@.contains(g.xs@[i]) && g.xs@.contains(g.xs@[i + 1]));
        assert(g.ys@.contains(g.ys@[j]) && g.ys@.contains(g.ys@[j + 1]));
        assert forall|x: i32| r.0 < x < r.2 implies !#[trigger] x_line(boxes, pins, layer, x) by {
            if x_line(boxes, pins, layer, x) {
                assert(g.xs@.contains(x));
                let a = choose|a: int| 0 <= a < g.xs@.len() && g.xs@[a] == x;
                if a < i {
                    assert(g.xs@[a] < g.xs@[i]);
                } else if a > i + 1 {
                    assert(g.xs@[i + 1] < g.xs@[a]);
                }
            }
        }
        assert forall|y: i32| r.1 < y < r.3 implies !#[trigger] y_line(boxes, pins, layer, y) by {
            if y_line(boxes, pins, layer, y) {
                assert(g.ys@.contains(y));
                let a = choose|a: int| 0 <= a < g.ys@.len() && g.ys@[a] == y;
                if a < j {
                    assert(g.ys@[a] < g.ys@[j]);
                } else if a > j + 1 {
                    assert(g.ys@[j + 1] < g.ys@[a]);
                }
            }
        }
    }
    assert forall|a: int, b: int|
        #![trigger rects[a], rects[b]]
        0 <= a < b < rects.len() implies rects[a].0 < rects[b].0 || rects[a].0 == rects[b].0
        && rects[a].1 < rects[b].1 by {
        assert(components::lex_less(comp[a], comp[b]));
        assert(g.is_covered((comp[a].0 as int, comp[a].1 as int)));
        assert(g.is_covered((comp[b].0 as int, comp[b].1 as int)));
    }
}

/// The conductor that the cells of one component make.
fn conductor_of(
    g: &Grid,
    comp: &Vec<(usize, usize)>,
    layer: i64,
    is_routing: bool,
) -> (c: Conductor)
    requires
        g.wf(),
        comp@.len() > 0,
        g.covered_list(comp@),
        squares::is_component(g.cells_union(comp@), g.metal()),
        g.metal().finite(),
        squares::area(g.metal()) <= i64::MAX,
        squares::perimeter(g.metal()) <= i64::MAX,
    ensures
        c.wf(),
        c.layer == layer,
        c.is_routing == is_routing,
        c.squares() == g.cells_union(comp@),
        cells_of(c.cells@, *g, comp@),
{
    let mut area: i64 = 0;
    let mut perimeter: i64 = 0;
    let mut cells: Vec<Rect> = Vec::new();
    let mut k: usize = 0;
    proof {
        assert(comp@.take(0) =~= Seq::empty());
    }
    while k < comp.len()
        invariant
            k <= comp@.len(),
            g.wf(),
            g.covered_list(comp@),
            g.metal().finite(),
            squares::area(g.metal()) <= i64::MAX,
            squares::perimeter(g.metal()) <= i64::MAX,
            area == g.area_sum(comp@.take(k as int)),
            perimeter == g.exposed_sum(comp@.take(k as int)),
            cells@.len() == k,
            forall|a: int|
                0 <= a < k ==> {
                    let c = (comp@[a].0 as int, comp@[a].1 as int);
                    let r = #[trigger] cells@[a];
                    &&& r.0 == g.xs@[c.0] && r.1 == g.ys@[c.1]
                    &&& r.2 == g.xs@[c.0 + 1] && r.3 == g.ys@[c.1 + 1]
                    &&& r.0 < r.2 && r.1 < r.3
                },
        decreases comp@.len() - k,
    {
        let (i, j) = comp[k];
        proof {
            assert(g.is_covered((comp@[k as int].0 as int, comp@[k as int].1 as int)));
            let done = comp@.take(k as int);
            let next = comp@.take(k + 1);
            assert(next =~= done.push((i, j)));
            assert(g.covered_list(done)) by {
                assert forall|a: int| 0 <= a < done.len() implies g.is_covered(
                    ((#[trigger] done[a]).0 as int, done[a].1 as int),
                ) by {
                    assert(done[a] == comp@[a]);
                }
            }
            assert(!done.contains((i, j))) by {
                if done.contains((i, j)) {
                    let a = choose|a: int| 0 <= a < done.len() && done[a] == (i, j);
                    assert(comp@[a] == comp@[k as int]);
                }
            }
            grid::lemma_push_cell(*g, done, (i, j));
            g.lemma_sums_bounded(next);
            g.lemma_area_sum(done);
        }
        let (dx, dy) = g.cell_size(i, j);
        assert(0 < dx * dy) by (nonlinear_arith)
            requires
                dx > 0,
                dy > 0,
        ;
        area += dx * dy;
        perimeter += g.exposed_edges(i, j);
        cells.push((g.xs[i], g.ys[j], g.xs[i + 1], g.ys[j + 1]));
        k += 1;
    }
    let c = Conductor { layer, is_routing, area, perimeter, cells };
    proof {
        assert(comp@.take(comp@.len() as int) =~= comp@);
        g.lemma_measures(comp@);
        let s = g.cells_union(comp@);
        assert forall|p: (int, int)| #[trigger] s.contains(p) <==> c.squares().contains(p) by {
            if s.contains(p) {
                let a = choose|a: int|
                    0 <= a < comp@.len() && #[trigger] g.cell(
                        (comp@[a].0 as int, comp@[a].1 as int),
                    ).contains(p);
                assert(squares::in_rect(c.cells@[a], p));
            }
            if c.squares().contains(p) {
                let a = choose|a: int|
                    0 <= a < c.cells@.len() && squares::in_rect(#[trigger] c.cells@[a], p);
                assert(g.cell((comp@[a].0 as int, comp@[a].1 as int)).contains(p));
            }
        }
        assert(c.squares() =~= s);
    }
    c
}

/// Layer numbers in strictly rising order.
pub open spec fn rising_layers(v: Seq<i64>) -> bool {
    forall|i: int, j: int| 0 <= i < j < v.len() ==> v[i] < v[j]
}

/// Add a layer number unless it is there already.
pub fn insert_layer(v: &mut Vec<i64>, x: i64)
    requires
        rising_layers(old(v)@),
    ensures
        rising_layers(final(v)@),
        forall|y: i64| #[trigger] final(v)@.contains(y) <==> old(v)@.contains(y) || y == x,
{
    let mut at: usize = 0;
    while at < v.len() && v[at] < x
        invariant
            at <= v@.len(),
            forall|k: int| 0 <= k < at ==> v@[k] < x,
        decreases v@.len() - at,
    {
        at += 1;
    }
    if at < v.len() && v[at] == x {
        assert(v@.contains(x));
    } else {
        let ghost before = v@;
        v.insert(at, x);
        proof {
            let after = v@;
            assert(after == before.insert(at as int, x));
            assert forall|y: i64| #[trigger] after.contains(y) <==> before.contains(y) || y == x by {
                if before.contains(y) {
                    let k = choose|k: int| 0 <= k < before.len() && before[k] == y;
                    assert(after[if k < at { k } else { k + 1 }] == y);
                }
                assert(after[at as int] == x);
                if after.contains(y) && y != x {
                    let k = choose|k: int| 0 <= k < after.len() && after[k] == y;
                    assert(before[if k < at { k } else { k - 1 }] == y);
                }
            }
        }
    }
}

/// The layers that the boxes lie on, in rising order.
pub fn layers_of(boxes: &[LayerBox]) -> (layers: Vec<i64>)
    ensures
        rising_layers(layers@),
        forall|l: i64| #[trigger] layers@.contains(l) <==> has_layer(boxes@, l),
{
    let mut layers: Vec<i64> = Vec::new();
    let mut k: usize = 0;
    while k < boxes.len()
        invariant
            k <= boxes@.len(),
            rising_layers(layers@),
            forall|l: i64| #[trigger]
                layers@.contains(l) <==> exists|a: int|
                    0 <= a < k && (#[trigger] boxes@[a]).layer == l,
        decreases boxes@.len() - k,
    {
        let ghost before = layers@;
        insert_layer(&mut layers, boxes[k].layer);
        proof {
            assert forall|l: i64| #[trigger] layers@.contains(l) <==> exists|a: int|
                0 <= a < k + 1 && (#[trigger] boxes@[a]).layer == l by {
                if layers@.contains(l) {
                    if before.contains(l) {
                        let a = choose|a: int| 0 <= a < k && (#[trigger] boxes@[a]).layer == l;
                        assert(boxes@[a].layer == l);
                    } else {
                        assert(boxes@[k as int].layer == l);
                    }
                }
                if exists|a: int| 0 <= a < k + 1 && (#[trigger] boxes@[a]).layer == l {
                    let a = choose|a: int| 0 <= a < k + 1 && (#[trigger] boxes@[a]).layer == l;
                    if a < k {
                        assert(before.contains(l));
                    }
                }
            }
        }
        k += 1;
    }
    layers
}

/// The rectangles of the boxes on one layer.
fn rects_on(boxes: &[LayerBox], layer: i64) -> (rects: Vec<Rect>)
    ensures
        rects@ == rects_of(boxes@, layer),
{
    let mut rects: Vec<Rect> = Vec::new();
    let mut k: usize = 0;
    while k < boxes.len()
        invariant
            k <= boxes@.len(),
            rects@ == rects_of(boxes@.take(k as int), layer),
        decreases boxes@.len() - k,
    {
        let b = boxes[k];
        assert(boxes@.take(k + 1).drop_last() =~= boxes@.take(k as int));
        if b.layer == layer {
            rects.push((b.x0, b.y0, b.x1, b.y1));
        }
        k += 1;
    }
    assert(boxes@.take(boxes@.len() as int) =~= boxes@);
    rects
}

/// Whether a layer that has a box is a routing layer.
fn routing_flag(boxes: &[LayerBox], layer: i64) -> (b: bool)
    ensures
        b == layer_is_routing(boxes@, layer),
{
    let mut k: usize = 0;
    while k < boxes.len()
        invariant
            k <= boxes@.len(),
            forall|j: int| 0 <= j < k ==> (#[trigger] boxes@[j]).layer != layer,
        decreases boxes@.len() - k,
    {
        if boxes[k].layer == layer {
            proof {
                assert(boxes@[k as int].layer == layer);
                if layer_is_routing(boxes@, layer) {
                    let a = choose|a: int|
                        0 <= a < boxes@.len() && (#[trigger] boxes@[a]).layer == layer
                            && boxes@[a].is_routing && (forall|j: int|
                            0 <= j < a ==> (#[trigger] boxes@[j]).layer != layer);
                    assert(a == k);
                }
            }
            return boxes[k].is_routing;
        }
        k += 1;
    }
    false
}

/// The summed area of the routing conductors.
pub open spec fn routing_area(cs: Seq<Conductor>) -> int
    decreases cs.len(),
{
    if cs.len() == 0 {
        0
    } else {
        routing_area(cs.drop_last()) + if cs.last().is_routing {
            cs.last().area as int
        } else {
            0
        }
    }
}

/// The summed perimeter of the routing conductors.
pub open spec fn routing_perimeter(cs: Seq<Conductor>) -> int
    decreases cs.len(),
{
    if cs.len() == 0 {
        0
    } else {
        routing_perimeter(cs.drop_last()) + if cs.last().is_routing {
            cs.last().perimeter as int
        } else {
            0
        }
    }
}

/// Four edges to a square, conductor by conductor.
pub proof fn lemma_routing_perimeter(cs: Seq<Conductor>)
    requires
        forall|k: int| 0 <= k < cs.len() ==> (#[trigger] cs[k]).wf(),
    ensures
        0 <= routing_perimeter(cs) <= 4 * routing_area(cs),
    decreases cs.len(),
{
    if cs.len() > 0 {
        let front = cs.drop_last();
        assert forall|k: int| 0 <= k < front.len() implies (#[trigger] front[k]).wf() by {
            assert(front[k] == cs[k]);
        }
        lemma_routing_perimeter(front);
        let c = cs[cs.len() - 1];
        squares::lemma_squares_finite(c.cells@);
        squares::lemma_perimeter_bound(c.squares());
    }
}

/// `s` has a square before every square of `t`, columns first.
pub open spec fn begins_before(s: Set<(int, int)>, t: Set<(int, int)>) -> bool {
    exists|p: (int, int)| #[trigger]
        s.contains(p) && forall|q: (int, int)| #[trigger]
            t.contains(q) ==> p.0 < q.0 || p.0 == q.0 && p.1 < q.1
}

/// What is left of the rectangles of one layer is the metal that the pins leave there.
pub proof fn lemma_layer_metal(boxes: Seq<LayerBox>, pins: Seq<LayerBox>, layer: i64)
    ensures
        squares::metal_of(rects_of(boxes, layer), rects_of(pins, layer)) == layer_metal(
            boxes,
            pins,
            layer,
        ),
        layer_metal(boxes, pins, layer).finite(),
        squares::area(layer_metal(boxes, pins, layer)) <= drawn_area(
            boxes,
            boxes.len() as int,
            on_layer(layer),
        ),
        squares::perimeter(layer_metal(boxes, pins, layer)) <= 4 * squares::area(
            layer_metal(boxes, pins, layer),
        ),
{
    let add = rects_of(boxes, layer);
    let sub = rects_of(pins, layer);
    lemma_rects_of(boxes, layer, boxes.len() as int);
    lemma_rects_of(pins, layer, pins.len() as int);
    assert(boxes.take(boxes.len() as int) =~= boxes);
    assert(pins.take(pins.len() as int) =~= pins);
    assert(squares::metal_of(add, sub) =~= layer_metal(boxes, pins, layer)) by {
        assert forall|p: (int, int)| squares::metal_of(add, sub).contains(p)
            <==> #[trigger] layer_metal(boxes, pins, layer).contains(p) by {
            assert(boxed(boxes, layer, p) <==> squares::in_rects(add, p));
            assert(boxed(pins, layer, p) <==> squares::in_rects(sub, p));
        }
    }
    squares::lemma_metal_finite(add, sub);
    squares::lemma_metal_bound(add, sub);
    squares::lemma_perimeter_bound(squares::metal_of(add, sub));
}

/// Little metal fits: where four times what is drawn fits in `i64`, so does everything measured.
pub proof fn lemma_modest_fits(boxes: Seq<LayerBox>, pins: Seq<LayerBox>)
    requires
        modest_net(boxes),
    ensures
        net_fits(boxes, pins),
{
    let every = |b: LayerBox| true;
    let n = boxes.len() as int;
    assert forall|layer: i64|
        squares::area(#[trigger] layer_metal(boxes, pins, layer)) <= i64::MAX && squares::perimeter(
            layer_metal(boxes, pins, layer),
        ) <= i64::MAX by {
        lemma_layer_metal(boxes, pins, layer);
        lemma_drawn_more(boxes, n, on_layer(layer), every);
    }
    lemma_sum_within(boxes, pins, n);
    lemma_drawn_more(boxes, n, opened_before(boxes, n), every);
}

/// The boxes on the layers of the first `n`.
spec fn opened_before(boxes: Seq<LayerBox>, n: int) -> spec_fn(LayerBox) -> bool {
    |b: LayerBox| exists|j: int| 0 <= j < n && (#[trigger] boxes[j]).layer == b.layer
}

proof fn lemma_sum_within(boxes: Seq<LayerBox>, pins: Seq<LayerBox>, n: int)
    requires
        0 <= n <= boxes.len(),
    ensures
        routing_sum(boxes, pins, n, i64::MAX as int, metal_area()) <= drawn_area(
            boxes,
            boxes.len() as int,
            opened_before(boxes, n),
        ),
        routing_sum(boxes, pins, n, i64::MAX as int, metal_perimeter()) <= 4 * drawn_area(
            boxes,
            boxes.len() as int,
            opened_before(boxes, n),
        ),
    decreases n,
{
    let all = boxes.len() as int;
    if n > 0 {
        lemma_sum_within(boxes, pins, n - 1);
        let layer = boxes[n - 1].layer;
        let was = opened_before(boxes, n - 1);
        let is = opened_before(boxes, n);
        lemma_layer_metal(boxes, pins, layer);
        assert forall|b: LayerBox| #[trigger] is(b) == (was(b) || b.layer == layer) by {
            if is(b) {
                let j = choose|j: int| 0 <= j < n && (#[trigger] boxes[j]).layer == b.layer;
                if j < n - 1 {
                    assert(boxes[j].layer == b.layer);
                }
            }
            if was(b) {
                let j = choose|j: int| 0 <= j < n - 1 && (#[trigger] boxes[j]).layer == b.layer;
                assert(boxes[j].layer == b.layer);
            }
            if b.layer == layer {
                assert(boxes[n - 1].layer == b.layer);
            }
        }
        if opens_layer(boxes, n - 1) {
            let on = on_layer(layer);
            assert forall|b: LayerBox| #![trigger was(b)] #![trigger on(b)] !(was(b) && on(b)) by {
                if was(b) && on(b) {
                    let j = choose|j: int|
                        0 <= j < n - 1 && (#[trigger] boxes[j]).layer == b.layer;
                    assert(boxes[j].layer != boxes[n - 1].layer);
                }
            }
            lemma_drawn_apart(boxes, all, was, on, is);
            lemma_drawn_more(boxes, all, on, on);
        } else {
            lemma_drawn_more(boxes, all, was, is);
        }
    } else {
        lemma_drawn_more(boxes, all, opened_before(boxes, 0), opened_before(boxes, 0));
    }
}

/// A higher bound adds no less.
proof fn lemma_routing_sum_grows(
    boxes: Seq<LayerBox>,
    pins: Seq<LayerBox>,
    n: int,
    low: int,
    high: int,
)
    requires
        low <= high,
    ensures
        routing_sum(boxes, pins, n, low, metal_area()) <= routing_sum(
            boxes,
            pins,
            n,
            high,
            metal_area(),
        ),
        routing_sum(boxes, pins, n, low, metal_perimeter()) <= routing_sum(
            boxes,
            pins,
            n,
            high,
            metal_perimeter(),
        ),
    decreases n,
{
    if n > 0 {
        lemma_routing_sum_grows(boxes, pins, n - 1, low, high);
    }
}

/// Without a box there is no metal.
proof fn lemma_no_metal(boxes: Seq<LayerBox>, pins: Seq<LayerBox>, layer: i64)
    requires
        !has_layer(boxes, layer),
    ensures
        squares::area(layer_metal(boxes, pins, layer)) == 0,
        squares::perimeter(layer_metal(boxes, pins, layer)) == 0,
{
    lemma_layer_metal(boxes, pins, layer);
    let m = layer_metal(boxes, pins, layer);
    assert(m =~= Set::empty()) by {
        assert forall|p: (int, int)| !m.contains(p) by {
            if m.contains(p) {
                assert(boxed(boxes, layer, p));
                let k = choose|k: int|
                    0 <= k < boxes.len() && (#[trigger] boxes[k]).layer == layer
                        && squares::in_rect(boxes[k].rect(), p);
                assert(boxes[k].layer == layer);
            }
        }
    }
}

/// Whether everything measured of the net fits in `i64`.
pub fn fits(boxes: &[LayerBox], pins: &[LayerBox]) -> (b: bool)
    ensures
        b == net_fits(boxes@, pins@),
{
    let present = layers_of(boxes);
    let ghost all = boxes@.len() as int;
    let mut area: i128 = 0;
    let mut perimeter: i128 = 0;
    let mut n: usize = 0;
    proof {
        lemma_bound_start(boxes@, pins@);
    }
    while n < present.len()
        invariant
            n <= present@.len(),
            all == boxes@.len(),
            rising_layers(present@),
            forall|l: i64| #[trigger] present@.contains(l) <==> has_layer(boxes@, l),
            area == routing_sum(boxes@, pins@, all, bound_at(present@, n as int), metal_area()),
            perimeter == routing_sum(
                boxes@,
                pins@,
                all,
                bound_at(present@, n as int),
                metal_perimeter(),
            ),
            0 <= area <= i64::MAX,
            0 <= perimeter <= i64::MAX,
            forall|a: int|
                #![trigger present@[a]]
                0 <= a < n ==> squares::area(layer_metal(boxes@, pins@, present@[a])) <= i64::MAX
                    && squares::perimeter(layer_metal(boxes@, pins@, present@[a])) <= i64::MAX,
        decreases present@.len() - n,
    {
        let layer = present[n];
        let g = layer_grid(boxes, pins, layer);
        let (a, p) = g.measure();
        if a > i64::MAX as i128 || p > i64::MAX as i128 {
            assert(!(squares::area(layer_metal(boxes@, pins@, layer)) <= i64::MAX
                && squares::perimeter(layer_metal(boxes@, pins@, layer)) <= i64::MAX));
            return false;
        }
        proof {
            lemma_bound_step(boxes@, pins@, present@, n as int);
            lemma_routing_sum_grows(
                boxes@,
                pins@,
                all,
                bound_at(present@, n + 1),
                i64::MAX as int,
            );
        }
        if routing_flag(boxes, layer) {
            area = area + a;
            perimeter = perimeter + p;
        }
        if area > i64::MAX as i128 || perimeter > i64::MAX as i128 {
            return false;
        }
        n += 1;
    }
    proof {
        lemma_bound_end(boxes@, pins@, present@);
        assert(layers_fit(boxes@, pins@)) by {
            assert forall|layer: i64|
                squares::area(#[trigger] layer_metal(boxes@, pins@, layer)) <= i64::MAX
                    && squares::perimeter(layer_metal(boxes@, pins@, layer)) <= i64::MAX by {
                if has_layer(boxes@, layer) {
                    assert(present@.contains(layer));
                    let k = choose|k: int| 0 <= k < present@.len() && present@[k] == layer;
                    assert(present@[k] == layer);
                } else {
                    lemma_no_metal(boxes@, pins@, layer);
                }
            }
        }
    }
    true
}

/// The layer that the first `n` of the layers reach up to.
pub open spec fn bound_at(present: Seq<i64>, n: int) -> int {
    if n <= 0 {
        i64::MIN - 1
    } else {
        present[n - 1] as int
    }
}

pub proof fn lemma_bound_start(boxes: Seq<LayerBox>, pins: Seq<LayerBox>)
    ensures
        routing_sum(boxes, pins, boxes.len() as int, i64::MIN - 1, metal_area()) == 0,
        routing_sum(boxes, pins, boxes.len() as int, i64::MIN - 1, metal_perimeter()) == 0,
{
    lemma_routing_sum_none(boxes, pins, boxes.len() as int, i64::MIN - 1, metal_area());
    lemma_routing_sum_none(boxes, pins, boxes.len() as int, i64::MIN - 1, metal_perimeter());
}

/// The next layer adds its own measures, if it is a routing layer.
pub proof fn lemma_bound_step(
    boxes: Seq<LayerBox>,
    pins: Seq<LayerBox>,
    present: Seq<i64>,
    n: int,
)
    requires
        0 <= n < present.len(),
        rising_layers(present),
        forall|l: i64| #[trigger] present.contains(l) <==> has_layer(boxes, l),
    ensures
        routing_sum(boxes, pins, boxes.len() as int, bound_at(present, n + 1), metal_area())
            == routing_sum(boxes, pins, boxes.len() as int, bound_at(present, n), metal_area())
            + if layer_is_routing(boxes, present[n]) {
            squares::area(layer_metal(boxes, pins, present[n])) as int
        } else {
            0
        },
        routing_sum(boxes, pins, boxes.len() as int, bound_at(present, n + 1), metal_perimeter())
            == routing_sum(boxes, pins, boxes.len() as int, bound_at(present, n), metal_perimeter())
            + if layer_is_routing(boxes, present[n]) {
            squares::perimeter(layer_metal(boxes, pins, present[n])) as int
        } else {
            0
        },
{
    let all = boxes.len() as int;
    let low = bound_at(present, n);
    let layer = present[n];
    assert(present.contains(layer));
    assert(boxes.take(all) =~= boxes);
    assert forall|k: int| 0 <= k < boxes.len() implies !(low < (#[trigger] boxes[k]).layer
        && boxes[k].layer < layer) by {
        let l = boxes[k].layer;
        assert(has_layer(boxes, l));
        assert(present.contains(l));
        let a = choose|a: int| 0 <= a < present.len() && present[a] == l;
        if a < n {
            if a < n - 1 {
                assert(present[a] < present[n - 1]);
            }
        } else if a > n {
            assert(present[n] < present[a]);
        }
    }
    if n > 0 {
        assert(present[n - 1] < present[n]);
    }
    lemma_routing_sum_step(boxes, pins, all, low, layer, metal_area());
    lemma_routing_sum_step(boxes, pins, all, low, layer, metal_perimeter());
}

/// With the last layer all is counted.
pub proof fn lemma_bound_end(boxes: Seq<LayerBox>, pins: Seq<LayerBox>, present: Seq<i64>)
    requires
        rising_layers(present),
        forall|l: i64| #[trigger] present.contains(l) <==> has_layer(boxes, l),
    ensures
        routing_sum(
            boxes,
            pins,
            boxes.len() as int,
            bound_at(present, present.len() as int),
            metal_area(),
        ) == routing_total(boxes, pins, metal_area()),
        routing_sum(
            boxes,
            pins,
            boxes.len() as int,
            bound_at(present, present.len() as int),
            metal_perimeter(),
        ) == routing_total(boxes, pins, metal_perimeter()),
{
    let all = boxes.len() as int;
    let low = bound_at(present, present.len() as int);
    assert forall|k: int| 0 <= k < boxes.len() implies (#[trigger] boxes[k]).layer <= low
        || boxes[k].layer > i64::MAX by {
        let l = boxes[k].layer;
        assert(has_layer(boxes, l));
        assert(present.contains(l));
        let a = choose|a: int| 0 <= a < present.len() && present[a] == l;
        if a < present.len() - 1 {
            assert(present[a] < present[present.len() - 1]);
        }
    }
    lemma_routing_sum_top(boxes, pins, all, low, i64::MAX as int, metal_area());
    lemma_routing_sum_top(boxes, pins, all, low, i64::MAX as int, metal_perimeter());
}

/// The conductors are exactly the connected components of the layer's metal, each once, in the
/// order in which they begin.
pub open spec fn splits_layer(
    cs: Seq<Conductor>,
    boxes: Seq<LayerBox>,
    pins: Seq<LayerBox>,
    layer: i64,
) -> bool {
    &&& forall|i: int|
        0 <= i < cs.len() ==> {
            let c = #[trigger] cs[i];
            &&& c.wf()
            &&& c.layer == layer
            &&& c.is_routing == layer_is_routing(boxes, layer)
            &&& squares::is_component(c.squares(), layer_metal(boxes, pins, layer))
            &&& in_cells(c.cells@, boxes, pins, layer)
        }
    &&& apart_in_order(cs)
    &&& all_metal(cs, layer_metal(boxes, pins, layer))
}

/// No two share a square, and each begins before the next.
pub open spec fn apart_in_order(cs: Seq<Conductor>) -> bool {
    forall|i: int, j: int|
        #![trigger cs[i], cs[j]]
        0 <= i < j < cs.len() ==> cs[i].squares().disjoint(cs[j].squares()) && begins_before(
            cs[i].squares(),
            cs[j].squares(),
        )
}

/// Every square of the metal is in one of the conductors.
pub open spec fn all_metal(cs: Seq<Conductor>, m: Set<(int, int)>) -> bool {
    forall|p: (int, int)| #[trigger]
        m.contains(p) ==> exists|i: int| 0 <= i < cs.len() && (#[trigger] cs[i]).squares().contains(p)
}

/// The components are the layer's, in their order.
#[verifier::opaque]
spec fn are_parts(comps: Seq<Vec<(usize, usize)>>, g: Grid) -> bool {
    &&& forall|b: int|
        #![trigger comps[b]]
        0 <= b < comps.len() ==> {
            &&& comps[b]@.len() > 0
            &&& components::in_order(comps[b]@)
            &&& g.covered_list(comps[b]@)
            &&& squares::is_component(g.cells_union(comps[b]@), g.metal())
        }
    &&& forall|i: usize, j: usize|
        g.is_covered((i as int, j as int)) ==> exists|b: int|
            0 <= b < comps.len() && #[trigger] comps[b]@.contains((i, j))
    &&& forall|b: int, c: int|
        0 <= b < c < comps.len() ==> {
            &&& components::lex_less(#[trigger] comps[b]@[0], #[trigger] comps[c]@[0])
            &&& forall|x: (usize, usize)|
                !(#[trigger] comps[b]@.contains(x) && comps[c]@.contains(x))
        }
}

/// `c` is made of the cells of one component.
#[verifier::opaque]
spec fn is_made(
    c: Conductor,
    g: Grid,
    comp: Seq<(usize, usize)>,
    boxes: Seq<LayerBox>,
    pins: Seq<LayerBox>,
    layer: i64,
    is_routing: bool,
) -> bool {
    &&& c.wf()
    &&& c.layer == layer
    &&& c.is_routing == is_routing
    &&& c.squares() == g.cells_union(comp)
    &&& in_cells(c.cells@, boxes, pins, layer)
}

/// The components of a grid.
fn parts_of(g: &Grid) -> (comps: Vec<Vec<(usize, usize)>>)
    requires
        g.wf(),
    ensures
        are_parts(comps@, *g),
{
    let comps = label_components(g);
    proof {
        reveal(are_parts);
    }
    comps
}

/// The conductor that one component makes.
fn make_conductor(
    g: &Grid,
    comps: &Vec<Vec<(usize, usize)>>,
    a: usize,
    layer: i64,
    is_routing: bool,
    boxes: Ghost<Seq<LayerBox>>,
    pins: Ghost<Seq<LayerBox>>,
) -> (c: Conductor)
    requires
        g.wf(),
        g.metal().finite(),
        squares::area(g.metal()) <= i64::MAX,
        squares::perimeter(g.metal()) <= i64::MAX,
        lined(*g, boxes@, pins@, layer),
        are_parts(comps@, *g),
        a < comps@.len(),
    ensures
        is_made(c, *g, comps@[a as int]@, boxes@, pins@, layer, is_routing),
{
    proof {
        reveal(are_parts);
        reveal(is_made);
        assert(comps@[a as int]@.len() > 0);
    }
    let c = conductor_of(g, &comps[a], layer, is_routing);
    proof {
        lemma_in_cells(c.cells@, *g, comps@[a as int]@, boxes@, pins@, layer);
    }
    c
}

/// The conductors of one layer.
#[verifier::spinoff_prover]
pub fn layer_conductors(boxes: &[LayerBox], pins: &[LayerBox], layer: i64) -> (cs: Vec<Conductor>)
    requires
        layers_fit(boxes@, pins@),
    ensures
        splits_layer(cs@, boxes@, pins@, layer),
        routing_area(cs@) == (if layer_is_routing(boxes@, layer) {
            squares::area(layer_metal(boxes@, pins@, layer)) as int
        } else {
            0
        }),
        routing_perimeter(cs@) == (if layer_is_routing(boxes@, layer) {
            squares::perimeter(layer_metal(boxes@, pins@, layer)) as int
        } else {
            0
        }),
{
    let g = layer_grid(boxes, pins, layer);
    let is_routing = routing_flag(boxes, layer);
    let comps = parts_of(&g);
    assert(squares::area(layer_metal(boxes@, pins@, layer)) <= i64::MAX);
    let mut cs: Vec<Conductor> = Vec::new();
    let mut a: usize = 0;
    while a < comps.len()
        invariant
            a <= comps@.len(),
            g.wf(),
            g.metal().finite(),
            squares::area(g.metal()) <= i64::MAX,
            squares::perimeter(g.metal()) <= i64::MAX,
            are_parts(comps@, g),
            lined(g, boxes@, pins@, layer),
            cs@.len() == a,
            forall|b: int|
                0 <= b < a ==> is_made(
                    #[trigger] cs@[b],
                    g,
                    comps@[b]@,
                    boxes@,
                    pins@,
                    layer,
                    is_routing,
                ),
        decreases comps@.len() - a,
    {
        let c = make_conductor(&g, &comps, a, layer, is_routing, Ghost(boxes@), Ghost(pins@));
        cs.push(c);
        a += 1;
    }
    proof {
        lemma_layer_split(g, comps@, cs@, boxes@, pins@, layer, is_routing);
    }
    cs
}

/// Conductors made of all components of a layer split it, and their measures are the layer's.
proof fn lemma_layer_split(
    g: Grid,
    comps: Seq<Vec<(usize, usize)>>,
    cs: Seq<Conductor>,
    boxes: Seq<LayerBox>,
    pins: Seq<LayerBox>,
    layer: i64,
    is_routing: bool,
)
    requires
        g.wf(),
        g.metal() == layer_metal(boxes, pins, layer),
        g.metal().finite(),
        are_parts(comps, g),
        is_routing == layer_is_routing(boxes, layer),
        cs.len() == comps.len(),
        forall|b: int|
            0 <= b < cs.len() ==> is_made(
                #[trigger] cs[b],
                g,
                comps[b]@,
                boxes,
                pins,
                layer,
                is_routing,
            ),
    ensures
        splits_layer(cs, boxes, pins, layer),
        routing_area(cs) == (if is_routing {
            squares::area(g.metal()) as int
        } else {
            0
        }),
        routing_perimeter(cs) == (if is_routing {
            squares::perimeter(g.metal()) as int
        } else {
            0
        }),
{
    let m = g.metal();
    assert forall|i: int| 0 <= i < cs.len() implies {
        let c = #[trigger] cs[i];
        &&& c.wf()
        &&& c.layer == layer
        &&& c.is_routing == is_routing
        &&& squares::is_component(c.squares(), m)
        &&& in_cells(c.cells@, boxes, pins, layer)
    } by {
        lemma_made_one(g, comps, cs[i], boxes, pins, layer, is_routing, i);
    }
    lemma_made_all(g, comps, cs, boxes, pins, layer, is_routing);
    lemma_split_measures(cs, m, is_routing);
}

/// What is made of one component.
proof fn lemma_made_one(
    g: Grid,
    comps: Seq<Vec<(usize, usize)>>,
    c: Conductor,
    boxes: Seq<LayerBox>,
    pins: Seq<LayerBox>,
    layer: i64,
    is_routing: bool,
    i: int,
)
    requires
        are_parts(comps, g),
        0 <= i < comps.len(),
        is_made(c, g, comps[i]@, boxes, pins, layer, is_routing),
    ensures
        c.wf(),
        c.layer == layer,
        c.is_routing == is_routing,
        squares::is_component(c.squares(), g.metal()),
        in_cells(c.cells@, boxes, pins, layer),
{
    assert(c.squares() == g.cells_union(comps[i]@)) by {
        reveal(is_made);
    }
    assert(squares::is_component(g.cells_union(comps[i]@), g.metal())) by {
        reveal(are_parts);
        assert(comps[i]@.len() > 0);
    }
    assert(c.wf() && c.layer == layer && c.is_routing == is_routing && in_cells(
        c.cells@,
        boxes,
        pins,
        layer,
    )) by {
        reveal(is_made);
    }
}

/// What is made of all components.
#[verifier::spinoff_prover]
proof fn lemma_made_all(
    g: Grid,
    comps: Seq<Vec<(usize, usize)>>,
    cs: Seq<Conductor>,
    boxes: Seq<LayerBox>,
    pins: Seq<LayerBox>,
    layer: i64,
    is_routing: bool,
)
    requires
        g.wf(),
        are_parts(comps, g),
        cs.len() == comps.len(),
        forall|b: int|
            0 <= b < cs.len() ==> is_made(
                #[trigger] cs[b],
                g,
                comps[b]@,
                boxes,
                pins,
                layer,
                is_routing,
            ),
    ensures
        apart_in_order(cs),
        all_metal(cs, g.metal()),
{
    assert forall|b: int| 0 <= b < comps.len() implies (#[trigger] cs[b]).squares()
        == g.cells_union(comps[b]@) by {
        reveal(is_made);
        assert(is_made(cs[b], g, comps[b]@, boxes, pins, layer, is_routing));
    }
    reveal(are_parts);
    lemma_made_of(g, comps, cs);
}

/// The measures of conductors that split the metal are the metal's.
proof fn lemma_split_measures(cs: Seq<Conductor>, m: Set<(int, int)>, is_routing: bool)
    requires
        m.finite(),
        apart_in_order(cs),
        all_metal(cs, m),
        forall|i: int|
            0 <= i < cs.len() ==> {
                let c = #[trigger] cs[i];
                c.wf() && c.is_routing == is_routing && squares::is_component(c.squares(), m)
            },
    ensures
        routing_area(cs) == (if is_routing {
            squares::area(m) as int
        } else {
            0
        }),
        routing_perimeter(cs) == (if is_routing {
            squares::perimeter(m) as int
        } else {
            0
        }),
{
    lemma_measures_add_up(cs, m, is_routing);
    assert(squares_of_all(cs) =~= m) by {
        assert forall|p: (int, int)| squares_of_all(cs).contains(p) implies m.contains(p) by {
            let i = choose|i: int| 0 <= i < cs.len() && (#[trigger] cs[i]).squares().contains(p);
            assert(squares::is_component(cs[i].squares(), m));
        }
    }
}

/// Conductors made of the components, one by one, are apart, in order, and all of the metal.
proof fn lemma_made_of(g: Grid, comps: Seq<Vec<(usize, usize)>>, cs: Seq<Conductor>)
    requires
        g.wf(),
        cs.len() == comps.len(),
        forall|b: int|
            0 <= b < comps.len() ==> (#[trigger] cs[b]).squares() == g.cells_union(comps[b]@),
        forall|b: int|
            #![trigger comps[b]]
            0 <= b < comps.len() ==> {
                &&& comps[b]@.len() > 0
                &&& components::in_order(comps[b]@)
                &&& g.covered_list(comps[b]@)
            },
        forall|i: usize, j: usize|
            g.is_covered((i as int, j as int)) ==> exists|b: int|
                0 <= b < comps.len() && #[trigger] comps[b]@.contains((i, j)),
        forall|b: int, c: int|
            0 <= b < c < comps.len() ==> {
                &&& components::lex_less(#[trigger] comps[b]@[0], #[trigger] comps[c]@[0])
                &&& forall|x: (usize, usize)|
                    !(#[trigger] comps[b]@.contains(x) && comps[c]@.contains(x))
            },
    ensures
        apart_in_order(cs),
        all_metal(cs, g.metal()),
{
    assert forall|i: int, j: int|
        #![trigger cs[i], cs[j]]
        0 <= i < j < cs.len() implies cs[i].squares().disjoint(cs[j].squares()) && begins_before(
        cs[i].squares(),
        cs[j].squares(),
    ) by {
        let x = comps[i]@;
        let y = comps[j]@;
        assert(components::lex_less(comps[i]@[0], comps[j]@[0]));
        assert forall|p: (int, int)| #[trigger] g.cells_union(x).contains(p) implies !g.cells_union(
            y,
        ).contains(p) by {
            lemma_lists_apart(g, x, y, p);
        }
        lemma_lists_ordered(g, x, y);
    }
    assert forall|p: (int, int)| #[trigger] g.metal().contains(p) implies exists|k: int|
        0 <= k < cs.len() && (#[trigger] cs[k]).squares().contains(p) by {
        let c = choose|c: (int, int)| #[trigger] g.is_covered(c) && g.cell(c).contains(p);
        let i = c.0 as usize;
        let j = c.1 as usize;
        assert(g.is_covered((i as int, j as int)));
        let b = choose|b: int| 0 <= b < comps.len() && #[trigger] comps[b]@.contains((i, j));
        let e = choose|e: int| 0 <= e < comps[b]@.len() && comps[b]@[e] == (i, j);
        assert(g.cell((comps[b]@[e].0 as int, comps[b]@[e].1 as int)).contains(p));
        assert(cs[b].squares().contains(p));
    }
}

/// The squares of all conductors of a list.
spec fn squares_of_all(cs: Seq<Conductor>) -> Set<(int, int)> {
    Set::new(|p: (int, int)| exists|i: int| 0 <= i < cs.len() && (#[trigger] cs[i]).squares().contains(p))
}

/// Components that are apart have, together, the measures of the metal that they are.
proof fn lemma_measures_add_up(cs: Seq<Conductor>, m: Set<(int, int)>, routing: bool)
    requires
        apart_in_order(cs),
        forall|i: int|
            0 <= i < cs.len() ==> {
                let c = #[trigger] cs[i];
                c.wf() && c.is_routing == routing && squares::is_component(c.squares(), m)
            },
    ensures
        squares_of_all(cs).finite(),
        routing_area(cs) == (if routing {
            squares::area(squares_of_all(cs)) as int
        } else {
            0
        }),
        routing_perimeter(cs) == (if routing {
            squares::perimeter(squares_of_all(cs)) as int
        } else {
            0
        }),
    decreases cs.len(),
{
    let all = squares_of_all(cs);
    if cs.len() == 0 {
        assert(all =~= Set::empty());
        squares::lemma_perimeter_bound(all);
    } else {
        let front = cs.drop_last();
        let n = cs.len() - 1;
        let last = cs[n].squares();
        let before = squares_of_all(front);
        assert forall|i: int| 0 <= i < front.len() implies {
            let c = #[trigger] front[i];
            c.wf() && c.is_routing == routing && squares::is_component(c.squares(), m)
        } by {
            assert(front[i] == cs[i]);
        }
        assert(apart_in_order(front)) by {
            assert forall|i: int, j: int|
                #![trigger front[i], front[j]]
                0 <= i < j < front.len() implies front[i].squares().disjoint(front[j].squares())
                && begins_before(front[i].squares(), front[j].squares()) by {
                assert(front[i] == cs[i] && front[j] == cs[j]);
            }
        }
        lemma_measures_add_up(front, m, routing);
        assert(cs[n].wf());
        squares::lemma_squares_finite(cs[n].cells@);
        lemma_all_but_last(cs);
        assert(squares::no_edge(before, last)) by {
            assert forall|p: (int, int), q: (int, int)|
                #![trigger before.contains(p), last.contains(q)]
                before.contains(p) && last.contains(q) implies p != q && !squares::adjacent(
                p,
                q,
            ) by {
                let i = choose|i: int|
                    0 <= i < front.len() && (#[trigger] front[i]).squares().contains(p);
                assert(front[i] == cs[i]);
                assert(cs[i].squares().disjoint(cs[n].squares()));
                if squares::adjacent(p, q) {
                    assert(m.contains(q));
                    assert(cs[i].squares().contains(q));
                }
            }
        }
        squares::lemma_apart_measures(before, last);
    }
}

proof fn lemma_all_but_last(cs: Seq<Conductor>)
    requires
        cs.len() > 0,
    ensures
        squares_of_all(cs) == squares_of_all(cs.drop_last()).union(cs.last().squares()),
{
    let front = cs.drop_last();
    let all = squares_of_all(cs);
    let parts = squares_of_all(front).union(cs.last().squares());
    assert forall|p: (int, int)| all.contains(p) <==> parts.contains(p) by {
        if all.contains(p) {
            let i = choose|i: int| 0 <= i < cs.len() && (#[trigger] cs[i]).squares().contains(p);
            if i < front.len() {
                assert(front[i].squares().contains(p));
            }
        }
        if squares_of_all(front).contains(p) {
            let i = choose|i: int|
                0 <= i < front.len() && (#[trigger] front[i]).squares().contains(p);
            assert(cs[i].squares().contains(p));
        }
        if cs.last().squares().contains(p) {
            assert(cs[cs.len() - 1].squares().contains(p));
        }
    }
    assert(all =~= parts);
}

/// Measures of two lists add up.
pub proof fn lemma_routing_joined(a: Seq<Conductor>, b: Seq<Conductor>)
    ensures
        routing_area(a + b) == routing_area(a) + routing_area(b),
        routing_perimeter(a + b) == routing_perimeter(a) + routing_perimeter(b),
    decreases b.len(),
{
    if b.len() == 0 {
        assert(a + b =~= a);
    } else {
        lemma_routing_joined(a, b.drop_last());
        assert((a + b).drop_last() =~= a + b.drop_last());
    }
}

/// Two lists of covered cells without a cell in common have no square in common.
proof fn lemma_lists_apart(
    g: Grid,
    x: Seq<(usize, usize)>,
    y: Seq<(usize, usize)>,
    p: (int, int),
)
    requires
        g.wf(),
        g.covered_list(x),
        g.covered_list(y),
        forall|c: (usize, usize)| !(#[trigger] x.contains(c) && y.contains(c)),
    ensures
        !(g.cells_union(x).contains(p) && g.cells_union(y).contains(p)),
{
    if g.cells_union(x).contains(p) && g.cells_union(y).contains(p) {
        let a = choose|a: int|
            0 <= a < x.len() && #[trigger] g.cell((x[a].0 as int, x[a].1 as int)).contains(p);
        let b = choose|b: int|
            0 <= b < y.len() && #[trigger] g.cell((y[b].0 as int, y[b].1 as int)).contains(p);
        assert(g.is_covered((x[a].0 as int, x[a].1 as int)));
        assert(g.is_covered((y[b].0 as int, y[b].1 as int)));
        g.lemma_one_cell((x[a].0 as int, x[a].1 as int), (y[b].0 as int, y[b].1 as int), p);
        assert(x.contains(x[a]));
        assert(y.contains(y[b]));
    }
}

/// Of two ordered lists the one whose first cell comes first begins before the other.
proof fn lemma_lists_ordered(g: Grid, x: Seq<(usize, usize)>, y: Seq<(usize, usize)>)
    requires
        g.wf(),
        g.covered_list(x),
        g.covered_list(y),
        x.len() > 0,
        y.len() > 0,
        components::in_order(y),
        components::lex_less(x[0], y[0]),
    ensures
        begins_before(g.cells_union(x), g.cells_union(y)),
{
    let c = (x[0].0 as int, x[0].1 as int);
    assert(g.is_covered(c));
    g.lemma_corner(c);
    let p = g.corner(c);
    assert(g.cell((x[0].0 as int, x[0].1 as int)).contains(p));
    assert(g.cells_union(x).contains(p));
    assert forall|q: (int, int)| #[trigger] g.cells_union(y).contains(q) implies p.0 < q.0 || p.0
        == q.0 && p.1 < q.1 by {
        let b = choose|b: int|
            0 <= b < y.len() && #[trigger] g.cell((y[b].0 as int, y[b].1 as int)).contains(q);
        assert(g.is_covered((y[b].0 as int, y[b].1 as int)));
        if b > 0 {
            assert(components::lex_less(y[0], y[b]));
        }
        assert(components::lex_less(x[0], y[b]));
    }
}

} // verus!
