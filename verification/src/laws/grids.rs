//! What a grid is, by its lines and its cells, and what fits.

use crate::components;
use crate::conductor;
use crate::conductor::Conductor;
use crate::conductor::LayerBox;
use crate::grid;
use crate::grid::Grid;
use crate::laws::drawing;
use crate::laws::sharing;
use crate::squares;
use crate::squares::Rect;
use vstd::prelude::*;

verus! {

/// The grid of rectangles: its lines are the edges of those that are added and have width and
/// height, and of all that are taken away; without any of the former there are none.
pub proof fn grid_lines_are_edges(g: Grid, add: Seq<Rect>, sub: Seq<Rect>, v: i32)
    requires
        g.on_edges(add, sub),
    ensures
        (forall|k: int|
            0 <= k < add.len() ==> !((#[trigger] add[k]).0 < add[k].2 && add[k].1 < add[k].3))
            ==> g.xs@.len() == 0 && g.ys@.len() == 0,
        !(forall|k: int|
            0 <= k < add.len() ==> !((#[trigger] add[k]).0 < add[k].2 && add[k].1 < add[k].3)) ==> {
            &&& g.xs@.contains(v) <==> (exists|k: int|
                0 <= k < add.len() && (#[trigger] add[k]).0 < add[k].2 && add[k].1 < add[k].3 && (
                add[k].0 == v || add[k].2 == v)) || (exists|k: int|
                0 <= k < sub.len() && ((#[trigger] sub[k]).0 == v || sub[k].2 == v))
            &&& g.ys@.contains(v) <==> (exists|k: int|
                0 <= k < add.len() && (#[trigger] add[k]).0 < add[k].2 && add[k].1 < add[k].3 && (
                add[k].1 == v || add[k].3 == v)) || (exists|k: int|
                0 <= k < sub.len() && ((#[trigger] sub[k]).1 == v || sub[k].3 == v))
        },
{
    let live = grid::live_of(add);
    assert forall|r: Rect| #[trigger] live.contains(r) <==> add.contains(r) && r.0 < r.2 && r.1
        < r.3 by {
        drawing::lemma_live(add, r);
    }
    if live.len() > 0 {
        assert(live.contains(live[0]));
        let k = choose|k: int| 0 <= k < add.len() && add[k] == live[0];
        assert(add[k].0 < add[k].2 && add[k].1 < add[k].3);
    }
    assert forall|k: int|
        0 <= k < add.len() && (#[trigger] add[k]).0 < add[k].2 && add[k].1 < add[k].3 implies exists|
        a: int,
    | 0 <= a < live.len() && #[trigger] live[a] == add[k] by {
        assert(add.contains(add[k]));
        assert(live.contains(add[k]));
    }
    assert forall|a: int|
        #![trigger live[a]]
        0 <= a < live.len() implies exists|k: int|
        0 <= k < add.len() && #[trigger] add[k] == live[a] && add[k].0 < add[k].2 && add[k].1
            < add[k].3 by {
        assert(live.contains(live[a]));
        let k = choose|k: int| 0 <= k < add.len() && add[k] == live[a];
        assert(add[k] == live[a]);
    }
}

/// A cell of the grid of rectangles is covered exactly when it lies inside one that is added, and
/// inside none that is taken away.
pub proof fn grid_cells_are_covered_or_not(g: Grid, add: Seq<Rect>, sub: Seq<Rect>, i: int, j: int)
    requires
        g.wf(),
        0 <= i < g.nx,
        0 <= j < g.ny,
        g.is_covered((i, j)) <==> g.lies_in_any((i, j), grid::live_of(add)) && !g.lies_in_any(
            (i, j),
            sub,
        ),
    ensures
        g.covered@[i]@[j] <==> (exists|k: int|
            0 <= k < add.len() && (#[trigger] add[k]).0 <= g.xs@[i] && g.xs@[i + 1] <= add[k].2
                && add[k].1 <= g.ys@[j] && g.ys@[j + 1] <= add[k].3) && !(exists|k: int|
            0 <= k < sub.len() && (#[trigger] sub[k]).0 <= g.xs@[i] && g.xs@[i + 1] <= sub[k].2
                && sub[k].1 <= g.ys@[j] && g.ys@[j + 1] <= sub[k].3),
{
    let c = (i, j);
    let live = grid::live_of(add);
    g.lemma_corner(c);
    if g.lies_in_any(c, live) {
        let a = choose|a: int| 0 <= a < live.len() && g.lies_in(c, #[trigger] live[a]);
        assert(live.contains(live[a]));
        drawing::lemma_live(add, live[a]);
        let k = choose|k: int| 0 <= k < add.len() && add[k] == live[a];
        assert(add[k].0 <= g.xs@[i]);
    }
    if exists|k: int|
        0 <= k < add.len() && (#[trigger] add[k]).0 <= g.xs@[i] && g.xs@[i + 1] <= add[k].2
            && add[k].1 <= g.ys@[j] && g.ys@[j + 1] <= add[k].3 {
        let k = choose|k: int|
            0 <= k < add.len() && (#[trigger] add[k]).0 <= g.xs@[i] && g.xs@[i + 1] <= add[k].2
                && add[k].1 <= g.ys@[j] && g.ys@[j + 1] <= add[k].3;
        assert(add.contains(add[k]));
        drawing::lemma_live(add, add[k]);
        let a = choose|a: int| 0 <= a < live.len() && live[a] == add[k];
        assert(g.lies_in(c, live[a]));
    }
    if g.lies_in_any(c, sub) {
        let k = choose|k: int| 0 <= k < sub.len() && g.lies_in(c, #[trigger] sub[k]);
        assert(sub[k].0 <= g.xs@[i]);
    }
    if exists|k: int|
        0 <= k < sub.len() && (#[trigger] sub[k]).0 <= g.xs@[i] && g.xs@[i + 1] <= sub[k].2
            && sub[k].1 <= g.ys@[j] && g.ys@[j + 1] <= sub[k].3 {
        let k = choose|k: int|
            0 <= k < sub.len() && (#[trigger] sub[k]).0 <= g.xs@[i] && g.xs@[i + 1] <= sub[k].2
                && sub[k].1 <= g.ys@[j] && g.ys@[j + 1] <= sub[k].3;
        assert(g.lies_in(c, sub[k]));
    }
}

/// A grid is well formed: rising lines, and one row of marks for each column between them.
pub proof fn a_grid_has_its_shape(g: Grid, a: int, b: int)
    requires
        g.wf(),
    ensures
        0 <= a < b < g.xs@.len() ==> g.xs@[a] < g.xs@[b],
        0 <= a < b < g.ys@.len() ==> g.ys@[a] < g.ys@[b],
        g.covered@.len() == g.nx,
        0 <= a < g.nx ==> g.covered@[a]@.len() == g.ny,
        g.xs@.len() == 0 ==> g.ys@.len() == 0 && g.nx == 0 && g.ny == 0,
        g.xs@.len() > 0 ==> g.xs@.len() == g.nx + 1 && g.ys@.len() == g.ny + 1,
{
}

/// The metal of a grid is what lies between the lines of its covered cells.
pub proof fn grid_metal_is_its_covered_cells(g: Grid, x: int, y: int)
    ensures
        g.metal().contains((x, y)) <==> exists|i: int, j: int|
            0 <= i < g.nx && 0 <= j < g.ny && #[trigger] g.covered@[i]@[j] && g.xs@[i] <= x
                < g.xs@[i + 1] && g.ys@[j] <= y < g.ys@[j + 1],
{
    if g.metal().contains((x, y)) {
        let c = choose|c: (int, int)| #[trigger] g.is_covered(c) && g.cell(c).contains((x, y));
        assert(g.covered@[c.0]@[c.1]);
    }
    if exists|i: int, j: int|
        0 <= i < g.nx && 0 <= j < g.ny && #[trigger] g.covered@[i]@[j] && g.xs@[i] <= x < g.xs@[i
            + 1] && g.ys@[j] <= y < g.ys@[j + 1] {
        let (i, j) = choose|i: int, j: int|
            0 <= i < g.nx && 0 <= j < g.ny && #[trigger] g.covered@[i]@[j] && g.xs@[i] <= x
                < g.xs@[i + 1] && g.ys@[j] <= y < g.ys@[j + 1];
        assert(g.is_covered((i, j)) && g.cell((i, j)).contains((x, y)));
    }
}

/// Whether the cell at `i` and `j` is there and covered.
pub open spec fn marked(g: Grid, i: int, j: int) -> bool {
    0 <= i < g.nx && 0 <= j < g.ny && g.covered@[i]@[j]
}

/// The sides of a cell that face nothing covered: its height to the left and to the right, its
/// width below and above.
pub proof fn exposed_sides_face_nothing(g: Grid, i: int, j: int)
    ensures
        g.exposed((i, j)) == (if marked(g, i - 1, j) {
            0
        } else {
            g.ys@[j + 1] - g.ys@[j]
        }) + (if marked(g, i + 1, j) {
            0
        } else {
            g.ys@[j + 1] - g.ys@[j]
        }) + (if marked(g, i, j - 1) {
            0
        } else {
            g.xs@[i + 1] - g.xs@[i]
        }) + (if marked(g, i, j + 1) {
            0
        } else {
            g.xs@[i + 1] - g.xs@[i]
        }),
        g.width((i, j)) == g.xs@[i + 1] - g.xs@[i],
        g.height((i, j)) == g.ys@[j + 1] - g.ys@[j],
{
}

/// The squares of listed cells lie between the lines of one of them; the cells of a covered list
/// are marked, each once; and a list in order goes column by column.
pub proof fn listed_cells_are_marked(g: Grid, cells: Seq<(usize, usize)>, x: int, y: int)
    ensures
        g.cells_union(cells).contains((x, y)) <==> exists|k: int|
            0 <= k < cells.len() && g.xs@[(#[trigger] cells[k]).0 as int] <= x
                < g.xs@[cells[k].0 + 1] && g.ys@[cells[k].1 as int] <= y < g.ys@[cells[k].1 + 1],
        g.covered_list(cells) ==> cells.no_duplicates() && forall|k: int|
            0 <= k < cells.len() ==> marked(
                g,
                (#[trigger] cells[k]).0 as int,
                cells[k].1 as int,
            ),
        components::in_order(cells) ==> forall|a: int, b: int|
            #![trigger cells[a], cells[b]]
            0 <= a < b < cells.len() ==> cells[a].0 < cells[b].0 || cells[a].0 == cells[b].0
                && cells[a].1 < cells[b].1,
{
    if g.cells_union(cells).contains((x, y)) {
        let k = choose|k: int|
            0 <= k < cells.len() && #[trigger] g.cell(
                (cells[k].0 as int, cells[k].1 as int),
            ).contains((x, y));
        assert(g.xs@[cells[k].0 as int] <= x);
    }
    if exists|k: int|
        0 <= k < cells.len() && g.xs@[(#[trigger] cells[k]).0 as int] <= x < g.xs@[cells[k].0 + 1]
            && g.ys@[cells[k].1 as int] <= y < g.ys@[cells[k].1 + 1] {
        let k = choose|k: int|
            0 <= k < cells.len() && g.xs@[(#[trigger] cells[k]).0 as int] <= x < g.xs@[cells[k].0
                + 1] && g.ys@[cells[k].1 as int] <= y < g.ys@[cells[k].1 + 1];
        assert(g.cell((cells[k].0 as int, cells[k].1 as int)).contains((x, y)));
    }
    if components::in_order(cells) {
        assert forall|a: int, b: int|
            #![trigger cells[a], cells[b]]
            0 <= a < b < cells.len() implies cells[a].0 < cells[b].0 || cells[a].0 == cells[b].0
            && cells[a].1 < cells[b].1 by {
            assert(components::lex_less(cells[a], cells[b]));
        }
    }
}

/// What the pins leave of a layer, by the coordinates of its boxes.
pub open spec fn left(boxes: Seq<LayerBox>, cuts: Seq<LayerBox>, layer: i64) -> Set<(int, int)> {
    Set::new(
        |p: (int, int)|
            drawing::drawn(boxes, layer, p.0, p.1) && !drawing::drawn(cuts, layer, p.0, p.1),
    )
}

/// What each box adds of a measure: that of its layer, where it is a routing layer and the box is
/// the first of it.
pub open spec fn by_layer(
    boxes: Seq<LayerBox>,
    cuts: Seq<LayerBox>,
    measure: spec_fn(Set<(int, int)>) -> int,
) -> Seq<int> {
    Seq::new(
        boxes.len(),
        |k: int|
            if boxes[k].is_routing && forall|j: int|
                0 <= j < k ==> (#[trigger] boxes[j]).layer != boxes[k].layer {
                measure(left(boxes, cuts, boxes[k].layer))
            } else {
                0
            },
    )
}

proof fn lemma_left(boxes: Seq<LayerBox>, cuts: Seq<LayerBox>, layer: i64)
    ensures
        conductor::layer_metal(boxes, cuts, layer) == left(boxes, cuts, layer),
{
    assert forall|p: (int, int)| conductor::layer_metal(boxes, cuts, layer).contains(p) <==> left(
        boxes,
        cuts,
        layer,
    ).contains(p) by {
        drawing::lemma_drawn(boxes, layer, p.0, p.1);
        drawing::lemma_drawn(cuts, layer, p.0, p.1);
        assert(p == (p.0, p.1));
    }
    assert(conductor::layer_metal(boxes, cuts, layer) =~= left(boxes, cuts, layer));
}

proof fn lemma_routing_sum(
    boxes: Seq<LayerBox>,
    cuts: Seq<LayerBox>,
    n: int,
    measure: spec_fn(Set<(int, int)>) -> int,
)
    requires
        0 <= n <= boxes.len(),
    ensures
        conductor::routing_sum(boxes, cuts, n, i64::MAX as int, measure) == sharing::sum(
            by_layer(boxes, cuts, measure).take(n),
        ),
    decreases n,
{
    let v = by_layer(boxes, cuts, measure);
    if n > 0 {
        lemma_routing_sum(boxes, cuts, n - 1, measure);
        lemma_left(boxes, cuts, boxes[n - 1].layer);
        assert(v.take(n).drop_last() =~= v.take(n - 1));
        assert(v.take(n).last() == v[n - 1]);
    }
}

/// A net can be measured exactly when area and perimeter of what is left of each layer fit in
/// `i64`, and those of the routing layers do together, each layer counted once.
pub proof fn a_net_fits_when_its_layers_do(boxes: Seq<LayerBox>, cuts: Seq<LayerBox>)
    ensures
        conductor::layers_fit(boxes, cuts) <==> forall|layer: i64|
            (#[trigger] left(boxes, cuts, layer)).len() <= i64::MAX && squares::perimeter(
                left(boxes, cuts, layer),
            ) <= i64::MAX,
        conductor::net_fits(boxes, cuts) <==> conductor::layers_fit(boxes, cuts) && sharing::sum(
            by_layer(boxes, cuts, |m: Set<(int, int)>| m.len() as int),
        ) <= i64::MAX && sharing::sum(
            by_layer(boxes, cuts, |m: Set<(int, int)>| squares::perimeter(m) as int),
        ) <= i64::MAX,
{
    assert forall|layer: i64| #[trigger] left(boxes, cuts, layer) == conductor::layer_metal(
        boxes,
        cuts,
        layer,
    ) by {
        lemma_left(boxes, cuts, layer);
    }
    if conductor::layers_fit(boxes, cuts) {
        assert forall|layer: i64|
            (#[trigger] left(boxes, cuts, layer)).len() <= i64::MAX && squares::perimeter(
                left(boxes, cuts, layer),
            ) <= i64::MAX by {
            assert(squares::area(conductor::layer_metal(boxes, cuts, layer)) <= i64::MAX);
        }
    }
    if forall|layer: i64|
        (#[trigger] left(boxes, cuts, layer)).len() <= i64::MAX && squares::perimeter(
            left(boxes, cuts, layer),
        ) <= i64::MAX {
        assert forall|layer: i64|
            squares::area(#[trigger] conductor::layer_metal(boxes, cuts, layer)) <= i64::MAX
                && squares::perimeter(conductor::layer_metal(boxes, cuts, layer)) <= i64::MAX by {
            assert(left(boxes, cuts, layer).len() <= i64::MAX);
        }
    }
    let n = boxes.len() as int;
    let area = |m: Set<(int, int)>| m.len() as int;
    let rim = |m: Set<(int, int)>| squares::perimeter(m) as int;
    assert(area =~= conductor::metal_area());
    assert(rim =~= conductor::metal_perimeter());
    lemma_routing_sum(boxes, cuts, n, area);
    lemma_routing_sum(boxes, cuts, n, rim);
    assert(by_layer(boxes, cuts, area).take(n) =~= by_layer(boxes, cuts, area));
    assert(by_layer(boxes, cuts, rim).take(n) =~= by_layer(boxes, cuts, rim));
}

/// The routing metal of conductors is that of those that are routing, added up.
pub proof fn routing_metal_is_added_up(cs: Seq<Conductor>)
    ensures
        conductor::routing_area(cs) == sharing::sum(
            cs.map_values(
                |c: Conductor|
                    if c.is_routing {
                        c.area as int
                    } else {
                        0
                    },
            ),
        ),
        conductor::routing_perimeter(cs) == sharing::sum(
            cs.map_values(
                |c: Conductor|
                    if c.is_routing {
                        c.perimeter as int
                    } else {
                        0
                    },
            ),
        ),
    decreases cs.len(),
{
    let area = |c: Conductor|
        if c.is_routing {
            c.area as int
        } else {
            0
        };
    let rim = |c: Conductor|
        if c.is_routing {
            c.perimeter as int
        } else {
            0
        };
    if cs.len() > 0 {
        let front = cs.drop_last();
        routing_metal_is_added_up(front);
        assert(cs.map_values(area).drop_last() =~= front.map_values(area));
        assert(cs.map_values(rim).drop_last() =~= front.map_values(rim));
    }
}

} // verus!
