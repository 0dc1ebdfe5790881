//! Pins cut the wire, exactly, and touch what their own metal reaches.

use crate::conductor;
use crate::conductor::Conductor;
use crate::conductor::LayerBox;
use crate::graph;
use crate::regions;
use crate::squares;
use crate::squares::Rect;
use vstd::prelude::*;

verus! {

/// No conductor has metal where a pin of its layer is.
pub proof fn pins_are_cut_out(
    cs: Seq<Conductor>,
    boxes: Seq<LayerBox>,
    pins: Seq<LayerBox>,
    i: int,
    p: (int, int),
)
    requires
        graph::shows_net(cs, boxes, pins),
        0 <= i < cs.len(),
        cs[i].squares().contains(p),
    ensures
        !conductor::boxed(pins, cs[i].layer, p),
        conductor::boxed(boxes, cs[i].layer, p),
{
    assert(squares::is_component(
        cs[i].squares(),
        conductor::layer_metal(boxes, pins, cs[i].layer),
    ));
    assert(conductor::layer_metal(boxes, pins, cs[i].layer).contains(p));
}

/// Conductors of one layer do not touch along an edge: metal that does is one conductor.
pub proof fn conductors_of_a_layer_are_apart(
    cs: Seq<Conductor>,
    boxes: Seq<LayerBox>,
    pins: Seq<LayerBox>,
    i: int,
    j: int,
    p: (int, int),
    q: (int, int),
)
    requires
        graph::shows_net(cs, boxes, pins),
        0 <= i < cs.len(),
        0 <= j < cs.len(),
        i != j,
        cs[i].layer == cs[j].layer,
        cs[i].squares().contains(p),
        cs[j].squares().contains(q),
    ensures
        p != q,
        !squares::adjacent(p, q),
{
    let m = conductor::layer_metal(boxes, pins, cs[i].layer);
    assert(squares::is_component(cs[i].squares(), m));
    assert(squares::is_component(cs[j].squares(), m));
    assert(cs[i].squares().disjoint(cs[j].squares())) by {
        if i < j {
            assert(cs[i].layer < cs[j].layer || cs[i].squares().disjoint(cs[j].squares()));
        } else {
            assert(cs[j].layer < cs[i].layer || cs[j].squares().disjoint(cs[i].squares()));
        }
    }
    if squares::adjacent(p, q) {
        assert(m.contains(q));
        assert(cs[i].squares().contains(q));
    }
}

/// The conductors of one layer, as members of the list.
pub open spec fn lies_on(cs: Seq<Conductor>, layer: i64) -> spec_fn(int) -> bool {
    |i: int| cs[i].layer == layer
}

/// The metal of the first `n` conductors on the layer.
spec fn metal_on(cs: Seq<Conductor>, layer: i64, n: int) -> Set<(int, int)> {
    Set::new(
        |p: (int, int)|
            exists|i: int|
                0 <= i < n && (#[trigger] cs[i]).layer == layer && cs[i].squares().contains(p),
    )
}

/// The cut is exact: on every layer the conductors have, together, the area and the perimeter of
/// the metal that the pins leave there, no more and no less.
pub proof fn the_cut_is_exact(
    cs: Seq<Conductor>,
    boxes: Seq<LayerBox>,
    pins: Seq<LayerBox>,
    layer: i64,
)
    requires
        graph::all_measured(cs),
        graph::shows_net(cs, boxes, pins),
    ensures
        regions::gathered(cs, cs.len() as int, lies_on(cs, layer), regions::area_of())
            == squares::area(conductor::layer_metal(boxes, pins, layer)),
        regions::gathered(cs, cs.len() as int, lies_on(cs, layer), regions::perimeter_of())
            == squares::perimeter(conductor::layer_metal(boxes, pins, layer)),
{
    let m = conductor::layer_metal(boxes, pins, layer);
    let n = cs.len() as int;
    lemma_measures_add_up(cs, boxes, pins, layer, n);
    assert(metal_on(cs, layer, n) =~= m) by {
        assert forall|p: (int, int)| metal_on(cs, layer, n).contains(p) implies m.contains(p) by {
            let i = choose|i: int|
                0 <= i < n && (#[trigger] cs[i]).layer == layer && cs[i].squares().contains(p);
            assert(squares::is_component(
                cs[i].squares(),
                conductor::layer_metal(boxes, pins, cs[i].layer),
            ));
        }
        assert forall|p: (int, int)| m.contains(p) implies metal_on(cs, layer, n).contains(p) by {
            let i = choose|i: int|
                0 <= i < cs.len() && (#[trigger] cs[i]).layer == layer && cs[i].squares().contains(
                    p,
                );
            assert(cs[i].layer == layer);
        }
    }
}

proof fn lemma_measures_add_up(
    cs: Seq<Conductor>,
    boxes: Seq<LayerBox>,
    pins: Seq<LayerBox>,
    layer: i64,
    n: int,
)
    requires
        graph::all_measured(cs),
        graph::shows_net(cs, boxes, pins),
        0 <= n <= cs.len(),
    ensures
        metal_on(cs, layer, n).finite(),
        regions::gathered(cs, n, lies_on(cs, layer), regions::area_of()) == squares::area(
            metal_on(cs, layer, n),
        ),
        regions::gathered(cs, n, lies_on(cs, layer), regions::perimeter_of()) == squares::perimeter(
            metal_on(cs, layer, n),
        ),
    decreases n,
{
    let all = metal_on(cs, layer, n);
    if n == 0 {
        assert(all =~= Set::empty());
        squares::lemma_perimeter_bound(all);
    } else {
        let before = metal_on(cs, layer, n - 1);
        let c = cs[n - 1];
        lemma_measures_add_up(cs, boxes, pins, layer, n - 1);
        assert(c.wf());
        if c.layer == layer {
            let own = c.squares();
            squares::lemma_squares_finite(c.cells@);
            assert(squares::no_edge(before, own)) by {
                assert forall|p: (int, int), q: (int, int)|
                    #![trigger before.contains(p), own.contains(q)]
                    before.contains(p) && own.contains(q) implies p != q && !squares::adjacent(
                    p,
                    q,
                ) by {
                    let i = choose|i: int|
                        0 <= i < n - 1 && (#[trigger] cs[i]).layer == layer
                            && cs[i].squares().contains(p);
                    conductors_of_a_layer_are_apart(cs, boxes, pins, i, n - 1, p, q);
                }
            }
            squares::lemma_apart_measures(before, own);
        }
        lemma_metal_next(cs, layer, n);
    }
}

/// One more conductor adds its own squares, if it is on the layer.
proof fn lemma_metal_next(cs: Seq<Conductor>, layer: i64, n: int)
    requires
        0 < n <= cs.len(),
    ensures
        metal_on(cs, layer, n) == (if cs[n - 1].layer == layer {
            metal_on(cs, layer, n - 1).union(cs[n - 1].squares())
        } else {
            metal_on(cs, layer, n - 1)
        }),
{
    let all = metal_on(cs, layer, n);
    let before = metal_on(cs, layer, n - 1);
    let own = cs[n - 1].squares();
    let on = cs[n - 1].layer == layer;
    assert forall|p: (int, int)| all.contains(p) <==> before.contains(p) || on && own.contains(p) by {
        if all.contains(p) {
            let i = choose|i: int|
                0 <= i < n && (#[trigger] cs[i]).layer == layer && cs[i].squares().contains(p);
            if i < n - 1 {
                assert(cs[i].layer == layer);
            }
        }
        if before.contains(p) {
            let i = choose|i: int|
                0 <= i < n - 1 && (#[trigger] cs[i]).layer == layer && cs[i].squares().contains(p);
            assert(cs[i].layer == layer);
        }
        if on && own.contains(p) {
            assert(cs[n - 1].layer == layer);
        }
    }
    if on {
        assert(all =~= before.union(own));
    } else {
        assert(all =~= before);
    }
}

/// Whether the unit square at `p`, edges included, comes within `halo` of `r`.
pub open spec fn square_near(p: (int, int), r: Rect, halo: int) -> bool {
    p.0 <= r.2 + halo && r.0 - halo <= p.0 + 1 && p.1 <= r.3 + halo && r.1 - halo <= p.1 + 1
}

/// Touch belongs to the metal, not to the cells that it is kept as: a conductor comes within
/// `halo` of a rectangle exactly when one of its unit squares does.
pub proof fn touch_is_a_matter_of_squares(c: Conductor, r: Rect, halo: int)
    requires
        c.wf(),
        r.0 <= r.2,
        r.1 <= r.3,
        halo >= 0,
    ensures
        c.meets(r, halo) <==> exists|p: (int, int)|
            c.squares().contains(p) && #[trigger] square_near(p, r, halo),
{
    if c.meets(r, halo) {
        let k = choose|k: int|
            0 <= k < c.cells@.len() && conductor::near(#[trigger] c.cells@[k], r, halo);
        let cell = c.cells@[k];
        let x = if cell.2 - 1 <= r.2 + halo {
            cell.2 - 1
        } else {
            r.2 + halo
        };
        let y = if cell.3 - 1 <= r.3 + halo {
            cell.3 - 1
        } else {
            r.3 + halo
        };
        let p = (x, y);
        assert(squares::in_rect(cell, p));
        assert(squares::in_rects(c.cells@, p));
        assert(square_near(p, r, halo));
    }
    if exists|p: (int, int)| c.squares().contains(p) && #[trigger] square_near(p, r, halo) {
        let p = choose|p: (int, int)|
            c.squares().contains(p) && #[trigger] square_near(p, r, halo);
        let k = choose|k: int|
            0 <= k < c.cells@.len() && squares::in_rect(#[trigger] c.cells@[k], p);
        assert(conductor::near(c.cells@[k], r, halo));
    }
}

/// Whether two unit squares, edges and corners included, touch.
pub open spec fn squares_touch(p: (int, int), q: (int, int)) -> bool {
    -1 <= p.0 - q.0 <= 1 && -1 <= p.1 - q.1 <= 1
}

/// So does vertical contact: two conductors are in contact exactly when a unit square of one,
/// seen from above, touches a unit square of the other.
pub proof fn contact_is_a_matter_of_squares(c: Conductor, o: Conductor)
    requires
        c.wf(),
        o.wf(),
    ensures
        c.contacts(&o) <==> exists|p: (int, int), q: (int, int)|
            c.squares().contains(p) && o.squares().contains(q) && #[trigger] squares_touch(p, q),
{
    if c.contacts(&o) {
        let k = choose|k: int| 0 <= k < o.cells@.len() && c.meets(#[trigger] o.cells@[k], 0);
        let r = o.cells@[k];
        touch_is_a_matter_of_squares(c, r, 0);
        let p = choose|p: (int, int)| c.squares().contains(p) && #[trigger] square_near(p, r, 0);
        let x = if p.0 < r.0 {
            r.0 as int
        } else if p.0 >= r.2 {
            r.2 - 1
        } else {
            p.0
        };
        let y = if p.1 < r.1 {
            r.1 as int
        } else if p.1 >= r.3 {
            r.3 - 1
        } else {
            p.1
        };
        let q = (x, y);
        assert(squares::in_rect(r, q));
        assert(squares::in_rects(o.cells@, q));
        assert(squares_touch(p, q));
    }
    if exists|p: (int, int), q: (int, int)|
        c.squares().contains(p) && o.squares().contains(q) && #[trigger] squares_touch(p, q) {
        let (p, q) = choose|p: (int, int), q: (int, int)|
            c.squares().contains(p) && o.squares().contains(q) && #[trigger] squares_touch(p, q);
        let k = choose|k: int|
            0 <= k < o.cells@.len() && squares::in_rect(#[trigger] o.cells@[k], q);
        let r = o.cells@[k];
        touch_is_a_matter_of_squares(c, r, 0);
        assert(square_near(p, r, 0));
        assert(c.meets(o.cells@[k], 0));
    }
}

} // verus!
