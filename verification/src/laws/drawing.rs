//! What the boxes of a net make, by their own coordinates.

use crate::conductor;
use crate::conductor::Conductor;
use crate::conductor::LayerBox;
use crate::graph;
use crate::graph::NetGraph;
use crate::grid;
use crate::laws::pins;
use crate::reach;
use crate::squares;
use crate::squares::Rect;
use crate::touch;
use vstd::prelude::*;

verus! {

/// What can be reached is what a walk of single steps ends at.
pub open spec fn is_walk<A>(step: spec_fn(A, A) -> bool, path: Seq<A>, a: A, b: A) -> bool {
    &&& path.len() > 0
    &&& path[0] == a
    &&& path.last() == b
    &&& forall|k: int| 0 <= k < path.len() - 1 ==> step(#[trigger] path[k], path[k + 1])
}

/// Reaching is walking: `b` is reached from `a` exactly when a walk leads from `a` to `b`.
pub proof fn to_reach_is_to_walk<A>(step: spec_fn(A, A) -> bool, a: A, b: A)
    ensures
        reach::reaches(step, a, b) <==> exists|path: Seq<A>| is_walk(step, path, a, b),
{
    if reach::reaches(step, a, b) {
        let t = Set::new(|c: A| exists|path: Seq<A>| is_walk(step, path, a, c));
        assert(t.contains(a)) by {
            assert(is_walk(step, seq![a], a, a));
        }
        assert(reach::closed_under(t, step)) by {
            assert forall|p: A, q: A| t.contains(p) && #[trigger] step(p, q) implies t.contains(
                q,
            ) by {
                let path = choose|path: Seq<A>| is_walk(step, path, a, p);
                let more = path.push(q);
                assert(more.last() == q);
                assert forall|k: int| 0 <= k < more.len() - 1 implies step(
                    #[trigger] more[k],
                    more[k + 1],
                ) by {
                    if k < path.len() - 1 {
                        assert(more[k] == path[k] && more[k + 1] == path[k + 1]);
                    } else {
                        assert(more[k] == path.last());
                    }
                }
                assert(is_walk(step, more, a, q));
            }
        }
        assert(t.contains(b));
    }
    if exists|path: Seq<A>| is_walk(step, path, a, b) {
        let path = choose|path: Seq<A>| is_walk(step, path, a, b);
        assert forall|t: Set<A>| #[trigger]
            reach::closed_under(t, step) && t.contains(a) implies t.contains(b) by {
            lemma_walk_inside(step, path, a, t, path.len() - 1);
        }
    }
}

proof fn lemma_walk_inside<A>(
    step: spec_fn(A, A) -> bool,
    path: Seq<A>,
    a: A,
    t: Set<A>,
    k: int,
)
    requires
        is_walk(step, path, a, path.last()),
        reach::closed_under(t, step),
        t.contains(a),
        0 <= k < path.len(),
    ensures
        t.contains(path[k]),
    decreases k,
{
    if k > 0 {
        lemma_walk_inside(step, path, a, t, k - 1);
        assert(step(path[k - 1], path[k - 1 + 1]));
    }
}

/// How many of the four squares beside `p` are in `s`.
pub open spec fn beside(s: Set<(int, int)>, p: (int, int)) -> int {
    (if s.contains((p.0 - 1, p.1)) {
        1int
    } else {
        0
    }) + (if s.contains((p.0 + 1, p.1)) {
        1int
    } else {
        0
    }) + (if s.contains((p.0, p.1 - 1)) {
        1int
    } else {
        0
    }) + (if s.contains((p.0, p.1 + 1)) {
        1int
    } else {
        0
    })
}

proof fn lemma_facing_more(s: Set<(int, int)>, p: (int, int), d: (int, int))
    requires
        s.finite(),
        !s.contains(p),
        d != (0int, 0int),
    ensures
        squares::facing(s, d).finite(),
        squares::facing(s.insert(p), d).len() == squares::facing(s, d).len() - (if s.contains(
            (p.0 - d.0, p.1 - d.1),
        ) {
            1int
        } else {
            0
        }) + (if s.contains((p.0 + d.0, p.1 + d.1)) {
            0int
        } else {
            1
        }),
{
    let t = s.insert(p);
    let f = squares::facing(s, d);
    let g = squares::facing(t, d);
    let back = (p.0 - d.0, p.1 - d.1);
    let on = (p.0 + d.0, p.1 + d.1);
    squares::lemma_facing(s, d);
    assert(squares::shift(back, d) == p && squares::shift(p, d) == on);
    assert(!f.contains(p));
    assert(f.contains(back) <==> s.contains(back));
    assert(on != p && back != p);
    let less = f.remove(back);
    if s.contains(on) {
        assert(g =~= less);
    } else {
        assert(g =~= less.insert(p));
        assert(!less.contains(p));
    }
}

/// Area and perimeter, square by square: nothing measures nothing, and one more square adds one to
/// the area and its four edges to the perimeter, less two for each square that it comes to lie
/// beside.
pub proof fn one_more_square(s: Set<(int, int)>, p: (int, int))
    requires
        s.finite(),
        !s.contains(p),
    ensures
        squares::area(Set::empty()) == 0,
        squares::perimeter(Set::empty()) == 0,
        squares::area(s.insert(p)) == squares::area(s) + 1,
        squares::perimeter(s.insert(p)) == squares::perimeter(s) + 4 - 2 * beside(s, p),
{
    let none: Set<(int, int)> = Set::empty();
    assert(squares::facing(none, (-1, 0)) =~= none);
    assert(squares::facing(none, (1, 0)) =~= none);
    assert(squares::facing(none, (0, -1)) =~= none);
    assert(squares::facing(none, (0, 1)) =~= none);
    lemma_facing_more(s, p, (-1, 0));
    lemma_facing_more(s, p, (1, 0));
    lemma_facing_more(s, p, (0, -1));
    lemma_facing_more(s, p, (0, 1));
}

/// The squares of rectangles are those between the edges of one of them.
pub proof fn rectangles_hold_what_is_between_their_edges(rects: Seq<Rect>, x: int, y: int)
    ensures
        squares::squares_of(rects).contains((x, y)) <==> exists|k: int|
            0 <= k < rects.len() && (#[trigger] rects[k]).0 <= x < rects[k].2 && rects[k].1 <= y
                < rects[k].3,
{
    let p = (x, y);
    if squares::squares_of(rects).contains(p) {
        let k = choose|k: int| 0 <= k < rects.len() && squares::in_rect(#[trigger] rects[k], p);
        assert(rects[k].0 <= x < rects[k].2);
    }
    if exists|k: int|
        0 <= k < rects.len() && (#[trigger] rects[k]).0 <= x < rects[k].2 && rects[k].1 <= y
            < rects[k].3 {
        let k = choose|k: int|
            0 <= k < rects.len() && (#[trigger] rects[k]).0 <= x < rects[k].2 && rects[k].1 <= y
                < rects[k].3;
        assert(squares::in_rect(rects[k], p));
    }
}

/// One rectangle measures width times height, and twice both.
pub proof fn one_rectangle_measures_its_sides(r: Rect)
    requires
        r.0 < r.2,
        r.1 < r.3,
    ensures
        squares::area(squares::squares_of(seq![r])) == (r.2 - r.0) * (r.3 - r.1),
        squares::perimeter(squares::squares_of(seq![r])) == 2 * (r.2 - r.0) + 2 * (r.3 - r.1),
{
    let (a, b, c, d) = (r.0 as int, r.1 as int, r.2 as int, r.3 as int);
    let s = squares::squares_of(seq![r]);
    assert(s =~= squares::block(a, b, c, d)) by {
        assert forall|p: (int, int)| s.contains(p) <==> squares::block(a, b, c, d).contains(p) by {
            assert(seq![r][0] == r);
            rectangles_hold_what_is_between_their_edges(seq![r], p.0, p.1);
        }
    }
    squares::lemma_block_len(a, b, c, d);
    squares::lemma_block_len(a, b, a + 1, d);
    squares::lemma_block_len(c - 1, b, c, d);
    squares::lemma_block_len(a, b, c, b + 1);
    squares::lemma_block_len(a, d - 1, c, d);
    assert(squares::facing(s, (-1, 0)) =~= squares::block(a, b, a + 1, d));
    assert(squares::facing(s, (1, 0)) =~= squares::block(c - 1, b, c, d));
    assert(squares::facing(s, (0, -1)) =~= squares::block(a, b, c, b + 1));
    assert(squares::facing(s, (0, 1)) =~= squares::block(a, d - 1, c, d));
    assert((a + 1 - a) * (d - b) == d - b) by (nonlinear_arith);
    assert((c - (c - 1)) * (d - b) == d - b) by (nonlinear_arith);
    assert((c - a) * (b + 1 - b) == c - a) by (nonlinear_arith);
    assert((c - a) * (d - (d - 1)) == c - a) by (nonlinear_arith);
}

/// Whether a box of the layer lies over the unit square at `x` and `y`, by its own coordinates.
pub open spec fn drawn(boxes: Seq<LayerBox>, layer: i64, x: int, y: int) -> bool {
    exists|k: int|
        0 <= k < boxes.len() && (#[trigger] boxes[k]).layer == layer && boxes[k].x0 <= x
            < boxes[k].x1 && boxes[k].y0 <= y < boxes[k].y1
}

/// Whether a cell of the conductor lies over the unit square.
pub open spec fn over(c: Conductor, x: int, y: int) -> bool {
    exists|j: int|
        0 <= j < c.cells@.len() && (#[trigger] c.cells@[j]).0 <= x < c.cells@[j].2
            && c.cells@[j].1 <= y < c.cells@[j].3
}

/// The unit squares of a conductor, by its cells.
pub open spec fn metal(c: Conductor) -> Set<(int, int)> {
    Set::new(|p: (int, int)| over(c, p.0, p.1))
}

pub proof fn lemma_drawn(boxes: Seq<LayerBox>, layer: i64, x: int, y: int)
    ensures
        conductor::boxed(boxes, layer, (x, y)) == drawn(boxes, layer, x, y),
{
    if conductor::boxed(boxes, layer, (x, y)) {
        let k = choose|k: int|
            0 <= k < boxes.len() && (#[trigger] boxes[k]).layer == layer && squares::in_rect(
                boxes[k].rect(),
                (x, y),
            );
        assert(boxes[k].layer == layer);
    }
    if drawn(boxes, layer, x, y) {
        let k = choose|k: int|
            0 <= k < boxes.len() && (#[trigger] boxes[k]).layer == layer && boxes[k].x0 <= x
                < boxes[k].x1 && boxes[k].y0 <= y < boxes[k].y1;
        assert(boxes[k].layer == layer);
        assert(squares::in_rect(boxes[k].rect(), (x, y)));
    }
}

/// A conductor is its cells.
pub proof fn a_conductor_is_its_cells(c: Conductor)
    ensures
        c.squares() == metal(c),
{
    assert forall|p: (int, int)| c.squares().contains(p) <==> metal(c).contains(p) by {
        rectangles_hold_what_is_between_their_edges(c.cells@, p.0, p.1);
        assert(over(c, p.0, p.1) <==> c.squares().contains((p.0, p.1)));
    }
    assert(c.squares() =~= metal(c));
}

/// The conductors of a layer are together exactly what its boxes draw and its pins do not cover.
/// Where a box comes from has no part in it: the enclosure of a via is metal of its layer.
pub proof fn conductors_are_what_is_drawn_and_not_cut(
    cs: Seq<Conductor>,
    boxes: Seq<LayerBox>,
    cuts: Seq<LayerBox>,
    layer: i64,
    x: int,
    y: int,
)
    requires
        graph::shows_net(cs, boxes, cuts),
    ensures
        (exists|i: int| 0 <= i < cs.len() && (#[trigger] cs[i]).layer == layer && over(cs[i], x, y))
            <==> drawn(boxes, layer, x, y) && !drawn(cuts, layer, x, y),
{
    let p = (x, y);
    let m = conductor::layer_metal(boxes, cuts, layer);
    lemma_drawn(boxes, layer, x, y);
    lemma_drawn(cuts, layer, x, y);
    if exists|i: int| 0 <= i < cs.len() && (#[trigger] cs[i]).layer == layer && over(cs[i], x, y) {
        let i = choose|i: int|
            0 <= i < cs.len() && (#[trigger] cs[i]).layer == layer && over(cs[i], x, y);
        a_conductor_is_its_cells(cs[i]);
        assert(squares::is_component(cs[i].squares(), m));
        assert(metal(cs[i]).contains(p));
        assert(m.contains(p));
    }
    if drawn(boxes, layer, x, y) && !drawn(cuts, layer, x, y) {
        assert(m.contains(p));
        let i = choose|i: int|
            0 <= i < cs.len() && (#[trigger] cs[i]).layer == layer && cs[i].squares().contains(p);
        a_conductor_is_its_cells(cs[i]);
        assert(metal(cs[i]).contains(p));
        assert(cs[i].layer == layer);
    }
}

/// From one square of a conductor to one beside it.
pub open spec fn along(c: Conductor) -> spec_fn((int, int), (int, int)) -> bool {
    |p: (int, int), q: (int, int)|
        over(c, p.0, p.1) && over(c, q.0, q.1) && (q == (p.0 - 1, p.1) || q == (p.0 + 1, p.1) || q
            == (p.0, p.1 - 1) || q == (p.0, p.1 + 1))
}

/// A conductor is in one piece: from any square of it a walk over shared edges, all inside it,
/// leads to any other.
pub proof fn a_conductor_is_in_one_piece(
    cs: Seq<Conductor>,
    boxes: Seq<LayerBox>,
    cuts: Seq<LayerBox>,
    i: int,
    p: (int, int),
    q: (int, int),
)
    requires
        graph::shows_net(cs, boxes, cuts),
        0 <= i < cs.len(),
        over(cs[i], p.0, p.1),
        over(cs[i], q.0, q.1),
    ensures
        exists|path: Seq<(int, int)>| is_walk(along(cs[i]), path, p, q),
{
    let s = cs[i].squares();
    a_conductor_is_its_cells(cs[i]);
    assert(squares::is_component(s, conductor::layer_metal(boxes, cuts, cs[i].layer)));
    assert(s.contains(p) && s.contains(q)) by {
        assert(metal(cs[i]).contains(p) && metal(cs[i]).contains(q));
    }
    assert(reach::reaches(squares::step_in(s), p, q));
    let a = squares::step_in(s);
    let b = along(cs[i]);
    assert forall|x: (int, int), y: (int, int)| #[trigger] a(x, y) implies b(x, y) by {
        assert(metal(cs[i]).contains(x) && metal(cs[i]).contains(y));
    }
    reach::lemma_reaches_mono(a, b, p, q);
    to_reach_is_to_walk(b, p, q);
}

/// Conductors of one layer share no square, and no square of one lies beside a square of another:
/// metal that shares an edge is one conductor. (Metal that meets only at a corner is not.)
pub proof fn metal_that_shares_an_edge_is_one_conductor(
    cs: Seq<Conductor>,
    boxes: Seq<LayerBox>,
    cuts: Seq<LayerBox>,
    i: int,
    j: int,
    p: (int, int),
    q: (int, int),
)
    requires
        graph::shows_net(cs, boxes, cuts),
        0 <= i < cs.len(),
        0 <= j < cs.len(),
        cs[i].layer == cs[j].layer,
        over(cs[i], p.0, p.1),
        over(cs[j], q.0, q.1),
        q == p || q == (p.0 - 1, p.1) || q == (p.0 + 1, p.1) || q == (p.0, p.1 - 1) || q == (
            p.0,
            p.1 + 1,
        ),
    ensures
        i == j,
{
    lemma_over(cs[i], p);
    lemma_over(cs[j], q);
    lemma_apart(cs, boxes, cuts, i, j, p, q);
}

proof fn lemma_over(c: Conductor, p: (int, int))
    requires
        over(c, p.0, p.1),
    ensures
        c.squares().contains(p),
{
    a_conductor_is_its_cells(c);
    assert(metal(c).contains(p));
}

#[verifier::spinoff_prover]
proof fn lemma_apart(
    cs: Seq<Conductor>,
    boxes: Seq<LayerBox>,
    cuts: Seq<LayerBox>,
    i: int,
    j: int,
    p: (int, int),
    q: (int, int),
)
    requires
        graph::shows_net(cs, boxes, cuts),
        0 <= i < cs.len(),
        0 <= j < cs.len(),
        cs[i].layer == cs[j].layer,
        cs[i].squares().contains(p),
        cs[j].squares().contains(q),
        q == p || squares::adjacent(p, q),
    ensures
        i == j,
{
    if i != j {
        pins::conductors_of_a_layer_are_apart(cs, boxes, cuts, i, j, p, q);
    }
}

/// The first box of a layer says whether the layer is a routing layer, and every conductor has it
/// so. Area and perimeter of a conductor are those of its cells.
pub proof fn a_conductor_is_of_its_layer(
    g: NetGraph,
    boxes: Seq<LayerBox>,
    cuts: Seq<LayerBox>,
    i: int,
    k: int,
)
    requires
        g.wf(),
        graph::shows_net(g.conductors@, boxes, cuts),
        0 <= i < g.conductors@.len(),
        0 <= k < boxes.len(),
        boxes[k].layer == g.conductors@[i].layer,
        forall|j: int| 0 <= j < k ==> (#[trigger] boxes[j]).layer != g.conductors@[i].layer,
    ensures
        g.conductors@[i].is_routing == boxes[k].is_routing,
        g.conductors@[i].area == metal(g.conductors@[i]).len(),
        g.conductors@[i].perimeter == squares::perimeter(metal(g.conductors@[i])),
        metal(g.conductors@[i]).finite(),
        metal(g.conductors@[i]).len() > 0,
{
    let c = g.conductors@[i];
    assert(c.wf());
    a_conductor_is_its_cells(c);
    squares::lemma_squares_finite(c.cells@);
    assert(squares::is_component(c.squares(), conductor::layer_metal(boxes, cuts, c.layer)));
    let p = choose|p: (int, int)| c.squares().contains(p);
    if c.squares().len() == 0 {
        assert(c.squares() =~= Set::empty());
        assert(c.squares().contains(p));
    }
    if conductor::layer_is_routing(boxes, c.layer) {
        let h = choose|h: int|
            0 <= h < boxes.len() && (#[trigger] boxes[h]).layer == c.layer && boxes[h].is_routing
                && (forall|j: int| 0 <= j < h ==> (#[trigger] boxes[j]).layer != c.layer);
        if h < k {
            assert(boxes[h].layer != c.layer);
        }
        if k < h {
            assert(boxes[k].layer != c.layer);
        }
    }
    if boxes[k].is_routing {
        assert(boxes[k].layer == c.layer);
    }
}

/// The list goes up the layers, and on one layer along: a conductor that comes first has a square
/// that lies before, to the left or in the same column below, every square of the other.
pub proof fn conductors_are_listed_bottom_up(
    cs: Seq<Conductor>,
    boxes: Seq<LayerBox>,
    cuts: Seq<LayerBox>,
    i: int,
    j: int,
)
    requires
        graph::shows_net(cs, boxes, cuts),
        0 <= i < j < cs.len(),
    ensures
        cs[i].layer <= cs[j].layer,
        cs[i].layer == cs[j].layer ==> exists|x: int, y: int| #[trigger]
            over(cs[i], x, y) && forall|u: int, v: int| #[trigger]
                over(cs[j], u, v) ==> x < u || x == u && y < v,
{
    assert(cs[i].layer < cs[j].layer || cs[i].layer == cs[j].layer && conductor::begins_before(
        cs[i].squares(),
        cs[j].squares(),
    ));
    if cs[i].layer == cs[j].layer {
        lemma_begins(cs[i], cs[j]);
    }
}

proof fn lemma_begins(c: Conductor, d: Conductor)
    requires
        conductor::begins_before(c.squares(), d.squares()),
    ensures
        exists|x: int, y: int| #[trigger]
            over(c, x, y) && forall|u: int, v: int| #[trigger]
                over(d, u, v) ==> x < u || x == u && y < v,
{
    a_conductor_is_its_cells(c);
    a_conductor_is_its_cells(d);
    let p = choose|p: (int, int)| #[trigger]
        c.squares().contains(p) && forall|q: (int, int)| #[trigger]
            d.squares().contains(q) ==> p.0 < q.0 || p.0 == q.0 && p.1 < q.1;
    assert(metal(c).contains(p));
    assert(over(c, p.0, p.1));
    assert forall|u: int, v: int| #[trigger] over(d, u, v) implies p.0 < u || p.0 == u && p.1 < v by {
        assert(metal(d).contains((u, v)));
        assert(d.squares().contains((u, v)));
    }
}

/// The stages are the layers of the routing conductors, each once, ascending.
pub proof fn stages_are_the_layers_of_routing(g: NetGraph, a: int, b: int, layer: i64)
    requires
        g.wf(),
    ensures
        0 <= a < b < g.layers@.len() ==> g.layers@[a] < g.layers@[b],
        (exists|s: int| 0 <= s < g.layers@.len() && #[trigger] g.layers@[s] == layer) <==> (exists|
            i: int,
        |
            0 <= i < g.conductors@.len() && (#[trigger] g.conductors@[i]).layer == layer
                && g.conductors@[i].is_routing),
{
    assert(g.layers@.contains(layer) <==> exists|s: int|
        0 <= s < g.layers@.len() && #[trigger] g.layers@[s] == layer);
}

/// Whether two cells, edges and corners included, meet when seen from above.
pub open spec fn cells_meet(c: Rect, d: Rect) -> bool {
    c.0 <= d.2 && d.0 <= c.2 && c.1 <= d.3 && d.1 <= c.3
}

/// Two conductors of a list meet: a cell of one meets a cell of the other.
pub open spec fn conductors_meet(c: Conductor, d: Conductor) -> bool {
    exists|a: int, b: int|
        0 <= a < c.cells@.len() && 0 <= b < d.cells@.len() && #[trigger] cells_meet(
            c.cells@[a],
            d.cells@[b],
        )
}

proof fn lemma_contact(c: Conductor, d: Conductor)
    ensures
        c.contacts(&d) == conductors_meet(c, d),
{
    if c.contacts(&d) {
        let b = choose|b: int| 0 <= b < d.cells@.len() && c.meets(#[trigger] d.cells@[b], 0);
        let a = choose|a: int|
            0 <= a < c.cells@.len() && conductor::near(#[trigger] c.cells@[a], d.cells@[b], 0);
        assert(cells_meet(c.cells@[a], d.cells@[b]));
    }
    if conductors_meet(c, d) {
        let (a, b) = choose|a: int, b: int|
            0 <= a < c.cells@.len() && 0 <= b < d.cells@.len() && #[trigger] cells_meet(
                c.cells@[a],
                d.cells@[b],
            );
        assert(conductor::near(c.cells@[a], d.cells@[b], 0));
        assert(c.meets(d.cells@[b], 0));
    }
}

/// The links are the contacts from one layer to the next: two conductors are linked exactly when
/// their layers are one step apart and cells of them meet.
pub proof fn links_are_contacts_of_neighbouring_layers(g: NetGraph, a: usize, b: usize)
    requires
        g.wf(),
    ensures
        g.links@.contains((a, b)) <==> a < b && b < g.conductors@.len() && (
        g.conductors@[a as int].layer + 1 == g.conductors@[b as int].layer
            || g.conductors@[b as int].layer + 1 == g.conductors@[a as int].layer)
            && conductors_meet(g.conductors@[a as int], g.conductors@[b as int]),
{
    assert(g.links@.contains((a, b)) <==> graph::in_contact(g.conductors@, a as int, b as int));
    if a < b && b < g.conductors@.len() {
        lemma_contact(g.conductors@[a as int], g.conductors@[b as int]);
    }
}

/// Whether the pin box comes within one unit of the cell.
pub open spec fn pin_near(c: Rect, pin: LayerBox) -> bool {
    c.0 <= pin.x1 + 1 && pin.x0 - 1 <= c.2 && c.1 <= pin.y1 + 1 && pin.y0 - 1 <= c.3
}

/// A pin box touches a conductor exactly when their layers are the same or one step apart and the
/// box comes within one unit of a cell of it.
pub open spec fn pin_touches(c: Conductor, pin: LayerBox) -> bool {
    &&& -1 <= c.layer - pin.layer <= 1
    &&& exists|j: int| 0 <= j < c.cells@.len() && #[trigger] pin_near(c.cells@[j], pin)
}

/// What a pin box touches goes by its own coordinates.
pub proof fn a_pin_touches_what_its_box_comes_near(c: Conductor, pin: LayerBox)
    ensures
        touch::pin_meets(c, pin) == pin_touches(c, pin),
{
    if touch::pin_meets(c, pin) {
        let j = choose|j: int|
            0 <= j < c.cells@.len() && conductor::near(#[trigger] c.cells@[j], pin.rect(), 1);
        assert(pin_near(c.cells@[j], pin));
    }
    if pin_touches(c, pin) {
        let j = choose|j: int| 0 <= j < c.cells@.len() && #[trigger] pin_near(c.cells@[j], pin);
        assert(conductor::near(c.cells@[j], pin.rect(), 1));
    }
}

/// Conductors are listed for a pin where its first box to touch them stands.
pub proof fn pins_find_conductors_box_by_box(c: Conductor, boxes: Seq<LayerBox>, k: int)
    ensures
        touch::first_meets(c, boxes, k) <==> 0 <= k < boxes.len() && pin_touches(c, boxes[k])
            && forall|j: int| 0 <= j < k ==> !pin_touches(c, #[trigger] boxes[j]),
{
    assert forall|j: int| 0 <= j < boxes.len() implies touch::pin_meets(c, #[trigger] boxes[j])
        == pin_touches(c, boxes[j]) by {
        a_pin_touches_what_its_box_comes_near(c, boxes[j]);
    }
    if 0 <= k < boxes.len() {
        a_pin_touches_what_its_box_comes_near(c, boxes[k]);
        if touch::first_meets(c, boxes, k) {
            assert forall|j: int| 0 <= j < k implies !pin_touches(c, #[trigger] boxes[j]) by {
                a_pin_touches_what_its_box_comes_near(c, boxes[j]);
                assert(!touch::pin_meets(c, boxes[j]));
            }
        }
    }
}

/// Whether a box of the layer, if it has width and height, or a pin of it has an edge at `x`.
pub open spec fn edge_at_x(boxes: Seq<LayerBox>, cuts: Seq<LayerBox>, layer: i64, x: i32) -> bool {
    ||| exists|k: int|
        0 <= k < boxes.len() && (#[trigger] boxes[k]).layer == layer && boxes[k].x0 < boxes[k].x1
            && boxes[k].y0 < boxes[k].y1 && (boxes[k].x0 == x || boxes[k].x1 == x)
    ||| exists|k: int|
        0 <= k < cuts.len() && (#[trigger] cuts[k]).layer == layer && (cuts[k].x0 == x || cuts[k].x1
            == x)
}

/// The same of `y`.
pub open spec fn edge_at_y(boxes: Seq<LayerBox>, cuts: Seq<LayerBox>, layer: i64, y: i32) -> bool {
    ||| exists|k: int|
        0 <= k < boxes.len() && (#[trigger] boxes[k]).layer == layer && boxes[k].x0 < boxes[k].x1
            && boxes[k].y0 < boxes[k].y1 && (boxes[k].y0 == y || boxes[k].y1 == y)
    ||| exists|k: int|
        0 <= k < cuts.len() && (#[trigger] cuts[k]).layer == layer && (cuts[k].y0 == y || cuts[k].y1
            == y)
}

/// The rectangles of a layer are the coordinates of its boxes.
proof fn lemma_rects(boxes: Seq<LayerBox>, layer: i64, r: Rect)
    ensures
        conductor::rects_of(boxes, layer).contains(r) <==> exists|k: int|
            0 <= k < boxes.len() && (#[trigger] boxes[k]).layer == layer && r == (
                boxes[k].x0,
                boxes[k].y0,
                boxes[k].x1,
                boxes[k].y1,
            ),
    decreases boxes.len(),
{
    let all = conductor::rects_of(boxes, layer);
    if boxes.len() > 0 {
        let front = boxes.drop_last();
        let n = boxes.len() - 1;
        lemma_rects(front, layer, r);
        let before = conductor::rects_of(front, layer);
        if all.contains(r) {
            let a = choose|a: int| 0 <= a < all.len() && all[a] == r;
            if a < before.len() {
                assert(before[a] == r);
                assert(before.contains(r));
                let k = choose|k: int|
                    0 <= k < front.len() && (#[trigger] front[k]).layer == layer && r == (
                        front[k].x0,
                        front[k].y0,
                        front[k].x1,
                        front[k].y1,
                    );
                assert(boxes[k] == front[k]);
            } else {
                assert(boxes[n].layer == layer);
            }
        }
        if exists|k: int|
            0 <= k < boxes.len() && (#[trigger] boxes[k]).layer == layer && r == (
                boxes[k].x0,
                boxes[k].y0,
                boxes[k].x1,
                boxes[k].y1,
            ) {
            let k = choose|k: int|
                0 <= k < boxes.len() && (#[trigger] boxes[k]).layer == layer && r == (
                    boxes[k].x0,
                    boxes[k].y0,
                    boxes[k].x1,
                    boxes[k].y1,
                );
            if k < n {
                assert(front[k] == boxes[k]);
                let a = choose|a: int| 0 <= a < before.len() && before[a] == r;
                assert(all[a] == r);
            } else {
                assert(all[before.len() as int] == r);
            }
        }
    }
}

/// The live rectangles are those with width and height.
pub proof fn lemma_live(rects: Seq<Rect>, r: Rect)
    ensures
        grid::live_of(rects).contains(r) <==> rects.contains(r) && r.0 < r.2 && r.1 < r.3,
    decreases rects.len(),
{
    reveal(Seq::filter);
    if rects.len() > 0 {
        let front = rects.drop_last();
        lemma_live(front, r);
        let before = grid::live_of(front);
        let all = grid::live_of(rects);
        assert(all == if grid::is_live(rects.last()) {
            before.push(rects.last())
        } else {
            before
        });
        if all.contains(r) {
            let a = choose|a: int| 0 <= a < all.len() && all[a] == r;
            if a < before.len() {
                assert(before[a] == r);
                assert(front.contains(r));
                let b = choose|b: int| 0 <= b < front.len() && front[b] == r;
                assert(rects[b] == r);
            } else {
                assert(rects[rects.len() - 1] == r);
            }
        }
        if rects.contains(r) && r.0 < r.2 && r.1 < r.3 {
            let b = choose|b: int| 0 <= b < rects.len() && rects[b] == r;
            if b < front.len() {
                assert(front[b] == r);
                let a = choose|a: int| 0 <= a < before.len() && before[a] == r;
                assert(all[a] == r);
            } else {
                assert(all[before.len() as int] == r);
            }
        }
    }
}

proof fn lemma_edges(boxes: Seq<LayerBox>, cuts: Seq<LayerBox>, layer: i64, v: i32)
    ensures
        conductor::x_line(boxes, cuts, layer, v) == edge_at_x(boxes, cuts, layer, v),
        conductor::y_line(boxes, cuts, layer, v) == edge_at_y(boxes, cuts, layer, v),
{
    let add = conductor::rects_of(boxes, layer);
    let live = grid::live_of(add);
    let sub = conductor::rects_of(cuts, layer);
    if grid::x_edge_of(live, v) || grid::y_edge_of(live, v) {
        if grid::x_edge_of(live, v) {
            let a = choose|a: int| 0 <= a < live.len() && ((#[trigger] live[a]).0 == v || live[a].2
                == v);
            assert(live.contains(live[a]));
            lemma_live(add, live[a]);
            lemma_rects(boxes, layer, live[a]);
        }
        if grid::y_edge_of(live, v) {
            let a = choose|a: int| 0 <= a < live.len() && ((#[trigger] live[a]).1 == v || live[a].3
                == v);
            assert(live.contains(live[a]));
            lemma_live(add, live[a]);
            lemma_rects(boxes, layer, live[a]);
        }
    }
    if grid::x_edge_of(sub, v) {
        let a = choose|a: int| 0 <= a < sub.len() && ((#[trigger] sub[a]).0 == v || sub[a].2 == v);
        assert(sub.contains(sub[a]));
        lemma_rects(cuts, layer, sub[a]);
    }
    if grid::y_edge_of(sub, v) {
        let a = choose|a: int| 0 <= a < sub.len() && ((#[trigger] sub[a]).1 == v || sub[a].3 == v);
        assert(sub.contains(sub[a]));
        lemma_rects(cuts, layer, sub[a]);
    }
    assert forall|k: int|
        0 <= k < boxes.len() && (#[trigger] boxes[k]).layer == layer && boxes[k].x0 < boxes[k].x1
            && boxes[k].y0 < boxes[k].y1 implies exists|a: int|
        0 <= a < live.len() && #[trigger] live[a] == (
            boxes[k].x0,
            boxes[k].y0,
            boxes[k].x1,
            boxes[k].y1,
        ) by {
        let r = (boxes[k].x0, boxes[k].y0, boxes[k].x1, boxes[k].y1);
        lemma_rects(boxes, layer, r);
        lemma_live(add, r);
        let a = choose|a: int| 0 <= a < live.len() && live[a] == r;
        assert(live[a] == r);
    }
    assert forall|k: int| 0 <= k < cuts.len() && (#[trigger] cuts[k]).layer == layer implies exists|
        a: int,
    |
        0 <= a < sub.len() && #[trigger] sub[a] == (
            cuts[k].x0,
            cuts[k].y0,
            cuts[k].x1,
            cuts[k].y1,
        ) by {
        let r = (cuts[k].x0, cuts[k].y0, cuts[k].x1, cuts[k].y1);
        lemma_rects(cuts, layer, r);
        let a = choose|a: int| 0 <= a < sub.len() && sub[a] == r;
        assert(sub[a] == r);
    }
}

/// The cells of a conductor lie between edges of the boxes and pins of its layer that have no edge
/// between them, and are listed column by column.
pub proof fn cells_lie_between_the_edges_of_the_layer(
    cs: Seq<Conductor>,
    boxes: Seq<LayerBox>,
    cuts: Seq<LayerBox>,
    i: int,
    a: int,
    b: int,
    v: i32,
)
    requires
        graph::shows_net(cs, boxes, cuts),
        0 <= i < cs.len(),
        0 <= a < cs[i].cells@.len(),
    ensures
        ({
            let c = cs[i].cells@[a];
            let layer = cs[i].layer;
            &&& c.0 < c.2 && c.1 < c.3
            &&& edge_at_x(boxes, cuts, layer, c.0) && edge_at_x(boxes, cuts, layer, c.2)
            &&& edge_at_y(boxes, cuts, layer, c.1) && edge_at_y(boxes, cuts, layer, c.3)
            &&& c.0 < v < c.2 ==> !edge_at_x(boxes, cuts, layer, v)
            &&& c.1 < v < c.3 ==> !edge_at_y(boxes, cuts, layer, v)
            &&& a < b < cs[i].cells@.len() ==> {
                let d = cs[i].cells@[b];
                c.0 < d.0 || c.0 == d.0 && c.1 < d.1
            }
        }),
{
    let c = cs[i].cells@[a];
    let layer = cs[i].layer;
    assert(conductor::in_cells(cs[i].cells@, boxes, cuts, layer));
    reveal(conductor::in_cells);
    assert(conductor::is_cell(c, boxes, cuts, layer));
    lemma_edges(boxes, cuts, layer, c.0);
    lemma_edges(boxes, cuts, layer, c.2);
    lemma_edges(boxes, cuts, layer, c.1);
    lemma_edges(boxes, cuts, layer, c.3);
    lemma_edges(boxes, cuts, layer, v);
}

} // verus!
