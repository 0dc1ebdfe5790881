//! The conductor graph: what metal each gate is actually exposed to, stage by stage.
//!
//! # The model
//!
//! The order of operations is the substance, and it is that of OpenROAD's `AntennaChecker`:
//!
//! 1. **Vias are decomposed** onto the layers they occupy: a cut, plus an enclosure below and
//!    another above. Not bookkeeping: a net routed at met1 and up has *no li1 wire*, and its only
//!    li1 metal is the enclosure of the li1 to met1 via. Standard-cell pins live on li1, so
//!    without decomposition there is nothing there for a pin to touch.
//! 2. **Pin metal is subtracted** from the wire, per layer. Pins are *cut points*: a wire running
//!    past two pins is not one conductor but however many fragments the subtraction leaves. That
//!    is the physical claim: charge collected by a piece of metal reaches the gates on *that*
//!    piece.
//! 3. **Components are labelled per layer**, then linked across one layer step, so a cut layer
//!    carries the vertical connection.
//! 4. **Pins are re-attached** to the fragments their own boxes touch, and short those together.
//!
//! Manufacturing order makes it staged: at stage *L* only layers up to *L* exist.

use crate::conductor;
use crate::conductor::insert_layer;
use crate::conductor::layer_conductors;
use crate::conductor::layers_of;
pub use crate::conductor::Conductor;
pub use crate::conductor::LayerBox;
use crate::grid::Grid;
pub use crate::regions::Collected;
use crate::squares;
use crate::squares::Rect;
use crate::touch;
use crate::touch::layer_distance;
use crate::touch::touched;
use vstd::prelude::*;

verus! {

/// The union of `rects` can be measured in `i64`: little is drawn, or else the area and the
/// perimeter are known to fit.
pub open spec fn union_measurable(rects: Seq<Rect>) -> bool {
    ||| 4 * squares::area_total(rects) <= i64::MAX
    ||| squares::area(squares::squares_of(rects)) <= i64::MAX && squares::perimeter(
        squares::squares_of(rects),
    ) <= i64::MAX
}

proof fn lemma_union_measurable(rects: Seq<Rect>)
    requires
        union_measurable(rects),
    ensures
        squares::area(squares::squares_of(rects)) <= i64::MAX,
        squares::perimeter(squares::squares_of(rects)) <= i64::MAX,
{
    squares::lemma_metal_bound(rects, Seq::<Rect>::empty());
    squares::lemma_metal_of_nothing(rects);
}

/// Area and perimeter of the **union** of axis-aligned rectangles, in database units.
///
/// Summing rectangles individually double-counts: overlap inflates area, and every junction
/// between abutting collinear segments contributes two interior edges no physical wire has.
/// Exact: no floating point, no tolerance.
pub fn union_area_perimeter(rects: &[Rect]) -> (r: (i64, i64))
    requires
        union_measurable(rects@),
    ensures
        r.0 == squares::area(squares::squares_of(rects@)),
        r.1 == squares::perimeter(squares::squares_of(rects@)),
{
    let none: Vec<Rect> = Vec::new();
    let g = Grid::build(rects, none.as_slice());
    proof {
        lemma_union_measurable(rects@);
        squares::lemma_metal_of_nothing(rects@);
        assert(none@ =~= Seq::<Rect>::empty());
        squares::lemma_squares_finite(rects@);
    }
    let (area, perim) = g.measure();
    (area as i64, perim as i64)
}

/// The conductors are what the pins leave of the net: on each layer exactly the connected
/// components of the metal there, each kept as cells between the edges of that layer, in rising
/// order of layers and, on one layer, in the order in which they begin.
pub open spec fn shows_net(
    cs: Seq<Conductor>,
    boxes: Seq<LayerBox>,
    pins: Seq<LayerBox>,
) -> bool {
    &&& forall|i: int|
        0 <= i < cs.len() ==> {
            let c = #[trigger] cs[i];
            &&& c.is_routing == conductor::layer_is_routing(boxes, c.layer)
            &&& squares::is_component(c.squares(), conductor::layer_metal(boxes, pins, c.layer))
            &&& conductor::in_cells(c.cells@, boxes, pins, c.layer)
        }
    &&& forall|layer: i64, p: (int, int)| #[trigger]
        conductor::layer_metal(boxes, pins, layer).contains(p) ==> exists|i: int|
            0 <= i < cs.len() && (#[trigger] cs[i]).layer == layer && cs[i].squares().contains(p)
    &&& in_stack_order(cs)
}

/// Rising layers, and on one layer apart and in the order in which they begin.
pub open spec fn in_stack_order(cs: Seq<Conductor>) -> bool {
    forall|i: int, j: int|
        #![trigger cs[i], cs[j]]
        0 <= i < j < cs.len() ==> cs[i].layer < cs[j].layer || cs[i].layer == cs[j].layer
            && cs[i].squares().disjoint(cs[j].squares()) && conductor::begins_before(
            cs[i].squares(),
            cs[j].squares(),
        )
}

/// Every conductor has its exact measures.
pub open spec fn all_measured(cs: Seq<Conductor>) -> bool {
    forall|i: int| 0 <= i < cs.len() ==> (#[trigger] cs[i]).wf()
}

/// The layers are those of the routing conductors, ascending.
pub open spec fn are_stages(layers: Seq<i64>, cs: Seq<Conductor>) -> bool {
    &&& conductor::rising_layers(layers)
    &&& forall|l: i64| #[trigger]
        layers.contains(l) <==> exists|i: int|
            0 <= i < cs.len() && (#[trigger] cs[i]).layer == l && cs[i].is_routing
}

/// Whether two conductors of a list, the lower index first, are one layer step apart and touch.
pub open spec fn in_contact(cs: Seq<Conductor>, a: int, b: int) -> bool {
    &&& 0 <= a < b < cs.len()
    &&& touch::layer_gap(cs[a].layer, cs[b].layer) == 1
    &&& cs[a].contacts(&cs[b])
}

/// The links are the pairs of conductors in vertical contact.
pub open spec fn are_contacts(links: Seq<(usize, usize)>, cs: Seq<Conductor>) -> bool {
    forall|a: usize, b: usize| #[trigger]
        links.contains((a, b)) <==> in_contact(cs, a as int, b as int)
}

/// One net's routing, cut at its pins and labelled into conductors.
pub struct NetGraph {
    pub conductors: Vec<Conductor>,
    /// Routing layers present, ascending: the stages to evaluate.
    pub layers: Vec<i64>,
    /// Cross-layer contacts: conductor pairs exactly one layer step apart that touch.
    pub links: Vec<(usize, usize)>,
}

impl NetGraph {
    /// Whether the conductors `a` and `b`, with `a` the lower index, are in vertical contact.
    pub open spec fn linked(&self, a: int, b: int) -> bool {
        in_contact(self.conductors@, a, b)
    }

    /// Every conductor is measured, the layers are those of the routing conductors, and the links
    /// are the vertical contacts.
    pub open spec fn wf(&self) -> bool {
        &&& all_measured(self.conductors@)
        &&& are_stages(self.layers@, self.conductors@)
        &&& are_contacts(self.links@, self.conductors@)
    }

    /// All routing metal of the net together can be measured in `i64`.
    pub open spec fn totals_fit(&self) -> bool {
        &&& conductor::routing_area(self.conductors@) <= i64::MAX
        &&& conductor::routing_perimeter(self.conductors@) <= i64::MAX
    }

    /// Build from a net's decomposed boxes, cut by every terminal's pin metal.
    pub fn build(boxes: &[LayerBox], pin_boxes: &[LayerBox]) -> (g: NetGraph)
        requires
            conductor::layers_fit(boxes@, pin_boxes@),
        ensures
            g.wf(),
            shows_net(g.conductors@, boxes@, pin_boxes@),
            conductor::routing_area(g.conductors@) == conductor::routing_total(
                boxes@,
                pin_boxes@,
                conductor::metal_area(),
            ),
            conductor::routing_perimeter(g.conductors@) == conductor::routing_total(
                boxes@,
                pin_boxes@,
                conductor::metal_perimeter(),
            ),
    {
        let conductors = conductors_of(boxes, pin_boxes);
        let layers = stages_of(&conductors);
        // Vertical contact. The layer stack is consecutive (li1, mcon, met1, via, met2 and so on),
        // so a routing layer and the cut above it differ by one: that adjacency is the whole
        // reason the graph is three-dimensional rather than a stack of unrelated pictures.
        let links = contacts_between(&conductors);
        NetGraph { conductors, layers, links }
    }

    pub fn is_empty(&self) -> (b: bool)
        ensures
            b == (self.conductors@.len() == 0),
    {
        self.conductors.len() == 0
    }

    /// One conductor, by index, for diagnosis of what a terminal attached to.
    pub fn conductor(&self, i: usize) -> (c: &Conductor)
        requires
            i < self.conductors@.len(),
        ensures
            *c == self.conductors@[i as int],
    {
        &self.conductors[i]
    }

    /// Conductors a pin's own metal touches: on its own layer, or one step either way.
    ///
    /// A halo of one unit so abutment counts. **No proximity fallback**: a pin touching nothing is
    /// attached to nothing, because guessing merges conductors that are separate. The conductors
    /// come in the order in which the boxes find them.
    pub fn touched_by(&self, pin_boxes: &[LayerBox]) -> (hits: Vec<usize>)
        ensures
            hits@.no_duplicates(),
            forall|a: int| 0 <= a < hits@.len() ==> (#[trigger] hits@[a]) < self.conductors@.len(),
            forall|i: usize|
                i < self.conductors@.len() ==> (#[trigger] hits@.contains(i) <==> exists|k: int|
                    0 <= k < pin_boxes@.len() && touch::pin_meets(
                        self.conductors@[i as int],
                        #[trigger] pin_boxes@[k],
                    )),
            forall|a: int, b: int, ka: int, kb: int|
                0 <= a < b < hits@.len() && #[trigger] touch::first_meets(
                    self.conductors@[hits@[a] as int],
                    pin_boxes@,
                    ka,
                ) && #[trigger] touch::first_meets(self.conductors@[hits@[b] as int], pin_boxes@, kb)
                    ==> ka < kb || ka == kb && hits@[a] < hits@[b],
    {
        touched(&self.conductors, pin_boxes)
    }
}

/// The conductors of the first `n` of the layers `present`, as `shows_net` has them.
spec fn shows_layers(
    cs: Seq<Conductor>,
    boxes: Seq<LayerBox>,
    pins: Seq<LayerBox>,
    present: Seq<i64>,
    n: int,
) -> bool {
    &&& forall|i: int|
        0 <= i < cs.len() ==> {
            let c = #[trigger] cs[i];
            &&& c.wf()
            &&& c.is_routing == conductor::layer_is_routing(boxes, c.layer)
            &&& squares::is_component(c.squares(), conductor::layer_metal(boxes, pins, c.layer))
            &&& conductor::in_cells(c.cells@, boxes, pins, c.layer)
            &&& n > 0 && c.layer <= present[n - 1]
        }
    &&& in_stack_order(cs)
    &&& forall|a: int|
        0 <= a < n ==> holds_layer(
            cs,
            #[trigger] present[a],
            conductor::layer_metal(boxes, pins, present[a]),
        )
}

/// Every square of `m` is in a conductor of the layer.
spec fn holds_layer(cs: Seq<Conductor>, layer: i64, m: Set<(int, int)>) -> bool {
    forall|p: (int, int)| #[trigger]
        m.contains(p) ==> exists|i: int|
            0 <= i < cs.len() && (#[trigger] cs[i]).layer == layer && cs[i].squares().contains(p)
}

proof fn lemma_next_layer(
    cs: Seq<Conductor>,
    added: Seq<Conductor>,
    boxes: Seq<LayerBox>,
    pins: Seq<LayerBox>,
    present: Seq<i64>,
    n: int,
)
    requires
        0 <= n < present.len(),
        conductor::rising_layers(present),
        shows_layers(cs, boxes, pins, present, n),
        conductor::splits_layer(added, boxes, pins, present[n]),
    ensures
        shows_layers(cs + added, boxes, pins, present, n + 1),
{
    let after = cs + added;
    let layer = present[n];
    assert forall|i: int| 0 <= i < after.len() implies {
        let c = #[trigger] after[i];
        &&& c.wf()
        &&& c.is_routing == conductor::layer_is_routing(boxes, c.layer)
        &&& squares::is_component(c.squares(), conductor::layer_metal(boxes, pins, c.layer))
        &&& conductor::in_cells(c.cells@, boxes, pins, c.layer)
        &&& c.layer <= present[n]
    } by {
        if i < cs.len() {
            assert(after[i] == cs[i]);
            assert(cs[i].wf());
            assert(present[n - 1] < present[n]);
        } else {
            assert(after[i] == added[i - cs.len()]);
            assert(added[i - cs.len()].wf());
        }
    }
    assert(in_stack_order(after)) by {
        assert forall|i: int, j: int|
            #![trigger after[i], after[j]]
            0 <= i < j < after.len() implies after[i].layer < after[j].layer || after[i].layer
            == after[j].layer && after[i].squares().disjoint(after[j].squares())
            && conductor::begins_before(after[i].squares(), after[j].squares()) by {
            if j < cs.len() {
                assert(after[i] == cs[i] && after[j] == cs[j]);
            } else if i < cs.len() {
                assert(after[i] == cs[i] && after[j] == added[j - cs.len()]);
                assert(cs[i].layer <= present[n - 1] < present[n]);
                assert(added[j - cs.len()].layer == layer);
            } else {
                assert(after[i] == added[i - cs.len()] && after[j] == added[j - cs.len()]);
                assert(added[i - cs.len()].layer == layer);
                assert(added[j - cs.len()].layer == layer);
            }
        }
    }
    assert forall|a: int| 0 <= a < n + 1 implies holds_layer(
        after,
        #[trigger] present[a],
        conductor::layer_metal(boxes, pins, present[a]),
    ) by {
        let m = conductor::layer_metal(boxes, pins, present[a]);
        assert forall|p: (int, int)| #[trigger] m.contains(p) implies exists|i: int|
            0 <= i < after.len() && (#[trigger] after[i]).layer == present[a]
                && after[i].squares().contains(p) by {
            if a < n {
                assert(holds_layer(cs, present[a], m));
                let i = choose|i: int|
                    0 <= i < cs.len() && (#[trigger] cs[i]).layer == present[a]
                        && cs[i].squares().contains(p);
                assert(after[i] == cs[i]);
            } else {
                assert(conductor::all_metal(added, m));
                let i = choose|i: int|
                    0 <= i < added.len() && (#[trigger] added[i]).squares().contains(p);
                assert(after[cs.len() + i] == added[i]);
                assert(added[i].layer == layer);
            }
        }
    }
}

/// The conductors of all layers.
fn conductors_of(boxes: &[LayerBox], pins: &[LayerBox]) -> (cs: Vec<Conductor>)
    requires
        conductor::layers_fit(boxes@, pins@),
    ensures
        all_measured(cs@),
        shows_net(cs@, boxes@, pins@),
        conductor::routing_area(cs@) == conductor::routing_total(
            boxes@,
            pins@,
            conductor::metal_area(),
        ),
        conductor::routing_perimeter(cs@) == conductor::routing_total(
            boxes@,
            pins@,
            conductor::metal_perimeter(),
        ),
{
    let present = layers_of(boxes);
    let ghost all = boxes@.len() as int;
    let mut cs: Vec<Conductor> = Vec::new();
    let mut n: usize = 0;
    proof {
        conductor::lemma_bound_start(boxes@, pins@);
    }
    while n < present.len()
        invariant
            n <= present@.len(),
            all == boxes@.len(),
            conductor::rising_layers(present@),
            forall|l: i64| #[trigger] present@.contains(l) <==> conductor::has_layer(boxes@, l),
            conductor::layers_fit(boxes@, pins@),
            shows_layers(cs@, boxes@, pins@, present@, n as int),
            conductor::routing_area(cs@) == conductor::routing_sum(
                boxes@,
                pins@,
                all,
                conductor::bound_at(present@, n as int),
                conductor::metal_area(),
            ),
            conductor::routing_perimeter(cs@) == conductor::routing_sum(
                boxes@,
                pins@,
                all,
                conductor::bound_at(present@, n as int),
                conductor::metal_perimeter(),
            ),
        decreases present@.len() - n,
    {
        let mut added = layer_conductors(boxes, pins, present[n]);
        proof {
            lemma_next_layer(cs@, added@, boxes@, pins@, present@, n as int);
            conductor::lemma_routing_joined(cs@, added@);
            conductor::lemma_bound_step(boxes@, pins@, present@, n as int);
        }
        cs.append(&mut added);
        n += 1;
    }
    proof {
        conductor::lemma_bound_end(boxes@, pins@, present@);
        lemma_all_layers(cs@, boxes@, pins@, present@);
    }
    cs
}

/// With all layers the net is shown.
proof fn lemma_all_layers(
    cs: Seq<Conductor>,
    boxes: Seq<LayerBox>,
    pins: Seq<LayerBox>,
    present: Seq<i64>,
)
    requires
        forall|l: i64| #[trigger] present.contains(l) <==> conductor::has_layer(boxes, l),
        shows_layers(cs, boxes, pins, present, present.len() as int),
    ensures
        all_measured(cs),
        shows_net(cs, boxes, pins),
{
    assert forall|layer: i64, p: (int, int)| #[trigger]
        conductor::layer_metal(boxes, pins, layer).contains(p) implies exists|i: int|
        0 <= i < cs.len() && (#[trigger] cs[i]).layer == layer && cs[i].squares().contains(p) by {
        assert(conductor::boxed(boxes, layer, p));
        assert(present.contains(layer));
        let a = choose|a: int| 0 <= a < present.len() && present[a] == layer;
        assert(holds_layer(cs, present[a], conductor::layer_metal(boxes, pins, present[a])));
    }
}

/// The layers of the routing conductors, ascending.
fn stages_of(conductors: &Vec<Conductor>) -> (layers: Vec<i64>)
    ensures
        are_stages(layers@, conductors@),
{
    let mut layers: Vec<i64> = Vec::new();
    let ghost cs = conductors@;
    let mut i: usize = 0;
    while i < conductors.len()
        invariant
            i <= conductors@.len(),
            cs == conductors@,
            conductor::rising_layers(layers@),
            forall|l: i64| #[trigger]
                layers@.contains(l) <==> exists|k: int|
                    0 <= k < i && (#[trigger] cs[k]).layer == l && cs[k].is_routing,
        decreases conductors@.len() - i,
    {
        let ghost before = layers@;
        if conductors[i].is_routing {
            insert_layer(&mut layers, conductors[i].layer);
        }
        proof {
            assert forall|l: i64| #[trigger] layers@.contains(l) <==> exists|k: int|
                0 <= k < i + 1 && (#[trigger] cs[k]).layer == l && cs[k].is_routing by {
                if before.contains(l) {
                    let k = choose|k: int|
                        0 <= k < i && (#[trigger] cs[k]).layer == l && cs[k].is_routing;
                    assert(cs[k].layer == l);
                }
                if layers@.contains(l) && !before.contains(l) {
                    assert(cs[i as int].layer == l);
                }
                if exists|k: int|
                    0 <= k < i + 1 && (#[trigger] cs[k]).layer == l && cs[k].is_routing {
                    let k = choose|k: int|
                        0 <= k < i + 1 && (#[trigger] cs[k]).layer == l && cs[k].is_routing;
                    if k < i {
                        assert(before.contains(l));
                    }
                }
            }
        }
        i += 1;
    }
    layers
}

/// The pairs of conductors in vertical contact.
fn contacts_between(conductors: &Vec<Conductor>) -> (links: Vec<(usize, usize)>)
    ensures
        are_contacts(links@, conductors@),
{
    let mut links: Vec<(usize, usize)> = Vec::new();
    let ghost cs = conductors@;
    let mut i: usize = 0;
    while i < conductors.len()
        invariant
            i <= conductors@.len(),
            cs == conductors@,
            forall|a: usize, b: usize| #[trigger]
                links@.contains((a, b)) <==> in_contact(cs, a as int, b as int) && a < i,
        decreases conductors@.len() - i,
    {
        let mut j: usize = i + 1;
        while j < conductors.len()
            invariant
                i < j <= conductors@.len(),
                cs == conductors@,
                forall|a: usize, b: usize| #[trigger]
                    links@.contains((a, b)) <==> in_contact(cs, a as int, b as int) && (a < i || a
                        == i && b < j),
            decreases conductors@.len() - j,
        {
            let ghost before = links@;
            if layer_distance(conductors[i].layer, conductors[j].layer) == 1
                && conductors[i].touches(&conductors[j]) {
                links.push((i, j));
                proof {
                    assert(links@[before.len() as int] == (i, j));
                    assert forall|a: usize, b: usize| #[trigger]
                        links@.contains((a, b)) <==> in_contact(cs, a as int, b as int) && (a < i
                            || a == i && b < j + 1) by {
                        vstd::seq_lib::lemma_seq_contains_after_push(before, (i, j), (a, b));
                        if links@.contains((a, b)) && (a, b) != (i, j) {
                            let k = choose|k: int| 0 <= k < links@.len() && links@[k] == (a, b);
                            assert(before[k] == (a, b));
                        }
                    }
                }
            }
            j += 1;
        }
        i += 1;
    }
    links
}

} // verus!
