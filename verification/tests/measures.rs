//! Measures, cuts and attachment on small layouts.

use vyges_ant::conductor::fits;
use vyges_ant::graph::{union_area_perimeter, Collected, LayerBox, NetGraph};
use vyges_ant::grid::Grid;

fn on(layer: i64, x0: i32, y0: i32, x1: i32, y1: i32, is_routing: bool) -> LayerBox {
    LayerBox {
        layer,
        x0,
        y0,
        x1,
        y1,
        is_routing,
        from_via: false,
    }
}

fn wire(layer: i64, x0: i32, x1: i32) -> LayerBox {
    on(layer, x0, 0, x1, 10, true)
}

#[test]
fn order_and_repeats_change_nothing() {
    let a = [(0, 0, 10, 4), (5, 2, 12, 9), (0, 0, 3, 9)];
    let b = [
        (0, 0, 3, 9),
        (5, 2, 12, 9),
        (0, 0, 10, 4),
        (5, 2, 12, 9),
        (1, 1, 2, 2),
    ];
    assert_eq!(union_area_perimeter(&a), union_area_perimeter(&b));
    assert_eq!(union_area_perimeter(&a), (94, 52));
}

#[test]
fn a_cut_rectangle_measures_as_the_whole() {
    assert_eq!(
        union_area_perimeter(&[(0, 0, 4, 4), (4, 0, 10, 4)]),
        union_area_perimeter(&[(0, 0, 10, 4)])
    );
}

#[test]
fn the_union_is_never_more_than_the_pieces() {
    let (area, perimeter) = union_area_perimeter(&[(0, 0, 10, 10), (5, 5, 15, 15)]);
    assert_eq!((area, perimeter), (175, 60));
    assert!(area <= 200 && perimeter <= 80);
}

#[test]
fn inverted_rectangles_measure_nothing() {
    assert_eq!(union_area_perimeter(&[(10, 0, 0, 4)]), (0, 0));
    assert_eq!(union_area_perimeter(&[(10, 0, 0, 4), (0, 0, 1, 1)]), (1, 4));
}

#[test]
fn negative_and_extreme_coordinates_are_exact() {
    assert_eq!(union_area_perimeter(&[(-5, -5, 5, 5)]), (100, 40));
    assert_eq!(
        union_area_perimeter(&[(i32::MIN, 0, i32::MAX, 1)]),
        (4294967295, 8589934592)
    );
}

#[test]
fn two_apart_rectangles_add_up() {
    assert_eq!(
        union_area_perimeter(&[(0, 0, 2, 2), (10, 10, 13, 12)]),
        (10, 18)
    );
}

/// Metal that meets only at a corner is two conductors.
#[test]
fn a_corner_does_not_connect() {
    let corner = NetGraph::build(
        &[on(1, 0, 0, 10, 10, true), on(1, 10, 10, 20, 20, true)],
        &[],
    );
    assert_eq!(corner.conductors.len(), 2);
    let edge = NetGraph::build(
        &[on(1, 0, 0, 10, 10, true), on(1, 10, 9, 20, 20, true)],
        &[],
    );
    assert_eq!(edge.conductors.len(), 1);
}

/// A pin in the middle of a plate leaves a ring, with its inner boundary.
#[test]
fn a_pin_inside_a_plate_leaves_a_ring() {
    let g = NetGraph::build(
        &[on(1, 0, 0, 30, 30, true)],
        &[on(1, 10, 10, 20, 20, true)],
    );
    assert_eq!(g.conductors.len(), 1);
    assert_eq!(g.conductors[0].area, 800);
    assert_eq!(g.conductors[0].perimeter, 160);
}

/// What the pins leave of a layer is what its conductors have, together.
#[test]
fn the_pieces_of_a_cut_add_up() {
    let g = NetGraph::build(&[wire(5, 0, 100)], &[wire(5, 20, 30), wire(5, 60, 65)]);
    let area: i64 = g.conductors.iter().map(|c| c.area).sum();
    let perimeter: i64 = g.conductors.iter().map(|c| c.perimeter).sum();
    assert_eq!(g.conductors.len(), 3);
    assert_eq!(area, 850);
    assert_eq!(perimeter, 2 * (20 + 30 + 35) + 3 * 20);
}

/// A pin cuts only its own layer.
#[test]
fn a_pin_on_another_layer_cuts_nothing() {
    let g = NetGraph::build(&[wire(5, 0, 100)], &[wire(6, 40, 60)]);
    assert_eq!(g.conductors.len(), 1);
    assert_eq!(g.conductors[0].area, 1000);
}

/// A wire wholly under a pin is gone.
#[test]
fn a_covered_wire_leaves_nothing() {
    let g = NetGraph::build(&[wire(5, 0, 100)], &[wire(5, -10, 110)]);
    assert!(g.is_empty());
    assert!(g.layers.is_empty());
}

#[test]
fn conductors_come_in_stack_order() {
    let g = NetGraph::build(&[wire(7, 0, 5), wire(3, 50, 60), wire(3, 0, 5)], &[]);
    let order: Vec<(i64, i32)> = g
        .conductors
        .iter()
        .map(|c| (c.layer, c.cells[0].0))
        .collect();
    assert_eq!(order, vec![(3, 0), (3, 50), (7, 0)]);
    assert_eq!(g.layers, vec![3, 7]);
    assert_eq!(g.conductor(2).layer, 7);
}

/// The layers of the stages are the routing layers.
#[test]
fn cut_layers_are_no_stages() {
    let g = NetGraph::build(&[wire(3, 0, 20), on(4, 5, 0, 15, 10, false), wire(5, 0, 100)], &[]);
    assert_eq!(g.layers, vec![3, 5]);
    assert_eq!(g.conductors.len(), 3);
}

#[test]
fn a_pin_reaches_one_unit_and_one_layer() {
    let g = NetGraph::build(&[wire(5, 0, 100)], &[]);
    assert_eq!(g.touched_by(&[wire(5, 101, 110)]), vec![0]);
    assert!(g.touched_by(&[wire(5, 102, 110)]).is_empty());
    assert_eq!(g.touched_by(&[wire(4, 0, 10)]), vec![0]);
    assert_eq!(g.touched_by(&[wire(6, 0, 10)]), vec![0]);
    assert!(g.touched_by(&[wire(7, 0, 10)]).is_empty());
}

/// Conductors are listed once, in the order in which the boxes find them.
#[test]
fn touched_conductors_come_in_the_order_of_the_boxes() {
    let g = NetGraph::build(&[wire(5, 0, 10), wire(5, 20, 30), wire(5, 40, 50)], &[]);
    let hits = g.touched_by(&[wire(5, 41, 42), wire(5, 9, 21), wire(5, 0, 50)]);
    assert_eq!(hits, vec![2, 0, 1]);
}

/// The case that manufacturing order is about: two pieces of one layer are separate until the
/// layer that bridges them is there.
#[test]
fn later_layers_join_what_was_separate() {
    let boxes = [
        wire(1, 0, 10),
        wire(1, 50, 60),
        on(2, 4, 0, 6, 10, false),
        on(2, 54, 0, 56, 10, false),
        wire(3, 0, 60),
    ];
    let g = NetGraph::build(&boxes, &[]);
    let left = g.touched_by(&[wire(1, 0, 2)]);
    let right = g.touched_by(&[wire(1, 58, 60)]);
    let attach = [left, right];

    let early = g.regions_at(1, &attach);
    assert_eq!(early.len(), 2);
    assert_eq!(early[0].0, vec![0]);
    assert_eq!(early[1].0, vec![1]);
    assert_eq!(early[0].1.cumulative_area, 100);

    let late = g.regions_at(3, &attach);
    assert_eq!(late.len(), 1);
    assert_eq!(late[0].0, vec![0, 1]);
    assert_eq!(
        late[0].1,
        Collected {
            layer_area: 600,
            layer_perimeter: 140,
            cumulative_area: 800,
            cumulative_perimeter: 220,
        }
    );
    assert!(early[0].1.cumulative_area <= late[0].1.cumulative_area);
    assert!(late[0].1.layer_area <= late[0].1.cumulative_area);
}

/// A terminal attached to nothing is in no region, and one whose metal is not there yet is in
/// none so far.
#[test]
fn unattached_terminals_are_in_no_region() {
    let g = NetGraph::build(&[wire(5, 0, 100)], &[]);
    assert!(g.regions_at(5, &[vec![]]).is_empty());
    assert!(g.regions_at(4, &[vec![0]]).is_empty());
    assert_eq!(g.regions_at(5, &[vec![], vec![0]])[0].0, vec![1]);
}

/// A conductor with no terminal on it collects for nobody.
#[test]
fn metal_without_a_terminal_is_collected_by_nobody() {
    let g = NetGraph::build(&[wire(5, 0, 100), wire(5, 200, 300)], &[]);
    let regions = g.regions_at(5, &[vec![0]]);
    assert_eq!(regions.len(), 1);
    assert_eq!(regions[0].1.cumulative_area, 1000);
}

#[test]
fn regions_come_in_the_order_of_their_first_terminals() {
    let g = NetGraph::build(&[wire(5, 0, 10), wire(5, 20, 30), wire(5, 40, 50)], &[]);
    let regions = g.regions_at(5, &[vec![2], vec![0], vec![2], vec![1]]);
    let terms: Vec<Vec<usize>> = regions.into_iter().map(|r| r.0).collect();
    assert_eq!(terms, vec![vec![0, 2], vec![1], vec![3]]);
}

#[test]
fn an_empty_collection_is_zero() {
    let zero = Collected::default();
    assert_eq!(zero.layer_area, 0);
    assert_eq!(zero.layer_perimeter, 0);
    assert_eq!(zero.cumulative_area, 0);
    assert_eq!(zero.cumulative_perimeter, 0);
}

/// The order in which the boxes are drawn changes nothing.
#[test]
fn drawing_order_changes_nothing() {
    let boxes = [wire(1, 0, 10), on(2, 4, 0, 6, 10, false), wire(3, 0, 60), wire(1, 8, 30)];
    let turned = [boxes[3], boxes[2], boxes[0], boxes[1]];
    let g = NetGraph::build(&boxes, &[wire(3, 20, 25)]);
    let h = NetGraph::build(&turned, &[wire(3, 20, 25)]);
    assert_eq!(g.conductors.len(), h.conductors.len());
    for (c, d) in g.conductors.iter().zip(h.conductors.iter()) {
        assert_eq!(
            (c.layer, c.is_routing, c.area, c.perimeter),
            (d.layer, d.is_routing, d.area, d.perimeter)
        );
    }
    let attach = [g.touched_by(&[wire(1, 0, 1)]), g.touched_by(&[wire(3, 50, 51)])];
    assert_eq!(g.regions_at(3, &attach), h.regions_at(3, &attach));
}

/// As much metal as one layer can hold and still be measured.
fn vast(layer: i64, is_routing: bool) -> LayerBox {
    on(layer, i32::MIN, 0, i32::MAX, i32::MAX, is_routing)
}

#[test]
fn what_is_measured_must_fit() {
    assert!(fits(&[], &[]));
    assert!(fits(&[vast(1, true)], &[]));
    // Metal drawn twice is measured once.
    assert!(fits(&[vast(1, true), vast(1, true), vast(1, true)], &[]));
    // Cuts are measured, and have no part in the sums.
    assert!(fits(&[vast(1, true), vast(2, false)], &[]));
    assert!(!fits(&[vast(1, true), vast(3, true)], &[]));
    let whole = on(1, i32::MIN, i32::MIN, i32::MAX, i32::MAX, true);
    assert!(!fits(&[whole], &[]));
    // What the pins cut away need not fit.
    assert!(fits(&[whole], &[on(1, i32::MIN, i32::MIN, i32::MAX, 0, true)]));
    let g = NetGraph::build(&[vast(1, true), vast(1, true)], &[]);
    assert_eq!(g.conductors[0].area, 4294967295 * 2147483647);
}

/// The lines of a grid are the edges of the rectangles that have area and of all that are taken
/// away, and no others.
#[test]
fn grid_lines_are_edges() {
    let g = Grid::build(&[(0, 0, 10, 4), (3, 9, 3, 12), (20, 2, 30, 6)], &[(5, -1, 7, 1), (8, 8, 8, 8)]);
    assert_eq!(g.xs, vec![0, 5, 7, 8, 10, 20, 30]);
    assert_eq!(g.ys, vec![-1, 0, 1, 2, 4, 6, 8]);
    assert_eq!((g.nx, g.ny), (6, 6));
    let covered = |i: usize, j: usize| g.covered[i][j];
    assert!(covered(0, 1) && !covered(1, 1) && covered(1, 2) && covered(2, 1));
    assert!(!covered(4, 2) && covered(5, 3) && covered(5, 4) && !covered(5, 2));
    assert!((0..6).all(|i| !covered(i, 0) && !covered(i, 5)));
    let none = Grid::build(&[(3, 9, 3, 12), (5, 5, 4, 9)], &[(5, -1, 7, 1)]);
    assert!(none.xs.is_empty() && none.ys.is_empty() && none.covered.is_empty());
    assert_eq!((none.nx, none.ny), (0, 0));
}

/// A conductor's cells lie between the lines of its layer, column by column.
#[test]
fn cells_lie_between_the_lines() {
    let g = NetGraph::build(&[on(1, 0, 0, 10, 4, true), on(1, 4, 0, 6, 8, true)], &[]);
    assert_eq!(g.conductors.len(), 1);
    assert_eq!(
        g.conductors[0].cells,
        vec![(0, 0, 4, 4), (4, 0, 6, 4), (4, 4, 6, 8), (6, 0, 10, 4)]
    );
}

/// A stage for each layer on which routing metal is left: none for a cut layer, and none for a
/// layer that the pins use up.
#[test]
fn stages_are_the_layers_with_routing_left() {
    let boxes = [wire(5, 0, 10), wire(1, 0, 10), on(2, 0, 0, 4, 4, false), wire(3, 0, 10), wire(1, 20, 30)];
    let g = NetGraph::build(&boxes, &[wire(3, -1, 11), wire(1, 0, 10)]);
    assert_eq!(g.layers, vec![1, 5]);
}

/// What a region collects layer by layer makes up what it collects in all, and its top is the
/// layer of the stage.
#[test]
fn perimeters_layer_by_layer() {
    let boxes = [wire(1, 0, 10), on(2, 4, 0, 6, 10, false), wire(3, 0, 60), wire(1, 100, 120)];
    let g = NetGraph::build(&boxes, &[]);
    let attach = [g.touched_by(&[wire(0, 0, 1)]), g.touched_by(&[wire(0, 110, 111)])];
    let regions = g.regions_at(3, &attach);
    let stacks = g.perimeters_at(3, &attach, &regions);
    assert_eq!(stacks, vec![vec![40, 140], vec![60, 0]]);
    for (region, stack) in regions.iter().zip(&stacks) {
        assert_eq!(stack.iter().sum::<i64>(), region.1.cumulative_perimeter);
        assert_eq!(stack[1], region.1.layer_perimeter);
    }
    let first = g.regions_at(1, &attach);
    assert_eq!(g.perimeters_at(1, &attach, &first), vec![vec![40, 0], vec![60, 0]]);
}

/// All regions of a stage together have at most the routing metal up to it.
#[test]
fn regions_share_the_metal_out() {
    let boxes = [wire(1, 0, 10), on(2, 4, 0, 6, 10, false), wire(3, 0, 60), wire(1, 100, 120), wire(1, 200, 230)];
    let g = NetGraph::build(&boxes, &[]);
    let attach = [
        g.touched_by(&[wire(0, 0, 1)]),
        g.touched_by(&[wire(0, 110, 111)]),
        g.touched_by(&[wire(4, 50, 51)]),
    ];
    for (stage, routed) in [(1, 100 + 200 + 300), (3, 100 + 600 + 200 + 300)] {
        let sum: i64 = g.regions_at(stage, &attach).iter().map(|r| r.1.cumulative_area).sum();
        assert_eq!(sum, routed - 300);
    }
}

/// Vertical contact needs no overlap: a cut that meets the wire below at its edge, or only at its
/// corner, is in contact with it.
#[test]
fn layers_touch_at_edges_and_corners() {
    let wire_below = on(1, 0, 0, 10, 10, true);
    let edge = NetGraph::build(&[wire_below, on(2, 10, 2, 12, 4, false)], &[]);
    assert_eq!(edge.links, vec![(0, 1)]);
    let corner = NetGraph::build(&[wire_below, on(2, 10, 10, 12, 12, false)], &[]);
    assert_eq!(corner.links, vec![(0, 1)]);
    let apart = NetGraph::build(&[wire_below, on(2, 11, 10, 12, 12, false)], &[]);
    assert!(apart.links.is_empty());
    let two_steps = NetGraph::build(&[wire_below, on(3, 0, 0, 10, 10, true)], &[]);
    assert!(two_steps.links.is_empty());
}
