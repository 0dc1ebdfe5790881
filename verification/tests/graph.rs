//! Union geometry, the pin cut, vertical structure and attachment.

use vyges_ant::graph::{union_area_perimeter, LayerBox, NetGraph};

fn bx(layer: i64, x0: i32, x1: i32, routing: bool) -> LayerBox {
    LayerBox { layer, x0, y0: 0, x1, y1: 10, is_routing: routing, from_via: false }
}

// ---- union geometry ---------------------------------------------------------------

#[test]
fn union_of_a_single_rect() {
    assert_eq!(union_area_perimeter(&[(0, 0, 10, 4)]), (40, 28));
}

/// A wire delivered as many abutting pieces must measure as the wire, not the pieces.
#[test]
fn abutting_run_measures_as_one_wire() {
    let pieces: Vec<_> = (0..10).map(|i| (i * 10, 0, i * 10 + 10, 4)).collect();
    assert_eq!(union_area_perimeter(&pieces), (400, 208), "not 280, which counts the joins");
}

#[test]
fn overlapping_rects_are_counted_once() {
    assert_eq!(union_area_perimeter(&[(0, 0, 10, 10), (5, 0, 15, 10)]), (150, 50));
}

#[test]
fn l_shape_perimeter_is_exact() {
    let (area, perim) = union_area_perimeter(&[(0, 0, 10, 30), (0, 0, 30, 10)]);
    assert_eq!(area, 500);
    assert_eq!(perim, 30 + 10 + 20 + 20 + 10 + 30);
}

/// A hole is real boundary, not an artefact.
#[test]
fn a_ring_keeps_its_inner_boundary() {
    let (area, perim) = union_area_perimeter(&[
        (0, 0, 30, 10),
        (0, 20, 30, 30),
        (0, 0, 10, 30),
        (20, 0, 30, 30),
    ]);
    assert_eq!(area, 800);
    assert_eq!(perim, 120 + 40);
}

#[test]
fn degenerate_rects_measure_nothing() {
    assert_eq!(union_area_perimeter(&[]), (0, 0));
    assert_eq!(union_area_perimeter(&[(5, 5, 5, 10)]), (0, 0));
}

// ---- the pin cut ------------------------------------------------------------------

/// **The mechanism the whole model rests on.** A pin cuts the metal it sits on, so a wire
/// running past a terminal is two conductors, not one.
#[test]
fn a_pin_cuts_the_wire_it_sits_on() {
    let uncut = NetGraph::build(&[bx(5, 0, 100, true)], &[]);
    assert_eq!(uncut.conductors.len(), 1, "no pin, one conductor");

    let g = NetGraph::build(&[bx(5, 0, 100, true)], &[bx(5, 40, 60, true)]);
    assert_eq!(g.conductors.len(), 2, "the pin splits it in two");
    assert_eq!(g.conductors.iter().map(|c| c.area).sum::<i64>(), 800, "the pin's 200 is gone");
}

/// Subtraction is exact, not whole-box: a pin overlapping part of a box removes that part.
#[test]
fn a_partial_overlap_cuts_exactly() {
    let g = NetGraph::build(&[bx(5, 0, 100, true)], &[bx(5, 90, 200, true)]);
    assert_eq!(g.conductors.len(), 1);
    assert_eq!(g.conductors[0].area, 900, "90x10 left — not 0, and not 1000");
}

// ---- vertical structure -------------------------------------------------------------

/// Two routing layers are one conductor only through the cut between them — which is why
/// via decomposition is a prerequisite rather than a refinement.
#[test]
fn layers_join_only_through_the_cut_between_them() {
    let boxes = vec![
        bx(3, 0, 20, true),  // li1 — in practice a via enclosure
        bx(4, 5, 15, false), // mcon, the cut
        bx(5, 0, 100, true), // met1
    ];
    let g = NetGraph::build(&boxes, &[]);
    let touched = g.touched_by(&[bx(3, 0, 5, true)]);
    assert!(!touched.is_empty(), "the li1 enclosure is there to be touched");

    let regions = g.regions_at(5, &[touched.clone()]);
    assert_eq!(regions.len(), 1);
    assert_eq!(regions[0].1.cumulative_area, 200 + 1000, "li1 + met1; the cut is not metal");
    assert_eq!(regions[0].1.layer_area, 1000, "met1 alone at the met1 stage");

    // At stage 3 only li1 exists yet.
    assert_eq!(g.regions_at(3, &[touched])[0].1.cumulative_area, 200);
}

/// Cut layers connect but never contribute antenna metal.
#[test]
fn cut_layers_carry_connection_not_metal() {
    let g = NetGraph::build(&[bx(4, 0, 50, false), bx(5, 0, 50, true)], &[]);
    let touched = g.touched_by(&[bx(5, 0, 10, true)]);
    assert_eq!(g.regions_at(5, &[touched])[0].1.cumulative_area, 500, "the cut's 500 is out");
}

// ---- attachment ---------------------------------------------------------------------

/// A pin touching no metal attaches to nothing — no proximity fallback.
#[test]
fn a_pin_touching_nothing_attaches_to_nothing() {
    let g = NetGraph::build(&[bx(5, 0, 100, true)], &[]);
    assert!(g.touched_by(&[bx(5, 500, 520, true)]).is_empty());
}

/// A terminal shorts what it touches: the pieces either side of it are one conductor again.
#[test]
fn a_terminal_shorts_the_pieces_it_bridges() {
    let pin = bx(5, 40, 60, true);
    let g = NetGraph::build(&[bx(5, 0, 100, true)], &[pin]);
    assert_eq!(g.conductors.len(), 2);
    let touched = g.touched_by(&[pin]);
    assert_eq!(touched.len(), 2, "abuts both pieces");
    let regions = g.regions_at(5, &[touched]);
    assert_eq!(regions.len(), 1, "the terminal rejoins them");
    assert_eq!(regions[0].1.layer_area, 800);
}

/// **The case that defeated every earlier model.** Two terminals on a wire cut between them
/// stay on separate conductors, so neither inherits the other's gate area or diffusion.
#[test]
fn terminals_separated_by_a_cut_stay_separate() {
    // A wire cut into three by two pins; a third pin sits on each end piece only.
    let cut_a = bx(5, 30, 40, true);
    let cut_b = bx(5, 60, 70, true);
    let g = NetGraph::build(&[bx(5, 0, 100, true)], &[cut_a, cut_b]);
    assert_eq!(g.conductors.len(), 3, "left, middle, right");

    // Terminals wholly inside the left and right pieces touch one conductor each.
    let left = g.touched_by(&[bx(5, 5, 10, true)]);
    let right = g.touched_by(&[bx(5, 85, 90, true)]);
    assert_eq!(left.len(), 1);
    assert_eq!(right.len(), 1);
    assert_ne!(left[0], right[0], "different conductors");

    let regions = g.regions_at(5, &[left, right]);
    assert_eq!(regions.len(), 2, "two conductors, two verdicts");
    for (terms, c) in &regions {
        assert_eq!(terms.len(), 1, "neither terminal pools with the other");
        assert_eq!(c.layer_area, 300, "each sees only its own 30x10 piece");
    }
}
