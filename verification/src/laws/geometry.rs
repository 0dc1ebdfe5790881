//! Measures belong to the metal, not to the rectangles that it is delivered as.

use crate::conductor;
use crate::conductor::LayerBox;
use crate::squares;
use crate::squares::Rect;
use vstd::prelude::*;

verus! {

/// Two lists of rectangles that cover the same squares have the same area and the same perimeter,
/// however many rectangles there are, in whatever order, and however they overlap.
pub proof fn same_cover_same_measures(a: Seq<Rect>, b: Seq<Rect>)
    requires
        forall|p: (int, int)| #[trigger] squares::in_rects(a, p) <==> squares::in_rects(b, p),
    ensures
        squares::area(squares::squares_of(a)) == squares::area(squares::squares_of(b)),
        squares::perimeter(squares::squares_of(a)) == squares::perimeter(squares::squares_of(b)),
{
    assert(squares::squares_of(a) =~= squares::squares_of(b)) by {
        assert forall|p: (int, int)| squares::squares_of(a).contains(p)
            <==> squares::squares_of(b).contains(p) by {
            assert(squares::in_rects(a, p) <==> squares::in_rects(b, p));
        }
    }
}

/// The order of the rectangles does not matter.
pub proof fn order_does_not_matter(a: Seq<Rect>, b: Seq<Rect>)
    ensures
        squares::squares_of(a + b) == squares::squares_of(b + a),
{
    assert forall|p: (int, int)| squares::squares_of(a + b).contains(p) <==> squares::squares_of(
        b + a,
    ).contains(p) by {
        lemma_in_joined(a, b, p);
        lemma_in_joined(b, a, p);
    }
    assert(squares::squares_of(a + b) =~= squares::squares_of(b + a));
}

proof fn lemma_in_joined(a: Seq<Rect>, b: Seq<Rect>, p: (int, int))
    ensures
        squares::in_rects(a + b, p) <==> squares::in_rects(a, p) || squares::in_rects(b, p),
{
    let ab = a + b;
    if squares::in_rects(ab, p) {
        let k = choose|k: int| 0 <= k < ab.len() && squares::in_rect(#[trigger] ab[k], p);
        if k < a.len() {
            assert(squares::in_rect(a[k], p));
        } else {
            assert(squares::in_rect(b[k - a.len()], p));
        }
    }
    if squares::in_rects(a, p) {
        let k = choose|k: int| 0 <= k < a.len() && squares::in_rect(#[trigger] a[k], p);
        assert(squares::in_rect(ab[k], p));
    }
    if squares::in_rects(b, p) {
        let k = choose|k: int| 0 <= k < b.len() && squares::in_rect(#[trigger] b[k], p);
        assert(squares::in_rect(ab[a.len() + k], p));
    }
}

proof fn lemma_in_pushed(rects: Seq<Rect>, r: Rect, p: (int, int))
    ensures
        squares::in_rects(rects.push(r), p) <==> squares::in_rects(rects, p) || squares::in_rect(
            r,
            p,
        ),
{
    let more = rects.push(r);
    if squares::in_rects(more, p) {
        let k = choose|k: int| 0 <= k < more.len() && squares::in_rect(#[trigger] more[k], p);
        if k < rects.len() {
            assert(squares::in_rect(rects[k], p));
        }
    }
    if squares::in_rects(rects, p) {
        let k = choose|k: int| 0 <= k < rects.len() && squares::in_rect(#[trigger] rects[k], p);
        assert(squares::in_rect(more[k], p));
    }
    if squares::in_rect(r, p) {
        assert(squares::in_rect(more[rects.len() as int], p));
    }
}

/// A rectangle that is covered already, a repeat among them, adds nothing.
pub proof fn a_covered_rectangle_adds_nothing(rects: Seq<Rect>, r: Rect)
    requires
        forall|p: (int, int)| #[trigger] squares::in_rect(r, p) ==> squares::in_rects(rects, p),
    ensures
        squares::squares_of(rects.push(r)) == squares::squares_of(rects),
{
    assert forall|p: (int, int)| squares::squares_of(rects.push(r)).contains(p)
        <==> squares::squares_of(rects).contains(p) by {
        lemma_in_pushed(rects, r, p);
        assert(squares::in_rect(r, p) ==> squares::in_rects(rects, p));
    }
    assert(squares::squares_of(rects.push(r)) =~= squares::squares_of(rects));
}

/// A wire delivered as abutting pieces is the wire: cutting a rectangle in two, across its width,
/// changes nothing.
pub proof fn abutting_pieces_are_one_wire(rects: Seq<Rect>, r: Rect, x: i32)
    requires
        r.0 <= x <= r.2,
    ensures
        squares::squares_of(rects.push((r.0, r.1, x, r.3)).push((x, r.1, r.2, r.3)))
            == squares::squares_of(rects.push(r)),
{
    let left: Rect = (r.0, r.1, x, r.3);
    let right: Rect = (x, r.1, r.2, r.3);
    assert forall|p: (int, int)| squares::squares_of(rects.push(left).push(right)).contains(p)
        <==> squares::squares_of(rects.push(r)).contains(p) by {
        lemma_in_pushed(rects.push(left), right, p);
        lemma_in_pushed(rects, left, p);
        lemma_in_pushed(rects, r, p);
    }
    assert(squares::squares_of(rects.push(left).push(right)) =~= squares::squares_of(
        rects.push(r),
    ));
}

/// The perimeters of all of `rects`, added up one by one.
pub open spec fn perimeter_total(rects: Seq<Rect>) -> int
    decreases rects.len(),
{
    if rects.len() == 0 {
        0
    } else {
        perimeter_total(rects.drop_last()) + squares::perimeter(
            squares::squares_of(seq![rects.last()]),
        )
    }
}

/// The union has no more area and no more perimeter than the rectangles one by one: adding those
/// up counts overlap and joins that no wire has.
pub proof fn the_union_is_at_most_the_sum(rects: Seq<Rect>)
    ensures
        squares::area(squares::squares_of(rects)) <= squares::area_total(rects),
        squares::perimeter(squares::squares_of(rects)) <= perimeter_total(rects),
    decreases rects.len(),
{
    squares::lemma_squares_finite(rects);
    if rects.len() == 0 {
        squares::lemma_perimeter_bound(squares::squares_of(rects));
    } else {
        let front = rects.drop_last();
        let one = seq![rects.last()];
        the_union_is_at_most_the_sum(front);
        squares::lemma_squares_finite(front);
        squares::lemma_squares_finite(one);
        assert(rects =~= front + one);
        assert(squares::squares_of(rects) =~= squares::squares_of(front).union(
            squares::squares_of(one),
        )) by {
            assert forall|p: (int, int)| squares::squares_of(rects).contains(p)
                <==> squares::squares_of(front).contains(p) || squares::squares_of(one).contains(
                p,
            ) by {
                lemma_in_joined(front, one, p);
            }
        }
        lemma_perimeter_of_union(squares::squares_of(front), squares::squares_of(one));
    }
}

/// A union has no more perimeter than its parts.
proof fn lemma_perimeter_of_union(a: Set<(int, int)>, b: Set<(int, int)>)
    requires
        a.finite(),
        b.finite(),
    ensures
        squares::perimeter(a.union(b)) <= squares::perimeter(a) + squares::perimeter(b),
{
    lemma_facing_of_union(a, b, (-1, 0));
    lemma_facing_of_union(a, b, (1, 0));
    lemma_facing_of_union(a, b, (0, -1));
    lemma_facing_of_union(a, b, (0, 1));
}

proof fn lemma_facing_of_union(a: Set<(int, int)>, b: Set<(int, int)>, d: (int, int))
    requires
        a.finite(),
        b.finite(),
    ensures
        squares::facing(a.union(b), d).len() <= squares::facing(a, d).len() + squares::facing(
            b,
            d,
        ).len(),
{
    let fa = squares::facing(a, d);
    let fb = squares::facing(b, d);
    squares::lemma_facing(a, d);
    squares::lemma_facing(b, d);
    assert(squares::facing(a.union(b), d).subset_of(fa.union(fb)));
    vstd::set_lib::lemma_len_union(fa, fb);
    vstd::set_lib::lemma_len_subset(squares::facing(a.union(b), d), fa.union(fb));
}

/// Squares that meet only at a corner are not connected: the two are no step apart.
pub proof fn a_corner_is_no_contact(p: (int, int), q: (int, int))
    requires
        p.0 != q.0,
        p.1 != q.1,
    ensures
        !squares::adjacent(p, q),
{
}

/// A net of which little is drawn can be measured, however its pins cut it: it is enough that
/// four times what its boxes draw, overlaps and all, fits in `i64`.
pub proof fn little_metal_can_be_measured(boxes: Seq<LayerBox>, cuts: Seq<LayerBox>)
    requires
        conductor::modest_net(boxes),
    ensures
        conductor::net_fits(boxes, cuts),
{
    conductor::lemma_modest_fits(boxes, cuts);
}

} // verus!
