//! Metal as a set of unit squares.
//!
//! Coordinates are whole database units, so the metal of one layer is a finite set of unit
//! squares, each named by its lower left corner. Area is how many there are, perimeter is how
//! many of their edges face a square that is not there, and a conductor is a connected component
//! under edge contact. Everything that the library measures is stated over this model.

use crate::reach;
use vstd::prelude::*;

verus! {

/// An axis-aligned rectangle, as `(x0, y0, x1, y1)` in database units.
pub type Rect = (i32, i32, i32, i32);

/// Whether the unit square at `p` lies inside `r`. A rectangle without width or without height
/// has no squares.
pub open spec fn in_rect(r: Rect, p: (int, int)) -> bool {
    r.0 <= p.0 < r.2 && r.1 <= p.1 < r.3
}

/// Whether the unit square at `p` lies inside one of `rects`.
pub open spec fn in_rects(rects: Seq<Rect>, p: (int, int)) -> bool {
    exists|k: int| 0 <= k < rects.len() && in_rect(#[trigger] rects[k], p)
}

/// The unit squares of the union of `rects`.
pub open spec fn squares_of(rects: Seq<Rect>) -> Set<(int, int)> {
    Set::new(|p: (int, int)| in_rects(rects, p))
}

/// The unit squares of `add` that no rectangle of `sub` takes away.
pub open spec fn metal_of(add: Seq<Rect>, sub: Seq<Rect>) -> Set<(int, int)> {
    Set::new(|p: (int, int)| in_rects(add, p) && !in_rects(sub, p))
}

/// The square one step from `p` in direction `d`.
pub open spec fn shift(p: (int, int), d: (int, int)) -> (int, int) {
    (p.0 + d.0, p.1 + d.1)
}

/// Two squares that share an edge. Squares that meet only at a corner do not.
pub open spec fn adjacent(p: (int, int), q: (int, int)) -> bool {
    ||| p.1 == q.1 && (p.0 - q.0 == 1 || q.0 - p.0 == 1)
    ||| p.0 == q.0 && (p.1 - q.1 == 1 || q.1 - p.1 == 1)
}

/// The squares of `s` whose edge in direction `d` faces something outside `s`.
pub open spec fn facing(s: Set<(int, int)>, d: (int, int)) -> Set<(int, int)> {
    Set::new(|p: (int, int)| s.contains(p) && !s.contains(shift(p, d)))
}

/// The area of `s`: its unit squares, counted.
pub open spec fn area(s: Set<(int, int)>) -> nat {
    s.len()
}

/// The perimeter of `s`: the unit edges between `s` and what is not `s`, counted. The boundary of
/// a hole is part of it.
pub open spec fn perimeter(s: Set<(int, int)>) -> nat {
    facing(s, (-1, 0)).len() + facing(s, (1, 0)).len() + facing(s, (0, -1)).len() + facing(
        s,
        (0, 1),
    ).len()
}

/// Moving from one square of `s` to another across a shared edge.
pub open spec fn step_in(s: Set<(int, int)>) -> spec_fn((int, int), (int, int)) -> bool {
    |p: (int, int), q: (int, int)| s.contains(p) && s.contains(q) && adjacent(p, q)
}

/// Any square of `s` can be reached from any other without leaving `s`.
pub open spec fn connected(s: Set<(int, int)>) -> bool {
    forall|p: (int, int), q: (int, int)|
        s.contains(p) && s.contains(q) ==> #[trigger] reach::reaches(step_in(s), p, q)
}

/// `c` is a connected component of `m`: a connected part of it that no shared edge joins to any
/// other part.
pub open spec fn is_component(c: Set<(int, int)>, m: Set<(int, int)>) -> bool {
    &&& exists|p: (int, int)| #[trigger] c.contains(p)
    &&& c.subset_of(m)
    &&& connected(c)
    &&& forall|p: (int, int), q: (int, int)|
        c.contains(p) && m.contains(q) && #[trigger] adjacent(p, q) ==> c.contains(q)
}

/// The squares with `x0 <= x < x1` and `y0 <= y < y1`.
pub open spec fn block(x0: int, y0: int, x1: int, y1: int) -> Set<(int, int)> {
    Set::new(|p: (int, int)| x0 <= p.0 < x1 && y0 <= p.1 < y1)
}

/// A block counts width times height squares.
pub proof fn lemma_block_len(x0: int, y0: int, x1: int, y1: int)
    requires
        x0 <= x1,
        y0 <= y1,
    ensures
        block(x0, y0, x1, y1).finite(),
        block(x0, y0, x1, y1).len() == (x1 - x0) * (y1 - y0),
    decreases (x1 - x0) + (y1 - y0),
{
    if x0 == x1 || y0 == y1 {
        assert(block(x0, y0, x1, y1) =~= Set::empty());
        assert((x1 - x0) * (y1 - y0) == 0) by (nonlinear_arith)
            requires
                x0 == x1 || y0 == y1,
        ;
    } else if x1 == x0 + 1 {
        lemma_block_len(x0, y0, x1, y1 - 1);
        assert(block(x0, y0, x1, y1) =~= block(x0, y0, x1, y1 - 1).insert((x0, y1 - 1)));
        assert((x1 - x0) * (y1 - y0) == (x1 - x0) * (y1 - 1 - y0) + 1) by (nonlinear_arith)
            requires
                x1 == x0 + 1,
        ;
    } else {
        lemma_block_len(x0, y0, x1 - 1, y1);
        lemma_block_len(x1 - 1, y0, x1, y1);
        let left = block(x0, y0, x1 - 1, y1);
        let right = block(x1 - 1, y0, x1, y1);
        assert(block(x0, y0, x1, y1) =~= left.union(right));
        vstd::set_lib::lemma_set_disjoint_lens(left, right);
        assert((x1 - x0) * (y1 - y0) == (x1 - 1 - x0) * (y1 - y0) + (x1 - (x1 - 1)) * (y1 - y0))
            by (nonlinear_arith);
    }
}

/// The metal of finitely many rectangles is a finite set.
pub proof fn lemma_squares_finite(rects: Seq<Rect>)
    ensures
        squares_of(rects).finite(),
        area(squares_of(rects)) <= area_total(rects),
    decreases rects.len(),
{
    if rects.len() == 0 {
        assert(squares_of(rects) =~= Set::empty());
    } else {
        let front = rects.drop_last();
        let r = rects.last();
        lemma_squares_finite(front);
        let one = block(r.0 as int, r.1 as int, r.2 as int, r.3 as int);
        if r.0 <= r.2 && r.1 <= r.3 {
            lemma_block_len(r.0 as int, r.1 as int, r.2 as int, r.3 as int);
        } else {
            assert(one =~= Set::empty());
        }
        assert(one.len() == rect_area(r)) by {
            if r.0 == r.2 || r.1 == r.3 {
                assert(one =~= Set::empty());
            }
        }
        vstd::set_lib::lemma_len_union(squares_of(front), one);
        assert(squares_of(rects) =~= squares_of(front).union(one)) by {
            assert forall|p: (int, int)| #[trigger]
                squares_of(rects).contains(p) implies squares_of(front).contains(p)
                || one.contains(p) by {
                let k = choose|k: int| 0 <= k < rects.len() && in_rect(#[trigger] rects[k], p);
                if k < front.len() {
                    assert(front[k] == rects[k]);
                }
            }
            assert forall|p: (int, int)|
                squares_of(front).contains(p) || one.contains(p) implies #[trigger] squares_of(
                rects,
            ).contains(p) by {
                if squares_of(front).contains(p) {
                    let k = choose|k: int| 0 <= k < front.len() && in_rect(#[trigger] front[k], p);
                    assert(rects[k] == front[k]);
                } else {
                    assert(rects[rects.len() - 1] == r);
                }
            }
        }
    }
}

/// What is left of finitely many rectangles is finite too.
pub proof fn lemma_metal_finite(add: Seq<Rect>, sub: Seq<Rect>)
    ensures
        metal_of(add, sub).finite(),
        metal_of(add, sub).subset_of(squares_of(add)),
{
    lemma_squares_finite(add);
    assert(metal_of(add, sub).subset_of(squares_of(add)));
    vstd::set_lib::lemma_len_subset(metal_of(add, sub), squares_of(add));
}

/// Each direction faces outward from at most every square.
pub proof fn lemma_facing(s: Set<(int, int)>, d: (int, int))
    requires
        s.finite(),
    ensures
        facing(s, d).finite(),
        facing(s, d).len() <= s.len(),
{
    assert(facing(s, d).subset_of(s));
    vstd::set_lib::lemma_len_subset(facing(s, d), s);
}

/// Four edges to a square bound the perimeter by the area.
pub proof fn lemma_perimeter_bound(s: Set<(int, int)>)
    requires
        s.finite(),
    ensures
        perimeter(s) <= 4 * area(s),
{
    lemma_facing(s, (-1, 0));
    lemma_facing(s, (1, 0));
    lemma_facing(s, (0, -1));
    lemma_facing(s, (0, 1));
}

/// The area of one rectangle.
pub open spec fn rect_area(r: Rect) -> int {
    if r.0 < r.2 && r.1 < r.3 {
        (r.2 - r.0) * (r.3 - r.1)
    } else {
        0
    }
}

/// The areas of all of `rects`, added up one by one.
pub open spec fn area_total(rects: Seq<Rect>) -> int
    decreases rects.len(),
{
    if rects.len() == 0 {
        0
    } else {
        area_total(rects.drop_last()) + rect_area(rects.last())
    }
}

/// Taken together, rectangles cover at most what they cover one by one.
pub proof fn lemma_metal_bound(add: Seq<Rect>, sub: Seq<Rect>)
    ensures
        area(metal_of(add, sub)) <= area_total(add),
        perimeter(metal_of(add, sub)) <= 4 * area_total(add),
{
    lemma_metal_finite(add, sub);
    lemma_squares_finite(add);
    vstd::set_lib::lemma_len_subset(metal_of(add, sub), squares_of(add));
    lemma_perimeter_bound(metal_of(add, sub));
}

/// With nothing taken away the metal is the union.
pub proof fn lemma_metal_of_nothing(add: Seq<Rect>)
    ensures
        metal_of(add, Seq::<Rect>::empty()) == squares_of(add),
{
    assert(metal_of(add, Seq::<Rect>::empty()) =~= squares_of(add));
}

/// Edge contact has no direction.
pub proof fn lemma_step_two_way(s: Set<(int, int)>)
    ensures
        reach::two_way(step_in(s)),
{
}

/// A set that the metal's steps do not leave, once it holds one square of a block of metal,
/// holds the block.
pub proof fn lemma_block_connected(
    m: Set<(int, int)>,
    x0: int,
    y0: int,
    x1: int,
    y1: int,
    p: (int, int),
    q: (int, int),
)
    requires
        block(x0, y0, x1, y1).subset_of(m),
        block(x0, y0, x1, y1).contains(p),
        block(x0, y0, x1, y1).contains(q),
    ensures
        reach::reaches(step_in(m), p, q),
    decreases
        (if p.0 < q.0 { q.0 - p.0 } else { p.0 - q.0 }) + (if p.1 < q.1 { q.1 - p.1 } else { p.1 - q.1 }),
{
    if p != q {
        let n = if p.0 < q.0 {
            (p.0 + 1, p.1)
        } else if p.0 > q.0 {
            (p.0 - 1, p.1)
        } else if p.1 < q.1 {
            (p.0, p.1 + 1)
        } else {
            (p.0, p.1 - 1)
        };
        assert(block(x0, y0, x1, y1).contains(n));
        assert(step_in(m)(p, n));
        reach::lemma_reaches_step(step_in(m), p, n);
        lemma_block_connected(m, x0, y0, x1, y1, n, q);
        reach::lemma_reaches_trans(step_in(m), p, n, q);
    }
}

/// A part of `m` that no edge joins to the rest, all of it reachable from one of its squares, is
/// a component.
pub proof fn lemma_component_from_start(c: Set<(int, int)>, m: Set<(int, int)>, start: (int, int))
    requires
        c.contains(start),
        c.subset_of(m),
        forall|p: (int, int)| #[trigger] c.contains(p) ==> reach::reaches(step_in(m), start, p),
        forall|p: (int, int), q: (int, int)|
            c.contains(p) && m.contains(q) && #[trigger] adjacent(p, q) ==> c.contains(q),
    ensures
        is_component(c, m),
{
    assert forall|p: (int, int)| #[trigger] c.contains(p) implies reach::reaches(step_in(c), start, p) by {
        assert forall|t: Set<(int, int)>| #[trigger]
            reach::closed_under(t, step_in(c)) && t.contains(start) implies t.contains(p) by {
            let u = t.intersect(c);
            assert(reach::closed_under(u, step_in(m))) by {
                assert forall|a: (int, int), b: (int, int)|
                    u.contains(a) && #[trigger] step_in(m)(a, b) implies u.contains(b) by {
                    assert(adjacent(a, b));
                    assert(c.contains(b));
                    assert(step_in(c)(a, b));
                }
            }
            assert(u.contains(start));
            assert(u.contains(p));
        }
    }
    assert forall|p: (int, int), q: (int, int)|
        c.contains(p) && c.contains(q) implies #[trigger] reach::reaches(step_in(c), p, q) by {
        lemma_step_two_way(c);
        reach::lemma_reaches_sym(step_in(c), start, p);
        reach::lemma_reaches_trans(step_in(c), p, start, q);
    }
}

/// No square of `a` is, or shares an edge with, a square of `b`.
pub open spec fn no_edge(a: Set<(int, int)>, b: Set<(int, int)>) -> bool {
    forall|p: (int, int), q: (int, int)|
        #![trigger a.contains(p), b.contains(q)]
        a.contains(p) && b.contains(q) ==> p != q && !adjacent(p, q)
}

/// Metal that is apart has, together, the measures of the parts.
pub proof fn lemma_apart_measures(a: Set<(int, int)>, b: Set<(int, int)>)
    requires
        a.finite(),
        b.finite(),
        no_edge(a, b),
    ensures
        a.union(b).finite(),
        area(a.union(b)) == area(a) + area(b),
        perimeter(a.union(b)) == perimeter(a) + perimeter(b),
{
    assert(a.disjoint(b)) by {
        assert forall|p: (int, int)| a.contains(p) implies !b.contains(p) by {
            if b.contains(p) {
                assert(p != p);
            }
        }
    }
    vstd::set_lib::lemma_set_disjoint_lens(a, b);
    lemma_apart_facing(a, b, (-1, 0));
    lemma_apart_facing(a, b, (1, 0));
    lemma_apart_facing(a, b, (0, -1));
    lemma_apart_facing(a, b, (0, 1));
}

proof fn lemma_apart_facing(a: Set<(int, int)>, b: Set<(int, int)>, d: (int, int))
    requires
        a.finite(),
        b.finite(),
        a.disjoint(b),
        d == (-1int, 0int) || d == (1int, 0int) || d == (0int, -1int) || d == (0int, 1int),
        no_edge(a, b),
    ensures
        facing(a.union(b), d).len() == facing(a, d).len() + facing(
            b,
            d,
        ).len(),
{
    let fa = facing(a, d);
    let fb = facing(b, d);
    lemma_facing(a, d);
    lemma_facing(b, d);
    assert(facing(a.union(b), d) =~= fa.union(fb)) by {
        assert forall|p: (int, int)| fa.union(fb).contains(p) implies facing(
            a.union(b),
            d,
        ).contains(p) by {
            let q = shift(p, d);
            assert(adjacent(p, q) && adjacent(q, p));
        }
    }
    vstd::set_lib::lemma_set_disjoint_lens(fa, fb);
}

} // verus!
