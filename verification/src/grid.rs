//! A coordinate-compressed occupancy grid over one layer.
//!
//! Every cell is wholly inside or outside the geometry, so area, perimeter and connectivity are
//! exact integer questions. Subtracting pin metal is just clearing cells, which is what makes the
//! pin cut cheap to do properly rather than approximately.

use crate::squares;
use crate::squares::Rect;
use vstd::prelude::*;

verus! {

/// Coordinates in strictly rising order.
pub open spec fn rising(v: Seq<i32>) -> bool {
    forall|i: int, j: int| 0 <= i < j < v.len() ==> v[i] < v[j]
}

/// The position of the first coordinate that is not below `x`.
pub fn lower_bound(v: &Vec<i32>, x: i32) -> (r: usize)
    requires
        rising(v@),
    ensures
        r <= v@.len(),
        forall|k: int| 0 <= k < r ==> v@[k] < x,
        forall|k: int| r <= k < v@.len() ==> v@[k] >= x,
{
    let mut lo: usize = 0;
    let mut hi: usize = v.len();
    while lo < hi
        invariant
            rising(v@),
            lo <= hi <= v@.len(),
            forall|k: int| 0 <= k < lo ==> v@[k] < x,
            forall|k: int| hi <= k < v@.len() ==> v@[k] >= x,
        decreases hi - lo,
    {
        let mid: usize = lo + (hi - lo) / 2;
        if v[mid] < x {
            lo = mid + 1;
        } else {
            hi = mid;
        }
    }
    lo
}

/// Add `x` to the coordinates unless it is there already.
pub fn insert_line(v: &mut Vec<i32>, x: i32)
    requires
        rising(old(v)@),
    ensures
        rising(final(v)@),
        forall|y: i32| #[trigger] final(v)@.contains(y) <==> old(v)@.contains(y) || y == x,
{
    let at = lower_bound(v, x);
    if at < v.len() && v[at] == x {
        assert(v@.contains(x));
    } else {
        let ghost before = v@;
        v.insert(at, x);
        proof {
            let after = v@;
            assert(after == before.insert(at as int, x));
            assert forall|y: i32| #[trigger] after.contains(y) <==> before.contains(y) || y == x by {
                if before.contains(y) {
                    let k = choose|k: int| 0 <= k < before.len() && before[k] == y;
                    assert(after[if k < at { k } else { k + 1 }] == y);
                }
                assert(after[at as int] == x);
                if after.contains(y) && y != x {
                    let k = choose|k: int| 0 <= k < after.len() && after[k] == y;
                    assert(before[if k < at { k } else { k - 1 }] == y);
                }
            }
        }
    }
}

/// One more covered cell, not listed yet, keeps the list and adds to the sums.
pub proof fn lemma_push_cell(g: Grid, done: Seq<(usize, usize)>, c: (usize, usize))
    requires
        g.wf(),
        g.covered_list(done),
        g.is_covered((c.0 as int, c.1 as int)),
        !done.contains(c),
    ensures
        g.covered_list(done.push(c)),
        forall|x: (usize, usize)| #[trigger] done.push(c).contains(x) <==> done.contains(x) || x == c,
        g.area_sum(done.push(c)) == g.area_sum(done) + g.width((c.0 as int, c.1 as int)) * g.height(
            (c.0 as int, c.1 as int),
        ),
        g.exposed_sum(done.push(c)) == g.exposed_sum(done) + g.exposed((c.0 as int, c.1 as int)),
{
    let next = done.push(c);
    assert(next.drop_last() =~= done);
    assert(next.last() == c);
    assert(next[done.len() as int] == c);
    assert forall|x: (usize, usize)| #[trigger] next.contains(x) <==> done.contains(x) || x == c by {
        if done.contains(x) {
            let k = choose|k: int| 0 <= k < done.len() && done[k] == x;
            assert(next[k] == x);
        }
        if next.contains(x) && x != c {
            let k = choose|k: int| 0 <= k < next.len() && next[k] == x;
            assert(done[k] == x);
        }
    }
    assert forall|k: int| 0 <= k < next.len() implies g.is_covered(
        ((#[trigger] next[k]).0 as int, next[k].1 as int),
    ) by {
        if k < done.len() {
            assert(next[k] == done[k]);
        }
    }
    assert(next.no_duplicates()) by {
        assert forall|a: int, b: int|
            0 <= a < next.len() && 0 <= b < next.len() && a != b implies next[a] != next[b] by {
            if a < done.len() && b < done.len() {
                assert(done[a] != done[b]);
            } else if a < done.len() {
                assert(done.contains(done[a]));
            } else {
                assert(done.contains(done[b]));
            }
        }
    }
}

/// The live rectangles, and the lines of their edges.
fn live_lines(add: &[Rect]) -> (r: (Vec<Rect>, Vec<i32>, Vec<i32>))
    ensures
        r.0@ == live_of(add@),
        rising(r.1@),
        rising(r.2@),
        forall|x: i32| #[trigger] r.1@.contains(x) <==> x_edge_of(r.0@, x),
        forall|y: i32| #[trigger] r.2@.contains(y) <==> y_edge_of(r.0@, y),
        forall|a: int|
            0 <= a < r.0@.len() ==> is_live(#[trigger] r.0@[a]) && add@.contains(r.0@[a]),
        forall|a: int|
            #![trigger add@[a]]
            0 <= a < add@.len() && is_live(add@[a]) ==> r.0@.contains(add@[a]),
{
    let mut xs: Vec<i32> = Vec::new();
    let mut ys: Vec<i32> = Vec::new();
    let mut live: Vec<Rect> = Vec::new();
    let mut k: usize = 0;
    while k < add.len()
        invariant
            k <= add@.len(),
            rising(xs@),
            rising(ys@),
            live@ == live_of(add@.take(k as int)),
            forall|x: i32| #[trigger] xs@.contains(x) <==> x_edge_of(live@, x),
            forall|y: i32| #[trigger] ys@.contains(y) <==> y_edge_of(live@, y),
            forall|a: int|
                0 <= a < live@.len() ==> {
                    let r = #[trigger] live@[a];
                    &&& r.0 < r.2 && r.1 < r.3
                    &&& xs@.contains(r.0) && xs@.contains(r.2)
                    &&& ys@.contains(r.1) && ys@.contains(r.3)
                    &&& add@.contains(r)
                },
            forall|a: int|
                #![trigger add@[a]]
                0 <= a < k && add@[a].0 < add@[a].2 && add@[a].1 < add@[a].3
                    ==> live@.contains(add@[a]),
        decreases add@.len() - k,
    {
        let r = add[k];
        proof {
            lemma_live_push(add@, k as int);
        }
        if r.2 > r.0 && r.3 > r.1 {
            let ghost before = live@;
            proof {
                lemma_edges_push(before, r);
            }
            live.push(r);
            insert_line(&mut xs, r.0);
            insert_line(&mut xs, r.2);
            insert_line(&mut ys, r.1);
            insert_line(&mut ys, r.3);
            proof {
                assert(live@[before.len() as int] == r);
                assert forall|a: int|
                    #![trigger add@[a]]
                    0 <= a < k + 1 && add@[a].0 < add@[a].2 && add@[a].1
                        < add@[a].3 implies live@.contains(add@[a]) by {
                    if a < k {
                        let b = choose|b: int| 0 <= b < before.len() && before[b] == add@[a];
                        assert(live@[b] == add@[a]);
                    }
                }
            }
        }
        k += 1;
    }
    assert(add@.take(add@.len() as int) =~= add@);
    (live, xs, ys)
}

/// Put the edges of `sub` among the lines.
fn join_lines(sub: &[Rect], xs: &mut Vec<i32>, ys: &mut Vec<i32>)
    requires
        rising(old(xs)@),
        rising(old(ys)@),
    ensures
        rising(final(xs)@),
        rising(final(ys)@),
        forall|x: i32| #[trigger]
            final(xs)@.contains(x) <==> old(xs)@.contains(x) || x_edge_of(sub@, x),
        forall|y: i32| #[trigger]
            final(ys)@.contains(y) <==> old(ys)@.contains(y) || y_edge_of(sub@, y),
{
    let mut s: usize = 0;
    assert(sub@.take(0) =~= Seq::<Rect>::empty());
    while s < sub.len()
        invariant
            s <= sub@.len(),
            rising(xs@),
            rising(ys@),
            forall|x: i32| #[trigger]
                xs@.contains(x) <==> old(xs)@.contains(x) || x_edge_of(sub@.take(s as int), x),
            forall|y: i32| #[trigger]
                ys@.contains(y) <==> old(ys)@.contains(y) || y_edge_of(sub@.take(s as int), y),
        decreases sub@.len() - s,
    {
        let r = sub[s];
        proof {
            lemma_edges_push(sub@.take(s as int), r);
            assert(sub@.take(s + 1) =~= sub@.take(s as int).push(r));
        }
        insert_line(xs, r.0);
        insert_line(xs, r.2);
        insert_line(ys, r.1);
        insert_line(ys, r.3);
        s += 1;
    }
    assert(sub@.take(s as int) =~= sub@);
}

/// Cells with nothing in them.
fn blank(nx: usize, ny: usize) -> (covered: Vec<Vec<bool>>)
    ensures
        covered@.len() == nx,
        forall|a: int| 0 <= a < nx ==> (#[trigger] covered@[a])@.len() == ny,
        forall|a: int, b: int| 0 <= a < nx && 0 <= b < ny ==> !(#[trigger] covered@[a]@[b]),
{
    let mut covered: Vec<Vec<bool>> = Vec::new();
    let mut i: usize = 0;
    while i < nx
        invariant
            i <= nx,
            covered@.len() == i,
            forall|a: int| 0 <= a < i ==> (#[trigger] covered@[a])@.len() == ny,
            forall|a: int, b: int|
                0 <= a < i && 0 <= b < ny ==> !(#[trigger] covered@[a]@[b]),
        decreases nx - i,
    {
        let mut column: Vec<bool> = Vec::new();
        let mut j: usize = 0;
        while j < ny
            invariant
                j <= ny,
                column@.len() == j,
                forall|b: int| 0 <= b < j ==> !(#[trigger] column@[b]),
            decreases ny - j,
        {
            column.push(false);
            j += 1;
        }
        covered.push(column);
        i += 1;
    }
    covered
}

/// The live rectangles of a longer prefix.
proof fn lemma_live_push(rects: Seq<Rect>, k: int)
    requires
        0 <= k < rects.len(),
    ensures
        live_of(rects.take(k + 1)) == (if is_live(rects[k]) {
            live_of(rects.take(k)).push(rects[k])
        } else {
            live_of(rects.take(k))
        }),
{
    reveal(Seq::filter);
    assert(rects.take(k + 1).drop_last() =~= rects.take(k));
    assert(rects.take(k + 1).last() == rects[k]);
}

/// A cell that has its corner in a rectangle whose far edges are lines lies in it.
proof fn lemma_corner_decides(g: Grid, c: (int, int), rects: Seq<Rect>)
    requires
        g.wf(),
        g.in_range(c),
        forall|k: int|
            0 <= k < rects.len() ==> g.xs@.contains((#[trigger] rects[k]).2) && g.ys@.contains(
                rects[k].3,
            ),
    ensures
        squares::in_rects(rects, g.corner(c)) <==> g.lies_in_any(c, rects),
{
    assert(g.xs@[c.0] < g.xs@[c.0 + 1]);
    assert(g.ys@[c.1] < g.ys@[c.1 + 1]);
    if squares::in_rects(rects, g.corner(c)) {
        let k = choose|k: int|
            0 <= k < rects.len() && squares::in_rect(#[trigger] rects[k], g.corner(c));
        let r = rects[k];
        let i = choose|i: int| 0 <= i < g.xs@.len() && g.xs@[i] == r.2;
        let j = choose|j: int| 0 <= j < g.ys@.len() && g.ys@[j] == r.3;
        if i < c.0 + 1 {
            assert(g.xs@[i] <= g.xs@[c.0]);
        } else if i > c.0 + 1 {
            assert(g.xs@[c.0 + 1] < g.xs@[i]);
        }
        if j < c.1 + 1 {
            assert(g.ys@[j] <= g.ys@[c.1]);
        } else if j > c.1 + 1 {
            assert(g.ys@[c.1 + 1] < g.ys@[j]);
        }
        assert(g.lies_in(c, rects[k]));
    }
    if g.lies_in_any(c, rects) {
        let k = choose|k: int| 0 <= k < rects.len() && g.lies_in(c, #[trigger] rects[k]);
        assert(squares::in_rect(rects[k], g.corner(c)));
    }
}

/// Between the first and the last coordinate some gap holds `x`.
pub proof fn lemma_locate(v: Seq<i32>, x: int) -> (i: int)
    requires
        v.len() >= 2,
        v[0] <= x < v[v.len() - 1],
    ensures
        0 <= i < v.len() - 1,
        v[i] <= x < v[i + 1],
    decreases v.len(),
{
    if x >= v[v.len() - 2] {
        v.len() - 2
    } else {
        lemma_locate(v.drop_last(), x)
    }
}

/// Whether `x` is the left or the right edge of one of `rects`.
pub open spec fn x_edge_of(rects: Seq<Rect>, x: i32) -> bool {
    exists|k: int| 0 <= k < rects.len() && ((#[trigger] rects[k]).0 == x || rects[k].2 == x)
}

/// Whether `y` is the lower or the upper edge of one of `rects`.
pub open spec fn y_edge_of(rects: Seq<Rect>, y: i32) -> bool {
    exists|k: int| 0 <= k < rects.len() && ((#[trigger] rects[k]).1 == y || rects[k].3 == y)
}

/// Whether the rectangle has width and height.
pub open spec fn is_live(r: Rect) -> bool {
    r.0 < r.2 && r.1 < r.3
}

/// The rectangles that have width and height.
pub open spec fn live_of(rects: Seq<Rect>) -> Seq<Rect> {
    rects.filter(|r: Rect| is_live(r))
}

/// One more rectangle adds its own edges.
proof fn lemma_edges_push(rects: Seq<Rect>, r: Rect)
    ensures
        forall|x: i32| #[trigger]
            x_edge_of(rects.push(r), x) <==> x_edge_of(rects, x) || x == r.0 || x == r.2,
        forall|y: i32| #[trigger]
            y_edge_of(rects.push(r), y) <==> y_edge_of(rects, y) || y == r.1 || y == r.3,
{
    let more = rects.push(r);
    let n = rects.len() as int;
    assert(more[n] == r);
    assert forall|x: i32| #[trigger] x_edge_of(more, x) <==> x_edge_of(rects, x) || x == r.0 || x
        == r.2 by {
        if x_edge_of(more, x) {
            let k = choose|k: int|
                0 <= k < more.len() && ((#[trigger] more[k]).0 == x || more[k].2 == x);
            if k < n {
                assert(rects[k] == more[k]);
            }
        }
        if x_edge_of(rects, x) {
            let k = choose|k: int|
                0 <= k < rects.len() && ((#[trigger] rects[k]).0 == x || rects[k].2 == x);
            assert(more[k] == rects[k]);
        }
    }
    assert forall|y: i32| #[trigger] y_edge_of(more, y) <==> y_edge_of(rects, y) || y == r.1 || y
        == r.3 by {
        if y_edge_of(more, y) {
            let k = choose|k: int|
                0 <= k < more.len() && ((#[trigger] more[k]).1 == y || more[k].3 == y);
            if k < n {
                assert(rects[k] == more[k]);
            }
        }
        if y_edge_of(rects, y) {
            let k = choose|k: int|
                0 <= k < rects.len() && ((#[trigger] rects[k]).1 == y || rects[k].3 == y);
            assert(more[k] == rects[k]);
        }
    }
}

/// A coordinate-compressed occupancy grid over one layer.
///
/// Every cell is wholly inside or outside the geometry, so area, perimeter and connectivity are
/// exact integer questions. Subtracting pin metal is just clearing cells, which is what makes the
/// pin cut cheap to do properly rather than approximately.
pub struct Grid {
    pub xs: Vec<i32>,
    pub ys: Vec<i32>,
    pub nx: usize,
    pub ny: usize,
    pub covered: Vec<Vec<bool>>,
}

impl Grid {
    pub open spec fn wf(&self) -> bool {
        &&& rising(self.xs@)
        &&& rising(self.ys@)
        &&& self.covered@.len() == self.nx
        &&& forall|i: int| 0 <= i < self.nx ==> (#[trigger] self.covered@[i])@.len() == self.ny
        &&& self.xs@.len() == 0 ==> self.ys@.len() == 0 && self.nx == 0 && self.ny == 0
        &&& self.xs@.len() != 0 ==> self.xs@.len() == self.nx + 1 && self.ys@.len() == self.ny + 1
    }

    pub open spec fn in_range(&self, c: (int, int)) -> bool {
        0 <= c.0 < self.nx && 0 <= c.1 < self.ny
    }

    /// Whether the cell `c` exists and is covered.
    pub open spec fn is_covered(&self, c: (int, int)) -> bool {
        self.in_range(c) && self.covered@[c.0]@[c.1]
    }

    /// The lines of the grid are the edges of the live rectangles of `add` and of all of `sub`:
    /// subtracted edges join them, so a partial overlap cuts exactly rather than being rounded to
    /// whole boxes. With nothing live there are no lines.
    pub open spec fn on_edges(&self, add: Seq<Rect>, sub: Seq<Rect>) -> bool {
        if live_of(add).len() == 0 {
            self.xs@.len() == 0 && self.ys@.len() == 0
        } else {
            &&& forall|x: i32| #[trigger]
                self.xs@.contains(x) <==> x_edge_of(live_of(add), x) || x_edge_of(sub, x)
            &&& forall|y: i32| #[trigger]
                self.ys@.contains(y) <==> y_edge_of(live_of(add), y) || y_edge_of(sub, y)
        }
    }

    /// Whether the cell `c` lies inside `r`.
    pub open spec fn lies_in(&self, c: (int, int), r: Rect) -> bool {
        r.0 <= self.xs@[c.0] && self.xs@[c.0 + 1] <= r.2 && r.1 <= self.ys@[c.1]
            && self.ys@[c.1 + 1] <= r.3
    }

    /// Whether the cell `c` lies inside one of `rects`.
    pub open spec fn lies_in_any(&self, c: (int, int), rects: Seq<Rect>) -> bool {
        exists|k: int| 0 <= k < rects.len() && self.lies_in(c, #[trigger] rects[k])
    }

    /// The unit squares of the cell `c`.
    pub open spec fn cell(&self, c: (int, int)) -> Set<(int, int)> {
        squares::block(
            self.xs@[c.0] as int,
            self.ys@[c.1] as int,
            self.xs@[c.0 + 1] as int,
            self.ys@[c.1 + 1] as int,
        )
    }

    /// The first square of the cell `c`.
    pub open spec fn corner(&self, c: (int, int)) -> (int, int) {
        (self.xs@[c.0] as int, self.ys@[c.1] as int)
    }

    /// The unit squares of all covered cells.
    pub open spec fn metal(&self) -> Set<(int, int)> {
        Set::new(
            |p: (int, int)|
                exists|c: (int, int)| #[trigger] self.is_covered(c) && self.cell(c).contains(p),
        )
    }

    /// The unit squares of the cells in a list.
    pub open spec fn cells_union(&self, cells: Seq<(usize, usize)>) -> Set<(int, int)> {
        Set::new(
            |p: (int, int)|
                exists|k: int|
                    0 <= k < cells.len() && #[trigger] self.cell(
                        (cells[k].0 as int, cells[k].1 as int),
                    ).contains(p),
        )
    }

    /// Distinct cells, all of them covered.
    pub open spec fn covered_list(&self, cells: Seq<(usize, usize)>) -> bool {
        &&& cells.no_duplicates()
        &&& forall|k: int|
            0 <= k < cells.len() ==> self.is_covered(
                ((#[trigger] cells[k]).0 as int, cells[k].1 as int),
            )
    }

    /// A square lies in at most one cell.
    pub proof fn lemma_one_cell(&self, a: (int, int), b: (int, int), p: (int, int))
        requires
            self.wf(),
            self.in_range(a),
            self.in_range(b),
            self.cell(a).contains(p),
            self.cell(b).contains(p),
        ensures
            a == b,
    {
        if a.0 < b.0 {
            assert(self.xs@[a.0 + 1] <= self.xs@[b.0]);
        }
        if b.0 < a.0 {
            assert(self.xs@[b.0 + 1] <= self.xs@[a.0]);
        }
        if a.1 < b.1 {
            assert(self.ys@[a.1 + 1] <= self.ys@[b.1]);
        }
        if b.1 < a.1 {
            assert(self.ys@[b.1 + 1] <= self.ys@[a.1]);
        }
    }

    /// Inside a cell, being metal is being covered.
    pub proof fn lemma_in_cell(&self, c: (int, int), p: (int, int))
        requires
            self.wf(),
            self.in_range(c),
            self.cell(c).contains(p),
        ensures
            self.metal().contains(p) <==> self.is_covered(c),
    {
        if self.metal().contains(p) {
            let b = choose|b: (int, int)| #[trigger]
                self.is_covered(b) && self.cell(b).contains(p);
            self.lemma_one_cell(b, c, p);
        }
    }

    /// A cell has squares, its corner among them.
    pub proof fn lemma_corner(&self, c: (int, int))
        requires
            self.wf(),
            self.in_range(c),
        ensures
            self.cell(c).contains(self.corner(c)),
            self.xs@[c.0] < self.xs@[c.0 + 1],
            self.ys@[c.1] < self.ys@[c.1 + 1],
    {
    }

    /// Cells covered by `add`, minus cells covered by `sub`.
    pub fn build(add: &[Rect], sub: &[Rect]) -> (g: Grid)
        ensures
            g.wf(),
            g.on_edges(add@, sub@),
            forall|c: (int, int)|
                g.in_range(c) ==> (#[trigger] g.is_covered(c) <==> g.lies_in_any(c, live_of(add@))
                    && !g.lies_in_any(c, sub@)),
            g.metal() == squares::metal_of(add@, sub@),
    {
        let (live, mut xs, mut ys) = live_lines(add);
        if live.len() == 0 {
            let g = Grid { xs: Vec::new(), ys: Vec::new(), nx: 0, ny: 0, covered: Vec::new() };
            proof {
                assert(g.metal() =~= squares::metal_of(add@, sub@)) by {
                    assert forall|p: (int, int)| !squares::in_rects(add@, p) by {
                        if squares::in_rects(add@, p) {
                            let a = choose|a: int|
                                0 <= a < add@.len() && squares::in_rect(#[trigger] add@[a], p);
                            assert(live@.contains(add@[a]));
                        }
                    }
                }
            }
            return g;
        }
        join_lines(sub, &mut xs, &mut ys);
        proof {
            let r = live@[0];
            assert(xs@.contains(r.0) && xs@.contains(r.2) && r.0 != r.2);
            assert(ys@.contains(r.1) && ys@.contains(r.3) && r.1 != r.3);
            assert(xs@.len() >= 2);
            assert(ys@.len() >= 2);
        }
        let nx: usize = xs.len() - 1;
        let ny: usize = ys.len() - 1;
        let covered = blank(nx, ny);
        let mut g = Grid { xs, ys, nx, ny, covered };
        let ghost lines_x = xs@;
        let ghost lines_y = ys@;
        let mut k: usize = 0;
        while k < live.len()
            invariant
                k <= live@.len(),
                g.wf(),
                g.xs@ == lines_x,
                g.ys@ == lines_y,
                lines_x.len() >= 2,
                lines_y.len() >= 2,
                forall|a: int|
                    0 <= a < live@.len() ==> lines_x.contains((#[trigger] live@[a]).2)
                        && lines_y.contains(live@[a].3),
                forall|c: (int, int)|
                    g.in_range(c) ==> (#[trigger] g.is_covered(c) <==> squares::in_rects(
                        live@.take(k as int),
                        g.corner(c),
                    )),
            decreases live@.len() - k,
        {
            let r = live[k];
            let ghost before = g;
            g.paint(r, true);
            proof {
                let done = live@.take(k as int);
                let next = live@.take(k + 1);
                assert(next =~= done.push(r));
                assert forall|c: (int, int)| g.in_range(c) implies (#[trigger] g.is_covered(c)
                    <==> squares::in_rects(next, g.corner(c))) by {
                    assert(before.is_covered(c) <==> squares::in_rects(done, g.corner(c)));
                    lemma_in_rects_push(done, r, g.corner(c));
                }
            }
            k += 1;
        }
        assert(live@.take(live@.len() as int) =~= live@);
        assert(sub@.take(0) =~= Seq::<Rect>::empty());
        let mut s: usize = 0;
        while s < sub.len()
            invariant
                s <= sub@.len(),
                g.wf(),
                g.xs@ == lines_x,
                g.ys@ == lines_y,
                lines_x.len() >= 2,
                lines_y.len() >= 2,
                forall|a: int|
                    0 <= a < sub@.len() ==> lines_x.contains((#[trigger] sub@[a]).2)
                        && lines_y.contains(sub@[a].3),
                forall|c: (int, int)|
                    g.in_range(c) ==> (#[trigger] g.is_covered(c) <==> squares::in_rects(
                        live@,
                        g.corner(c),
                    ) && !squares::in_rects(sub@.take(s as int), g.corner(c))),
            decreases sub@.len() - s,
        {
            let r = sub[s];
            let ghost before = g;
            g.paint(r, false);
            proof {
                let done = sub@.take(s as int);
                let next = sub@.take(s + 1);
                assert(next =~= done.push(r));
                assert forall|c: (int, int)| g.in_range(c) implies (#[trigger] g.is_covered(c)
                    <==> squares::in_rects(live@, g.corner(c)) && !squares::in_rects(
                    next,
                    g.corner(c),
                )) by {
                    assert(before.is_covered(c) <==> squares::in_rects(live@, g.corner(c))
                        && !squares::in_rects(done, g.corner(c)));
                    lemma_in_rects_push(done, r, g.corner(c));
                }
            }
            s += 1;
        }
        proof {
            assert(sub@.take(sub@.len() as int) =~= sub@);
            lemma_same_squares(add@, live@);
            lemma_painted(g, add@, live@, sub@);
            assert forall|c: (int, int)| g.in_range(c) implies (#[trigger] g.is_covered(c)
                <==> g.lies_in_any(c, live_of(add@)) && !g.lies_in_any(c, sub@)) by {
                lemma_corner_decides(g, c, live@);
                lemma_corner_decides(g, c, sub@);
            }
        }
        g
    }

    /// Set every cell inside `r`.
    pub fn paint(&mut self, r: Rect, on: bool)
        requires
            old(self).wf(),
            old(self).xs@.contains(r.2),
            old(self).ys@.contains(r.3),
        ensures
            final(self).wf(),
            final(self).xs@ == old(self).xs@,
            final(self).ys@ == old(self).ys@,
            final(self).nx == old(self).nx,
            final(self).ny == old(self).ny,
            forall|c: (int, int)|
                old(self).in_range(c) ==> (#[trigger] final(self).is_covered(c) <==> if squares::in_rect(
                    r,
                    old(self).corner(c),
                ) {
                    on
                } else {
                    old(self).is_covered(c)
                }),
    {
        let i0 = lower_bound(&self.xs, r.0);
        let i1 = lower_bound(&self.xs, r.2);
        let j0 = lower_bound(&self.ys, r.1);
        let j1 = lower_bound(&self.ys, r.3);
        let ghost start = *self;
        proof {
            let a = choose|a: int| 0 <= a < self.xs@.len() && self.xs@[a] == r.2;
            let b = choose|b: int| 0 <= b < self.ys@.len() && self.ys@[b] == r.3;
            assert(i1 <= a <= self.nx);
            assert(j1 <= b <= self.ny);
        }
        let mut i: usize = i0;
        while i < i1
            invariant
                i0 <= i,
                i <= i1 || i == i0,
                i1 <= self.nx,
                j1 <= self.ny,
                self.wf(),
                self.xs == start.xs,
                self.ys == start.ys,
                self.nx == start.nx,
                self.ny == start.ny,
                forall|a: int, b: int|
                    0 <= a < self.nx && 0 <= b < self.ny ==> #[trigger] self.covered@[a]@[b] == (if i0
                        <= a < i && j0 <= b < j1 {
                        on
                    } else {
                        start.covered@[a]@[b]
                    }),
            decreases i1 - i,
        {
            let mut j: usize = j0;
            while j < j1
                invariant
                    i0 <= i < i1,
                    i1 <= self.nx,
                    j1 <= self.ny,
                    j0 <= j,
                    j <= j1 || j == j0,
                    self.wf(),
                    self.xs == start.xs,
                    self.ys == start.ys,
                    self.nx == start.nx,
                    self.ny == start.ny,
                    forall|a: int, b: int|
                        0 <= a < self.nx && 0 <= b < self.ny ==> #[trigger] self.covered@[a]@[b]
                            == (if i0 <= a < i && j0 <= b < j1 || a == i && j0 <= b < j {
                            on
                        } else {
                            start.covered@[a]@[b]
                        }),
                decreases j1 - j,
            {
                self.covered[i][j] = on;
                j += 1;
            }
            i += 1;
        }
        proof {
            assert forall|c: (int, int)| start.in_range(c) implies (#[trigger] self.is_covered(c)
                <==> if squares::in_rect(r, start.corner(c)) {
                on
            } else {
                start.is_covered(c)
            }) by {
                assert(self.covered@[c.0]@[c.1] == (if i0 <= c.0 < i && j0 <= c.1 < j1 {
                    on
                } else {
                    start.covered@[c.0]@[c.1]
                }));
            }
        }
    }
}

/// One more rectangle covers what it covers.
proof fn lemma_in_rects_push(rects: Seq<Rect>, r: Rect, p: (int, int))
    ensures
        squares::in_rects(rects.push(r), p) <==> squares::in_rects(rects, p)
            || squares::in_rect(r, p),
{
    let more = rects.push(r);
    if squares::in_rects(rects, p) {
        let k = choose|k: int| 0 <= k < rects.len() && squares::in_rect(#[trigger] rects[k], p);
        assert(more[k] == rects[k]);
    }
    assert(more[rects.len() as int] == r);
    if squares::in_rects(more, p) {
        let k = choose|k: int| 0 <= k < more.len() && squares::in_rect(#[trigger] more[k], p);
        if k < rects.len() {
            assert(more[k] == rects[k]);
        }
    }
}

/// Leaving out rectangles without area, and repeats, leaves the union.
proof fn lemma_same_squares(add: Seq<Rect>, live: Seq<Rect>)
    requires
        forall|a: int| 0 <= a < live.len() ==> add.contains(#[trigger] live[a]),
        forall|a: int|
            #![trigger add[a]]
            0 <= a < add.len() && add[a].0 < add[a].2 && add[a].1 < add[a].3 ==> live.contains(
                add[a],
            ),
    ensures
        forall|p: (int, int)| squares::in_rects(add, p) <==> #[trigger] squares::in_rects(live, p),
{
    assert forall|p: (int, int)| squares::in_rects(add, p)
        <==> #[trigger] squares::in_rects(live, p) by {
        if squares::in_rects(add, p) {
            let a = choose|a: int| 0 <= a < add.len() && squares::in_rect(#[trigger] add[a], p);
            let b = choose|b: int| 0 <= b < live.len() && live[b] == add[a];
            assert(squares::in_rect(live[b], p));
        }
        if squares::in_rects(live, p) {
            let b = choose|b: int| 0 <= b < live.len() && squares::in_rect(#[trigger] live[b], p);
            let a = choose|a: int| 0 <= a < add.len() && add[a] == live[b];
            assert(squares::in_rect(add[a], p));
        }
    }
}

/// A cell whose lines include the sides of `r` is wholly inside `r` or wholly outside.
proof fn lemma_uniform(g: Grid, r: Rect, c: (int, int), p: (int, int))
    requires
        g.wf(),
        g.in_range(c),
        g.cell(c).contains(p),
        g.xs@.contains(r.0),
        g.xs@.contains(r.2),
        g.ys@.contains(r.1),
        g.ys@.contains(r.3),
    ensures
        squares::in_rect(r, p) <==> squares::in_rect(r, g.corner(c)),
{
    let a = choose|a: int| 0 <= a < g.xs@.len() && g.xs@[a] == r.0;
    let b = choose|b: int| 0 <= b < g.xs@.len() && g.xs@[b] == r.2;
    let d = choose|d: int| 0 <= d < g.ys@.len() && g.ys@[d] == r.1;
    let e = choose|e: int| 0 <= e < g.ys@.len() && g.ys@[e] == r.3;
    assert(a <= c.0 || c.0 + 1 <= a);
    assert(b <= c.0 || c.0 + 1 <= b);
    assert(d <= c.1 || c.1 + 1 <= d);
    assert(e <= c.1 || c.1 + 1 <= e);
}

/// A grid painted corner by corner shows the metal.
proof fn lemma_painted(g: Grid, add: Seq<Rect>, live: Seq<Rect>, sub: Seq<Rect>)
    requires
        g.wf(),
        g.xs@.len() >= 2,
        g.ys@.len() >= 2,
        forall|a: int|
            0 <= a < live.len() ==> {
                let r = #[trigger] live[a];
                &&& g.xs@.contains(r.0) && g.xs@.contains(r.2)
                &&& g.ys@.contains(r.1) && g.ys@.contains(r.3)
            },
        forall|a: int|
            0 <= a < sub.len() ==> {
                let r = #[trigger] sub[a];
                &&& g.xs@.contains(r.0) && g.xs@.contains(r.2)
                &&& g.ys@.contains(r.1) && g.ys@.contains(r.3)
            },
        forall|p: (int, int)| squares::in_rects(add, p) <==> #[trigger] squares::in_rects(live, p),
        forall|c: (int, int)|
            g.in_range(c) ==> (#[trigger] g.is_covered(c) <==> squares::in_rects(
                live,
                g.corner(c),
            ) && !squares::in_rects(sub, g.corner(c))),
    ensures
        g.metal() == squares::metal_of(add, sub),
{
    assert forall|c: (int, int), p: (int, int)|
        g.in_range(c) && #[trigger] g.cell(c).contains(p) implies (squares::metal_of(
        add,
        sub,
    ).contains(p) <==> g.is_covered(c)) by {
        assert(squares::in_rects(live, p) <==> squares::in_rects(live, g.corner(c))) by {
            if squares::in_rects(live, p) {
                let a = choose|a: int| 0 <= a < live.len() && squares::in_rect(#[trigger] live[a], p);
                lemma_uniform(g, live[a], c, p);
            }
            if squares::in_rects(live, g.corner(c)) {
                let a = choose|a: int|
                    0 <= a < live.len() && squares::in_rect(#[trigger] live[a], g.corner(c));
                lemma_uniform(g, live[a], c, p);
            }
        }
        assert(squares::in_rects(sub, p) <==> squares::in_rects(sub, g.corner(c))) by {
            if squares::in_rects(sub, p) {
                let a = choose|a: int| 0 <= a < sub.len() && squares::in_rect(#[trigger] sub[a], p);
                lemma_uniform(g, sub[a], c, p);
            }
            if squares::in_rects(sub, g.corner(c)) {
                let a = choose|a: int|
                    0 <= a < sub.len() && squares::in_rect(#[trigger] sub[a], g.corner(c));
                lemma_uniform(g, sub[a], c, p);
            }
        }
    }
    assert forall|p: (int, int)|
        squares::metal_of(add, sub).contains(p) implies #[trigger] g.metal().contains(p) by {
        assert(squares::in_rects(live, p));
        let a = choose|a: int| 0 <= a < live.len() && squares::in_rect(#[trigger] live[a], p);
        let r = live[a];
        let x0 = choose|k: int| 0 <= k < g.xs@.len() && g.xs@[k] == r.0;
        let x1 = choose|k: int| 0 <= k < g.xs@.len() && g.xs@[k] == r.2;
        let y0 = choose|k: int| 0 <= k < g.ys@.len() && g.ys@[k] == r.1;
        let y1 = choose|k: int| 0 <= k < g.ys@.len() && g.ys@[k] == r.3;
        assert(g.xs@[0] <= g.xs@[x0]);
        assert(g.xs@[x1] <= g.xs@[g.xs@.len() - 1]);
        assert(g.ys@[0] <= g.ys@[y0]);
        assert(g.ys@[y1] <= g.ys@[g.ys@.len() - 1]);
        let i = lemma_locate(g.xs@, p.0);
        let j = lemma_locate(g.ys@, p.1);
        assert(g.cell((i, j)).contains(p));
        assert(g.is_covered((i, j)));
    }
    assert forall|p: (int, int)| #[trigger] g.metal().contains(p) implies squares::metal_of(
        add,
        sub,
    ).contains(p) by {
        let c = choose|c: (int, int)| #[trigger] g.is_covered(c) && g.cell(c).contains(p);
        assert(g.cell(c).contains(p));
    }
    assert(g.metal() =~= squares::metal_of(add, sub));
}

/// One of the four directions in which a square has a neighbour.
pub open spec fn is_direction(d: (int, int)) -> bool {
    d == (-1int, 0int) || d == (1int, 0int) || d == (0int, -1int) || d == (0int, 1int)
}

impl Grid {
    pub open spec fn width(&self, c: (int, int)) -> int {
        self.xs@[c.0 + 1] - self.xs@[c.0]
    }

    pub open spec fn height(&self, c: (int, int)) -> int {
        self.ys@[c.1 + 1] - self.ys@[c.1]
    }

    /// The length of the cell's side in direction `d`, when what lies behind it is not covered.
    pub open spec fn open_side(&self, c: (int, int), d: (int, int)) -> int {
        if self.is_covered(squares::shift(c, d)) {
            0
        } else if d.1 == 0 {
            self.height(c)
        } else {
            self.width(c)
        }
    }

    pub open spec fn exposed(&self, c: (int, int)) -> int {
        self.open_side(c, (-1, 0)) + self.open_side(c, (1, 0)) + self.open_side(c, (0, -1))
            + self.open_side(c, (0, 1))
    }

    pub open spec fn area_sum(&self, cells: Seq<(usize, usize)>) -> int
        decreases cells.len(),
    {
        if cells.len() == 0 {
            0
        } else {
            let c = (cells.last().0 as int, cells.last().1 as int);
            self.area_sum(cells.drop_last()) + self.width(c) * self.height(c)
        }
    }

    pub open spec fn side_sum(&self, cells: Seq<(usize, usize)>, d: (int, int)) -> int
        decreases cells.len(),
    {
        if cells.len() == 0 {
            0
        } else {
            let c = (cells.last().0 as int, cells.last().1 as int);
            self.side_sum(cells.drop_last(), d) + self.open_side(c, d)
        }
    }

    pub open spec fn exposed_sum(&self, cells: Seq<(usize, usize)>) -> int {
        self.side_sum(cells, (-1, 0)) + self.side_sum(cells, (1, 0)) + self.side_sum(
            cells,
            (0, -1),
        ) + self.side_sum(cells, (0, 1))
    }

    /// The squares of the listed cells whose edge in direction `d` faces no metal.
    pub open spec fn open_edges(&self, cells: Seq<(usize, usize)>, d: (int, int)) -> Set<
        (int, int),
    > {
        Set::new(
            |p: (int, int)|
                self.cells_union(cells).contains(p) && !self.metal().contains(
                    squares::shift(p, d),
                ),
        )
    }

    /// Which squares of one cell face no metal in direction `d`, and how many.
    proof fn lemma_open_side(&self, c: (int, int), d: (int, int)) -> (edge: Set<(int, int)>)
        requires
            self.wf(),
            self.is_covered(c),
            is_direction(d),
        ensures
            edge.finite(),
            edge.len() == self.open_side(c, d),
            forall|p: (int, int)| #[trigger]
                edge.contains(p) <==> self.cell(c).contains(p) && !self.metal().contains(
                    squares::shift(p, d),
                ),
    {
        let n = squares::shift(c, d);
        let x0 = self.xs@[c.0] as int;
        let x1 = self.xs@[c.0 + 1] as int;
        let y0 = self.ys@[c.1] as int;
        let y1 = self.ys@[c.1 + 1] as int;
        self.lemma_corner(c);
        let strip = if d.0 == -1 {
            squares::lemma_block_len(x0, y0, x0 + 1, y1);
            squares::block(x0, y0, x0 + 1, y1)
        } else if d.0 == 1 {
            squares::lemma_block_len(x1 - 1, y0, x1, y1);
            squares::block(x1 - 1, y0, x1, y1)
        } else if d.1 == -1 {
            squares::lemma_block_len(x0, y0, x1, y0 + 1);
            squares::block(x0, y0, x1, y0 + 1)
        } else {
            squares::lemma_block_len(x0, y1 - 1, x1, y1);
            squares::block(x0, y1 - 1, x1, y1)
        };
        assert((x0 + 1 - x0) * (y1 - y0) == y1 - y0) by (nonlinear_arith);
        assert((x1 - (x1 - 1)) * (y1 - y0) == y1 - y0) by (nonlinear_arith);
        assert((x1 - x0) * (y0 + 1 - y0) == x1 - x0) by (nonlinear_arith);
        assert((x1 - x0) * (y1 - (y1 - 1)) == x1 - x0) by (nonlinear_arith);
        let edge = if self.is_covered(n) {
            Set::empty()
        } else {
            strip
        };
        assert forall|p: (int, int)| #[trigger] edge.contains(p) <==> self.cell(c).contains(p)
            && !self.metal().contains(squares::shift(p, d)) by {
            if self.cell(c).contains(p) {
                let q = squares::shift(p, d);
                if self.cell(c).contains(q) {
                    self.lemma_in_cell(c, q);
                } else if self.in_range(n) {
                    assert(self.cell(n).contains(q));
                    self.lemma_in_cell(n, q);
                } else {
                    self.lemma_outside(q);
                }
            }
        }
        edge
    }

    /// Past the outermost lines there is no metal.
    proof fn lemma_outside(&self, p: (int, int))
        requires
            self.wf(),
            self.nx > 0,
            self.ny > 0,
            p.0 < self.xs@[0] || p.0 >= self.xs@[self.nx as int] || p.1 < self.ys@[0] || p.1
                >= self.ys@[self.ny as int],
        ensures
            !self.metal().contains(p),
    {
        if self.metal().contains(p) {
            let c = choose|c: (int, int)| #[trigger]
                self.is_covered(c) && self.cell(c).contains(p);
            assert(self.xs@[0] <= self.xs@[c.0]);
            assert(self.xs@[c.0 + 1] <= self.xs@[self.nx as int]);
            assert(self.ys@[0] <= self.ys@[c.1]);
            assert(self.ys@[c.1 + 1] <= self.ys@[self.ny as int]);
        }
    }

    /// The squares of a list are those of its last cell and those of the rest, apart.
    proof fn lemma_last_cell(&self, cells: Seq<(usize, usize)>)
        requires
            self.wf(),
            self.covered_list(cells),
            cells.len() > 0,
        ensures
            self.covered_list(cells.drop_last()),
            self.cells_union(cells) == self.cells_union(cells.drop_last()).union(
                self.cell((cells.last().0 as int, cells.last().1 as int)),
            ),
            self.cells_union(cells.drop_last()).disjoint(
                self.cell((cells.last().0 as int, cells.last().1 as int)),
            ),
    {
        let rest = cells.drop_last();
        let n = cells.len() - 1;
        let c = (cells.last().0 as int, cells.last().1 as int);
        assert forall|k: int| 0 <= k < rest.len() implies self.is_covered(
            ((#[trigger] rest[k]).0 as int, rest[k].1 as int),
        ) by {
            assert(rest[k] == cells[k]);
        }
        assert(rest.no_duplicates()) by {
            assert forall|a: int, b: int|
                0 <= a < rest.len() && 0 <= b < rest.len() && a != b implies rest[a] != rest[b] by {
                assert(cells[a] != cells[b]);
            }
        }
        assert forall|p: (int, int)| #[trigger]
            self.cells_union(cells).contains(p) implies self.cells_union(rest).contains(p)
            || self.cell(c).contains(p) by {
            let k = choose|k: int|
                0 <= k < cells.len() && #[trigger] self.cell(
                    (cells[k].0 as int, cells[k].1 as int),
                ).contains(p);
            if k < n {
                assert(self.cell((rest[k].0 as int, rest[k].1 as int)).contains(p));
            }
        }
        assert forall|p: (int, int)|
            self.cells_union(rest).contains(p) || self.cell(c).contains(p) implies
            #[trigger] self.cells_union(cells).contains(p) by {
            if self.cells_union(rest).contains(p) {
                let k = choose|k: int|
                    0 <= k < rest.len() && #[trigger] self.cell(
                        (rest[k].0 as int, rest[k].1 as int),
                    ).contains(p);
                assert(self.cell((cells[k].0 as int, cells[k].1 as int)).contains(p));
            } else {
                assert(self.cell((cells[n].0 as int, cells[n].1 as int)).contains(p));
            }
        }
        assert(self.cells_union(cells) =~= self.cells_union(rest).union(self.cell(c)));
        assert forall|p: (int, int)|
            self.cells_union(rest).contains(p) implies !self.cell(c).contains(p) by {
            if self.cell(c).contains(p) {
                let k = choose|k: int|
                    0 <= k < rest.len() && #[trigger] self.cell(
                        (rest[k].0 as int, rest[k].1 as int),
                    ).contains(p);
                assert(self.is_covered((rest[k].0 as int, rest[k].1 as int)));
                assert(self.is_covered((cells[n].0 as int, cells[n].1 as int)));
                self.lemma_one_cell((rest[k].0 as int, rest[k].1 as int), c, p);
                assert(cells[k] == cells[n]);
            }
        }
    }

    /// The cells of a list, measured one by one, measure what they are together.
    pub proof fn lemma_area_sum(&self, cells: Seq<(usize, usize)>)
        requires
            self.wf(),
            self.covered_list(cells),
        ensures
            self.cells_union(cells).finite(),
            squares::area(self.cells_union(cells)) == self.area_sum(cells),
        decreases cells.len(),
    {
        if cells.len() == 0 {
            assert(self.cells_union(cells) =~= Set::empty());
        } else {
            let rest = cells.drop_last();
            let c = (cells.last().0 as int, cells.last().1 as int);
            self.lemma_last_cell(cells);
            self.lemma_area_sum(rest);
            assert(self.is_covered((cells[cells.len() - 1].0 as int, cells[cells.len() - 1].1 as int)));
            self.lemma_corner(c);
            squares::lemma_block_len(
                self.xs@[c.0] as int,
                self.ys@[c.1] as int,
                self.xs@[c.0 + 1] as int,
                self.ys@[c.1 + 1] as int,
            );
            vstd::set_lib::lemma_set_disjoint_lens(self.cells_union(rest), self.cell(c));
        }
    }

    /// The open sides of a list of cells, added up, count the edges that face no metal.
    proof fn lemma_side_sum(&self, cells: Seq<(usize, usize)>, d: (int, int))
        requires
            self.wf(),
            self.covered_list(cells),
            is_direction(d),
        ensures
            self.open_edges(cells, d).finite(),
            self.open_edges(cells, d).len() == self.side_sum(cells, d),
        decreases cells.len(),
    {
        if cells.len() == 0 {
            assert(self.open_edges(cells, d) =~= Set::empty());
        } else {
            let rest = cells.drop_last();
            let c = (cells.last().0 as int, cells.last().1 as int);
            self.lemma_last_cell(cells);
            self.lemma_side_sum(rest, d);
            assert(self.is_covered((cells[cells.len() - 1].0 as int, cells[cells.len() - 1].1 as int)));
            let edge = self.lemma_open_side(c, d);
            assert(self.open_edges(cells, d) =~= self.open_edges(rest, d).union(edge));
            assert(self.open_edges(rest, d).disjoint(edge));
            vstd::set_lib::lemma_set_disjoint_lens(self.open_edges(rest, d), edge);
        }
    }

    /// All of the listed cells are metal.
    pub proof fn lemma_union_in_metal(&self, cells: Seq<(usize, usize)>)
        requires
            self.wf(),
            self.covered_list(cells),
        ensures
            self.cells_union(cells).subset_of(self.metal()),
    {
        assert forall|p: (int, int)| #[trigger]
            self.cells_union(cells).contains(p) implies self.metal().contains(p) by {
            let k = choose|k: int|
                0 <= k < cells.len() && #[trigger] self.cell(
                    (cells[k].0 as int, cells[k].1 as int),
                ).contains(p);
            assert(self.is_covered((cells[k].0 as int, cells[k].1 as int)));
        }
    }

    /// However far a sum over covered cells has got, it is within the measure of the metal.
    pub proof fn lemma_sums_bounded(&self, cells: Seq<(usize, usize)>)
        requires
            self.wf(),
            self.covered_list(cells),
            self.metal().finite(),
        ensures
            self.area_sum(cells) <= squares::area(self.metal()),
            self.exposed_sum(cells) <= squares::perimeter(self.metal()),
    {
        let m = self.metal();
        self.lemma_area_sum(cells);
        self.lemma_union_in_metal(cells);
        vstd::set_lib::lemma_len_subset(self.cells_union(cells), m);
        let l = (-1int, 0int);
        let r = (1int, 0int);
        let b = (0int, -1int);
        let t = (0int, 1int);
        self.lemma_side_sum(cells, l);
        self.lemma_side_sum(cells, r);
        self.lemma_side_sum(cells, b);
        self.lemma_side_sum(cells, t);
        squares::lemma_facing(m, l);
        squares::lemma_facing(m, r);
        squares::lemma_facing(m, b);
        squares::lemma_facing(m, t);
        assert(self.open_edges(cells, l).subset_of(squares::facing(m, l)));
        assert(self.open_edges(cells, r).subset_of(squares::facing(m, r)));
        assert(self.open_edges(cells, b).subset_of(squares::facing(m, b)));
        assert(self.open_edges(cells, t).subset_of(squares::facing(m, t)));
        vstd::set_lib::lemma_len_subset(self.open_edges(cells, l), squares::facing(m, l));
        vstd::set_lib::lemma_len_subset(self.open_edges(cells, r), squares::facing(m, r));
        vstd::set_lib::lemma_len_subset(self.open_edges(cells, b), squares::facing(m, b));
        vstd::set_lib::lemma_len_subset(self.open_edges(cells, t), squares::facing(m, t));
    }

    /// Cells that no edge joins to other metal have their own boundary and no more.
    pub proof fn lemma_measures(&self, cells: Seq<(usize, usize)>)
        requires
            self.wf(),
            self.covered_list(cells),
            forall|p: (int, int), q: (int, int)|
                self.cells_union(cells).contains(p) && self.metal().contains(q)
                    && #[trigger] squares::adjacent(p, q) ==> self.cells_union(cells).contains(q),
        ensures
            squares::area(self.cells_union(cells)) == self.area_sum(cells),
            squares::perimeter(self.cells_union(cells)) == self.exposed_sum(cells),
    {
        let s = self.cells_union(cells);
        self.lemma_area_sum(cells);
        self.lemma_union_in_metal(cells);
        assert forall|d: (int, int)| is_direction(d) implies #[trigger] squares::facing(s, d)
            == self.open_edges(cells, d) by {
            assert forall|p: (int, int)| s.contains(p) implies (self.metal().contains(
                #[trigger] squares::shift(p, d),
            ) <==> s.contains(squares::shift(p, d))) by {
                assert(squares::adjacent(p, squares::shift(p, d)));
            }
            assert(squares::facing(s, d) =~= self.open_edges(cells, d));
        }
        self.lemma_side_sum(cells, (-1, 0));
        self.lemma_side_sum(cells, (1, 0));
        self.lemma_side_sum(cells, (0, -1));
        self.lemma_side_sum(cells, (0, 1));
    }

    /// The size of a cell.
    pub fn cell_size(&self, i: usize, j: usize) -> (r: (i64, i64))
        requires
            self.wf(),
            i < self.nx,
            j < self.ny,
        ensures
            r.0 == self.width((i as int, j as int)),
            r.1 == self.height((i as int, j as int)),
            0 < r.0 <= 0xffff_ffff,
            0 < r.1 <= 0xffff_ffff,
    {
        proof {
            self.lemma_corner((i as int, j as int));
        }
        (self.xs[i + 1] as i64 - self.xs[i] as i64, self.ys[j + 1] as i64 - self.ys[j] as i64)
    }

    /// Total length of this cell's sides facing something that is not covered.
    pub fn exposed_edges(&self, i: usize, j: usize) -> (p: i64)
        requires
            self.wf(),
            i < self.nx,
            j < self.ny,
        ensures
            p == self.exposed((i as int, j as int)),
            0 <= p <= 0x4_0000_0000,
    {
        let (dx, dy) = self.cell_size(i, j);
        let mut p: i64 = 0;
        if !(i > 0 && self.covered[i - 1][j]) {
            p += dy;
        }
        if !(i + 1 < self.nx && self.covered[i + 1][j]) {
            p += dy;
        }
        if !(j > 0 && self.covered[i][j - 1]) {
            p += dx;
        }
        if !(j + 1 < self.ny && self.covered[i][j + 1]) {
            p += dx;
        }
        p
    }

    /// The area and the perimeter of the covered cells together.
    pub fn measure(&self) -> (r: (i128, i128))
        requires
            self.wf(),
        ensures
            r.0 == squares::area(self.metal()),
            r.1 == squares::perimeter(self.metal()),
    {
        let ghost m = self.metal();
        proof {
            self.lemma_metal_bounded();
        }
        let mut area: i128 = 0;
        let mut perim: i128 = 0;
        let ghost mut done: Seq<(usize, usize)> = Seq::empty();
        let mut i: usize = 0;
        while i < self.nx
            invariant
                i <= self.nx,
                m == self.metal(),
                m.finite(),
                squares::area(m) <= 0x1_0000_0000_0000_0000,
                squares::perimeter(m) <= 0x4_0000_0000_0000_0000,
                self.wf(),
                self.covered_list(done),
                forall|a: usize, b: usize|
                    done.contains((a, b)) <==> self.is_covered((a as int, b as int)) && a < i,
                area == self.area_sum(done),
                perim == self.exposed_sum(done),
            decreases self.nx - i,
        {
            let mut j: usize = 0;
            while j < self.ny
                invariant
                    i < self.nx,
                    j <= self.ny,
                    m == self.metal(),
                    m.finite(),
                    squares::area(m) <= 0x1_0000_0000_0000_0000,
                    squares::perimeter(m) <= 0x4_0000_0000_0000_0000,
                    self.wf(),
                    self.covered_list(done),
                    forall|a: usize, b: usize|
                        done.contains((a, b)) <==> self.is_covered((a as int, b as int)) && (a < i || a == i
                            && b < j),
                    area == self.area_sum(done),
                    perim == self.exposed_sum(done),
                decreases self.ny - j,
            {
                if self.covered[i][j] {
                    let (dx, dy) = self.cell_size(i, j);
                    let edges = self.exposed_edges(i, j);
                    proof {
                        let next = done.push((i, j));
                        lemma_push_cell(*self, done, (i, j));
                        self.lemma_sums_bounded(next);
                        assert(dx * dy <= squares::area(m)) by {
                            self.lemma_area_sum(done);
                        }
                        assert(0 < dx * dy) by (nonlinear_arith)
                            requires
                                dx > 0,
                                dy > 0,
                        ;
                        assert forall|a: usize, b: usize|
                            next.contains((a, b)) <==> self.is_covered((a as int, b as int)) && (a < i || a
                                == i && b < j + 1) by {
                            assert(next.contains((a, b)) <==> done.contains((a, b)) || (a, b) == (i, j));
                        }
                        done = next;
                    }
                    area += dx as i128 * dy as i128;
                    perim += edges as i128;
                }
                j += 1;
            }
            i += 1;
        }
        proof {
            assert(self.cells_union(done) =~= m) by {
                self.lemma_union_in_metal(done);
                assert forall|p: (int, int)| #[trigger] m.contains(p) implies self.cells_union(
                    done,
                ).contains(p) by {
                    let c = choose|c: (int, int)| #[trigger] self.is_covered(c) && self.cell(c).contains(p);
                    let u = (c.0 as usize, c.1 as usize);
                    assert(done.contains(u));
                    let k = choose|k: int| 0 <= k < done.len() && done[k] == u;
                    assert(self.cell((done[k].0 as int, done[k].1 as int)).contains(p));
                }
            }
            self.lemma_measures(done);
        }
    (area, perim)
    }

    /// Coordinates bound the metal.
    pub proof fn lemma_metal_bounded(&self)
        requires
            self.wf(),
        ensures
            self.metal().finite(),
            squares::area(self.metal()) <= 0x1_0000_0000_0000_0000,
            squares::perimeter(self.metal()) <= 0x4_0000_0000_0000_0000,
    {
        let m = self.metal();
        let all = squares::block(-0x8000_0000, -0x8000_0000, 0x8000_0000, 0x8000_0000);
        squares::lemma_block_len(-0x8000_0000, -0x8000_0000, 0x8000_0000, 0x8000_0000);
        assert(m.subset_of(all)) by {
            assert forall|p: (int, int)| m.contains(p) implies all.contains(p) by {
                let c = choose|c: (int, int)| #[trigger]
                    self.is_covered(c) && self.cell(c).contains(p);
                assert(self.in_range(c));
            }
        }
        vstd::set_lib::lemma_len_subset(m, all);
        squares::lemma_perimeter_bound(m);
    }
}

} // verus!
