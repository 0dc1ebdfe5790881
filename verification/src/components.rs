//! Connected components of a grid's covered cells, 4-connected.
//!
//! Edge-sharing only: a diagonal touch is not an electrical connection.

use crate::grid::Grid;
use crate::reach;
use crate::squares;
use vstd::prelude::*;

verus! {

/// One label, or none yet, for every cell.
pub open spec fn shaped(g: Grid, label: Seq<Vec<Option<usize>>>) -> bool {
    &&& label.len() == g.nx
    &&& forall|i: int| 0 <= i < g.nx ==> (#[trigger] label[i])@.len() == g.ny
}

pub open spec fn label_of(label: Seq<Vec<Option<usize>>>, c: (int, int)) -> Option<usize> {
    label[c.0]@[c.1]
}

/// Only covered cells are labelled, and covered neighbours of a labelled cell share its label.
pub open spec fn settled(g: Grid, label: Seq<Vec<Option<usize>>>) -> bool {
    &&& forall|c: (int, int)|
        g.in_range(c) && (#[trigger] label_of(label, c)) is Some ==> g.is_covered(c)
    &&& forall|c: (int, int), n: (int, int)|
        g.in_range(c) && label_of(label, c) is Some && g.is_covered(n)
            && #[trigger] squares::adjacent(c, n) ==> label_of(label, n) == label_of(label, c)
}

/// The cells still without a label.
pub open spec fn unlabelled(g: Grid, label: Seq<Vec<Option<usize>>>) -> Set<(int, int)> {
    Set::new(|c: (int, int)| g.in_range(c) && label_of(label, c) is None)
}

/// The corner of cell `b` can be reached from the corner of cell `a` over metal.
pub open spec fn cell_reaches(g: Grid, a: (int, int), b: (int, int)) -> bool {
    reach::reaches(squares::step_in(g.metal()), g.corner(a), g.corner(b))
}

pub open spec fn lex_less(a: (usize, usize), b: (usize, usize)) -> bool {
    a.0 < b.0 || a.0 == b.0 && a.1 < b.1
}

/// Cells in rising order of column, then row.
pub open spec fn in_order(cells: Seq<(usize, usize)>) -> bool {
    forall|a: int, b: int| 0 <= a < b < cells.len() ==> lex_less(cells[a], cells[b])
}

proof fn lemma_unlabelled_finite(g: Grid, label: Seq<Vec<Option<usize>>>)
    ensures
        unlabelled(g, label).finite(),
{
    let all = squares::block(0, 0, g.nx as int, g.ny as int);
    squares::lemma_block_len(0, 0, g.nx as int, g.ny as int);
    assert(unlabelled(g, label).subset_of(all));
    vstd::set_lib::lemma_len_subset(unlabelled(g, label), all);
}

/// A covered cell is metal throughout.
proof fn lemma_cell_in_metal(g: Grid, c: (int, int))
    requires
        g.wf(),
        g.is_covered(c),
    ensures
        g.cell(c).subset_of(g.metal()),
{
    assert forall|p: (int, int)| #[trigger] g.cell(c).contains(p) implies g.metal().contains(p) by {
        g.lemma_in_cell(c, p);
    }
}

/// All squares of a covered cell can be reached from its corner.
proof fn lemma_within_cell(g: Grid, c: (int, int), p: (int, int), q: (int, int))
    requires
        g.wf(),
        g.is_covered(c),
        g.cell(c).contains(p),
        g.cell(c).contains(q),
    ensures
        reach::reaches(squares::step_in(g.metal()), p, q),
{
    lemma_cell_in_metal(g, c);
    squares::lemma_block_connected(
        g.metal(),
        g.xs@[c.0] as int,
        g.ys@[c.1] as int,
        g.xs@[c.0 + 1] as int,
        g.ys@[c.1 + 1] as int,
        p,
        q,
    );
}

/// Covered cells that share a side are joined.
proof fn lemma_cell_step(g: Grid, a: (int, int), b: (int, int))
    requires
        g.wf(),
        g.is_covered(a),
        g.is_covered(b),
        squares::adjacent(a, b),
    ensures
        cell_reaches(g, a, b),
{
    g.lemma_corner(a);
    g.lemma_corner(b);
    let (s, t) = if b.0 == a.0 + 1 {
        ((g.xs@[b.0] - 1, g.ys@[a.1] as int), g.corner(b))
    } else if a.0 == b.0 + 1 {
        (g.corner(a), (g.xs@[a.0] - 1, g.ys@[a.1] as int))
    } else if b.1 == a.1 + 1 {
        ((g.xs@[a.0] as int, g.ys@[b.1] - 1), g.corner(b))
    } else {
        (g.corner(a), (g.xs@[a.0] as int, g.ys@[a.1] - 1))
    };
    let step = squares::step_in(g.metal());
    assert(g.cell(a).contains(s));
    assert(g.cell(b).contains(t));
    lemma_within_cell(g, a, g.corner(a), s);
    lemma_within_cell(g, b, t, g.corner(b));
    lemma_cell_in_metal(g, a);
    lemma_cell_in_metal(g, b);
    assert(step(s, t));
    reach::lemma_reaches_step(step, s, t);
    reach::lemma_reaches_trans(step, g.corner(a), s, t);
    reach::lemma_reaches_trans(step, g.corner(a), t, g.corner(b));
}

/// Label a cell and put it on the stack, if it is covered and has no label.
fn visit(
    g: &Grid,
    label: &mut Vec<Vec<Option<usize>>>,
    stack: &mut Vec<(usize, usize)>,
    i: usize,
    j: usize,
    id: usize,
)
    requires
        g.wf(),
        shaped(*g, old(label)@),
        i < g.nx,
        j < g.ny,
    ensures
        shaped(*g, final(label)@),
        ({
            let fresh = g.is_covered((i as int, j as int)) && label_of(
                old(label)@,
                (i as int, j as int),
            ) is None;
            &&& final(stack)@ == if fresh {
                old(stack)@.push((i, j))
            } else {
                old(stack)@
            }
            &&& forall|c: (int, int)|
                g.in_range(c) ==> #[trigger] label_of(final(label)@, c) == if fresh && c == (
                    i as int,
                    j as int,
                ) {
                    Some(id)
                } else {
                    label_of(old(label)@, c)
                }
        }),
        unlabelled(*g, final(label)@).len() + final(stack)@.len() == unlabelled(
            *g,
            old(label)@,
        ).len() + old(stack)@.len(),
{
    let ghost before = label@;
    if g.covered[i][j] && label[i][j].is_none() {
        label[i][j] = Some(id);
        stack.push((i, j));
        proof {
            let c0 = (i as int, j as int);
            lemma_unlabelled_finite(*g, before);
            assert(unlabelled(*g, label@) =~= unlabelled(*g, before).remove(c0));
        }
    }
}

/// Everything labelled `id` so far was free before, is covered, and is joined to `start`.
spec fn flooded(
    g: Grid,
    first: Seq<Vec<Option<usize>>>,
    label: Seq<Vec<Option<usize>>>,
    start: (int, int),
    id: usize,
) -> bool {
    &&& shaped(g, label)
    &&& forall|c: (int, int)|
        g.in_range(c) ==> {
            ||| #[trigger] label_of(label, c) == label_of(first, c)
            ||| label_of(first, c) is None && label_of(label, c) == Some(id)
        }
    &&& forall|c: (int, int)|
        g.in_range(c) && #[trigger] label_of(label, c) == Some(id) ==> g.is_covered(c)
            && cell_reaches(g, start, c)
}

/// Every covered neighbour of `c` is labelled `id`.
spec fn finished(g: Grid, label: Seq<Vec<Option<usize>>>, c: (int, int), id: usize) -> bool {
    forall|n: (int, int)|
        g.is_covered(n) && #[trigger] squares::adjacent(c, n) ==> label_of(label, n) == Some(id)
}

spec fn on_stack(stack: Seq<(usize, usize)>, c: (int, int)) -> bool {
    exists|k: int|
        0 <= k < stack.len() && (#[trigger] stack[k]).0 == c.0 && stack[k].1 == c.1
}

/// What the walk keeps: cells on the stack are labelled, and any other labelled cell except
/// `cur` has had its neighbours labelled.
spec fn walking(
    g: Grid,
    label: Seq<Vec<Option<usize>>>,
    stack: Seq<(usize, usize)>,
    cur: Option<(int, int)>,
    id: usize,
) -> bool {
    &&& forall|k: int|
        0 <= k < stack.len() ==> {
            let c = ((#[trigger] stack[k]).0 as int, stack[k].1 as int);
            g.in_range(c) && label_of(label, c) == Some(id)
        }
    &&& forall|c: (int, int)|
        g.in_range(c) && #[trigger] label_of(label, c) == Some(id) ==> on_stack(stack, c) || cur
            == Some(c) || finished(g, label, c, id)
}

/// One visit from `cur` keeps the walk and settles that neighbour.
proof fn lemma_visited(
    g: Grid,
    first: Seq<Vec<Option<usize>>>,
    before: Seq<Vec<Option<usize>>>,
    after: Seq<Vec<Option<usize>>>,
    stack0: Seq<(usize, usize)>,
    stack1: Seq<(usize, usize)>,
    start: (int, int),
    cur: (int, int),
    n: (usize, usize),
    id: usize,
)
    requires
        g.wf(),
        shaped(g, first),
        settled(g, first),
        g.in_range(cur),
        label_of(first, cur) is None,
        label_of(before, cur) == Some(id),
        forall|c: (int, int)| g.in_range(c) ==> #[trigger] label_of(first, c) != Some(id),
        flooded(g, first, before, start, id),
        walking(g, before, stack0, Some(cur), id),
        g.in_range((n.0 as int, n.1 as int)),
        squares::adjacent(cur, (n.0 as int, n.1 as int)),
        shaped(g, after),
        ({
            let m = (n.0 as int, n.1 as int);
            let fresh = g.is_covered(m) && label_of(before, m) is None;
            &&& stack1 == if fresh {
                stack0.push(n)
            } else {
                stack0
            }
            &&& forall|c: (int, int)|
                g.in_range(c) ==> #[trigger] label_of(after, c) == if fresh && c == m {
                    Some(id)
                } else {
                    label_of(before, c)
                }
        }),
    ensures
        flooded(g, first, after, start, id),
        walking(g, after, stack1, Some(cur), id),
        label_of(after, cur) == Some(id),
        g.is_covered((n.0 as int, n.1 as int)) ==> label_of(after, (n.0 as int, n.1 as int))
            == Some(id),
        forall|c: (int, int)|
            g.in_range(c) && #[trigger] label_of(before, c) == Some(id) ==> label_of(after, c)
                == Some(id),
{
    let m = (n.0 as int, n.1 as int);
    let fresh = g.is_covered(m) && label_of(before, m) is None;
    assert(label_of(after, cur) == Some(id));
    if fresh {
        assert(stack1[stack0.len() as int] == n);
        assert(cell_reaches(g, start, cur));
        assert(g.is_covered(cur));
        lemma_cell_step(g, cur, m);
        reach::lemma_reaches_trans(
            squares::step_in(g.metal()),
            g.corner(start),
            g.corner(cur),
            g.corner(m),
        );
    }
    assert(g.is_covered(m) ==> label_of(after, m) == Some(id)) by {
        if g.is_covered(m) && !fresh {
            if label_of(before, m) != Some(id) {
                assert(label_of(first, m) is Some);
                assert(squares::adjacent(m, cur));
                assert(g.is_covered(cur));
                assert(label_of(first, cur) == label_of(first, m));
            }
        }
    }
    assert(walking(g, after, stack1, Some(cur), id)) by {
        assert forall|k: int| 0 <= k < stack1.len() implies {
            let c = ((#[trigger] stack1[k]).0 as int, stack1[k].1 as int);
            g.in_range(c) && label_of(after, c) == Some(id)
        } by {
            if k < stack0.len() {
                assert(stack1[k] == stack0[k]);
                let c = (stack0[k].0 as int, stack0[k].1 as int);
                assert(label_of(before, c) == Some(id));
            }
        }
        assert forall|c: (int, int)|
            g.in_range(c) && #[trigger] label_of(after, c) == Some(id) implies on_stack(stack1, c)
            || Some(cur) == Some(c) || finished(g, after, c, id) by {
            if fresh && c == m {
                assert(on_stack(stack1, c));
            } else {
                assert(label_of(before, c) == Some(id));
                if on_stack(stack0, c) {
                    let k = choose|k: int|
                        0 <= k < stack0.len() && (#[trigger] stack0[k]).0 == c.0 && stack0[k].1
                            == c.1;
                    assert(stack1[k] == stack0[k]);
                } else if c != cur {
                    assert(finished(g, before, c, id));
                    assert(finished(g, after, c, id)) by {
                        assert forall|x: (int, int)|
                            g.is_covered(x) && #[trigger] squares::adjacent(
                                c,
                                x,
                            ) implies label_of(after, x) == Some(id) by {
                            assert(label_of(before, x) == Some(id));
                        }
                    }
                }
            }
        }
    }
}

/// Give the label `id` to every cell joined to `start`.
fn flood(g: &Grid, label: &mut Vec<Vec<Option<usize>>>, start: (usize, usize), id: usize)
    requires
        g.wf(),
        shaped(*g, old(label)@),
        settled(*g, old(label)@),
        g.is_covered((start.0 as int, start.1 as int)),
        label_of(old(label)@, (start.0 as int, start.1 as int)) is None,
        forall|c: (int, int)| g.in_range(c) ==> #[trigger] label_of(old(label)@, c) != Some(id),
    ensures
        shaped(*g, final(label)@),
        settled(*g, final(label)@),
        label_of(final(label)@, (start.0 as int, start.1 as int)) == Some(id),
        forall|c: (int, int)|
            g.in_range(c) ==> {
                ||| #[trigger] label_of(final(label)@, c) == label_of(old(label)@, c)
                ||| label_of(old(label)@, c) is None && label_of(final(label)@, c) == Some(id)
            },
        forall|c: (int, int)|
            g.in_range(c) && #[trigger] label_of(final(label)@, c) == Some(id) ==> g.is_covered(c)
                && cell_reaches(*g, (start.0 as int, start.1 as int), c),
{
    let ghost first = label@;
    let ghost s = (start.0 as int, start.1 as int);
    let mut stack: Vec<(usize, usize)> = Vec::new();
    visit(g, label, &mut stack, start.0, start.1, id);
    proof {
        assert(stack@[0] == start);
        assert(on_stack(stack@, s));
        assert(flooded(*g, first, label@, s, id));
        assert(walking(*g, label@, stack@, None, id));
    }
    while stack.len() > 0
        invariant
            g.wf(),
            shaped(*g, first),
            settled(*g, first),
            forall|c: (int, int)| g.in_range(c) ==> #[trigger] label_of(first, c) != Some(id),
            g.in_range(s),
            flooded(*g, first, label@, s, id),
            walking(*g, label@, stack@, None, id),
            label_of(label@, s) == Some(id),
        decreases unlabelled(*g, label@).len() + stack@.len(),
    {
        let ghost stack0 = stack@;
        let ghost label0 = label@;
        let top = stack.len() - 1;
        let (i, j) = stack[top];
        stack.pop();
        let ghost cur = (i as int, j as int);
        proof {
            assert(stack0[top as int] == (i, j));
            assert(label_of(label0, cur) == Some(id));
            assert(walking(*g, label@, stack@, Some(cur), id)) by {
                assert forall|k: int| 0 <= k < stack@.len() implies {
                    let c = ((#[trigger] stack@[k]).0 as int, stack@[k].1 as int);
                    g.in_range(c) && label_of(label@, c) == Some(id)
                } by {
                    assert(stack@[k] == stack0[k]);
                }
                assert forall|c: (int, int)|
                    g.in_range(c) && #[trigger] label_of(label@, c) == Some(id) implies on_stack(
                    stack@,
                    c,
                ) || Some(cur) == Some(c) || finished(*g, label@, c, id) by {
                    if on_stack(stack0, c) && c != cur {
                        let k = choose|k: int|
                            0 <= k < stack0.len() && (#[trigger] stack0[k]).0 == c.0
                                && stack0[k].1 == c.1;
                        assert(stack@[k] == stack0[k]);
                    }
                }
            }
        }
        if i > 0 {
            let ghost l = label@;
            let ghost st = stack@;
            visit(g, label, &mut stack, i - 1, j, id);
            proof {
                lemma_visited(*g, first, l, label@, st, stack@, s, cur, ((i - 1) as usize, j), id);
            }
        }
        if i + 1 < g.nx {
            let ghost l = label@;
            let ghost st = stack@;
            visit(g, label, &mut stack, i + 1, j, id);
            proof {
                lemma_visited(*g, first, l, label@, st, stack@, s, cur, ((i + 1) as usize, j), id);
            }
        }
        if j > 0 {
            let ghost l = label@;
            let ghost st = stack@;
            visit(g, label, &mut stack, i, j - 1, id);
            proof {
                lemma_visited(*g, first, l, label@, st, stack@, s, cur, (i, (j - 1) as usize), id);
            }
        }
        if j + 1 < g.ny {
            let ghost l = label@;
            let ghost st = stack@;
            visit(g, label, &mut stack, i, j + 1, id);
            proof {
                lemma_visited(*g, first, l, label@, st, stack@, s, cur, (i, (j + 1) as usize), id);
            }
        }
        proof {
            assert(finished(*g, label@, cur, id)) by {
                assert forall|n: (int, int)|
                    g.is_covered(n) && #[trigger] squares::adjacent(cur, n) implies label_of(
                    label@,
                    n,
                ) == Some(id) by {
                    assert(n == (i - 1, j as int) || n == (i + 1, j as int) || n == (
                        i as int,
                        j - 1,
                    ) || n == (i as int, j + 1));
                }
            }
        }
    }
    proof {
        assert forall|c: (int, int), n: (int, int)|
            g.in_range(c) && label_of(label@, c) is Some && g.is_covered(n)
                && #[trigger] squares::adjacent(c, n) implies label_of(label@, n) == label_of(
            label@,
            c,
        ) by {
            if label_of(label@, c) == Some(id) {
                assert(!on_stack(stack@, c));
                assert(finished(*g, label@, c, id));
            } else {
                assert(label_of(first, c) == label_of(label@, c));
                assert(label_of(first, n) == label_of(first, c));
            }
        }
    }
}

/// The components of the covered cells, each in rising order of cells, and in rising order of
/// their first cells.
pub fn label_components(g: &Grid) -> (comps: Vec<Vec<(usize, usize)>>)
    requires
        g.wf(),
    ensures
        forall|a: int|
            #![trigger comps@[a]]
            0 <= a < comps@.len() ==> {
                &&& comps@[a]@.len() > 0
                &&& in_order(comps@[a]@)
                &&& g.covered_list(comps@[a]@)
                &&& squares::is_component(g.cells_union(comps@[a]@), g.metal())
            },
        forall|i: usize, j: usize|
            g.is_covered((i as int, j as int)) ==> exists|a: int|
                0 <= a < comps@.len() && #[trigger] comps@[a]@.contains((i, j)),
        forall|a: int, b: int|
            0 <= a < b < comps@.len() ==> {
                &&& lex_less(#[trigger] comps@[a]@[0], #[trigger] comps@[b]@[0])
                &&& forall|c: (usize, usize)|
                    !(#[trigger] comps@[a]@.contains(c) && comps@[b]@.contains(c))
            },
{
    let mut label: Vec<Vec<Option<usize>>> = Vec::new();
    let mut i: usize = 0;
    while i < g.nx
        invariant
            i <= g.nx,
            label@.len() == i,
            forall|a: int| 0 <= a < i ==> (#[trigger] label@[a])@.len() == g.ny,
            forall|a: int, b: int|
                0 <= a < i && 0 <= b < g.ny ==> (#[trigger] label@[a]@[b]) is None,
        decreases g.nx - i,
    {
        let mut column: Vec<Option<usize>> = Vec::new();
        let mut j: usize = 0;
        while j < g.ny
            invariant
                j <= g.ny,
                column@.len() == j,
                forall|b: int| 0 <= b < j ==> (#[trigger] column@[b]) is None,
            decreases g.ny - j,
        {
            column.push(None);
            j += 1;
        }
        label.push(column);
        i += 1;
    }
    let mut starts: Vec<(usize, usize)> = Vec::new();
    let mut i: usize = 0;
    while i < g.nx
        invariant
            i <= g.nx,
            g.wf(),
            labelled_to(*g, label@, starts@, (i as int, 0)),
        decreases g.nx - i,
    {
        let mut j: usize = 0;
        while j < g.ny
            invariant
                i < g.nx,
                j <= g.ny,
                g.wf(),
                labelled_to(*g, label@, starts@, (i as int, j as int)),
            decreases g.ny - j,
        {
            if g.covered[i][j] && label[i][j].is_none() {
                let ghost l = label@;
                let ghost st = starts@;
                let id = starts.len();
                flood(g, &mut label, (i, j), id);
                starts.push((i, j));
                proof {
                    assert(st.len() + 1 == starts.len());
                    lemma_labelled_start(*g, l, label@, st, (i, j));
                }
            } else {
                proof {
                    lemma_labelled_skip(*g, label@, starts@, (i as int, j as int));
                }
            }
            j += 1;
        }
        proof {
            assert(labelled_to(*g, label@, starts@, (i + 1, 0)));
        }
        i += 1;
    }
    let mut comps: Vec<Vec<(usize, usize)>> = Vec::new();
    let mut a: usize = 0;
    while a < starts.len()
        invariant
            a <= starts@.len(),
            comps@.len() == a,
            forall|b: int| 0 <= b < a ==> (#[trigger] comps@[b])@.len() == 0,
        decreases starts@.len() - a,
    {
        comps.push(Vec::new());
        a += 1;
    }
    let mut i: usize = 0;
    while i < g.nx
        invariant
            i <= g.nx,
            g.wf(),
            labelled_to(*g, label@, starts@, (g.nx as int, 0)),
            comps@.len() == starts@.len(),
            sorted_to(*g, label@, comps@, (i as int, 0)),
        decreases g.nx - i,
    {
        let mut j: usize = 0;
        while j < g.ny
            invariant
                i < g.nx,
                j <= g.ny,
                g.wf(),
                labelled_to(*g, label@, starts@, (g.nx as int, 0)),
                comps@.len() == starts@.len(),
                sorted_to(*g, label@, comps@, (i as int, j as int)),
            decreases g.ny - j,
        {
            let ghost before = comps@;
            let ghost here = (i as int, j as int);
            assert(label_of(label@, here) == label@[i as int]@[j as int]);
            if let Some(l) = label[i][j] {
                comps[l].push((i, j));
                proof {
                    lemma_sorted_push(*g, label@, before, comps@, (i, j), l);
                }
            } else {
                proof {
                    lemma_sorted_skip(*g, label@, comps@, (i, j));
                }
            }
            j += 1;
        }
        proof {
            assert(sorted_to(*g, label@, comps@, (i + 1, 0)));
        }
        i += 1;
    }
    proof {
        assert forall|a: int|
            #![trigger comps@[a]]
            0 <= a < comps@.len() implies {
            &&& comps@[a]@.len() > 0
            &&& in_order(comps@[a]@)
            &&& g.covered_list(comps@[a]@)
            &&& squares::is_component(g.cells_union(comps@[a]@), g.metal())
        } by {
            lemma_component_list(*g, label@, starts@, comps@, a);
        }
        assert forall|i: usize, j: usize| g.is_covered((i as int, j as int)) implies exists|a: int|
            0 <= a < comps@.len() && #[trigger] comps@[a]@.contains((i, j)) by {
            let a = lemma_all_listed(*g, label@, starts@, comps@, i, j);
        }
        assert forall|a: int, b: int| 0 <= a < b < comps@.len() implies {
            &&& lex_less(#[trigger] comps@[a]@[0], #[trigger] comps@[b]@[0])
            &&& forall|c: (usize, usize)|
                !(#[trigger] comps@[a]@.contains(c) && comps@[b]@.contains(c))
        } by {
            lemma_component_list(*g, label@, starts@, comps@, a);
            lemma_component_list(*g, label@, starts@, comps@, b);
            assert(comps.len() == comps@.len());
            assert forall|c: (usize, usize)|
                !(#[trigger] comps@[a]@.contains(c) && comps@[b]@.contains(c)) by {
                lemma_listed_once(*g, label@, comps@, a, b, c);
            }
        }
    }
    comps
}

spec fn before(a: (int, int), b: (int, int)) -> bool {
    a.0 < b.0 || a.0 == b.0 && a.1 < b.1
}

/// All components that begin before `to` are labelled, each by its place among the starts.
spec fn labelled_to(
    g: Grid,
    label: Seq<Vec<Option<usize>>>,
    starts: Seq<(usize, usize)>,
    to: (int, int),
) -> bool {
    &&& shaped(g, label)
    &&& settled(g, label)
    &&& forall|c: (int, int)|
        g.is_covered(c) && before(c, to) ==> (#[trigger] label_of(label, c)) is Some
    &&& forall|c: (int, int)|
        g.in_range(c) && (#[trigger] label_of(label, c)) is Some ==> {
            let l = label_of(label, c)->0 as int;
            &&& l < starts.len()
            &&& cell_reaches(g, (starts[l].0 as int, starts[l].1 as int), c)
            &&& !before(c, (starts[l].0 as int, starts[l].1 as int))
        }
    &&& forall|l: int|
        0 <= l < starts.len() ==> {
            let c = ((#[trigger] starts[l]).0 as int, starts[l].1 as int);
            g.is_covered(c) && before(c, to) && label_of(label, c) == Some(l as usize)
        }
    &&& in_order(starts)
    &&& starts.len() <= usize::MAX
}

proof fn lemma_labelled_start(
    g: Grid,
    l: Seq<Vec<Option<usize>>>,
    after: Seq<Vec<Option<usize>>>,
    st: Seq<(usize, usize)>,
    at: (usize, usize),
)
    requires
        g.wf(),
        labelled_to(g, l, st, (at.0 as int, at.1 as int)),
        g.is_covered((at.0 as int, at.1 as int)),
        label_of(l, (at.0 as int, at.1 as int)) is None,
        st.len() < usize::MAX,
        shaped(g, after),
        settled(g, after),
        label_of(after, (at.0 as int, at.1 as int)) == Some(st.len() as usize),
        forall|c: (int, int)|
            g.in_range(c) ==> {
                ||| #[trigger] label_of(after, c) == label_of(l, c)
                ||| label_of(l, c) is None && label_of(after, c) == Some(st.len() as usize)
            },
        forall|c: (int, int)|
            g.in_range(c) && #[trigger] label_of(after, c) == Some(st.len() as usize)
                ==> g.is_covered(c) && cell_reaches(g, (at.0 as int, at.1 as int), c),
    ensures
        labelled_to(g, after, st.push(at), (at.0 as int, at.1 + 1)),
{
    let here = (at.0 as int, at.1 as int);
    let next = st.push(at);
    let to = (at.0 as int, at.1 + 1);
    assert(next[st.len() as int] == at);
    assert forall|c: (int, int)| g.is_covered(c) && before(c, to) implies (#[trigger] label_of(
        after,
        c,
    )) is Some by {
        if c != here {
            assert(before(c, here));
            assert(label_of(l, c) is Some);
        }
    }
    assert forall|c: (int, int)|
        g.in_range(c) && (#[trigger] label_of(after, c)) is Some implies {
        let k = label_of(after, c)->0 as int;
        &&& k < next.len()
        &&& cell_reaches(g, (next[k].0 as int, next[k].1 as int), c)
        &&& !before(c, (next[k].0 as int, next[k].1 as int))
    } by {
        if label_of(after, c) == label_of(l, c) {
            let k = label_of(l, c)->0 as int;
            assert(next[k] == st[k]);
        } else {
            assert(label_of(l, c) is None);
            assert(g.is_covered(c));
            if before(c, here) {
                assert(label_of(l, c) is Some);
            }
        }
    }
    assert forall|k: int| 0 <= k < next.len() implies {
        let c = ((#[trigger] next[k]).0 as int, next[k].1 as int);
        g.is_covered(c) && before(c, to) && label_of(after, c) == Some(k as usize)
    } by {
        if k < st.len() {
            assert(next[k] == st[k]);
            let c = (st[k].0 as int, st[k].1 as int);
            assert(label_of(l, c) == Some(k as usize));
        }
    }
    assert(in_order(next)) by {
        assert forall|a: int, b: int| 0 <= a < b < next.len() implies lex_less(next[a], next[b]) by {
            assert(next[a] == st[a]);
            if b < st.len() {
                assert(next[b] == st[b]);
            } else {
                assert(before((st[a].0 as int, st[a].1 as int), here));
            }
        }
    }
}

proof fn lemma_labelled_skip(
    g: Grid,
    label: Seq<Vec<Option<usize>>>,
    st: Seq<(usize, usize)>,
    at: (int, int),
)
    requires
        g.wf(),
        labelled_to(g, label, st, at),
        g.in_range(at),
        g.is_covered(at) ==> label_of(label, at) is Some,
    ensures
        labelled_to(g, label, st, (at.0, at.1 + 1)),
{
    let to = (at.0, at.1 + 1);
    assert forall|c: (int, int)| g.is_covered(c) && before(c, to) implies (#[trigger] label_of(
        label,
        c,
    )) is Some by {
        if c != at {
            assert(before(c, at));
        }
    }
    assert forall|l: int| 0 <= l < st.len() implies {
        let c = ((#[trigger] st[l]).0 as int, st[l].1 as int);
        g.is_covered(c) && before(c, to) && label_of(label, c) == Some(l as usize)
    } by {
        let c = (st[l].0 as int, st[l].1 as int);
        assert(before(c, at));
    }
}

/// Every labelled cell before `to` is in the list of its label, in order.
spec fn sorted_to(
    g: Grid,
    label: Seq<Vec<Option<usize>>>,
    comps: Seq<Vec<(usize, usize)>>,
    to: (int, int),
) -> bool {
    &&& forall|l: int| 0 <= l < comps.len() ==> in_order((#[trigger] comps[l])@)
    &&& forall|l: int, c: (usize, usize)|
        0 <= l < comps.len() ==> (#[trigger] comps[l]@.contains(c) <==> {
            let p = (c.0 as int, c.1 as int);
            g.in_range(p) && before(p, to) && label_of(label, p) == Some(l as usize)
        })
}

proof fn lemma_sorted_push(
    g: Grid,
    label: Seq<Vec<Option<usize>>>,
    old_comps: Seq<Vec<(usize, usize)>>,
    comps: Seq<Vec<(usize, usize)>>,
    at: (usize, usize),
    id: usize,
)
    requires
        g.in_range((at.0 as int, at.1 as int)),
        sorted_to(g, label, old_comps, (at.0 as int, at.1 as int)),
        label_of(label, (at.0 as int, at.1 as int)) == Some(id),
        id < old_comps.len() <= usize::MAX,
        comps.len() == old_comps.len(),
        comps[id as int]@ == old_comps[id as int]@.push(at),
        forall|l: int| 0 <= l < comps.len() && l != id ==> comps[l] == old_comps[l],
    ensures
        sorted_to(g, label, comps, (at.0 as int, at.1 + 1)),
{
    let here = (at.0 as int, at.1 as int);
    let to = (at.0 as int, at.1 + 1);
    let o = old_comps[id as int]@;
    assert(o.push(at)[o.len() as int] == at);
    assert forall|l: int| 0 <= l < comps.len() implies in_order((#[trigger] comps[l])@) by {
        if l == id {
            assert forall|a: int, b: int| 0 <= a < b < comps[l]@.len() implies lex_less(
                comps[l]@[a],
                comps[l]@[b],
            ) by {
                assert(comps[l]@[a] == o[a]);
                if b < o.len() {
                    assert(comps[l]@[b] == o[b]);
                } else {
                    assert(o.contains(o[a]));
                    assert(old_comps[id as int]@.contains(o[a]));
                }
            }
        } else {
            assert(comps[l] == old_comps[l]);
        }
    }
    assert forall|l: int, c: (usize, usize)| 0 <= l < comps.len() implies (
    #[trigger] comps[l]@.contains(c) <==> {
        let p = (c.0 as int, c.1 as int);
        g.in_range(p) && before(p, to) && label_of(label, p) == Some(l as usize)
    }) by {
        let p = (c.0 as int, c.1 as int);
        assert(old_comps[l]@.contains(c) <==> g.in_range(p) && before(p, here) && label_of(label, p)
            == Some(l as usize));
        assert(before(p, to) <==> before(p, here) || p == here);
        if l == id {
            vstd::seq_lib::lemma_seq_contains_after_push(o, at, c);
            if comps[l]@.contains(c) && c != at {
                let k = choose|k: int| 0 <= k < comps[l]@.len() && comps[l]@[k] == c;
                assert(o[k] == c);
            }
            if c == at {
                assert(comps[l]@[o.len() as int] == at);
            }
            assert(comps[l]@.contains(c) <==> o.contains(c) || c == at);
        }
    }
}

proof fn lemma_sorted_skip(
    g: Grid,
    label: Seq<Vec<Option<usize>>>,
    comps: Seq<Vec<(usize, usize)>>,
    at: (usize, usize),
)
    requires
        g.in_range((at.0 as int, at.1 as int)),
        sorted_to(g, label, comps, (at.0 as int, at.1 as int)),
        label_of(label, (at.0 as int, at.1 as int)) is None,
    ensures
        sorted_to(g, label, comps, (at.0 as int, at.1 + 1)),
{
    let here = (at.0 as int, at.1 as int);
    let to = (at.0 as int, at.1 + 1);
    assert forall|l: int, c: (usize, usize)| 0 <= l < comps.len() implies (
    #[trigger] comps[l]@.contains(c) <==> {
        let p = (c.0 as int, c.1 as int);
        g.in_range(p) && before(p, to) && label_of(label, p) == Some(l as usize)
    }) by {
        let p = (c.0 as int, c.1 as int);
        assert(before(p, to) <==> before(p, here) || p == here);
    }
}

/// The list of one label is a component and begins at its start.
proof fn lemma_component_list(
    g: Grid,
    label: Seq<Vec<Option<usize>>>,
    starts: Seq<(usize, usize)>,
    comps: Seq<Vec<(usize, usize)>>,
    a: int,
)
    requires
        g.wf(),
        labelled_to(g, label, starts, (g.nx as int, 0)),
        comps.len() == starts.len(),
        sorted_to(g, label, comps, (g.nx as int, 0)),
        0 <= a < comps.len(),
    ensures
        comps[a]@.len() > 0,
        comps[a]@[0] == starts[a],
        in_order(comps[a]@),
        g.covered_list(comps[a]@),
        squares::is_component(g.cells_union(comps[a]@), g.metal()),
{
    let cells = comps[a]@;
    let s = (starts[a].0 as int, starts[a].1 as int);
    assert(label_of(label, s) == Some(a as usize));
    assert(cells.contains(starts[a]));
    let k = choose|k: int| 0 <= k < cells.len() && cells[k] == starts[a];
    if k > 0 {
        assert(lex_less(cells[0], cells[k]));
        assert(cells.contains(cells[0]));
        let c = (cells[0].0 as int, cells[0].1 as int);
        assert(label_of(label, c) == Some(a as usize));
        assert(before(c, s));
    }
    assert forall|k: int| 0 <= k < cells.len() implies g.is_covered(
        ((#[trigger] cells[k]).0 as int, cells[k].1 as int),
    ) by {
        assert(cells.contains(cells[k]));
        assert(label_of(label, (cells[k].0 as int, cells[k].1 as int)) is Some);
    }
    assert(cells.no_duplicates()) by {
        assert forall|x: int, y: int|
            0 <= x < cells.len() && 0 <= y < cells.len() && x != y implies cells[x]
            != cells[y] by {
            if x < y {
                assert(lex_less(cells[x], cells[y]));
            } else {
                assert(lex_less(cells[y], cells[x]));
            }
        }
    }
    lemma_one_component(g, label, cells, starts[a], a as usize);
}

/// Every covered cell is in the list of its label.
proof fn lemma_all_listed(
    g: Grid,
    label: Seq<Vec<Option<usize>>>,
    starts: Seq<(usize, usize)>,
    comps: Seq<Vec<(usize, usize)>>,
    i: usize,
    j: usize,
) -> (a: int)
    requires
        labelled_to(g, label, starts, (g.nx as int, 0)),
        comps.len() == starts.len(),
        sorted_to(g, label, comps, (g.nx as int, 0)),
        g.is_covered((i as int, j as int)),
    ensures
        0 <= a < comps.len(),
        comps[a]@.contains((i, j)),
{
    let c = (i as int, j as int);
    assert(before(c, (g.nx as int, 0)));
    assert(label_of(label, c) is Some);
    label_of(label, c)->0 as int
}

/// No cell is in two lists.
proof fn lemma_listed_once(
    g: Grid,
    label: Seq<Vec<Option<usize>>>,
    comps: Seq<Vec<(usize, usize)>>,
    a: int,
    b: int,
    c: (usize, usize),
)
    requires
        sorted_to(g, label, comps, (g.nx as int, 0)),
        0 <= a < b < comps.len() <= usize::MAX,
    ensures
        !(comps[a]@.contains(c) && comps[b]@.contains(c)),
{
}

/// The cells of one label make one component of the metal.
proof fn lemma_one_component(
    g: Grid,
    label: Seq<Vec<Option<usize>>>,
    cells: Seq<(usize, usize)>,
    start: (usize, usize),
    id: usize,
)
    requires
        g.wf(),
        shaped(g, label),
        settled(g, label),
        g.covered_list(cells),
        cells.contains(start),
        forall|c: (usize, usize)| #[trigger]
            cells.contains(c) <==> g.in_range((c.0 as int, c.1 as int)) && label_of(
                label,
                (c.0 as int, c.1 as int),
            ) == Some(id),
        forall|c: (int, int)|
            g.in_range(c) && #[trigger] label_of(label, c) == Some(id) ==> cell_reaches(
                g,
                (start.0 as int, start.1 as int),
                c,
            ),
    ensures
        squares::is_component(g.cells_union(cells), g.metal()),
{
    let s = g.cells_union(cells);
    let m = g.metal();
    let o = (start.0 as int, start.1 as int);
    let step = squares::step_in(m);
    let k0 = choose|k: int| 0 <= k < cells.len() && cells[k] == start;
    assert(g.is_covered((cells[k0].0 as int, cells[k0].1 as int)));
    g.lemma_corner(o);
    assert(g.cell((cells[k0].0 as int, cells[k0].1 as int)).contains(g.corner(o)));
    g.lemma_union_in_metal(cells);
    assert forall|p: (int, int)| #[trigger] s.contains(p) implies reach::reaches(
        step,
        g.corner(o),
        p,
    ) by {
        let k = choose|k: int|
            0 <= k < cells.len() && #[trigger] g.cell(
                (cells[k].0 as int, cells[k].1 as int),
            ).contains(p);
        let c = (cells[k].0 as int, cells[k].1 as int);
        assert(cells.contains(cells[k]));
        assert(g.is_covered(c));
        assert(label_of(label, c) == Some(id));
        g.lemma_corner(c);
        lemma_within_cell(g, c, g.corner(c), p);
        reach::lemma_reaches_trans(step, g.corner(o), g.corner(c), p);
    }
    assert forall|p: (int, int), q: (int, int)|
        s.contains(p) && m.contains(q) && #[trigger] squares::adjacent(p, q) implies s.contains(
        q,
    ) by {
        let k = choose|k: int|
            0 <= k < cells.len() && #[trigger] g.cell(
                (cells[k].0 as int, cells[k].1 as int),
            ).contains(p);
        let c = (cells[k].0 as int, cells[k].1 as int);
        assert(cells.contains(cells[k]));
        assert(g.is_covered(c));
        let d = choose|d: (int, int)| #[trigger] g.is_covered(d) && g.cell(d).contains(q);
        assert(c == d || squares::adjacent(c, d)) by {
            lemma_neighbour_cells(g, c, d, p, q);
        }
        assert(label_of(label, d) == Some(id));
        let u = (d.0 as usize, d.1 as usize);
        assert(cells.contains(u));
        let e = choose|e: int| 0 <= e < cells.len() && cells[e] == u;
        assert(g.cell((cells[e].0 as int, cells[e].1 as int)).contains(q));
    }
    squares::lemma_component_from_start(s, m, g.corner(o));
}

/// Squares that share an edge lie in one cell or in cells that share a side.
proof fn lemma_neighbour_cells(g: Grid, c: (int, int), d: (int, int), p: (int, int), q: (int, int))
    requires
        g.wf(),
        g.in_range(c),
        g.in_range(d),
        g.cell(c).contains(p),
        g.cell(d).contains(q),
        squares::adjacent(p, q),
    ensures
        c == d || squares::adjacent(c, d),
{
    let xs = g.xs@;
    let ys = g.ys@;
    if c.0 + 1 < d.0 {
        assert(xs[c.0 + 1] < xs[c.0 + 2]);
        assert(xs[c.0 + 2] <= xs[d.0]);
    }
    if d.0 + 1 < c.0 {
        assert(xs[d.0 + 1] < xs[d.0 + 2]);
        assert(xs[d.0 + 2] <= xs[c.0]);
    }
    if c.1 + 1 < d.1 {
        assert(ys[c.1 + 1] < ys[c.1 + 2]);
        assert(ys[c.1 + 2] <= ys[d.1]);
    }
    if d.1 + 1 < c.1 {
        assert(ys[d.1 + 1] < ys[d.1 + 2]);
        assert(ys[d.1 + 2] <= ys[c.1]);
    }
    if c.0 < d.0 {
        assert(xs[c.0 + 1] <= xs[d.0]);
    }
    if d.0 < c.0 {
        assert(xs[d.0 + 1] <= xs[c.0]);
    }
    if c.1 < d.1 {
        assert(ys[c.1 + 1] <= ys[d.1]);
    }
    if d.1 < c.1 {
        assert(ys[d.1 + 1] <= ys[c.1]);
    }
}

} // verus!
