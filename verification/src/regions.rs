//! Which terminals share a conductor at a stage, and the metal that each such region collects.

use crate::conductor;
use crate::conductor::Conductor;
use crate::graph;
use crate::graph::NetGraph;
use crate::reach;
use crate::union_find::UnionFind;
use vstd::prelude::*;

verus! {

/// Metal collected by one conductor at a stage. Areas in squared database units, perimeters in
/// database units.
#[derive(Debug, Clone, Copy, PartialEq)]
pub struct Collected {
    pub layer_area: i64,
    pub layer_perimeter: i64,
    pub cumulative_area: i64,
    pub cumulative_perimeter: i64,
}

impl Default for Collected {
    fn default() -> (c: Collected)
        ensures
            c == (Collected {
                layer_area: 0,
                layer_perimeter: 0,
                cumulative_area: 0,
                cumulative_perimeter: 0,
            }),
    {
        Collected {
            layer_area: 0,
            layer_perimeter: 0,
            cumulative_area: 0,
            cumulative_perimeter: 0,
        }
    }
}

/// Whether one terminal touches both conductors, and so shorts them.
pub open spec fn shorted(attach: Seq<Vec<usize>>, a: int, b: int) -> bool {
    exists|t: int|
        #![trigger attach[t]]
        0 <= t < attach.len() && attach[t]@.contains(a as usize) && attach[t]@.contains(b as usize)
}

/// The sum of a measure over the members among the first `n` conductors.
pub open spec fn gathered(
    cs: Seq<Conductor>,
    n: int,
    member: spec_fn(int) -> bool,
    measure: spec_fn(Conductor) -> int,
) -> int
    decreases n,
{
    if n <= 0 {
        0
    } else {
        gathered(cs, n - 1, member, measure) + if member(n - 1) {
            measure(cs[n - 1])
        } else {
            0
        }
    }
}

/// The area of a conductor, as a measure.
pub open spec fn area_of() -> spec_fn(Conductor) -> int {
    |c: Conductor| c.area as int
}

/// The perimeter of a conductor, as a measure.
pub open spec fn perimeter_of() -> spec_fn(Conductor) -> int {
    |c: Conductor| c.perimeter as int
}

impl NetGraph {
    /// At `stage` only the layers up to it exist.
    pub open spec fn live(&self, stage: i64, i: int) -> bool {
        0 <= i < self.conductors@.len() && self.conductors@[i].layer <= stage
    }

    /// Every conductor that a terminal is attached to is one of the graph's.
    pub open spec fn attach_fits(&self, attach: Seq<Vec<usize>>) -> bool {
        forall|t: int, k: int|
            0 <= t < attach.len() && 0 <= k < attach[t]@.len() ==> (#[trigger] attach[t]@[k])
                < self.conductors@.len()
    }

    /// One step of connection at `stage`: vertical contact, or a terminal that shorts the two.
    pub open spec fn joins(&self, stage: i64, attach: Seq<Vec<usize>>) -> spec_fn(
        int,
        int,
    ) -> bool {
        |a: int, b: int|
            self.live(stage, a) && self.live(stage, b) && (self.linked(a, b) || self.linked(b, a)
                || shorted(attach, a, b))
    }

    /// Whether two conductors are one at `stage`.
    pub open spec fn joined(&self, stage: i64, attach: Seq<Vec<usize>>, a: int, b: int) -> bool {
        reach::reaches(self.joins(stage, attach), a, b)
    }

    /// Whether terminal `t` is attached to conductor `i`, and `i` exists at `stage`.
    pub open spec fn anchors(&self, stage: i64, attach: Seq<Vec<usize>>, t: int, i: int) -> bool {
        0 <= t < attach.len() && self.live(stage, i) && attach[t]@.contains(i as usize)
    }

    /// Whether terminal `t` is attached to anything that exists at `stage`.
    pub open spec fn anchored(&self, stage: i64, attach: Seq<Vec<usize>>, t: int) -> bool {
        exists|i: int| self.anchors(stage, attach, t, i)
    }

    /// The routing metal at `stage` that is one with conductor `anchor`.
    pub open spec fn collects(
        &self,
        stage: i64,
        attach: Seq<Vec<usize>>,
        anchor: int,
    ) -> spec_fn(int) -> bool {
        |i: int|
            self.live(stage, i) && self.conductors@[i].is_routing && self.joined(
                stage,
                attach,
                anchor,
                i,
            )
    }

    /// That part of it which lies on the layer of the stage itself.
    pub open spec fn collects_on(
        &self,
        stage: i64,
        attach: Seq<Vec<usize>>,
        anchor: int,
    ) -> spec_fn(int) -> bool {
        |i: int|
            self.live(stage, i) && self.conductors@[i].is_routing && self.joined(
                stage,
                attach,
                anchor,
                i,
            ) && self.conductors@[i].layer == stage
    }

    /// That part of it which lies on one given layer.
    pub open spec fn collects_layer(
        &self,
        stage: i64,
        attach: Seq<Vec<usize>>,
        anchor: int,
        layer: i64,
    ) -> spec_fn(int) -> bool {
        |i: int|
            self.live(stage, i) && self.conductors@[i].is_routing && self.joined(
                stage,
                attach,
                anchor,
                i,
            ) && self.conductors@[i].layer == layer
    }

    /// The sum of `measure` over the members.
    pub open spec fn total(
        &self,
        member: spec_fn(int) -> bool,
        measure: spec_fn(Conductor) -> int,
    ) -> int {
        gathered(self.conductors@, self.conductors@.len() as int, member, measure)
    }

    /// `m` is the metal that is one with conductor `anchor` at `stage`.
    pub open spec fn is_metal(
        &self,
        stage: i64,
        attach: Seq<Vec<usize>>,
        anchor: int,
        m: Collected,
    ) -> bool {
        &&& m.cumulative_area == self.total(self.collects(stage, attach, anchor), area_of())
        &&& m.cumulative_perimeter == self.total(
            self.collects(stage, attach, anchor),
            perimeter_of(),
        )
        &&& m.layer_area == self.total(self.collects_on(stage, attach, anchor), area_of())
        &&& m.layer_perimeter == self.total(
            self.collects_on(stage, attach, anchor),
            perimeter_of(),
        )
    }

    /// The regions are a partition of the terminals that are anchored at `stage`: two terminals
    /// are together exactly when conductors that they touch are one. Each region lists its
    /// terminals in rising order, the regions come in the order of their first terminals, and
    /// each has the metal that is one with what its terminals touch.
    pub open spec fn are_regions(
        &self,
        stage: i64,
        attach: Seq<Vec<usize>>,
        regions: Seq<(Vec<usize>, Collected)>,
    ) -> bool {
        &&& forall|r: int|
            #![trigger regions[r]]
            0 <= r < regions.len() ==> regions[r].0@.len() > 0 && rising_terms(regions[r].0@)
        &&& forall|r: int, t: usize|
            0 <= r < regions.len() && #[trigger] regions[r].0@.contains(t) ==> self.anchored(
                stage,
                attach,
                t as int,
            )
        &&& forall|t: usize| #[trigger]
            self.anchored(stage, attach, t as int) ==> exists|r: int|
                0 <= r < regions.len() && #[trigger] regions[r].0@.contains(t)
        &&& forall|r: int, s: int, t: usize, u: usize, i: int, j: int|
            #![trigger regions[r].0@.contains(t), regions[s].0@.contains(u),
                self.anchors(stage, attach, t as int, i), self.anchors(stage, attach, u as int, j)]
            0 <= r < regions.len() && 0 <= s < regions.len() && regions[r].0@.contains(t)
                && regions[s].0@.contains(u) && self.anchors(stage, attach, t as int, i)
                && self.anchors(stage, attach, u as int, j) ==> (r == s <==> self.joined(
                stage,
                attach,
                i,
                j,
            ))
        &&& forall|r: int, t: usize, i: int|
            0 <= r < regions.len() && #[trigger] regions[r].0@.contains(t)
                && #[trigger] self.anchors(stage, attach, t as int, i) ==> self.is_metal(
                stage,
                attach,
                i,
                regions[r].1,
            )
        &&& forall|r: int, s: int|
            #![trigger regions[r], regions[s]]
            0 <= r < s < regions.len() ==> regions[r].0@[0] < regions[s].0@[0]
    }

    /// For each region at `stage` and each stage layer, in the order of the layers, the perimeter
    /// of the metal that the region collects on that layer.
    pub open spec fn are_stacks(
        &self,
        stage: i64,
        attach: Seq<Vec<usize>>,
        regions: Seq<(Vec<usize>, Collected)>,
        stacks: Seq<Vec<i64>>,
    ) -> bool {
        &&& stacks.len() == regions.len()
        &&& forall|r: int|
            0 <= r < stacks.len() ==> (#[trigger] stacks[r])@.len() == self.layers@.len()
        &&& forall|r: int, t: usize, i: int, s: int|
            #![trigger regions[r].0@.contains(t), self.anchors(stage, attach, t as int, i),
                stacks[r]@[s]]
            0 <= r < regions.len() && regions[r].0@.contains(t) && self.anchors(
                stage,
                attach,
                t as int,
                i,
            ) && 0 <= s < self.layers@.len() ==> stacks[r]@[s] == self.total(
                self.collects_layer(stage, attach, i, self.layers@[s]),
                perimeter_of(),
            )
    }
}

/// Strictly rising.
pub open spec fn rising_terms(v: Seq<usize>) -> bool {
    forall|a: int, b: int| 0 <= a < b < v.len() ==> v[a] < v[b]
}

impl NetGraph {
    /// Steps go both ways.
    pub proof fn lemma_joins_two_way(&self, stage: i64, attach: Seq<Vec<usize>>)
        ensures
            reach::two_way(self.joins(stage, attach)),
    {
        let step = self.joins(stage, attach);
        assert forall|p: int, q: int| #[trigger] step(p, q) implies step(q, p) by {
            if shorted(attach, p, q) {
                let t = choose|t: int|
                    #![trigger attach[t]]
                    0 <= t < attach.len() && attach[t]@.contains(p as usize)
                        && attach[t]@.contains(q as usize);
                assert(attach[t]@.contains(q as usize));
                assert(shorted(attach, q, p));
            }
        }
    }

    /// What the union of two joined conductors makes one was joined before.
    proof fn lemma_union_sound(
        &self,
        stage: i64,
        attach: Seq<Vec<usize>>,
        before: UnionFind,
        after: UnionFind,
        a: int,
        b: int,
    )
        requires
            0 <= a < self.conductors@.len(),
            0 <= b < self.conductors@.len(),
            (self.joins(stage, attach))(a, b),
            before.len() == self.conductors@.len(),
            self.only_joined(stage, attach, before),
            forall|i: int, j: int|
                #![trigger after.same(i, j)]
                0 <= i < before.len() && 0 <= j < before.len() ==> (after.same(i, j) <==> {
                    ||| before.same(i, j)
                    ||| before.same(i, a) && before.same(b, j)
                    ||| before.same(i, b) && before.same(a, j)
                }),
        ensures
            self.only_joined(stage, attach, after),
    {
        let step = self.joins(stage, attach);
        self.lemma_joins_two_way(stage, attach);
        reach::lemma_reaches_step(step, a, b);
        reach::lemma_reaches_sym(step, a, b);
        assert forall|i: int, j: int|
            0 <= i < self.conductors@.len() && 0 <= j < self.conductors@.len()
                && #[trigger] after.same(i, j) implies self.joined(stage, attach, i, j) by {
            if before.same(i, j) {
            } else if before.same(i, a) && before.same(b, j) {
                reach::lemma_reaches_trans(step, i, a, b);
                reach::lemma_reaches_trans(step, i, b, j);
            } else {
                reach::lemma_reaches_trans(step, i, b, a);
                reach::lemma_reaches_trans(step, i, a, j);
            }
        }
    }

    /// The sets hold together only what is joined.
    spec fn only_joined(&self, stage: i64, attach: Seq<Vec<usize>>, uf: UnionFind) -> bool {
        forall|i: int, j: int|
            0 <= i < self.conductors@.len() && 0 <= j < self.conductors@.len()
                && #[trigger] uf.same(i, j) ==> self.joined(stage, attach, i, j)
    }

    /// Sets that hold each step together hold together exactly what is joined.
    proof fn lemma_merged(&self, stage: i64, attach: Seq<Vec<usize>>, uf: UnionFind)
        requires
            uf.len() == self.conductors@.len(),
            self.only_joined(stage, attach, uf),
            forall|a: int, b: int|
                #![trigger uf.same(a, b)]
                (self.joins(stage, attach))(a, b) ==> uf.same(a, b),
        ensures
            forall|i: int, j: int|
                0 <= i < self.conductors@.len() && 0 <= j < self.conductors@.len() ==> (
                #[trigger] uf.same(i, j) <==> self.joined(stage, attach, i, j)),
    {
        let step = self.joins(stage, attach);
        assert forall|i: int, j: int|
            0 <= i < self.conductors@.len() && 0 <= j < self.conductors@.len() implies (
        #[trigger] uf.same(i, j) <==> self.joined(stage, attach, i, j)) by {
            if self.joined(stage, attach, i, j) {
                let s = Set::new(
                    |k: int| 0 <= k < self.conductors@.len() && uf.same(i, k),
                );
                assert(reach::closed_under(s, step)) by {
                    assert forall|p: int, q: int|
                        s.contains(p) && #[trigger] step(p, q) implies s.contains(q) by {
                        assert(uf.same(p, q));
                    }
                }
                assert(s.contains(i));
                assert(s.contains(j));
            }
        }
    }

    /// Sets that hold together exactly what is one at `stage`.
    fn merged(&self, stage: i64, attach: &[Vec<usize>]) -> (uf: UnionFind)
        requires
            self.wf(),
            self.attach_fits(attach@),
        ensures
            uf.wf(),
            uf.len() == self.conductors@.len(),
            forall|i: int, j: int|
                0 <= i < self.conductors@.len() && 0 <= j < self.conductors@.len() ==> (
                #[trigger] uf.same(i, j) <==> self.joined(stage, attach@, i, j)),
    {
        let mut uf = UnionFind::new(self.conductors.len());
        let mut k: usize = 0;
        while k < self.links.len()
            invariant
                k <= self.links@.len(),
                self.wf(),
                uf.wf(),
                uf.len() == self.conductors@.len(),
                self.only_joined(stage, attach@, uf),
                self.links_held(stage, uf, k as int),
            decreases self.links@.len() - k,
        {
            let (a, b) = self.links[k];
            assert(self.links@.contains((a, b)));
            assert(self.linked(a as int, b as int));
            let ghost before = uf;
            if self.conductors[a].layer <= stage && self.conductors[b].layer <= stage {
                uf.union(a, b);
                proof {
                    self.lemma_union_sound(stage, attach@, before, uf, a as int, b as int);
                    assert(uf.same(a as int, b as int));
                    assert(self.links_held(stage, uf, k + 1)) by {
                        assert forall|m: int| 0 <= m < k + 1 implies self.link_held(
                            stage,
                            uf,
                            #[trigger] self.links@[m],
                        ) by {
                            if m < k {
                                let (x, y) = self.links@[m];
                                assert(self.link_held(stage, before, self.links@[m]));
                                assert(self.links@.contains((x, y)));
                                assert(self.linked(x as int, y as int));
                                assert(uf.same(x as int, y as int) <== before.same(
                                    x as int,
                                    y as int,
                                ));
                            }
                        }
                    }
                }
            }
            k += 1;
        }
        let mut t: usize = 0;
        while t < attach.len()
            invariant
                t <= attach@.len(),
                self.attach_fits(attach@),
                uf.wf(),
                uf.len() == self.conductors@.len(),
                self.only_joined(stage, attach@, uf),
                self.links_held(stage, uf, self.links@.len() as int),
                self.wf(),
                self.shorts_held(stage, attach@, uf, t as int),
            decreases attach@.len() - t,
        {
            self.short(stage, attach, t, &mut uf);
            t += 1;
        }
        proof {
            let step = self.joins(stage, attach@);
            assert forall|a: int, b: int|
                #![trigger uf.same(a, b)]
                step(a, b) implies uf.same(a, b) by {
                if self.linked(a, b) {
                    self.lemma_link_held(stage, uf, a, b);
                } else if self.linked(b, a) {
                    self.lemma_link_held(stage, uf, b, a);
                } else {
                    let t = choose|t: int|
                        #![trigger attach@[t]]
                        0 <= t < attach@.len() && attach@[t]@.contains(a as usize)
                            && attach@[t]@.contains(b as usize);
                    assert(self.short_held(stage, uf, attach@[t]@));
                }
            }
            self.lemma_merged(stage, attach@, uf);
        }
        uf
    }

    spec fn link_held(&self, stage: i64, uf: UnionFind, link: (usize, usize)) -> bool {
        self.live(stage, link.0 as int) && self.live(stage, link.1 as int) ==> uf.same(
            link.0 as int,
            link.1 as int,
        )
    }

    spec fn links_held(&self, stage: i64, uf: UnionFind, k: int) -> bool {
        forall|m: int| 0 <= m < k ==> self.link_held(stage, uf, #[trigger] self.links@[m])
    }

    proof fn lemma_link_held(&self, stage: i64, uf: UnionFind, a: int, b: int)
        requires
            self.wf(),
            self.links_held(stage, uf, self.links@.len() as int),
            self.linked(a, b),
            self.live(stage, a),
            self.live(stage, b),
        ensures
            uf.same(a, b),
    {
        assert(self.conductors.len() == self.conductors@.len());
        assert(self.links@.contains((a as usize, b as usize)));
        let m = choose|m: int|
            0 <= m < self.links@.len() && self.links@[m] == (a as usize, b as usize);
        assert(self.link_held(stage, uf, self.links@[m]));
    }

    /// What exists of the list is held together.
    spec fn short_held(&self, stage: i64, uf: UnionFind, list: Seq<usize>) -> bool {
        forall|i: usize, j: usize| #[trigger]
            list.contains(i) && #[trigger] list.contains(j) && self.live(stage, i as int)
                && self.live(stage, j as int) ==> uf.same(i as int, j as int)
    }

    spec fn shorts_held(
        &self,
        stage: i64,
        attach: Seq<Vec<usize>>,
        uf: UnionFind,
        t: int,
    ) -> bool {
        forall|u: int| 0 <= u < t ==> self.short_held(stage, uf, (#[trigger] attach[u])@)
    }

    /// Sets only grow: what was held together still is.
    proof fn lemma_held_on(
        &self,
        stage: i64,
        attach: Seq<Vec<usize>>,
        before: UnionFind,
        after: UnionFind,
        t: int,
    )
        requires
            self.wf(),
            forall|i: int, j: int|
                0 <= i < self.conductors@.len() && 0 <= j < self.conductors@.len()
                    && before.same(i, j) ==> #[trigger] after.same(i, j),
            self.links_held(stage, before, self.links@.len() as int),
            self.shorts_held(stage, attach, before, t),
        ensures
            self.links_held(stage, after, self.links@.len() as int),
            self.shorts_held(stage, attach, after, t),
    {
        assert forall|m: int| 0 <= m < self.links@.len() implies self.link_held(
            stage,
            after,
            #[trigger] self.links@[m],
        ) by {
            assert(self.link_held(stage, before, self.links@[m]));
            let (x, y) = self.links@[m];
            assert(self.links@.contains((x, y)));
            assert(self.linked(x as int, y as int));
        }
        assert forall|u: int| 0 <= u < t implies self.short_held(
            stage,
            after,
            (#[trigger] attach[u])@,
        ) by {
            assert(self.short_held(stage, before, attach[u]@));
        }
    }

    /// Join what terminal `t` touches, one with the next.
    fn short(&self, stage: i64, attach: &[Vec<usize>], t: usize, uf: &mut UnionFind)
        requires
            self.wf(),
            self.attach_fits(attach@),
            t < attach@.len(),
            old(uf).wf(),
            old(uf).len() == self.conductors@.len(),
            self.only_joined(stage, attach@, *old(uf)),
            self.links_held(stage, *old(uf), self.links@.len() as int),
            self.shorts_held(stage, attach@, *old(uf), t as int),
        ensures
            final(uf).wf(),
            final(uf).len() == self.conductors@.len(),
            self.only_joined(stage, attach@, *final(uf)),
            self.links_held(stage, *final(uf), self.links@.len() as int),
            self.shorts_held(stage, attach@, *final(uf), t + 1),
    {
        let ghost list = attach@[t as int]@;
        let mut last: Option<usize> = None;
        let mut k: usize = 0;
        while k < attach[t].len()
            invariant
                k <= list.len(),
                t < attach@.len(),
                list == attach@[t as int]@,
                self.wf(),
                self.attach_fits(attach@),
                uf.wf(),
                uf.len() == self.conductors@.len(),
                self.only_joined(stage, attach@, *uf),
                self.links_held(stage, *uf, self.links@.len() as int),
                self.shorts_held(stage, attach@, *uf, t as int),
                match last {
                    Some(p) => list.contains(p) && self.live(stage, p as int),
                    None => true,
                },
                forall|m: int|
                    0 <= m < k && self.live(stage, (#[trigger] list[m]) as int) ==> last is Some
                        && uf.same(list[m] as int, last->0 as int),
            decreases list.len() - k,
        {
            let i = attach[t][k];
            assert(attach@[t as int]@[k as int] < self.conductors@.len());
            assert(list.contains(list[k as int]));
            if self.conductors[i].layer <= stage {
                if let Some(p) = last {
                    let ghost before = *uf;
                    proof {
                        assert(shorted(attach@, p as int, i as int)) by {
                            assert(attach@[t as int]@.contains(p));
                        }
                    }
                    uf.union(p, i);
                    proof {
                        self.lemma_union_sound(stage, attach@, before, *uf, p as int, i as int);
                        self.lemma_held_on(stage, attach@, before, *uf, t as int);
                        assert forall|m: int|
                            0 <= m < k + 1 && self.live(
                                stage,
                                (#[trigger] list[m]) as int,
                            ) implies uf.same(list[m] as int, i as int) by {
                            assert(attach@[t as int]@[m] < self.conductors@.len());
                            if m < k {
                                assert(before.same(list[m] as int, p as int));
                            }
                        }
                    }
                }
                last = Some(i);
            }
            k += 1;
        }
        proof {
            assert(self.short_held(stage, *uf, list)) by {
                assert forall|i: usize, j: usize| #[trigger]
                    list.contains(i) && #[trigger] list.contains(j) && self.live(stage, i as int)
                        && self.live(stage, j as int) implies uf.same(i as int, j as int) by {
                    let a = choose|a: int| 0 <= a < list.len() && list[a] == i;
                    let b = choose|b: int| 0 <= b < list.len() && list[b] == j;
                    assert(uf.same(list[a] as int, last->0 as int));
                    assert(uf.same(list[b] as int, last->0 as int));
                }
            }
        }
    }
}

/// The root of every member, looked up once.
fn roots_of(uf: UnionFind, n: usize) -> (roots: Vec<usize>)
    requires
        uf.wf(),
        uf.len() == n,
    ensures
        roots@.len() == n,
        forall|i: int| 0 <= i < n ==> #[trigger] roots@[i] == uf.root_of(i) && roots@[i] < n,
{
    let mut uf2 = uf;
    let mut roots: Vec<usize> = Vec::new();
    let mut i: usize = 0;
    while i < n
        invariant
            i <= n,
            uf2.wf(),
            uf2.len() == n,
            forall|k: int| 0 <= k < n ==> uf2.root_of(k) == uf.root_of(k),
            roots@.len() == i,
            forall|k: int| 0 <= k < i ==> #[trigger] roots@[k] == uf.root_of(k) && roots@[k] < n,
        decreases n - i,
    {
        let r = uf2.find(i);
        roots.push(r);
        i += 1;
    }
    roots
}

/// Terminals grouped by the root of what they touch: region `r` has root `rt[r]`, and `slot`
/// finds the region of a root.
spec fn grouped(
    g: NetGraph,
    stage: i64,
    attach: Seq<Vec<usize>>,
    roots: Seq<usize>,
    regions: Seq<(Vec<usize>, Collected)>,
    rt: Seq<usize>,
    slot: Seq<Option<usize>>,
    t: int,
) -> bool {
    &&& slots_match(rt, slot, roots.len() as int)
    &&& rt.len() == regions.len()
    &&& forall|r: int|
        #![trigger regions[r]]
        0 <= r < regions.len() ==> regions[r].0@.len() > 0 && rising_terms(regions[r].0@)
    &&& forall|r: int, u: usize|
        0 <= r < regions.len() && #[trigger] regions[r].0@.contains(u) ==> u < t && g.anchored(
            stage,
            attach,
            u as int,
        )
    &&& forall|r: int, u: usize, i: int|
        0 <= r < regions.len() && #[trigger] regions[r].0@.contains(u) && #[trigger] g.anchors(
            stage,
            attach,
            u as int,
            i,
        ) ==> roots[i] == rt[r]
    &&& forall|u: usize|
        u < t && #[trigger] g.anchored(stage, attach, u as int) ==> exists|r: int|
            0 <= r < regions.len() && #[trigger] regions[r].0@.contains(u)
    &&& forall|r: int, s: int|
        #![trigger regions[r], regions[s]]
        0 <= r < s < regions.len() ==> regions[r].0@[0] < regions[s].0@[0]
}

/// `slot` is the inverse of `rt`.
spec fn slots_match(rt: Seq<usize>, slot: Seq<Option<usize>>, n: int) -> bool {
    &&& slot.len() == n
    &&& forall|r: int| 0 <= r < rt.len() ==> (#[trigger] rt[r]) < n && slot[rt[r] as int] == Some(
        r as usize,
    )
    &&& forall|k: int|
        0 <= k < n ==> match #[trigger] slot[k] {
            Some(r) => r < rt.len() && rt[r as int] == k,
            None => true,
        }
}

/// A terminal joins the region of its root.
proof fn lemma_grouped_push(
    g: NetGraph,
    stage: i64,
    attach: Seq<Vec<usize>>,
    roots: Seq<usize>,
    regions: Seq<(Vec<usize>, Collected)>,
    after: Seq<(Vec<usize>, Collected)>,
    rt: Seq<usize>,
    slot: Seq<Option<usize>>,
    t: usize,
    r: int,
)
    requires
        grouped(g, stage, attach, roots, regions, rt, slot, t as int),
        0 <= r < regions.len(),
        g.anchored(stage, attach, t as int),
        forall|i: int| #[trigger] g.anchors(stage, attach, t as int, i) ==> roots[i] == rt[r],
        after.len() == regions.len(),
        forall|s: int| 0 <= s < regions.len() && s != r ==> after[s] == regions[s],
        after[r].0@ == regions[r].0@.push(t),
    ensures
        grouped(g, stage, attach, roots, after, rt, slot, t + 1),
{
    let terms = regions[r].0@;
    assert forall|s: int, u: usize|
        0 <= s < after.len() && #[trigger] after[s].0@.contains(u) implies regions[s].0@.contains(u)
        || s == r && u == t by {
        if s == r {
            let k = choose|k: int| 0 <= k < after[r].0@.len() && after[r].0@[k] == u;
            if k < terms.len() {
                assert(terms[k] == u);
            }
        }
    }
    assert forall|s: int, u: usize|
        0 <= s < regions.len() && #[trigger] regions[s].0@.contains(u) implies after[s].0@.contains(
        u,
    ) by {
        if s == r {
            let k = choose|k: int| 0 <= k < terms.len() && terms[k] == u;
            assert(after[r].0@[k] == u);
        }
    }
    assert(after[r].0@[terms.len() as int] == t);
    assert(after[r].0@.contains(t));
    assert(rising_terms(after[r].0@)) by {
        assert forall|a: int, b: int| 0 <= a < b < after[r].0@.len() implies after[r].0@[a]
            < after[r].0@[b] by {
            if b == terms.len() {
                assert(terms.contains(terms[a]));
            }
        }
    }
    assert forall|s: int|
        #![trigger after[s]]
        0 <= s < after.len() implies after[s].0@.len() > 0 && rising_terms(after[s].0@)
        && after[s].0@[0] == regions[s].0@[0] by {
        assert(regions[s].0@.len() > 0);
    }
    assert forall|u: usize|
        u < t + 1 && #[trigger] g.anchored(stage, attach, u as int) implies exists|s: int|
        0 <= s < after.len() && #[trigger] after[s].0@.contains(u) by {
        if u < t {
            let s = choose|s: int| 0 <= s < regions.len() && #[trigger] regions[s].0@.contains(u);
            assert(after[s].0@.contains(u));
        } else {
            assert(after[r].0@.contains(u));
        }
    }
    assert forall|a: int, b: int|
        #![trigger after[a], after[b]]
        0 <= a < b < after.len() implies after[a].0@[0] < after[b].0@[0] by {
        assert(regions[a].0@[0] < regions[b].0@[0]);
    }
}

/// A terminal with a root not met before opens a region.
proof fn lemma_grouped_open(
    g: NetGraph,
    stage: i64,
    attach: Seq<Vec<usize>>,
    roots: Seq<usize>,
    regions: Seq<(Vec<usize>, Collected)>,
    one: (Vec<usize>, Collected),
    rt: Seq<usize>,
    slot: Seq<Option<usize>>,
    t: usize,
    root: usize,
)
    requires
        grouped(g, stage, attach, roots, regions, rt, slot, t as int),
        g.anchored(stage, attach, t as int),
        forall|i: int| #[trigger] g.anchors(stage, attach, t as int, i) ==> roots[i] == root,
        root < roots.len(),
        slot[root as int] is None,
        one.0@ == seq![t],
        regions.len() < usize::MAX,
    ensures
        grouped(
            g,
            stage,
            attach,
            roots,
            regions.push(one),
            rt.push(root),
            slot.update(root as int, Some(regions.len() as usize)),
            t + 1,
        ),
{
    let after = regions.push(one);
    let rt2 = rt.push(root);
    let n = regions.len() as int;
    let slot2 = slot.update(root as int, Some(n as usize));
    assert(slots_match(rt2, slot2, roots.len() as int)) by {
        assert forall|r: int| 0 <= r < rt2.len() implies (#[trigger] rt2[r]) < roots.len()
            && slot2[rt2[r] as int] == Some(r as usize) by {
            if r < n {
                assert(rt2[r] == rt[r]);
                assert(slot[rt[r] as int] == Some(r as usize));
                assert(rt[r] != root);
            }
        }
        assert forall|k: int| 0 <= k < roots.len() implies match #[trigger] slot2[k] {
            Some(r) => r < rt2.len() && rt2[r as int] == k,
            None => true,
        } by {
            if k != root {
                assert(slot2[k] == slot[k]);
            }
        }
    }
    assert(after[n] == one);
    assert(one.0@[0] == t);
    assert(after[n].0@.contains(t));
    assert forall|s: int, u: usize|
        0 <= s < after.len() && #[trigger] after[s].0@.contains(u) implies s < n
        && regions[s].0@.contains(u) || s == n && u == t by {
        if s < n {
            assert(after[s] == regions[s]);
        }
    }
    assert forall|s: int|
        #![trigger after[s]]
        0 <= s < after.len() implies after[s].0@.len() > 0 && rising_terms(after[s].0@) by {
        if s < n {
            assert(after[s] == regions[s]);
        }
    }
    assert forall|u: usize|
        u < t + 1 && #[trigger] g.anchored(stage, attach, u as int) implies exists|s: int|
        0 <= s < after.len() && #[trigger] after[s].0@.contains(u) by {
        if u < t {
            let s = choose|s: int| 0 <= s < regions.len() && #[trigger] regions[s].0@.contains(u);
            assert(after[s] == regions[s]);
            assert(after[s].0@.contains(u));
        } else {
            assert(after[n].0@.contains(u));
        }
    }
    assert forall|a: int, b: int|
        #![trigger after[a], after[b]]
        0 <= a < b < after.len() implies after[a].0@[0] < after[b].0@[0] by {
        assert(after[a] == regions[a]);
        if b < n {
            assert(after[b] == regions[b]);
        } else {
            assert(regions[a].0@.contains(regions[a].0@[0]));
        }
    }
}

impl NetGraph {
    /// The first conductor of the list that exists at `stage`.
    fn first_live(&self, stage: i64, list: &Vec<usize>) -> (r: Option<usize>)
        requires
            forall|k: int| 0 <= k < list@.len() ==> (#[trigger] list@[k]) < self.conductors@.len(),
        ensures
            match r {
                Some(i) => list@.contains(i) && self.live(stage, i as int),
                None => forall|i: usize| #[trigger] list@.contains(i) ==> !self.live(
                    stage,
                    i as int,
                ),
            },
    {
        let mut k: usize = 0;
        while k < list.len()
            invariant
                k <= list@.len(),
                forall|k: int|
                    0 <= k < list@.len() ==> (#[trigger] list@[k]) < self.conductors@.len(),
                forall|m: int| 0 <= m < k ==> !self.live(stage, (#[trigger] list@[m]) as int),
            decreases list@.len() - k,
        {
            let i = list[k];
            assert(list@.contains(list@[k as int]));
            if self.conductors[i].layer <= stage {
                return Some(i);
            }
            k += 1;
        }
        None
    }

    /// The terminals grouped, before any metal is added up.
    fn group(&self, stage: i64, attach: &[Vec<usize>], roots: &Vec<usize>) -> (r: (
        Vec<(Vec<usize>, Collected)>,
        Vec<Option<usize>>,
        Ghost<Seq<usize>>,
    ))
        requires
            self.attach_fits(attach@),
            self.are_roots(stage, attach@, roots@),
        ensures
            grouped(
                *self,
                stage,
                attach@,
                roots@,
                r.0@,
                r.2@,
                r.1@,
                attach@.len() as int,
            ),
            forall|k: int| 0 <= k < r.0@.len() ==> nothing((#[trigger] r.0@[k]).1),
    {
        let mut regions: Vec<(Vec<usize>, Collected)> = Vec::new();
        let mut slot: Vec<Option<usize>> = Vec::new();
        let ghost mut rt: Seq<usize> = Seq::empty();
        let mut k: usize = 0;
        while k < roots.len()
            invariant
                k <= roots@.len(),
                slot@.len() == k,
                forall|m: int| 0 <= m < k ==> slot@[m] is None,
            decreases roots@.len() - k,
        {
            slot.push(None);
            k += 1;
        }
        let mut t: usize = 0;
        while t < attach.len()
            invariant
                t <= attach@.len(),
                regions@.len() <= t,
                self.attach_fits(attach@),
                self.are_roots(stage, attach@, roots@),
                grouped(*self, stage, attach@, roots@, regions@, rt, slot@, t as int),
                forall|k: int| 0 <= k < regions@.len() ==> nothing((#[trigger] regions@[k]).1),
            decreases attach@.len() - t,
        {
            let ghost before = regions@;
            let first = self.first_live(stage, &attach[t]);
            if let Some(i) = first {
                let root = roots[i];
                proof {
                    assert(self.anchors(stage, attach@, t as int, i as int));
                    assert forall|j: int| #[trigger] self.anchors(
                        stage,
                        attach@,
                        t as int,
                        j,
                    ) implies roots@[j] == root by {
                        self.lemma_same_terminal(stage, attach@, t as int, i as int, j);
                    }
                }
                if let Some(r) = slot[root] {
                    regions[r].0.push(t);
                    proof {
                        assert(rt[r as int] == root);
                        lemma_grouped_push(
                            *self,
                            stage,
                            attach@,
                            roots@,
                            before,
                            regions@,
                            rt,
                            slot@,
                            t,
                            r as int,
                        );
                    }
                } else {
                    let mut terms: Vec<usize> = Vec::new();
                    terms.push(t);
                    let one = (terms, Collected::default());
                    proof {
                        assert(terms@ =~= seq![t]);
                        lemma_grouped_open(
                            *self,
                            stage,
                            attach@,
                            roots@,
                            before,
                            one,
                            rt,
                            slot@,
                            t,
                            root,
                        );
                        rt = rt.push(root);
                    }
                    slot[root] = Some(regions.len());
                    regions.push(one);
                }
            } else {
                proof {
                    assert(!self.anchored(stage, attach@, t as int)) by {
                        assert(self.conductors.len() == self.conductors@.len());
                        assert forall|i: int| !self.anchors(stage, attach@, t as int, i) by {
                            if self.anchors(stage, attach@, t as int, i) {
                                assert(attach@[t as int]@.contains(i as usize));
                            }
                        }
                    }
                }
            }
            t += 1;
        }
        (regions, slot, Ghost(rt))
    }

    /// `roots` names the conductors that are one at `stage` alike, and only those.
    spec fn are_roots(&self, stage: i64, attach: Seq<Vec<usize>>, roots: Seq<usize>) -> bool {
        &&& roots.len() == self.conductors@.len()
        &&& forall|i: int| 0 <= i < roots.len() ==> (#[trigger] roots[i]) < roots.len()
        &&& forall|i: int, j: int|
            #![trigger roots[i], roots[j]]
            0 <= i < roots.len() && 0 <= j < roots.len() ==> (roots[i] == roots[j] <==> self.joined(
                stage,
                attach,
                i,
                j,
            ))
    }

    /// All that one terminal touches is one.
    pub proof fn lemma_same_terminal(
        &self,
        stage: i64,
        attach: Seq<Vec<usize>>,
        t: int,
        i: int,
        j: int,
    )
        requires
            self.anchors(stage, attach, t, i),
            self.anchors(stage, attach, t, j),
        ensures
            self.joined(stage, attach, i, j),
    {
        assert(attach[t]@.contains(i as usize));
        assert(shorted(attach, i, j));
        let step = self.joins(stage, attach);
        assert(step(i, j));
        reach::lemma_reaches_step(step, i, j);
    }
}

/// No metal yet.
spec fn nothing(m: Collected) -> bool {
    m.layer_area == 0 && m.layer_perimeter == 0 && m.cumulative_area == 0 && m.cumulative_perimeter
        == 0
}

/// Sums over members that agree are equal.
pub proof fn lemma_gathered_same(
    cs: Seq<Conductor>,
    n: int,
    a: spec_fn(int) -> bool,
    b: spec_fn(int) -> bool,
    measure: spec_fn(Conductor) -> int,
)
    requires
        n <= cs.len(),
        forall|i: int| 0 <= i < n ==> #[trigger] a(i) == b(i),
    ensures
        gathered(cs, n, a, measure) == gathered(cs, n, b, measure),
    decreases n,
{
    if n > 0 {
        lemma_gathered_same(cs, n - 1, a, b, measure);
        assert(a(n - 1) == b(n - 1));
    }
}

/// Fewer members have no greater sum.
pub proof fn lemma_gathered_less(
    cs: Seq<Conductor>,
    n: int,
    a: spec_fn(int) -> bool,
    b: spec_fn(int) -> bool,
    measure: spec_fn(Conductor) -> int,
)
    requires
        n <= cs.len(),
        forall|i: int| 0 <= i < n && #[trigger] a(i) ==> b(i),
        forall|i: int| 0 <= i < n ==> measure(#[trigger] cs[i]) >= 0,
    ensures
        0 <= gathered(cs, n, a, measure) <= gathered(cs, n, b, measure),
    decreases n,
{
    if n > 0 {
        lemma_gathered_less(cs, n - 1, a, b, measure);
        assert(a(n - 1) ==> b(n - 1));
        assert(measure(cs[n - 1]) >= 0);
    }
}

/// No sum over routing conductors exceeds all routing metal.
proof fn lemma_gathered_bound(cs: Seq<Conductor>, n: int, member: spec_fn(int) -> bool)
    requires
        0 <= n <= cs.len(),
        graph::all_measured(cs),
        forall|i: int| 0 <= i < n && #[trigger] member(i) ==> cs[i].is_routing,
    ensures
        0 <= gathered(cs, n, member, area_of()) <= conductor::routing_area(cs),
        0 <= gathered(cs, n, member, perimeter_of()) <= conductor::routing_perimeter(cs),
    decreases cs.len(),
{
    if cs.len() > 0 {
        let rest = cs.drop_last();
        assert forall|i: int| 0 <= i < rest.len() implies (#[trigger] rest[i]).wf() by {
            assert(rest[i] == cs[i]);
        }
        let m = if n == cs.len() {
            n - 1
        } else {
            n
        };
        assert forall|i: int| 0 <= i < m && #[trigger] member(i) implies rest[i].is_routing by {
            assert(rest[i] == cs[i]);
        }
        lemma_gathered_bound(rest, m, member);
        lemma_gathered_prefix(cs, rest, m, member, area_of());
        lemma_gathered_prefix(cs, rest, m, member, perimeter_of());
        assert(cs[cs.len() - 1].wf());
    }
}

/// A sum reads only the conductors before `n`.
proof fn lemma_gathered_prefix(
    cs: Seq<Conductor>,
    rest: Seq<Conductor>,
    n: int,
    member: spec_fn(int) -> bool,
    measure: spec_fn(Conductor) -> int,
)
    requires
        n <= cs.len(),
        n <= rest.len(),
        forall|i: int| 0 <= i < n ==> cs[i] == rest[i],
    ensures
        gathered(cs, n, member, measure) == gathered(rest, n, member, measure),
    decreases n,
{
    if n > 0 {
        lemma_gathered_prefix(cs, rest, n - 1, member, measure);
    }
}

impl NetGraph {
    /// Routing metal at `stage` with the given root.
    spec fn rooted(&self, stage: i64, roots: Seq<usize>, root: usize) -> spec_fn(int) -> bool {
        |i: int|
            self.live(stage, i) && self.conductors@[i].is_routing && roots[i] == root
    }

    /// The part of it on the layer of the stage.
    spec fn rooted_on(&self, stage: i64, roots: Seq<usize>, root: usize) -> spec_fn(int) -> bool {
        |i: int|
            self.live(stage, i) && self.conductors@[i].is_routing && roots[i] == root
                && self.conductors@[i].layer == stage
    }

    /// `m` is the metal with the given root among the first `n` conductors.
    spec fn summed(
        &self,
        stage: i64,
        roots: Seq<usize>,
        root: usize,
        n: int,
        m: Collected,
    ) -> bool {
        let cs = self.conductors@;
        &&& m.cumulative_area == gathered(cs, n, self.rooted(stage, roots, root), area_of())
        &&& m.cumulative_perimeter == gathered(
            cs,
            n,
            self.rooted(stage, roots, root),
            perimeter_of(),
        )
        &&& m.layer_area == gathered(cs, n, self.rooted_on(stage, roots, root), area_of())
        &&& m.layer_perimeter == gathered(
            cs,
            n,
            self.rooted_on(stage, roots, root),
            perimeter_of(),
        )
    }

    /// Add the metal of one conductor.
    fn with_metal(
        &self,
        stage: i64,
        m: Collected,
        i: usize,
        roots: &Vec<usize>,
        root: Ghost<usize>,
    ) -> (r: Collected)
        requires
            self.wf(),
            self.totals_fit(),
            i < self.conductors@.len(),
            self.live(stage, i as int),
            self.conductors@[i as int].is_routing,
            roots@[i as int] == root@,
            self.summed(stage, roots@, root@, i as int, m),
        ensures
            self.summed(stage, roots@, root@, i + 1, r),
    {
        let c = &self.conductors[i];
        proof {
            let all = self.rooted(stage, roots@, root@);
            let on = self.rooted_on(stage, roots@, root@);
            assert(all(i as int));
            lemma_gathered_bound(self.conductors@, i + 1, all);
            lemma_gathered_bound(self.conductors@, i + 1, on);
        }
        let mut r = m;
        r.cumulative_area = r.cumulative_area + c.area;
        r.cumulative_perimeter = r.cumulative_perimeter + c.perimeter;
        if c.layer == stage {
            r.layer_area = r.layer_area + c.area;
            r.layer_perimeter = r.layer_perimeter + c.perimeter;
        }
        r
    }

    /// A name for every conductor, the same for those that are one at `stage`.
    fn roots_at(&self, stage: i64, attach: &[Vec<usize>]) -> (roots: Vec<usize>)
        requires
            self.wf(),
            self.attach_fits(attach@),
        ensures
            self.are_roots(stage, attach@, roots@),
    {
        let uf = self.merged(stage, attach);
        let roots = roots_of(uf, self.conductors.len());
        proof {
            assert forall|i: int, j: int|
                #![trigger roots@[i], roots@[j]]
                0 <= i < roots@.len() && 0 <= j < roots@.len() implies (roots@[i] == roots@[j]
                <==> self.joined(stage, attach@, i, j)) by {
                assert(uf.same(i, j) <==> self.joined(stage, attach@, i, j));
            }
        }
        roots
    }

    /// Routing metal at `stage` with the given root, on one layer.
    spec fn rooted_layer(
        &self,
        stage: i64,
        roots: Seq<usize>,
        root: usize,
        layer: i64,
    ) -> spec_fn(int) -> bool {
        |i: int|
            self.live(stage, i) && self.conductors@[i].is_routing && roots[i] == root
                && self.conductors@[i].layer == layer
    }

    /// The perimeter of that metal.
    fn rooted_perimeter(&self, stage: i64, roots: &Vec<usize>, root: usize, layer: i64) -> (p: i64)
        requires
            self.wf(),
            self.totals_fit(),
            roots@.len() == self.conductors@.len(),
        ensures
            p == self.total(self.rooted_layer(stage, roots@, root, layer), perimeter_of()),
    {
        let ghost member = self.rooted_layer(stage, roots@, root, layer);
        let mut p: i64 = 0;
        let mut i: usize = 0;
        while i < self.conductors.len()
            invariant
                i <= self.conductors@.len(),
                self.wf(),
                self.totals_fit(),
                roots@.len() == self.conductors@.len(),
                member == self.rooted_layer(stage, roots@, root, layer),
                p == gathered(self.conductors@, i as int, member, perimeter_of()),
            decreases self.conductors@.len() - i,
        {
            let c = &self.conductors[i];
            proof {
                lemma_gathered_bound(self.conductors@, i + 1, member);
            }
            if c.is_routing && c.layer == layer && c.layer <= stage && roots[i] == root {
                assert(member(i as int));
                p = p + c.perimeter;
            } else {
                assert(!member(i as int));
            }
            i += 1;
        }
        p
    }

    /// The perimeters that each region collects, layer by layer.
    pub fn perimeters_at(
        &self,
        stage: i64,
        attach: &[Vec<usize>],
        regions: &[(Vec<usize>, Collected)],
    ) -> (stacks: Vec<Vec<i64>>)
        requires
            self.wf(),
            self.totals_fit(),
            self.attach_fits(attach@),
            self.are_regions(stage, attach@, regions@),
        ensures
            self.are_stacks(stage, attach@, regions@, stacks@),
    {
        let roots = self.roots_at(stage, attach);
        let mut stacks: Vec<Vec<i64>> = Vec::new();
        let mut r: usize = 0;
        while r < regions.len()
            invariant
                r <= regions@.len(),
                stacks@.len() == r,
                self.wf(),
                self.totals_fit(),
                self.attach_fits(attach@),
                self.are_regions(stage, attach@, regions@),
                self.are_roots(stage, attach@, roots@),
                self.are_stacks(stage, attach@, regions@.take(r as int), stacks@),
            decreases regions@.len() - r,
        {
            let ghost held = stacks@;
            let stack = self.stack_of(stage, attach, regions, r, &roots);
            stacks.push(stack);
            proof {
                self.lemma_stack_next(stage, attach@, regions@, held, stack, r as int);
            }
            r += 1;
        }
        assert(regions@.take(r as int) =~= regions@);
        stacks
    }

    /// The perimeters that one region collects, layer by layer.
    fn stack_of(
        &self,
        stage: i64,
        attach: &[Vec<usize>],
        regions: &[(Vec<usize>, Collected)],
        r: usize,
        roots: &Vec<usize>,
    ) -> (stack: Vec<i64>)
        requires
            self.wf(),
            self.totals_fit(),
            self.attach_fits(attach@),
            self.are_regions(stage, attach@, regions@),
            self.are_roots(stage, attach@, roots@),
            r < regions@.len(),
        ensures
            self.is_stack(stage, attach@, regions@[r as int].0@, stack@),
    {
        assert(regions@[r as int].0@.len() > 0);
        let t = regions[r].0[0];
        proof {
            assert(regions@[r as int].0@.contains(t));
            assert(self.anchored(stage, attach@, t as int));
            let i = choose|i: int| self.anchors(stage, attach@, t as int, i);
            assert(self.anchors(stage, attach@, t as int, i));
        }
        let first = self.first_live(stage, &attach[t]);
        let mut stack: Vec<i64> = Vec::new();
        if let Some(a) = first {
            let root = roots[a];
            assert(self.anchors(stage, attach@, t as int, a as int));
            let mut s: usize = 0;
            while s < self.layers.len()
                invariant
                    s <= self.layers@.len(),
                    stack@.len() == s,
                    self.wf(),
                    self.totals_fit(),
                    self.are_roots(stage, attach@, roots@),
                    forall|k: int|
                        0 <= k < s ==> #[trigger] stack@[k] == self.total(
                            self.rooted_layer(stage, roots@, root, self.layers@[k]),
                            perimeter_of(),
                        ),
                decreases self.layers@.len() - s,
            {
                let p = self.rooted_perimeter(stage, roots, root, self.layers[s]);
                stack.push(p);
                s += 1;
            }
            proof {
                assert forall|u: usize, i: int, k: int|
                    #![trigger regions@[r as int].0@.contains(u), self.anchors(stage, attach@, u as int, i),
                        stack@[k]]
                    regions@[r as int].0@.contains(u) && self.anchors(stage, attach@, u as int, i)
                        && 0 <= k < self.layers@.len() implies stack@[k] == self.total(
                    self.collects_layer(stage, attach@, i, self.layers@[k]),
                    perimeter_of(),
                ) by {
                    assert(self.joined(stage, attach@, a as int, i));
                    assert(roots@[a as int] == roots@[i]);
                    let cs = self.conductors@;
                    let mine = self.rooted_layer(stage, roots@, root, self.layers@[k]);
                    let all = self.collects_layer(stage, attach@, i, self.layers@[k]);
                    assert forall|j: int| 0 <= j < cs.len() implies #[trigger] mine(j) == all(j) by {
                        assert(roots@[i] == roots@[j] <==> self.joined(stage, attach@, i, j));
                    }
                    lemma_gathered_same(cs, cs.len() as int, mine, all, perimeter_of());
                }
            }
        } else {
            assert(false) by {
                assert(self.conductors.len() == self.conductors@.len());
                let i = choose|i: int| self.anchors(stage, attach@, t as int, i);
                assert(attach@[t as int]@.contains(i as usize));
            }
        }
        stack
    }

    /// The perimeters that the region of these terminals collects, layer by layer.
    spec fn is_stack(
        &self,
        stage: i64,
        attach: Seq<Vec<usize>>,
        terms: Seq<usize>,
        stack: Seq<i64>,
    ) -> bool {
        &&& stack.len() == self.layers@.len()
        &&& forall|t: usize, i: int, s: int|
            #![trigger terms.contains(t), self.anchors(stage, attach, t as int, i), stack[s]]
            terms.contains(t) && self.anchors(stage, attach, t as int, i) && 0 <= s
                < self.layers@.len() ==> stack[s] == self.total(
                self.collects_layer(stage, attach, i, self.layers@[s]),
                perimeter_of(),
            )
    }

    proof fn lemma_stack_next(
        &self,
        stage: i64,
        attach: Seq<Vec<usize>>,
        regions: Seq<(Vec<usize>, Collected)>,
        held: Seq<Vec<i64>>,
        stack: Vec<i64>,
        r: int,
    )
        requires
            0 <= r < regions.len(),
            self.are_stacks(stage, attach, regions.take(r), held),
            self.is_stack(stage, attach, regions[r].0@, stack@),
        ensures
            self.are_stacks(stage, attach, regions.take(r + 1), held.push(stack)),
    {
        let some = regions.take(r + 1);
        let less = regions.take(r);
        let more = held.push(stack);
        assert forall|q: int, t: usize, i: int, s: int|
            #![trigger some[q].0@.contains(t), self.anchors(stage, attach, t as int, i), more[q]@[s]]
            0 <= q < some.len() && some[q].0@.contains(t) && self.anchors(
                stage,
                attach,
                t as int,
                i,
            ) && 0 <= s < self.layers@.len() implies more[q]@[s] == self.total(
            self.collects_layer(stage, attach, i, self.layers@[s]),
            perimeter_of(),
        ) by {
            if q < r {
                assert(less[q] == some[q]);
                assert(more[q] == held[q]);
                assert(less[q].0@.contains(t));
                assert(held[q]@[s] == more[q]@[s]);
            } else {
                assert(regions[r].0@.contains(t));
                assert(stack@[s] == more[q]@[s]);
            }
        }
        assert forall|q: int| 0 <= q < more.len() implies (#[trigger] more[q])@.len()
            == self.layers@.len() by {
            if q < r {
                assert(more[q] == held[q]);
            }
        }
    }

    /// Group terminals into the conductors they share at `stage`, with each group's metal.
    ///
    /// `attach[t]` is the conductor set terminal `t` touches. A terminal shorts what it touches,
    /// so two fragments meeting at one pin are one conductor from that stage on. Cut layers carry
    /// connection, not antenna metal, and a conductor with no terminal on it collects for nobody.
    pub fn regions_at(&self, stage: i64, attach: &[Vec<usize>]) -> (regions: Vec<
        (Vec<usize>, Collected),
    >)
        requires
            self.wf(),
            self.totals_fit(),
            self.attach_fits(attach@),
        ensures
            self.are_regions(stage, attach@, regions@),
    {
        let roots = self.roots_at(stage, attach);
        let (mut regions, slot, rt) = self.group(stage, attach, &roots);
        let ghost before = regions@;
        assert(regions.len() == before.len());
        let mut i: usize = 0;
        while i < self.conductors.len()
            invariant
                i <= self.conductors@.len(),
                self.wf(),
                self.totals_fit(),
                self.are_roots(stage, attach@, roots@),
                slots_match(rt@, slot@, roots@.len() as int),
                regions@.len() == before.len(),
                before.len() <= usize::MAX,
                rt@.len() == before.len(),
                forall|r: int|
                    #![trigger regions@[r]]
                    0 <= r < regions@.len() ==> regions@[r].0 == before[r].0 && self.summed(
                        stage,
                        roots@,
                        rt@[r],
                        i as int,
                        regions@[r].1,
                    ),
            decreases self.conductors@.len() - i,
        {
            let ghost mid = regions@;
            let ghost mut hit: int = -1;
            if self.conductors[i].is_routing && self.conductors[i].layer <= stage {
                if let Some(r) = slot[roots[i]] {
                    let m = self.with_metal(stage, regions[r].1, i, &roots, Ghost(rt@[r as int]));
                    regions[r].1 = m;
                    proof {
                        hit = r as int;
                    }
                }
            }
            proof {
                assert forall|r: int|
                    #![trigger regions@[r]]
                    0 <= r < regions@.len() implies regions@[r].0 == before[r].0 && self.summed(
                    stage,
                    roots@,
                    rt@[r],
                    i + 1,
                    regions@[r].1,
                ) by {
                    if r != hit {
                        assert(regions@[r] == mid[r]);
                        assert(slot@[rt@[r] as int] == Some(r as usize));
                        let all = self.rooted(stage, roots@, rt@[r]);
                        let on = self.rooted_on(stage, roots@, rt@[r]);
                        assert(!all(i as int));
                        assert(!on(i as int));
                    }
                }
            }
            i += 1;
        }
        proof {
            assert(attach.len() == attach@.len());
            self.lemma_regions(stage, attach@, roots@, before, regions@, rt@, slot@);
        }
        regions
    }

    /// Groups with their sums are the regions.
    proof fn lemma_regions(
        &self,
        stage: i64,
        attach: Seq<Vec<usize>>,
        roots: Seq<usize>,
        before: Seq<(Vec<usize>, Collected)>,
        regions: Seq<(Vec<usize>, Collected)>,
        rt: Seq<usize>,
        slot: Seq<Option<usize>>,
    )
        requires
            self.are_roots(stage, attach, roots),
            self.attach_fits(attach),
            attach.len() <= usize::MAX,
            before.len() <= usize::MAX,
            grouped(*self, stage, attach, roots, before, rt, slot, attach.len() as int),
            regions.len() == before.len(),
            forall|r: int|
                #![trigger regions[r]]
                0 <= r < regions.len() ==> regions[r].0 == before[r].0 && self.summed(
                    stage,
                    roots,
                    rt[r],
                    self.conductors@.len() as int,
                    regions[r].1,
                ),
        ensures
            self.are_regions(stage, attach, regions),
    {
        assert forall|r: int|
            #![trigger regions[r]]
            0 <= r < regions.len() implies regions[r].0@.len() > 0 && rising_terms(regions[r].0@) by {
            assert(before[r].0@.len() > 0);
        }
        assert forall|r: int, t: usize|
            0 <= r < regions.len() && #[trigger] regions[r].0@.contains(t) implies self.anchored(
            stage,
            attach,
            t as int,
        ) by {
            assert(before[r].0@.contains(t));
        }
        assert forall|t: usize| #[trigger]
            self.anchored(stage, attach, t as int) implies exists|r: int|
            0 <= r < regions.len() && #[trigger] regions[r].0@.contains(t) by {
            let i = choose|i: int| self.anchors(stage, attach, t as int, i);
            assert(t < attach.len());
            let r = choose|r: int| 0 <= r < before.len() && #[trigger] before[r].0@.contains(t);
            assert(regions[r].0@.contains(t));
        }
        assert forall|r: int, s: int, t: usize, u: usize, i: int, j: int|
            #![trigger regions[r].0@.contains(t), regions[s].0@.contains(u),
                self.anchors(stage, attach, t as int, i), self.anchors(stage, attach, u as int, j)]
            0 <= r < regions.len() && 0 <= s < regions.len() && regions[r].0@.contains(t)
                && regions[s].0@.contains(u) && self.anchors(stage, attach, t as int, i)
                && self.anchors(stage, attach, u as int, j) implies (r == s <==> self.joined(
            stage,
            attach,
            i,
            j,
        )) by {
            assert(before[r].0@.contains(t));
            assert(before[s].0@.contains(u));
            assert(roots[i] == rt[r]);
            assert(roots[j] == rt[s]);
            assert(slot[rt[r] as int] == Some(r as usize));
            assert(slot[rt[s] as int] == Some(s as usize));
        }
        assert forall|r: int, t: usize, i: int|
            0 <= r < regions.len() && #[trigger] regions[r].0@.contains(t)
                && #[trigger] self.anchors(stage, attach, t as int, i) implies self.is_metal(
            stage,
            attach,
            i,
            regions[r].1,
        ) by {
            assert(before[r].0@.contains(t));
            assert(roots[i] == rt[r]);
            let n = self.conductors@.len() as int;
            let cs = self.conductors@;
            let all = self.rooted(stage, roots, rt[r]);
            let on = self.rooted_on(stage, roots, rt[r]);
            let c_all = self.collects(stage, attach, i);
            let c_on = self.collects_on(stage, attach, i);
            assert forall|k: int| 0 <= k < n implies #[trigger] all(k) == c_all(k) by {
                assert(roots[i] == roots[k] <==> self.joined(stage, attach, i, k));
            }
            assert forall|k: int| 0 <= k < n implies #[trigger] on(k) == c_on(k) by {
                assert(roots[i] == roots[k] <==> self.joined(stage, attach, i, k));
            }
            lemma_gathered_same(cs, n, all, c_all, area_of());
            lemma_gathered_same(cs, n, all, c_all, perimeter_of());
            lemma_gathered_same(cs, n, on, c_on, area_of());
            lemma_gathered_same(cs, n, on, c_on, perimeter_of());
        }
        assert forall|r: int, s: int|
            #![trigger regions[r], regions[s]]
            0 <= r < s < regions.len() implies regions[r].0@[0] < regions[s].0@[0] by {
            assert(before[r].0@[0] < before[s].0@[0]);
        }
    }
}

} // verus!
