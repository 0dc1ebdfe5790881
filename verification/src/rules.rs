//! Antenna limits as a layer states them, and the ratio that each limit is held against.

use crate::scalar;
use crate::scalar::Scalar;
use vstd::prelude::*;

verus! {

/// Which ratio a violation is against. The four are checked independently: a net can pass PAR
/// and fail CAR, which is the whole reason the cumulative form exists.
#[derive(Debug, Clone, Copy, PartialEq, Eq, Structural)]
pub enum Ratio {
    /// Partial area ratio: this layer alone.
    Par,
    /// Cumulative area ratio: this layer and everything below it.
    Car,
    /// Partial side-area ratio.
    Psr,
    /// Cumulative side-area ratio.
    Csr,
}

impl Ratio {
    /// The name a report gives the ratio.
    pub open spec fn name(self) -> Seq<char> {
        match self {
            Ratio::Par => "PAR"@,
            Ratio::Car => "CAR"@,
            Ratio::Psr => "PSR"@,
            Ratio::Csr => "CSR"@,
        }
    }

    /// Whether the ratio is over side area.
    pub open spec fn is_side(self) -> bool {
        self is Psr || self is Csr
    }

    pub fn as_str(self) -> (s: &'static str)
        ensures
            s@ == self.name(),
    {
        match self {
            Ratio::Par => "PAR",
            Ratio::Car => "CAR",
            Ratio::Psr => "PSR",
            Ratio::Csr => "CSR",
        }
    }
}

/// A piecewise-linear antenna limit: points of diffusion area and ratio limit, ascending.
///
/// **No points** means the limit is unset; **one point** is a single constant ratio rather than a
/// curve.
#[derive(Debug, Clone, PartialEq)]
pub struct Pwl<Q>(pub Vec<(Q, Q)>);

/// `x` lies on the segment that starts at point `i`, ends included.
pub open spec fn on_segment<Q: Scalar>(p: Seq<(Q, Q)>, x: Q, i: int) -> bool {
    0 <= i < p.len() - 1 && p[i].0.spec_le(x) && x.spec_le(p[i + 1].0)
}

/// The segment that starts at point `i` is the first that `x` lies on.
pub open spec fn first_segment<Q: Scalar>(p: Seq<(Q, Q)>, x: Q, i: int) -> bool {
    on_segment(p, x, i) && forall|j: int| 0 <= j < i ==> !#[trigger] on_segment(p, x, j)
}

/// Neither less nor greater than zero.
pub open spec fn is_zero<Q: Scalar>(x: Q) -> bool {
    x.spec_le(Q::spec_zero()) && Q::spec_zero().spec_le(x)
}

/// The line through `a` and `b` at `x` between them. Coincident indices are a step, and a step
/// has its left value.
pub open spec fn between<Q: Scalar>(a: (Q, Q), b: (Q, Q), x: Q) -> Q {
    let span = b.0.spec_minus(a.0);
    if is_zero(span) {
        a.1
    } else {
        a.1.spec_plus(b.1.spec_minus(a.1).spec_times(x.spec_minus(a.0)).spec_over(span))
    }
}

/// The line through `a` and `b` at `x` from `b` on. Past a step its right value holds.
pub open spec fn beyond<Q: Scalar>(a: (Q, Q), b: (Q, Q), x: Q) -> Q {
    let span = b.0.spec_minus(a.0);
    if is_zero(span) {
        b.1
    } else {
        b.1.spec_plus(x.spec_minus(b.0).spec_times(b.1.spec_minus(a.1).spec_over(span)))
    }
}

/// The limit that the points `p` state at diffusion area `x`.
pub open spec fn limit_at<Q: Scalar>(p: Seq<(Q, Q)>, x: Q) -> Option<Q> {
    if p.len() == 0 {
        None
    } else if p.len() == 1 || x.spec_le(p[0].0) {
        Some(p[0].1)
    } else if p.last().0.spec_le(x) {
        Some(beyond(p[p.len() - 2], p.last(), x))
    } else if exists|i: int| first_segment(p, x, i) {
        let i = choose|i: int| first_segment(p, x, i);
        Some(between(p[i], p[i + 1], x))
    } else {
        None
    }
}

/// There is one first segment.
proof fn lemma_first_segment<Q: Scalar>(p: Seq<(Q, Q)>, x: Q, i: int, j: int)
    requires
        first_segment(p, x, i),
        first_segment(p, x, j),
    ensures
        i == j,
{
    if i < j {
        assert(!on_segment(p, x, i));
    }
    if j < i {
        assert(!on_segment(p, x, j));
    }
}

fn zero_span<Q: Scalar>(x: Q) -> (b: bool)
    ensures
        b == is_zero(x),
{
    x.le(Q::zero()) && Q::zero().le(x)
}

impl<Q: Scalar> Pwl<Q> {
    pub fn is_empty(&self) -> (b: bool)
        ensures
            b == (self.0@.len() == 0),
    {
        self.0.len() == 0
    }

    /// The limit at diffusion area `x`, or `None` when the curve is unset.
    ///
    /// Up to the first point the first ratio holds. Inside the table the limit is interpolated,
    /// and past the last point it follows the slope of the last segment, as OpenROAD's
    /// `getPwlFactor` has it: a checker that disagrees with the incumbent is not usable as a
    /// cross-check, and real diffusion areas sit far inside the table.
    pub fn eval(&self, x: Q) -> (r: Option<Q>)
        ensures
            r == limit_at(self.0@, x),
    {
        let p = &self.0;
        let n = p.len();
        if n == 0 {
            return None;
        }
        if n == 1 || x.le(p[0].0) {
            return Some(p[0].1);
        }
        if p[n - 1].0.le(x) {
            let a = p[n - 2];
            let b = p[n - 1];
            let span = b.0.minus(a.0);
            if zero_span(span) {
                return Some(b.1);
            }
            let slope = b.1.minus(a.1).over(span);
            return Some(b.1.plus(x.minus(b.0).times(slope)));
        }
        let mut i: usize = 0;
        while i < n - 1
            invariant
                n == p@.len(),
                n >= 2,
                p@ == self.0@,
                i <= n - 1,
                !x.spec_le(p@[0].0),
                !p@.last().0.spec_le(x),
                forall|j: int| 0 <= j < i ==> !#[trigger] on_segment(p@, x, j),
            decreases n - i,
        {
            let a = p[i];
            let b = p[i + 1];
            if a.0.le(x) && x.le(b.0) {
                proof {
                    assert(first_segment(p@, x, i as int));
                    let k = choose|k: int| first_segment(p@, x, k);
                    lemma_first_segment(p@, x, i as int, k);
                }
                let span = b.0.minus(a.0);
                // Coincident indices would divide by zero; the left value is what a step at that
                // point means.
                if zero_span(span) {
                    return Some(a.1);
                }
                return Some(a.1.plus(b.1.minus(a.1).times(x.minus(a.0)).over(span)));
            }
            assert(!on_segment(p@, x, i as int));
            i += 1;
        }
        None
    }
}

/// One layer's antenna limits, in both the forms LEF can state them, with the factors that scale
/// the metal held against them.
///
/// A plain limit of zero means the LEF declares none for that ratio, **not** a limit of zero,
/// which would fail every net carrying any metal at all. That distinction is the difference
/// between a checker and a nuisance, so it lives in one place: [`LayerRules::exceeds`].
#[derive(Debug, Clone, PartialEq)]
pub struct LayerRules<Q> {
    /// Whether the layer states any *plain* ratio.
    pub valid: bool,
    pub par: Q,
    pub car: Q,
    pub psr: Q,
    pub csr: Q,
    /// Diffusion-dependent forms. On sky130 these are the only limits stated.
    pub diff_par: Pwl<Q>,
    pub diff_car: Pwl<Q>,
    pub diff_psr: Pwl<Q>,
    pub diff_csr: Pwl<Q>,
    /// What metal area is multiplied by, without and with diffusion.
    pub metal_factor: Q,
    pub diff_metal_factor: Q,
    /// What side area is multiplied by, without and with diffusion.
    pub side_metal_factor: Q,
    pub diff_side_metal_factor: Q,
    /// What each unit of diffusion takes off the metal.
    pub minus_diff_factor: Q,
    /// What each unit of diffusion adds to gate area.
    pub plus_diff_factor: Q,
    /// What metal is reduced to by diffusion; unset, it is not reduced.
    pub area_diff_reduce: Pwl<Q>,
}

impl<Q: Scalar> LayerRules<Q> {
    /// The plain limit of a ratio.
    pub open spec fn plain(&self, ratio: Ratio) -> Q {
        match ratio {
            Ratio::Par => self.par,
            Ratio::Car => self.car,
            Ratio::Psr => self.psr,
            Ratio::Csr => self.csr,
        }
    }

    /// The points of the diffusion-dependent limit of a ratio.
    pub open spec fn curve(&self, ratio: Ratio) -> Seq<(Q, Q)> {
        match ratio {
            Ratio::Par => self.diff_par.0@,
            Ratio::Car => self.diff_car.0@,
            Ratio::Psr => self.diff_psr.0@,
            Ratio::Csr => self.diff_csr.0@,
        }
    }

    /// The limit of a ratio at a diffusion area: the curve's, and the plain one without it.
    pub open spec fn limit_for(&self, ratio: Ratio, diff: Q) -> Q {
        match limit_at(self.curve(ratio), diff) {
            Some(l) => l,
            None => self.plain(ratio),
        }
    }

    /// What the metal is multiplied by on a conductor without diffusion.
    pub open spec fn bare_factor(&self, ratio: Ratio) -> Q {
        if ratio.is_side() {
            self.side_metal_factor
        } else {
            self.metal_factor
        }
    }

    /// What the metal is multiplied by on a conductor with diffusion.
    pub open spec fn diff_factor(&self, ratio: Ratio) -> Q {
        if ratio.is_side() {
            self.diff_side_metal_factor
        } else {
            self.diff_metal_factor
        }
    }

    /// What is left of the metal at a diffusion area.
    pub open spec fn reduced(&self, diff: Q) -> Q {
        match limit_at(self.area_diff_reduce.0@, diff) {
            Some(f) => f,
            None => Q::spec_one(),
        }
    }

    /// The ratio of `area` on a conductor with gate area `gate` and diffusion area `diff`.
    /// Diffusion relieves twice: it is taken off the metal and added to gate area.
    pub open spec fn ratio_value(&self, ratio: Ratio, area: Q, gate: Q, diff: Q) -> Q {
        if scalar::positive(diff) {
            self.diff_factor(ratio).spec_times(area).spec_times(self.reduced(diff)).spec_minus(
                self.minus_diff_factor.spec_times(diff),
            ).spec_over(gate.spec_plus(self.plus_diff_factor.spec_times(diff)))
        } else {
            self.bare_factor(ratio).spec_times(area).spec_over(gate)
        }
    }

    /// The limit that ratio is held against. Without diffusion a stated plain ratio goes before
    /// the curve.
    pub open spec fn ratio_limit(&self, ratio: Ratio, diff: Q) -> Q {
        if !scalar::positive(diff) && scalar::positive(self.plain(ratio)) {
            self.plain(ratio)
        } else {
            self.limit_for(ratio, diff)
        }
    }

    /// Whether the layer states any limit, in either form.
    pub open spec fn states_limit(&self) -> bool {
        self.valid || exists|ratio: Ratio| (#[trigger] self.curve(ratio)).len() > 0
    }

    /// No limit in either form, no diffusion effect, and factors of one.
    pub open spec fn states_nothing(&self) -> bool {
        &&& !self.valid
        &&& self.par == Q::spec_zero() && self.car == Q::spec_zero()
        &&& self.psr == Q::spec_zero() && self.csr == Q::spec_zero()
        &&& self.diff_par.0@.len() == 0 && self.diff_car.0@.len() == 0
        &&& self.diff_psr.0@.len() == 0 && self.diff_csr.0@.len() == 0
        &&& self.metal_factor == Q::spec_one() && self.diff_metal_factor == Q::spec_one()
        &&& self.side_metal_factor == Q::spec_one() && self.diff_side_metal_factor == Q::spec_one()
        &&& self.minus_diff_factor == Q::spec_zero() && self.plus_diff_factor == Q::spec_zero()
        &&& self.area_diff_reduce.0@.len() == 0
    }

    /// The ratio of `area` to `gate`, if it exceeds `limit` and both limit and gate area count.
    pub open spec fn excess(limit: Q, area: Q, gate: Q) -> Option<Q> {
        if !limit.spec_le(Q::spec_zero()) && !gate.spec_le(Q::spec_zero()) && limit.spec_lt(
            area.spec_over(gate),
        ) {
            Some(area.spec_over(gate))
        } else {
            None
        }
    }

    /// `Some` of the ratio when `area / gate` exceeds `limit`; `None` when it passes, when the
    /// limit is undeclared, or when gate area is not positive.
    pub fn exceeds(limit: Q, area_um2: Q, gate_area_um2: Q) -> (r: Option<Q>)
        ensures
            r == Self::excess(limit, area_um2, gate_area_um2),
    {
        if limit.le(Q::zero()) || gate_area_um2.le(Q::zero()) {
            return None;
        }
        let value = area_um2.over(gate_area_um2);
        if limit.lt(value) {
            Some(value)
        } else {
            None
        }
    }

    /// The limit for one ratio at a given diffusion area.
    ///
    /// The diffusion-dependent curve **wins when the technology states one**, because that is
    /// the limit the foundry characterised for a net carrying that much diffusion; the plain
    /// ratio is the fallback for technologies that state only it. Zero when neither exists,
    /// which [`LayerRules::exceeds`] reads as "no limit declared".
    pub fn limit(&self, ratio: Ratio, diff_area_um2: Q) -> (l: Q)
        ensures
            l == self.limit_for(ratio, diff_area_um2),
    {
        let (at, plain) = match ratio {
            Ratio::Par => (self.diff_par.eval(diff_area_um2), self.par),
            Ratio::Car => (self.diff_car.eval(diff_area_um2), self.car),
            Ratio::Psr => (self.diff_psr.eval(diff_area_um2), self.psr),
            Ratio::Csr => (self.diff_csr.eval(diff_area_um2), self.csr),
        };
        match at {
            Some(l) => l,
            None => plain,
        }
    }

    /// The ratio of one conductor's metal and the limit it is held against, by OpenROAD's
    /// `calculateWirePar`.
    pub fn evaluate(&self, ratio: Ratio, area_um2: Q, gate_area_um2: Q, diff_area_um2: Q) -> (r: (
        Q,
        Q,
    ))
        ensures
            r.0 == self.ratio_value(ratio, area_um2, gate_area_um2, diff_area_um2),
            r.1 == self.ratio_limit(ratio, diff_area_um2),
    {
        let side = match ratio {
            Ratio::Par => false,
            Ratio::Car => false,
            Ratio::Psr => true,
            Ratio::Csr => true,
        };
        if Q::zero().lt(diff_area_um2) {
            let factor = if side {
                self.diff_side_metal_factor
            } else {
                self.diff_metal_factor
            };
            let reduce = match self.area_diff_reduce.eval(diff_area_um2) {
                Some(f) => f,
                None => Q::one(),
            };
            let metal = factor.times(area_um2).times(reduce).minus(
                self.minus_diff_factor.times(diff_area_um2),
            );
            let gate = gate_area_um2.plus(self.plus_diff_factor.times(diff_area_um2));
            return (metal.over(gate), self.limit(ratio, diff_area_um2));
        }
        let factor = if side {
            self.side_metal_factor
        } else {
            self.metal_factor
        };
        let plain = match ratio {
            Ratio::Par => self.par,
            Ratio::Car => self.car,
            Ratio::Psr => self.psr,
            Ratio::Csr => self.csr,
        };
        let limit = if Q::zero().lt(plain) {
            plain
        } else {
            self.limit(ratio, diff_area_um2)
        };
        (factor.times(area_um2).over(gate_area_um2), limit)
    }

    /// Whether this layer states any usable antenna limit, in either form. Tells a genuinely
    /// clean design from one the technology gave nothing to check.
    pub fn has_any_limit(&self) -> (b: bool)
        ensures
            b == self.states_limit(),
    {
        let b = self.valid || !self.diff_par.is_empty() || !self.diff_car.is_empty()
            || !self.diff_psr.is_empty() || !self.diff_csr.is_empty();
        proof {
            if b && !self.valid {
                assert(self.curve(Ratio::Par).len() > 0 || self.curve(Ratio::Car).len() > 0
                    || self.curve(Ratio::Psr).len() > 0 || self.curve(Ratio::Csr).len() > 0);
            }
        }
        b
    }
}

/// A layer that states nothing: no limit in either form, and factors that leave the ratio as it
/// is.
impl<Q: Scalar> Default for LayerRules<Q> {
    fn default() -> (r: LayerRules<Q>)
        ensures
            !r.valid,
            forall|ratio: Ratio| #[trigger] r.plain(ratio) == Q::spec_zero(),
            forall|ratio: Ratio| #[trigger] r.curve(ratio) == Seq::<(Q, Q)>::empty(),
            forall|ratio: Ratio| #[trigger] r.bare_factor(ratio) == Q::spec_one(),
            forall|ratio: Ratio| #[trigger] r.diff_factor(ratio) == Q::spec_one(),
            r.minus_diff_factor == Q::spec_zero(),
            r.plus_diff_factor == Q::spec_zero(),
            r.area_diff_reduce.0@ == Seq::<(Q, Q)>::empty(),
            r.states_nothing(),
    {
        LayerRules {
            valid: false,
            par: Q::zero(),
            car: Q::zero(),
            psr: Q::zero(),
            csr: Q::zero(),
            diff_par: Pwl(Vec::new()),
            diff_car: Pwl(Vec::new()),
            diff_psr: Pwl(Vec::new()),
            diff_csr: Pwl(Vec::new()),
            metal_factor: Q::one(),
            diff_metal_factor: Q::one(),
            side_metal_factor: Q::one(),
            diff_side_metal_factor: Q::one(),
            minus_diff_factor: Q::zero(),
            plus_diff_factor: Q::zero(),
            area_diff_reduce: Pwl(Vec::new()),
        }
    }
}

/// Layer names with their rules. What was stated last of a name holds.
#[derive(Debug, Clone)]
pub struct RuleTable<Q> {
    pub entries: Vec<(String, LayerRules<Q>)>,
}

/// What the entries have for `name`.
pub open spec fn entry_for<Q>(
    entries: Seq<(String, LayerRules<Q>)>,
    name: Seq<char>,
) -> Option<LayerRules<Q>>
    decreases entries.len(),
{
    if entries.len() == 0 {
        None
    } else if entries.last().0@ == name {
        Some(entries.last().1)
    } else {
        entry_for(entries.drop_last(), name)
    }
}

impl<Q: Scalar> RuleTable<Q> {
    /// The rules of the layer, if the table has any.
    pub open spec fn rules_of(&self, layer: Seq<char>) -> Option<LayerRules<Q>> {
        entry_for(self.entries@, layer)
    }

    /// A table without layers.
    pub fn new() -> (t: RuleTable<Q>)
        ensures
            forall|name: Seq<char>| #[trigger] t.rules_of(name) is None,
    {
        RuleTable { entries: Vec::new() }
    }

    /// State the rules of one layer.
    pub fn insert(&mut self, layer: String, rules: LayerRules<Q>)
        ensures
            forall|name: Seq<char>| #[trigger]
                final(self).rules_of(name) == (if name == layer@ {
                    Some(rules)
                } else {
                    old(self).rules_of(name)
                }),
    {
        let ghost before = self.entries@;
        self.entries.push((layer, rules));
        assert(self.entries@.drop_last() =~= before);
    }

    /// Look the rules of a layer up.
    pub fn get(&self, layer: &String) -> (r: Option<&LayerRules<Q>>)
        ensures
            match r {
                Some(x) => self.rules_of(layer@) == Some(*x),
                None => self.rules_of(layer@) is None,
            },
    {
        let mut k: usize = self.entries.len();
        assert(self.entries@.take(k as int) =~= self.entries@);
        while k > 0
            invariant
                k <= self.entries@.len(),
                self.rules_of(layer@) == entry_for(self.entries@.take(k as int), layer@),
            decreases k,
        {
            k -= 1;
            assert(self.entries@.take(k + 1).drop_last() =~= self.entries@.take(k as int));
            if self.entries[k].0 == *layer {
                return Some(&self.entries[k].1);
            }
        }
        None
    }
}

} // verus!
