//! Which conductors a pin's own metal touches.

use crate::conductor::Conductor;
use crate::conductor::LayerBox;
use vstd::prelude::*;

verus! {

/// How many steps of the layer stack lie between two layers.
pub open spec fn layer_gap(a: i64, b: i64) -> int {
    if a < b {
        b - a
    } else {
        a - b
    }
}

pub fn layer_distance(a: i64, b: i64) -> (r: u64)
    ensures
        r == layer_gap(a, b),
{
    if a < b {
        (b as i128 - a as i128) as u64
    } else {
        (a as i128 - b as i128) as u64
    }
}

/// Whether the pin box reaches the conductor: on its layer or one step either way, and within one
/// unit of its metal.
pub open spec fn pin_meets(c: Conductor, pin: LayerBox) -> bool {
    layer_gap(c.layer, pin.layer) <= 1 && c.meets(pin.rect(), 1)
}

/// `k` is the first of the pin boxes that reaches the conductor.
pub open spec fn first_meets(c: Conductor, pins: Seq<LayerBox>, k: int) -> bool {
    &&& 0 <= k < pins.len()
    &&& pin_meets(c, pins[k])
    &&& forall|j: int| 0 <= j < k ==> !pin_meets(c, #[trigger] pins[j])
}

/// The conductors that the pin boxes reach, in the order in which the boxes find them.
pub fn touched(conductors: &Vec<Conductor>, pin_boxes: &[LayerBox]) -> (hits: Vec<usize>)
    ensures
        hits@.no_duplicates(),
        forall|a: int| 0 <= a < hits@.len() ==> (#[trigger] hits@[a]) < conductors@.len(),
        forall|i: usize|
            i < conductors@.len() ==> (#[trigger] hits@.contains(i) <==> exists|k: int|
                0 <= k < pin_boxes@.len() && pin_meets(
                    conductors@[i as int],
                    #[trigger] pin_boxes@[k],
                )),
        forall|a: int, b: int, ka: int, kb: int|
            0 <= a < b < hits@.len() && #[trigger] first_meets(
                conductors@[hits@[a] as int],
                pin_boxes@,
                ka,
            ) && #[trigger] first_meets(conductors@[hits@[b] as int], pin_boxes@, kb)
                ==> ka < kb || ka == kb && hits@[a] < hits@[b],
{
    let mut hits: Vec<usize> = Vec::new();
    let ghost mut at: Seq<int> = Seq::empty();
    let ghost cs = conductors@;
    let mut k: usize = 0;
    while k < pin_boxes.len()
        invariant
            k <= pin_boxes@.len(),
            cs == conductors@,
            found_to(cs, pin_boxes@, hits@, at, k as int, 0),
        decreases pin_boxes@.len() - k,
    {
        let pb = pin_boxes[k];
        let mut i: usize = 0;
        while i < conductors.len()
            invariant
                i <= conductors@.len(),
                k < pin_boxes@.len(),
                pb == pin_boxes@[k as int],
                cs == conductors@,
                found_to(cs, pin_boxes@, hits@, at, k as int, i as int),
            decreases conductors@.len() - i,
        {
            let c = &conductors[i];
            let reached = layer_distance(c.layer, pb.layer) <= 1 && c.touches_rect(
                (pb.x0, pb.y0, pb.x1, pb.y1),
                1,
            );
            if reached && !holds(&hits, i) {
                let ghost h = hits@;
                let ghost t = at;
                hits.push(i);
                proof {
                    at = at.push(k as int);
                    lemma_found_push(cs, pin_boxes@, h, t, k as int, i);
                }
            } else {
                proof {
                    lemma_found_skip(cs, pin_boxes@, hits@, at, k as int, i);
                }
            }
            i += 1;
        }
        proof {
            lemma_found_next(cs, pin_boxes@, hits@, at, k as int);
        }
        k += 1;
    }
    proof {
        lemma_found_all(cs, pin_boxes@, hits@, at);
    }
    hits
}

/// Whether `x` is in the list.
fn holds(v: &Vec<usize>, x: usize) -> (b: bool)
    ensures
        b == v@.contains(x),
{
    let mut k: usize = 0;
    while k < v.len()
        invariant
            k <= v@.len(),
            forall|a: int| 0 <= a < k ==> v@[a] != x,
        decreases v@.len() - k,
    {
        if v[k] == x {
            assert(v@[k as int] == x);
            return true;
        }
        k += 1;
    }
    false
}

/// The search has gone through all pairs of box and conductor before `(k, i)`; `at` says which
/// box found each hit.
spec fn found_to(
    cs: Seq<Conductor>,
    pins: Seq<LayerBox>,
    hits: Seq<usize>,
    at: Seq<int>,
    k: int,
    i: int,
) -> bool {
    &&& at.len() == hits.len()
    &&& hits.no_duplicates()
    &&& forall|a: int|
        0 <= a < hits.len() ==> {
            let h = #[trigger] hits[a];
            &&& h < cs.len()
            &&& first_meets(cs[h as int], pins, at[a])
            &&& at[a] < k || at[a] == k && h < i
        }
    &&& forall|a: int, b: int|
        #![trigger at[a], at[b]]
        0 <= a < b < hits.len() ==> at[a] < at[b] || at[a] == at[b] && hits[a] < hits[b]
    &&& none_missed(cs, pins, hits, k, i)
}

spec fn none_missed(
    cs: Seq<Conductor>,
    pins: Seq<LayerBox>,
    hits: Seq<usize>,
    k: int,
    i: int,
) -> bool {
    forall|c: usize, j: int|
        c < cs.len() && 0 <= j < pins.len() && (j < k || j == k && c < i) && pin_meets(
            cs[c as int],
            #[trigger] pins[j],
        ) ==> #[trigger] hits.contains(c)
}

proof fn lemma_found_push(
    cs: Seq<Conductor>,
    pins: Seq<LayerBox>,
    hits: Seq<usize>,
    at: Seq<int>,
    k: int,
    i: usize,
)
    requires
        found_to(cs, pins, hits, at, k, i as int),
        i < cs.len(),
        0 <= k < pins.len(),
        pin_meets(cs[i as int], pins[k]),
        !hits.contains(i),
    ensures
        found_to(cs, pins, hits.push(i), at.push(k), k, i + 1),
{
    let h2 = hits.push(i);
    let at2 = at.push(k);
    assert(h2[hits.len() as int] == i);
    assert(first_meets(cs[i as int], pins, k)) by {
        assert forall|j: int| 0 <= j < k implies !pin_meets(cs[i as int], #[trigger] pins[j]) by {
            if pin_meets(cs[i as int], pins[j]) {
                assert(hits.contains(i));
            }
        }
    }
    assert(h2.no_duplicates()) by {
        assert forall|a: int, b: int|
            0 <= a < h2.len() && 0 <= b < h2.len() && a != b implies h2[a] != h2[b] by {
            if a < hits.len() && b < hits.len() {
                assert(hits[a] != hits[b]);
            } else if a < hits.len() {
                assert(hits.contains(hits[a]));
            } else {
                assert(hits.contains(hits[b]));
            }
        }
    }
    assert forall|a: int| 0 <= a < h2.len() implies {
        let h = #[trigger] h2[a];
        &&& h < cs.len()
        &&& first_meets(cs[h as int], pins, at2[a])
        &&& at2[a] < k || at2[a] == k && h < i + 1
    } by {
        if a < hits.len() {
            assert(h2[a] == hits[a]);
        }
    }
    assert forall|a: int, b: int|
        #![trigger at2[a], at2[b]]
        0 <= a < b < h2.len() implies at2[a] < at2[b] || at2[a] == at2[b] && h2[a] < h2[b] by {
        assert(h2[a] == hits[a]);
        if b < hits.len() {
            assert(h2[b] == hits[b]);
        }
    }
    assert(none_missed(cs, pins, h2, k, i + 1)) by {
        assert forall|c: usize, j: int|
            c < cs.len() && 0 <= j < pins.len() && (j < k || j == k && c < i + 1) && pin_meets(
                cs[c as int],
                #[trigger] pins[j],
            ) implies #[trigger] h2.contains(c) by {
            if c != i {
                assert(hits.contains(c));
                let a = choose|a: int| 0 <= a < hits.len() && hits[a] == c;
                assert(h2[a] == c);
            }
        }
    }
}

proof fn lemma_found_skip(
    cs: Seq<Conductor>,
    pins: Seq<LayerBox>,
    hits: Seq<usize>,
    at: Seq<int>,
    k: int,
    i: usize,
)
    requires
        found_to(cs, pins, hits, at, k, i as int),
        i < cs.len(),
        0 <= k < pins.len(),
        pin_meets(cs[i as int], pins[k]) ==> hits.contains(i),
    ensures
        found_to(cs, pins, hits, at, k, i + 1),
{
    assert(none_missed(cs, pins, hits, k, i + 1)) by {
        assert forall|c: usize, j: int|
            c < cs.len() && 0 <= j < pins.len() && (j < k || j == k && c < i + 1) && pin_meets(
                cs[c as int],
                #[trigger] pins[j],
            ) implies #[trigger] hits.contains(c) by {}
    }
}

proof fn lemma_found_next(
    cs: Seq<Conductor>,
    pins: Seq<LayerBox>,
    hits: Seq<usize>,
    at: Seq<int>,
    k: int,
)
    requires
        found_to(cs, pins, hits, at, k, cs.len() as int),
    ensures
        found_to(cs, pins, hits, at, k + 1, 0),
{
    assert(none_missed(cs, pins, hits, k + 1, 0)) by {
        assert forall|c: usize, j: int|
            c < cs.len() && 0 <= j < pins.len() && (j < k + 1 || j == k + 1 && c < 0) && pin_meets(
                cs[c as int],
                #[trigger] pins[j],
            ) implies #[trigger] hits.contains(c) by {}
    }
}

proof fn lemma_found_all(
    cs: Seq<Conductor>,
    pins: Seq<LayerBox>,
    hits: Seq<usize>,
    at: Seq<int>,
)
    requires
        found_to(cs, pins, hits, at, pins.len() as int, 0),
    ensures
        forall|i: usize|
            i < cs.len() ==> (#[trigger] hits.contains(i) <==> exists|k: int|
                0 <= k < pins.len() && pin_meets(cs[i as int], #[trigger] pins[k])),
        forall|a: int, b: int, ka: int, kb: int|
            0 <= a < b < hits.len() && #[trigger] first_meets(cs[hits[a] as int], pins, ka)
                && #[trigger] first_meets(cs[hits[b] as int], pins, kb) ==> ka < kb || ka == kb
                && hits[a] < hits[b],
{
    assert forall|i: usize| i < cs.len() implies (#[trigger] hits.contains(i) <==> exists|k: int|
        0 <= k < pins.len() && pin_meets(cs[i as int], #[trigger] pins[k])) by {
        if hits.contains(i) {
            let a = choose|a: int| 0 <= a < hits.len() && hits[a] == i;
            assert(first_meets(cs[hits[a] as int], pins, at[a]));
            assert(pin_meets(cs[i as int], pins[at[a]]));
        }
    }
    assert forall|a: int, b: int, ka: int, kb: int|
        0 <= a < b < hits.len() && #[trigger] first_meets(cs[hits[a] as int], pins, ka)
            && #[trigger] first_meets(cs[hits[b] as int], pins, kb) implies ka < kb || ka == kb
        && hits[a] < hits[b] by {
        lemma_first_once(cs[hits[a] as int], pins, ka, at[a]);
        lemma_first_once(cs[hits[b] as int], pins, kb, at[b]);
    }
}

/// There is one first.
proof fn lemma_first_once(c: Conductor, pins: Seq<LayerBox>, a: int, b: int)
    requires
        first_meets(c, pins, a),
        first_meets(c, pins, b),
    ensures
        a == b,
{
    if a < b {
        assert(!pin_meets(c, pins[a]));
    }
    if b < a {
        assert(!pin_meets(c, pins[b]));
    }
}

} // verus!
