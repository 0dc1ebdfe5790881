//! Text: the order in which a report lists layer names, and the parts of a terminal's name.

use vstd::prelude::*;
use vstd::string::*;

verus! {

/// The two agree before `k`.
pub open spec fn agree(a: Seq<char>, b: Seq<char>, k: int) -> bool {
    &&& 0 <= k <= a.len()
    &&& k <= b.len()
    &&& forall|j: int| 0 <= j < k ==> a[j] == b[j]
}

/// They part at `k`, where `a` ends or has the smaller character.
pub open spec fn parts_at(a: Seq<char>, b: Seq<char>, k: int) -> bool {
    agree(a, b, k) && k < b.len() && (k == a.len() || a[k] < b[k])
}

/// `a` comes before `b` in the order of a dictionary.
pub open spec fn text_less(a: Seq<char>, b: Seq<char>) -> bool {
    exists|k: int| parts_at(a, b, k)
}

/// In order, each once.
pub open spec fn in_text_order(v: Seq<String>) -> bool {
    forall|a: int, b: int| 0 <= a < b < v.len() ==> text_less(#[trigger] v[a]@, #[trigger] v[b]@)
}

proof fn lemma_text_trans(a: Seq<char>, b: Seq<char>, c: Seq<char>)
    requires
        text_less(a, b),
        text_less(b, c),
    ensures
        text_less(a, c),
{
    let j = choose|k: int| parts_at(a, b, k);
    let k = choose|k: int| parts_at(b, c, k);
    if j < k {
        assert(parts_at(a, c, j));
    } else {
        assert(parts_at(a, c, k));
    }
}

/// Whether `a` comes before `b`; if neither comes before the other they are equal.
fn compare(a: &String, b: &String) -> (r: (bool, bool))
    ensures
        r.0 ==> text_less(a@, b@),
        r.1 ==> text_less(b@, a@),
        !r.0 && !r.1 ==> a@ == b@,
        !(r.0 && r.1),
{
    let m: usize = a.as_str().unicode_len();
    let n: usize = b.as_str().unicode_len();
    let mut k: usize = 0;
    while k < m && k < n
        invariant
            m == a@.len(),
            n == b@.len(),
            agree(a@, b@, k as int),
        decreases m - k,
    {
        let x = a.as_str().get_char(k);
        let y = b.as_str().get_char(k);
        if x < y {
            assert(parts_at(a@, b@, k as int));
            return (true, false);
        }
        if y < x {
            assert(parts_at(b@, a@, k as int));
            return (false, true);
        }
        k += 1;
    }
    if k < n {
        assert(parts_at(a@, b@, k as int));
        return (true, false);
    }
    if k < m {
        assert(parts_at(b@, a@, k as int));
        return (false, true);
    }
    assert(a@ =~= b@);
    (false, false)
}

/// Put a name where it belongs, unless it is there.
pub fn insert_name(v: &mut Vec<String>, name: &String)
    requires
        in_text_order(old(v)@),
    ensures
        in_text_order(final(v)@),
        forall|x: Seq<char>| #[trigger]
            lists(final(v)@, x) <==> lists(old(v)@, x) || x == name@,
{
    let ghost before = v@;
    let mut i: usize = 0;
    while i < v.len()
        invariant
            v@ == before,
            before == old(v)@,
            i <= v@.len(),
            in_text_order(before),
            forall|a: int| 0 <= a < i ==> text_less(#[trigger] before[a]@, name@),
        decreases v@.len() - i,
    {
        let (less, more) = compare(&v[i], name);
        if !less {
            if !more {
                assert(before[i as int]@ == name@);
                assert(lists(before, name@));
                return;
            }
            v.insert(i, name.clone());
            proof {
                lemma_inserted(before, v@, i as int, name@);
            }
            return;
        }
        i += 1;
    }
    v.push(name.clone());
    proof {
        assert(v@ =~= before.insert(i as int, v@[i as int]));
        lemma_inserted(before, v@, i as int, name@);
    }
}

/// Whether the text is one of the names.
pub open spec fn lists(v: Seq<String>, x: Seq<char>) -> bool {
    exists|k: int| 0 <= k < v.len() && (#[trigger] v[k])@ == x
}

proof fn lemma_inserted(before: Seq<String>, after: Seq<String>, i: int, name: Seq<char>)
    requires
        0 <= i <= before.len(),
        in_text_order(before),
        after.len() == before.len() + 1,
        after[i]@ == name,
        after == before.insert(i, after[i]),
        forall|a: int| 0 <= a < i ==> text_less(#[trigger] before[a]@, name),
        i < before.len() ==> text_less(name, before[i]@),
    ensures
        in_text_order(after),
        forall|x: Seq<char>| #[trigger] lists(after, x) <==> lists(before, x) || x == name,
{
    assert forall|a: int, b: int| 0 <= a < b < after.len() implies text_less(
        #[trigger] after[a]@,
        #[trigger] after[b]@,
    ) by {
        if b < i {
            assert(text_less(before[a]@, before[b]@));
        } else if b == i {
            assert(text_less(before[a]@, name));
        } else if a < i {
            assert(text_less(before[a]@, before[b - 1]@));
        } else if a == i {
            if b - 1 > i {
                assert(text_less(before[i]@, before[b - 1]@));
                lemma_text_trans(name, before[i]@, before[b - 1]@);
            }
        } else {
            assert(text_less(before[a - 1]@, before[b - 1]@));
        }
    }
    assert forall|x: Seq<char>| #[trigger] lists(after, x) <==> lists(before, x) || x == name by {
        if lists(after, x) {
            let k = choose|k: int| 0 <= k < after.len() && (#[trigger] after[k])@ == x;
            if k < i {
                assert(before[k]@ == x);
            } else if k > i {
                assert(before[k - 1]@ == x);
            }
        }
        if lists(before, x) {
            let k = choose|k: int| 0 <= k < before.len() && (#[trigger] before[k])@ == x;
            if k < i {
                assert(after[k]@ == x);
            } else {
                assert(after[k + 1]@ == x);
            }
        }
        if x == name {
            assert(after[i]@ == x);
        }
    }
}

/// `inst` and `pin` are the parts of `name`, and the pin has no slash of its own.
pub open spec fn splits(name: Seq<char>, inst: Seq<char>, pin: Seq<char>) -> bool {
    name == inst + seq!['/'] + pin && !pin.contains('/')
}

/// The instance and the pin of a terminal named `inst/pin`.
///
/// Hierarchical instance names contain slashes, so the name is split from the *right*: splitting
/// at the first slash silently picks the wrong instance.
pub fn split_terminal(name: &String) -> (r: Option<(String, String)>)
    ensures
        r is Some <==> name@.contains('/'),
        r matches Some((inst, pin)) ==> name@ == inst@ + seq!['/'] + pin@ && !pin@.contains('/'),
        r matches Some((inst, pin)) ==> splits(name@, inst@, pin@),
{
    let s = name.as_str();
    let n: usize = s.unicode_len();
    let mut k: usize = n;
    while k > 0
        invariant
            s@ == name@,
            n == s@.len(),
            k <= n,
            forall|j: int| k <= j < n ==> s@[j] != '/',
        decreases k,
    {
        k -= 1;
        if s.get_char(k) == '/' {
            let inst = s.substring_char(0, k).to_owned();
            let pin = s.substring_char(k + 1, n).to_owned();
            proof {
                assert(name@[k as int] == '/');
                assert(name@ =~= inst@ + seq!['/'] + pin@);
                assert forall|j: int| 0 <= j < pin@.len() implies pin@[j] != '/' by {
                    assert(pin@[j] == s@[k + 1 + j]);
                }
            }
            return Some((inst, pin));
        }
    }
    None
}

} // verus!
