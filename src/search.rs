use crate::felt::{lemma_value_injective, poseidon_hash_many, poseidon_many, values_of, FieldElement};
use crate::key::{copy_values, DictKey, KeyView, Value};
use crate::tracker::DictTracker;
use vstd::prelude::*;

verus! {

/// The scalars among `s`, in order; addresses are left out.
pub open spec fn ints_of(s: Seq<Value>) -> Seq<FieldElement>
    decreases s.len(),
{
    if s.len() == 0 {
        Seq::empty()
    } else {
        let rest = ints_of(s.drop_last());
        match s.last() {
            Value::Int(x) => rest.push(x),
            Value::Relocatable(_) => rest,
        }
    }
}

/// The hash of a compound key: its sole scalar where it has exactly one, else the
/// Poseidon sponge over its scalars.
pub open spec fn compound_hash(s: Seq<Value>) -> int {
    let xs = ints_of(s);
    if xs.len() == 1 {
        xs[0].value()
    } else {
        poseidon_many(values_of(xs))
    }
}

/// Whether `k` is a compound key whose hash is `h`.
pub open spec fn hashes_to(k: KeyView, h: FieldElement) -> bool {
    match k {
        KeyView::Compound(s) => compound_hash(s) == h.value(),
        KeyView::Simple(_) => false,
    }
}

/// `i` is the first position of `order` whose key hashes to `h`.
pub open spec fn is_first_match(order: Seq<KeyView>, h: FieldElement, i: int) -> bool {
    &&& 0 <= i < order.len()
    &&& hashes_to(order[i], h)
    &&& forall|j: int| 0 <= j < i ==> !hashes_to(#[trigger] order[j], h)
}

/// No key of `order` hashes to `h`.
pub open spec fn no_match(order: Seq<KeyView>, h: FieldElement) -> bool {
    forall|j: int| 0 <= j < order.len() ==> !hashes_to(#[trigger] order[j], h)
}

/// Whether `s` starts with `p`.
pub open spec fn has_prefix(s: Seq<Value>, p: Seq<Value>) -> bool {
    p.len() <= s.len() && s.subrange(0, p.len() as int) == p
}

/// The compound keys of `order` that start with `p`, in order.
pub open spec fn prefix_matches(order: Seq<KeyView>, p: Seq<Value>) -> Seq<Seq<Value>>
    decreases order.len(),
{
    if order.len() == 0 {
        Seq::empty()
    } else {
        let rest = prefix_matches(order.drop_last(), p);
        match order.last() {
            KeyView::Compound(s) => if has_prefix(s, p) {
                rest.push(s)
            } else {
                rest
            },
            KeyView::Simple(_) => rest,
        }
    }
}

/// The scalars among `vals`, in order.
pub fn scalars(vals: &Vec<Value>) -> (r: Vec<FieldElement>)
    ensures
        r@ == ints_of(vals@),
{
    let mut out: Vec<FieldElement> = Vec::new();
    let mut i: usize = 0;
    while i < vals.len()
        invariant
            i <= vals.len(),
            out@ == ints_of(vals@.subrange(0, i as int)),
        decreases vals.len() - i,
    {
        assert(vals@.subrange(0, i + 1).drop_last() =~= vals@.subrange(0, i as int));
        match vals[i] {
            Value::Int(x) => out.push(x),
            Value::Relocatable(_) => {},
        }
        i = i + 1;
    }
    assert(vals@.subrange(0, i as int) =~= vals@);
    out
}

/// The hash of the compound key made of `vals`.
pub fn key_hash(vals: &Vec<Value>) -> (r: FieldElement)
    ensures
        r.value() == compound_hash(vals@),
{
    let xs = scalars(vals);
    if xs.len() == 1 {
        xs[0]
    } else {
        poseidon_hash_many(&xs)
    }
}

/// The first key of the tracker, in insertion order, that hashes to `h`.
pub fn find_preimage(t: &DictTracker, h: FieldElement) -> (r: Option<usize>)
    requires
        t.wf(),
    ensures
        r is Some ==> is_first_match(t@.order, h, r->Some_0 as int),
        r is None ==> no_match(t@.order, h),
{
    let n = t.len();
    let mut i: usize = 0;
    while i < n
        invariant
            t.wf(),
            n == t@.order.len(),
            i <= n,
            forall|j: int| 0 <= j < i ==> !hashes_to(#[trigger] t@.order[j], h),
        decreases n - i,
    {
        match t.key_at(i) {
            DictKey::Compound(vs) => {
                let c = key_hash(vs);
                proof {
                    lemma_value_injective(c, h);
                }
                if c == h {
                    return Some(i);
                }
            },
            DictKey::Simple(_) => {},
        }
        i = i + 1;
    }
    None
}

/// Whether `s` starts with `p`.
pub fn starts_with(s: &Vec<Value>, p: &Vec<Value>) -> (r: bool)
    ensures
        r == has_prefix(s@, p@),
{
    if p.len() > s.len() {
        return false;
    }
    let mut i: usize = 0;
    while i < p.len()
        invariant
            p.len() <= s.len(),
            i <= p.len(),
            forall|j: int| 0 <= j < i ==> s@[j] == p@[j],
        decreases p.len() - i,
    {
        if s[i] != p[i] {
            assert(s@.subrange(0, p@.len() as int)[i as int] != p@[i as int]);
            return false;
        }
        i = i + 1;
    }
    assert(s@.subrange(0, p@.len() as int) =~= p@);
    true
}

pub open spec fn views_of(r: Seq<Vec<Value>>) -> Seq<Seq<Value>> {
    r.map_values(|v: Vec<Value>| v@)
}

/// The compound keys of the tracker that start with `p`, in insertion order.
pub fn keys_with_prefix(t: &DictTracker, p: &Vec<Value>) -> (r: Vec<Vec<Value>>)
    requires
        t.wf(),
    ensures
        views_of(r@) == prefix_matches(t@.order, p@),
{
    let n = t.len();
    let mut out: Vec<Vec<Value>> = Vec::new();
    let mut i: usize = 0;
    while i < n
        invariant
            t.wf(),
            n == t@.order.len(),
            i <= n,
            views_of(out@) == prefix_matches(t@.order.subrange(0, i as int), p@),
        decreases n - i,
    {
        assert(t@.order.subrange(0, i + 1).drop_last() =~= t@.order.subrange(0, i as int));
        match t.key_at(i) {
            DictKey::Compound(vs) => {
                if starts_with(vs, p) {
                    out.push(copy_values(vs));
                }
            },
            DictKey::Simple(_) => {},
        }
        assert(views_of(out@) =~= prefix_matches(t@.order.subrange(0, i + 1), p@));
        i = i + 1;
    }
    assert(t@.order.subrange(0, i as int) =~= t@.order);
    out
}

} // verus!
