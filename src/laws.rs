use crate::felt::{values_of, poseidon_many, FieldElement};
use crate::hints::{
    address_key, address_views, cancun_addresses, cancun_seed_map, is_cancun_address, seeded_with_cancun,
    copy_effect, hashed_read_outcome, insert_all, lemma_no_preimage, lemma_preimage_at, one, precompile_key,
    preimage_of, read_effect, read_outcome, resolved_key, seed_effect, write_effect,
};
use crate::key::{HintError, KeyView, Value};
use crate::search::{compound_hash, hashes_to, ints_of, is_first_match, no_match};
use crate::tracker::{view_wf, TrackerView, DICT_ACCESS_SIZE};
use vstd::prelude::*;

verus! {

proof fn lemma_insert_all_keeps(t: TrackerView, a: Seq<[u8; 20]>)
    ensures
        insert_all(t, a).current_ptr == t.current_ptr,
        insert_all(t, a).default_value == t.default_value,
    decreases a.len(),
{
    if a.len() > 0 {
        lemma_insert_all_keeps(t, a.drop_last());
    }
}

/// Seeding N addresses moves the cursor on by N access records.
pub proof fn lemma_seed_cursor(t: TrackerView, a: Seq<[u8; 20]>)
    requires
        t.can_advance(a.len()),
    ensures
        seed_effect(t, a).current_ptr.offset == t.current_ptr.offset + a.len() * DICT_ACCESS_SIZE,
        seed_effect(t, a).current_ptr.segment_index == t.current_ptr.segment_index,
        seed_effect(t, a).current_ptr == t.advanced(a.len()).current_ptr,
        seed_effect(t, a).default_value == t.default_value,
{
    lemma_insert_all_keeps(t.advanced(a.len()), a);
}

/// A read of a key just written returns the value written, whatever the key and the
/// tracker before; the read leaves the mapping as the write left it.
pub proof fn lemma_write_then_read(t: TrackerView, k: KeyView, v: Value)
    ensures
        read_outcome(write_effect(t, k, v), k) == Ok::<Value, HintError>(v),
        read_effect(write_effect(t, k, v), k).map == write_effect(t, k, v).map,
{
}

/// The hash of a one-scalar compound key is that scalar.
pub proof fn lemma_hash_of_single(x: FieldElement)
    ensures
        compound_hash(seq![Value::Int(x)]) == x.value(),
{
    let s = seq![Value::Int(x)];
    assert(s.drop_last() =~= Seq::<Value>::empty());
    assert(s.last() == Value::Int(x));
    reveal_with_fuel(ints_of, 2);
    assert(ints_of(s) =~= seq![x]);
}

pub open spec fn all_ints(s: Seq<Value>) -> bool {
    forall|i: int| 0 <= i < s.len() ==> (#[trigger] s[i]) is Int
}

pub open spec fn scalar_values(s: Seq<Value>) -> Seq<int> {
    s.map_values(|v: Value| v->Int_0.value())
}

proof fn lemma_ints_of_all(s: Seq<Value>)
    requires
        all_ints(s),
    ensures
        values_of(ints_of(s)) == scalar_values(s),
    decreases s.len(),
{
    if s.len() > 0 {
        assert(all_ints(s.drop_last()));
        lemma_ints_of_all(s.drop_last());
        assert(s[s.len() - 1] is Int);
        let x = s.last()->Int_0;
        let r = ints_of(s.drop_last());
        assert(ints_of(s) == r.push(x));
        assert(values_of(r.push(x)) =~= values_of(r).push(x.value()));
        assert(scalar_values(s.drop_last()) =~= scalar_values(s).drop_last());
        assert(values_of(ints_of(s)) =~= scalar_values(s));
    } else {
        assert(values_of(ints_of(s)) =~= scalar_values(s));
    }
}

/// The hash of a compound key of two or more scalars is the sponge over them, in order.
pub proof fn lemma_hash_of_many(s: Seq<Value>)
    requires
        s.len() >= 2,
        all_ints(s),
    ensures
        compound_hash(s) == poseidon_many(scalar_values(s)),
{
    lemma_ints_of_all(s);
    assert(ints_of(s).len() == s.len()) by {
        assert(values_of(ints_of(s)).len() == scalar_values(s).len());
    }
}

/// Where no compound key hashes to `h`, a hashed read returns the value stored under `h`
/// as a simple key, and fails with `ValueNotFound` where none is stored.
pub proof fn lemma_hashed_read_fallback(t: TrackerView, h: FieldElement)
    requires
        no_match(t.order, h),
    ensures
        resolved_key(t.order, h) == KeyView::Simple(Value::Int(h)),
        t.map.contains_key(KeyView::Simple(Value::Int(h))) ==> hashed_read_outcome(t, h) == Ok::<Value, HintError>(
            t.map[KeyView::Simple(Value::Int(h))],
        ),
        !t.map.contains_key(KeyView::Simple(Value::Int(h))) ==> hashed_read_outcome(t, h) == Err::<Value, HintError>(
            HintError::ValueNotFound,
        ),
{
    lemma_no_preimage(t.order, h);
}

/// An entry copied by hash from one tracker to another reads back, by the same hash, as
/// the value it has in the source, where the destination holds no other key of that hash;
/// the copy logs exactly one access in the destination.
pub proof fn lemma_copy_then_hashed_read(src: TrackerView, dst: TrackerView, h: FieldElement)
    requires
        view_wf(src),
        view_wf(dst),
        preimage_of(src.order, h) is Some,
        dst.can_advance(1),
        forall|i: int|
            0 <= i < dst.order.len() && hashes_to(#[trigger] dst.order[i], h) ==> dst.order[i] == KeyView::Compound(
                preimage_of(src.order, h)->Some_0,
            ),
    ensures
        ({
            let p = preimage_of(src.order, h)->Some_0;
            let v = src.map[KeyView::Compound(p)];
            let d2 = copy_effect(dst, p, v);
            &&& hashed_read_outcome(src, h) == Ok::<Value, HintError>(v)
            &&& hashed_read_outcome(d2, h) == Ok::<Value, HintError>(v)
            &&& d2.current_ptr.offset == dst.current_ptr.offset + DICT_ACCESS_SIZE
        }),
{
    let p = preimage_of(src.order, h)->Some_0;
    let kp = KeyView::Compound(p);
    let v = src.map[kp];
    let i = choose|i: int| is_first_match(src.order, h, i);
    lemma_preimage_at(src.order, h, i);
    assert(src.order.contains(kp));
    assert(src.map.contains_key(kp));
    assert(hashes_to(kp, h));
    let d2 = copy_effect(dst, p, v);
    if dst.map.contains_key(kp) {
        assert(dst.order.contains(kp));
        let j = choose|j: int| 0 <= j < dst.order.len() && dst.order[j] == kp;
        assert forall|q: int| 0 <= q < j implies !hashes_to(#[trigger] d2.order[q], h) by {
            if hashes_to(d2.order[q], h) {
                assert(dst.order[q] == kp);
            }
        }
        assert(is_first_match(d2.order, h, j));
        lemma_preimage_at(d2.order, h, j);
    } else {
        let j = dst.order.len() as int;
        assert forall|q: int| 0 <= q < j implies !hashes_to(#[trigger] d2.order[q], h) by {
            if hashes_to(d2.order[q], h) {
                assert(dst.order[q] == d2.order[q]);
                assert(dst.order.contains(kp));
            }
        }
        assert(d2.order[j] == kp);
        assert(is_first_match(d2.order, h, j));
        lemma_preimage_at(d2.order, h, j);
    }
}

/// The mapping that seeding the addresses of `a` adds: each key of an address to one.
pub open spec fn seed_map(a: Seq<[u8; 20]>) -> Map<KeyView, Value> {
    Map::new(|k: KeyView| exists|i: int| 0 <= i < a.len() && precompile_key(a[i]) == k, |k: KeyView| one())
}

/// Seeding a list of addresses maps each of their keys to one and keeps every other entry.
pub proof fn lemma_insert_all_map(t: TrackerView, a: Seq<[u8; 20]>)
    ensures
        insert_all(t, a).map == t.map.union_prefer_right(seed_map(a)),
    decreases a.len(),
{
    if a.len() == 0 {
        assert(t.map.union_prefer_right(seed_map(a)) =~= t.map);
    } else {
        let b = a.drop_last();
        lemma_insert_all_map(t, b);
        let lhs = insert_all(t, a).map;
        let rhs = t.map.union_prefer_right(seed_map(a));
        assert forall|k: KeyView| seed_map(a).contains_key(k) <==> (seed_map(b).contains_key(k) || k == precompile_key(a.last())) by {
            if seed_map(a).contains_key(k) {
                let i = choose|i: int| 0 <= i < a.len() && precompile_key(a[i]) == k;
                if i < a.len() - 1 {
                    assert(precompile_key(b[i]) == k);
                }
            }
            if seed_map(b).contains_key(k) {
                let i = choose|i: int| 0 <= i < b.len() && precompile_key(b[i]) == k;
                assert(precompile_key(a[i]) == k);
            }
            if k == precompile_key(a.last()) {
                assert(precompile_key(a[a.len() - 1]) == k);
            }
        }
        assert(lhs =~= rhs);
    }
}

/// Seeding twice with the same addresses leaves the mapping, and so the key set, as one
/// seeding left it, while the cursor moves on by the full count each time.
pub proof fn lemma_seed_twice(t: TrackerView, a: Seq<[u8; 20]>)
    requires
        t.current_ptr.offset + 2 * a.len() * DICT_ACCESS_SIZE <= usize::MAX,
    ensures
        seed_effect(seed_effect(t, a), a).map == seed_effect(t, a).map,
        seed_effect(seed_effect(t, a), a).map.dom() == seed_effect(t, a).map.dom(),
        seed_effect(t, a).current_ptr.offset == t.current_ptr.offset + a.len() * DICT_ACCESS_SIZE,
        seed_effect(seed_effect(t, a), a).current_ptr.offset == t.current_ptr.offset + 2 * a.len() * DICT_ACCESS_SIZE,
{
    let once = seed_effect(t, a);
    lemma_seed_cursor(t, a);
    lemma_seed_cursor(once, a);
    lemma_insert_all_map(t.advanced(a.len()), a);
    lemma_insert_all_map(once.advanced(a.len()), a);
    let m = t.map;
    let s = seed_map(a);
    assert(m.union_prefer_right(s).union_prefer_right(s) =~= m.union_prefer_right(s));
}

/// A list of addresses whose set is the Cancun precompile set seeds the Cancun mapping,
/// whatever its order.
pub proof fn lemma_seed_map_of_cancun(a: Seq<[u8; 20]>)
    requires
        address_views(a).to_set() == cancun_addresses(),
    ensures
        seed_map(a) == cancun_seed_map(),
{
    let v = address_views(a);
    assert forall|k: KeyView| seed_map(a).contains_key(k) <==> cancun_seed_map().contains_key(k) by {
        if seed_map(a).contains_key(k) {
            let i = choose|i: int| 0 <= i < a.len() && precompile_key(a[i]) == k;
            assert(v[i] == a[i]@);
            assert(v.to_set().contains(v[i]));
            assert(is_cancun_address(a[i]@) && address_key(a[i]@) == k);
        }
        if cancun_seed_map().contains_key(k) {
            let s = choose|s: Seq<u8>| is_cancun_address(s) && address_key(s) == k;
            assert(cancun_addresses().contains(s));
            assert(v.to_set().contains(s));
            let i = choose|i: int| 0 <= i < v.len() && v[i] == s;
            assert(precompile_key(a[i]) == k);
        }
    }
    assert(seed_map(a) =~= cancun_seed_map());
}

/// Seeding the Cancun precompiles twice leaves the mapping, and so the key set, as one
/// seeding left it, while the cursor moves on by ten records each time.
pub proof fn lemma_track_twice(t: TrackerView, u1: TrackerView, u2: TrackerView)
    requires
        t.can_advance(20),
        seeded_with_cancun(t, u1),
        seeded_with_cancun(u1, u2),
    ensures
        u2.map == u1.map,
        u2.map.dom() == u1.map.dom(),
        u1.current_ptr.offset == t.current_ptr.offset + 10 * DICT_ACCESS_SIZE,
        u2.current_ptr.offset == t.current_ptr.offset + 20 * DICT_ACCESS_SIZE,
{
    let c = cancun_seed_map();
    assert(t.map.union_prefer_right(c).union_prefer_right(c) =~= t.map.union_prefer_right(c));
}

/// One logged operation on a tracker, seeding included.
pub enum Step {
    Read(KeyView),
    Write(KeyView, Value),
    SeedCancun,
}

/// `u` is a state that operation `op` can leave `t` in.
pub open spec fn step_holds(t: TrackerView, op: Step, u: TrackerView) -> bool {
    match op {
        Step::Read(k) => u == read_effect(t, k),
        Step::Write(k, v) => u == write_effect(t, k, v),
        Step::SeedCancun => seeded_with_cancun(t, u),
    }
}

/// The access records an operation logs.
pub open spec fn records(op: Step) -> nat {
    match op {
        Step::SeedCancun => 10,
        _ => 1,
    }
}

pub open spec fn total_records(ops: Seq<Step>) -> nat
    decreases ops.len(),
{
    if ops.len() == 0 {
        0
    } else {
        total_records(ops.drop_last()) + records(ops.last())
    }
}

/// Along any run of successful reads, writes and seedings, the cursor stands one record
/// further on for each read or write and one for each seeded entry.
pub proof fn lemma_cursor_counts_steps(states: Seq<TrackerView>, ops: Seq<Step>)
    requires
        states.len() == ops.len() + 1,
        forall|i: int| 0 <= i < ops.len() ==> step_holds(#[trigger] states[i], ops[i], states[i + 1]),
        states[0].can_advance(total_records(ops)),
    ensures
        states.last().current_ptr.offset == states[0].current_ptr.offset + total_records(ops) * DICT_ACCESS_SIZE,
        states.last().current_ptr.segment_index == states[0].current_ptr.segment_index,
    decreases ops.len(),
{
    if ops.len() > 0 {
        let n = ops.len() - 1;
        let ps = states.drop_last();
        let pops = ops.drop_last();
        assert forall|i: int| 0 <= i < pops.len() implies step_holds(#[trigger] ps[i], pops[i], ps[i + 1]) by {
            assert(step_holds(states[i], ops[i], states[i + 1]));
        }
        lemma_cursor_counts_steps(ps, pops);
        assert(step_holds(states[n], ops[n], states[n + 1]));
    }
}

} // verus!
