use crate::felt::{felt_from_address, FieldElement};
use crate::key::{all_known, build_compound_key, copy_values, first_unknown, known_values, read_values, Address, DictKey, HintError, KeyView, Value};
use crate::manager::{check_ptr, DictManager};
use crate::search::{find_preimage, is_first_match, keys_with_prefix, no_match, prefix_matches, views_of};
use crate::laws::{lemma_insert_all_map, lemma_seed_cursor, lemma_seed_map_of_cancun};
use crate::tracker::TrackerView;
use revm::precompile::Precompiles;
use vstd::prelude::*;

verus! {

/// A tracker after a logged read of `k`.
pub open spec fn read_effect(t: TrackerView, k: KeyView) -> TrackerView {
    t.advanced(1).touch(k)
}

/// A tracker after a logged write of `v` under `k`.
pub open spec fn write_effect(t: TrackerView, k: KeyView, v: Value) -> TrackerView {
    t.advanced(1).insert(k, v)
}

/// What a read of `k` returns.
pub open spec fn read_outcome(t: TrackerView, k: KeyView) -> Result<Value, HintError> {
    match t.lookup(k) {
        Some(v) => Ok(v),
        None => Err(HintError::KeyNotFound),
    }
}

/// The compound key that comes first, in insertion order, among those hashing to `h`.
pub open spec fn preimage_of(order: Seq<KeyView>, h: FieldElement) -> Option<Seq<Value>> {
    if exists|i: int| is_first_match(order, h, i) {
        let i = choose|i: int| is_first_match(order, h, i);
        match order[i] {
            KeyView::Compound(s) => Some(s),
            KeyView::Simple(_) => None,
        }
    } else {
        None
    }
}

/// The key a hashed read resolves to: the preimage of `h`, else `h` itself as a simple key.
pub open spec fn resolved_key(order: Seq<KeyView>, h: FieldElement) -> KeyView {
    match preimage_of(order, h) {
        Some(s) => KeyView::Compound(s),
        None => KeyView::Simple(Value::Int(h)),
    }
}

/// What a hashed read of `h` returns: the value stored under the resolved key; a
/// dictionary's default plays no part.
pub open spec fn hashed_read_outcome(t: TrackerView, h: FieldElement) -> Result<Value, HintError> {
    let k = resolved_key(t.order, h);
    if t.map.contains_key(k) {
        Ok(t.map[k])
    } else {
        Err(HintError::ValueNotFound)
    }
}

pub proof fn lemma_first_match_unique(order: Seq<KeyView>, h: FieldElement, i: int, j: int)
    requires
        is_first_match(order, h, i),
        is_first_match(order, h, j),
    ensures
        i == j,
{
}

/// The preimage is the key at the first matching position.
pub proof fn lemma_preimage_at(order: Seq<KeyView>, h: FieldElement, i: int)
    requires
        is_first_match(order, h, i),
    ensures
        preimage_of(order, h) is Some,
        order[i] == KeyView::Compound(preimage_of(order, h)->Some_0),
{
    let j = choose|j: int| is_first_match(order, h, j);
    lemma_first_match_unique(order, h, i, j);
}

/// Without a matching key there is no preimage.
pub proof fn lemma_no_preimage(order: Seq<KeyView>, h: FieldElement)
    requires
        no_match(order, h),
    ensures
        preimage_of(order, h) is None,
{
}

/// The key of a precompile address: the address, read as a little-endian integer, as a
/// one-element compound key.
pub open spec fn address_key(a: Seq<u8>) -> KeyView {
    KeyView::Compound(seq![Value::Int(crate::felt::address_limbs(a))])
}

pub open spec fn precompile_key(a: [u8; 20]) -> KeyView {
    address_key(a@)
}

pub open spec fn address_views(a: Seq<[u8; 20]>) -> Seq<Seq<u8>> {
    a.map_values(|x: [u8; 20]| x@)
}

/// Whether `s` is one of the Cancun precompile addresses 0x01 to 0x0a, as 20 big-endian bytes.
pub open spec fn is_cancun_address(s: Seq<u8>) -> bool {
    &&& s.len() == 20
    &&& forall|i: int| 0 <= i < 19 ==> s[i] == 0
    &&& 1 <= s[19] <= 10
}

pub open spec fn cancun_addresses() -> Set<Seq<u8>> {
    Set::new(|s: Seq<u8>| is_cancun_address(s))
}

/// The mapping that seeding the Cancun precompiles adds: each of their keys to one.
pub open spec fn cancun_seed_map() -> Map<KeyView, Value> {
    Map::new(|k: KeyView| exists|s: Seq<u8>| is_cancun_address(s) && address_key(s) == k, |k: KeyView| one())
}

/// `u` is `t` after seeding the Cancun precompiles: their keys map to one, other keys keep
/// their values, and the cursor has moved on by one record for each of the ten.
pub open spec fn seeded_with_cancun(t: TrackerView, u: TrackerView) -> bool {
    &&& u.map == t.map.union_prefer_right(cancun_seed_map())
    &&& u.current_ptr == t.advanced(10).current_ptr
    &&& u.default_value == t.default_value
}

pub open spec fn one() -> Value {
    Value::Int(FieldElement { d0: 0, d1: 0, d2: 0, d3: 1 })
}

/// `t` with each address of `a` mapped to one, in order.
pub open spec fn insert_all(t: TrackerView, a: Seq<[u8; 20]>) -> TrackerView
    decreases a.len(),
{
    if a.len() == 0 {
        t
    } else {
        insert_all(t, a.drop_last()).insert(precompile_key(a.last()), one())
    }
}

/// A tracker after seeding the addresses of `a`: one logged access for each.
pub open spec fn seed_effect(t: TrackerView, a: Seq<[u8; 20]>) -> TrackerView {
    insert_all(t.advanced(a.len()), a)
}

/// Reads the value under the compound key held in `key_cells`, logging one access.
///
/// The cursor moves on before the key is read, so a missing cell or key leaves it moved.
pub fn hashdict_read(m: &mut DictManager, dict_ptr: Address, key_cells: &Vec<Option<Value>>) -> (r: Result<Value, HintError>)
    requires
        old(m).wf(),
    ensures
        final(m).wf(),
        check_ptr(old(m)@, dict_ptr) is Err ==> r == Err::<Value, HintError>(check_ptr(old(m)@, dict_ptr)->Err_0)
            && final(m)@ == old(m)@,
        check_ptr(old(m)@, dict_ptr) is Ok ==> {
            let s = dict_ptr.segment_index;
            let t = old(m)@[s];
            let k = KeyView::Compound(known_values(key_cells@));
            &&& !t.can_advance(1) ==> r == Err::<Value, HintError>(HintError::CursorOverflow) && final(m)@ == old(m)@
            &&& t.can_advance(1) && !all_known(key_cells@) ==> final(m)@ == old(m)@.insert(s, t.advanced(1))
                && exists|i: int| first_unknown(key_cells@, i) && r == Err::<Value, HintError>(HintError::UnknownMemoryCell(i as usize))
            &&& t.can_advance(1) && all_known(key_cells@) ==> final(m)@ == old(m)@.insert(s, read_effect(t, k))
                && r == read_outcome(t, k)
        },
{
    m.check(dict_ptr)?;
    let s = dict_ptr.segment_index;
    m.advance(s, 1)?;
    let k = build_compound_key(key_cells)?;
    m.get_value(s, &k)
}

/// Writes `new_value` under the compound key held in `key_cells`, logging one access;
/// returns the value the key held before, for the record's audit slot.
///
/// The cursor moves on before the key is read, so a missing cell or key leaves it moved.
pub fn hashdict_write(m: &mut DictManager, dict_ptr: Address, key_cells: &Vec<Option<Value>>, new_value: Value) -> (r: Result<Value, HintError>)
    requires
        old(m).wf(),
    ensures
        final(m).wf(),
        check_ptr(old(m)@, dict_ptr) is Err ==> r == Err::<Value, HintError>(check_ptr(old(m)@, dict_ptr)->Err_0)
            && final(m)@ == old(m)@,
        check_ptr(old(m)@, dict_ptr) is Ok ==> {
            let s = dict_ptr.segment_index;
            let t = old(m)@[s];
            let k = KeyView::Compound(known_values(key_cells@));
            &&& !t.can_advance(1) ==> r == Err::<Value, HintError>(HintError::CursorOverflow) && final(m)@ == old(m)@
            &&& t.can_advance(1) && !all_known(key_cells@) ==> final(m)@ == old(m)@.insert(s, t.advanced(1))
                && exists|i: int| first_unknown(key_cells@, i) && r == Err::<Value, HintError>(HintError::UnknownMemoryCell(i as usize))
            &&& t.can_advance(1) && all_known(key_cells@) && t.lookup(k) is None ==>
                final(m)@ == old(m)@.insert(s, t.advanced(1)) && r == Err::<Value, HintError>(HintError::KeyNotFound)
            &&& t.can_advance(1) && all_known(key_cells@) && t.lookup(k) is Some ==>
                final(m)@ == old(m)@.insert(s, write_effect(t, k, new_value)) && r == Ok::<Value, HintError>(t.lookup(k)->Some_0)
        },
{
    m.check(dict_ptr)?;
    let s = dict_ptr.segment_index;
    m.advance(s, 1)?;
    let k = build_compound_key(key_cells)?;
    let ghost t1 = m@[s];
    let prev = m.get_value(s, &k)?;
    m.insert_value(s, &k, new_value);
    proof {
        assert(t1.touch(k@).insert(k@, new_value).order =~= t1.insert(k@, new_value).order);
        assert(t1.touch(k@).insert(k@, new_value).map =~= t1.insert(k@, new_value).map);
        assert(m@ =~= old(m)@.insert(s, write_effect(old(m)@[s], k@, new_value)));
    }
    Ok(prev)
}

/// Reads the value stored under the key that hashes to `hashed_key`, or under `hashed_key`
/// itself as a simple key where no compound key hashes to it. A pure lookup: it logs no
/// access and changes nothing.
pub fn hashdict_read_from_key(m: &DictManager, dict_ptr: Address, hashed_key: FieldElement) -> (r: Result<Value, HintError>)
    requires
        m.wf(),
    ensures
        check_ptr(m@, dict_ptr) is Err ==> r == Err::<Value, HintError>(check_ptr(m@, dict_ptr)->Err_0),
        check_ptr(m@, dict_ptr) is Ok ==> r == hashed_read_outcome(m@[dict_ptr.segment_index], hashed_key),
{
    let t = m.get_tracker(dict_ptr)?;
    let key = match find_preimage(t, hashed_key) {
        Some(i) => {
            proof {
                lemma_preimage_at(t@.order, hashed_key, i as int);
            }
            t.key_at(i).duplicate()
        },
        None => DictKey::Simple(Value::Int(hashed_key)),
    };
    match t.stored(&key) {
        Some(v) => Ok(v),
        None => Err(HintError::ValueNotFound),
    }
}

/// The compound key that hashes to `hashed_key`, as its elements in order.
pub fn get_preimage_for_key(m: &DictManager, dict_ptr: Address, hashed_key: FieldElement) -> (r: Result<Vec<Value>, HintError>)
    requires
        m.wf(),
    ensures
        check_ptr(m@, dict_ptr) is Err ==> r == Err::<Vec<Value>, HintError>(check_ptr(m@, dict_ptr)->Err_0),
        check_ptr(m@, dict_ptr) is Ok ==> {
            let p = preimage_of(m@[dict_ptr.segment_index].order, hashed_key);
            &&& p is None ==> r == Err::<Vec<Value>, HintError>(HintError::PreimageNotFound)
            &&& p is Some ==> r is Ok && r->Ok_0@ == p->Some_0
        },
{
    let t = m.get_tracker(dict_ptr)?;
    match find_preimage(t, hashed_key) {
        Some(i) => {
            proof {
                lemma_preimage_at(t@.order, hashed_key, i as int);
            }
            match t.key_at(i) {
                DictKey::Compound(vs) => Ok(copy_values(vs)),
                DictKey::Simple(_) => Err(HintError::PreimageNotFound),
            }
        },
        None => Err(HintError::PreimageNotFound),
    }
}

/// A destination tracker after receiving `v` under the compound key `p`.
pub open spec fn copy_effect(d: TrackerView, p: Seq<Value>, v: Value) -> TrackerView {
    d.advanced(1).insert(KeyView::Compound(p), v)
}

/// Copies the entry whose key hashes to `hashed_key` from the source tracker into the
/// destination tracker, logging one access there.
pub fn copy_hashdict_tracker_entry(m: &mut DictManager, source_ptr: Address, dest_ptr: Address, hashed_key: FieldElement) -> (r: Result<(), HintError>)
    requires
        old(m).wf(),
    ensures
        final(m).wf(),
        check_ptr(old(m)@, source_ptr) is Err ==> r == Err::<(), HintError>(check_ptr(old(m)@, source_ptr)->Err_0)
            && final(m)@ == old(m)@,
        check_ptr(old(m)@, source_ptr) is Ok ==> {
            let src = old(m)@[source_ptr.segment_index];
            let p = preimage_of(src.order, hashed_key);
            let d = dest_ptr.segment_index;
            &&& p is None ==> r == Err::<(), HintError>(HintError::ValueNotFound) && final(m)@ == old(m)@
            &&& p is Some && check_ptr(old(m)@, dest_ptr) is Err ==>
                r == Err::<(), HintError>(check_ptr(old(m)@, dest_ptr)->Err_0) && final(m)@ == old(m)@
            &&& p is Some && check_ptr(old(m)@, dest_ptr) is Ok && !old(m)@[d].can_advance(1) ==>
                r == Err::<(), HintError>(HintError::CursorOverflow) && final(m)@ == old(m)@
            &&& p is Some && check_ptr(old(m)@, dest_ptr) is Ok && old(m)@[d].can_advance(1) ==> r is Ok
                && final(m)@ == old(m)@.insert(d, copy_effect(old(m)@[d], p->Some_0, src.map[KeyView::Compound(p->Some_0)]))
        },
{
    let (key, value) = {
        let t = m.get_tracker(source_ptr)?;
        match find_preimage(t, hashed_key) {
            Some(i) => {
                proof {
                    lemma_preimage_at(t@.order, hashed_key, i as int);
                }
                (t.key_at(i).duplicate(), t.value_at(i))
            },
            None => {
                return Err(HintError::ValueNotFound);
            },
        }
    };
    m.check(dest_ptr)?;
    let d = dest_ptr.segment_index;
    m.advance(d, 1)?;
    m.insert_value(d, &key, value);
    Ok(())
}

/// The compound keys that start with the values held in `prefix_cells`, in insertion order.
pub fn get_keys_for_address_prefix(m: &DictManager, dict_ptr: Address, prefix_cells: &Vec<Option<Value>>) -> (r: Result<Vec<Vec<Value>>, HintError>)
    requires
        m.wf(),
    ensures
        check_ptr(m@, dict_ptr) is Err ==> r == Err::<Vec<Vec<Value>>, HintError>(check_ptr(m@, dict_ptr)->Err_0),
        check_ptr(m@, dict_ptr) is Ok && !all_known(prefix_cells@) ==> exists|i: int|
            first_unknown(prefix_cells@, i) && r == Err::<Vec<Vec<Value>>, HintError>(HintError::UnknownMemoryCell(i as usize)),
        check_ptr(m@, dict_ptr) is Ok && all_known(prefix_cells@) ==> r is Ok
            && views_of(r->Ok_0@) == prefix_matches(m@[dict_ptr.segment_index].order, known_values(prefix_cells@)),
{
    let t = m.get_tracker(dict_ptr)?;
    let prefix = read_values(prefix_cells)?;
    Ok(keys_with_prefix(t, &prefix))
}

/// Maps each address of `addresses` to one as a one-element compound key, logging one
/// access for each.
pub fn seed_precompiles(m: &mut DictManager, dict_ptr: Address, addresses: &Vec<[u8; 20]>) -> (r: Result<(), HintError>)
    requires
        old(m).wf(),
    ensures
        final(m).wf(),
        check_ptr(old(m)@, dict_ptr) is Err ==> r == Err::<(), HintError>(check_ptr(old(m)@, dict_ptr)->Err_0)
            && final(m)@ == old(m)@,
        check_ptr(old(m)@, dict_ptr) is Ok ==> {
            let s = dict_ptr.segment_index;
            let t = old(m)@[s];
            &&& !t.can_advance(addresses@.len()) ==> r == Err::<(), HintError>(HintError::CursorOverflow)
                && final(m)@ == old(m)@
            &&& t.can_advance(addresses@.len()) ==> r is Ok && final(m)@ == old(m)@.insert(s, seed_effect(t, addresses@))
        },
{
    m.check(dict_ptr)?;
    let s = dict_ptr.segment_index;
    m.advance(s, addresses.len())?;
    let ghost t1 = m@[s];
    let mut i: usize = 0;
    while i < addresses.len()
        invariant
            m.wf(),
            m@.contains_key(s),
            i <= addresses.len(),
            m@ == old(m)@.insert(s, insert_all(t1, addresses@.subrange(0, i as int))),
        decreases addresses.len() - i,
    {
        let f = felt_from_address(&addresses[i]);
        let vs = vec![Value::Int(f)];
        assert(vs@ =~= seq![Value::Int(f)]);
        let key = DictKey::Compound(vs);
        assert(key@ == precompile_key(addresses@[i as int]));
        m.insert_value(s, &key, Value::Int(FieldElement { d0: 0, d1: 0, d2: 0, d3: 1 }));
        assert(addresses@.subrange(0, i + 1).drop_last() =~= addresses@.subrange(0, i as int));
        i = i + 1;
        assert(m@ =~= old(m)@.insert(s, insert_all(t1, addresses@.subrange(0, i as int))));
    }
    assert(addresses@.subrange(0, i as int) =~= addresses@);
    Ok(())
}

#[verifier::external_type_specification]
#[verifier::external_body]
pub struct ExPrecompiles(Precompiles);

/// The addresses that a set of precompiled contracts holds, as byte strings.
pub uninterp spec fn precompile_set(p: Precompiles) -> Set<Seq<u8>>;

/// How many precompiled contracts a set holds.
pub uninterp spec fn precompile_count(p: Precompiles) -> nat;

/// Relies on revm's Precompiles::cancun: the Homestead, Byzantium, Istanbul, Berlin and
/// Cancun contracts, at addresses 0x01 to 0x0a.
#[verifier::external_body]
fn cancun_precompiles() -> (r: &'static Precompiles)
    ensures
        precompile_set(*r) == cancun_addresses(),
        precompile_count(*r) == 10,
{
    Precompiles::cancun()
}

/// Relies on revm's Precompiles::addresses: the keys of its map of contracts, so each
/// address once, in the order of a hash map.
#[verifier::external_body]
fn precompile_addresses(p: &Precompiles) -> (r: Vec<[u8; 20]>)
    ensures
        address_views(r@).no_duplicates(),
        address_views(r@).to_set() == precompile_set(*p),
        r@.len() == precompile_count(*p),
{
    p.addresses().map(|a| a.0 .0).collect()
}

/// Seeds the tracker with the precompiled-contract addresses of the Cancun rules, each
/// mapped to one, logging one access for each.
pub fn track_precompiles(m: &mut DictManager, dict_ptr: Address) -> (r: Result<(), HintError>)
    requires
        old(m).wf(),
    ensures
        final(m).wf(),
        check_ptr(old(m)@, dict_ptr) is Err ==> r == Err::<(), HintError>(check_ptr(old(m)@, dict_ptr)->Err_0)
            && final(m)@ == old(m)@,
        check_ptr(old(m)@, dict_ptr) is Ok ==> {
            let s = dict_ptr.segment_index;
            let t = old(m)@[s];
            &&& !t.can_advance(10) ==> r == Err::<(), HintError>(HintError::CursorOverflow) && final(m)@ == old(m)@
            &&& t.can_advance(10) ==> r is Ok && final(m)@ == old(m)@.insert(s, final(m)@[s])
                && seeded_with_cancun(t, final(m)@[s])
        },
{
    m.check(dict_ptr)?;
    let addresses = precompile_addresses(cancun_precompiles());
    let r = seed_precompiles(m, dict_ptr, &addresses);
    proof {
        let s = dict_ptr.segment_index;
        let t = old(m)@[s];
        if t.can_advance(10) {
            lemma_seed_cursor(t, addresses@);
            lemma_insert_all_map(t.advanced(10), addresses@);
            lemma_seed_map_of_cancun(addresses@);
            assert(m@ =~= old(m)@.insert(s, m@[s]));
        }
    }
    r
}

} // verus!
