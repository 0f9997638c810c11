use hashdict::felt::{felt_from_address, FieldElement};
use hashdict::hints::{
    copy_hashdict_tracker_entry, get_keys_for_address_prefix, get_preimage_for_key, hashdict_read,
    hashdict_read_from_key, hashdict_write, seed_precompiles, track_precompiles,
};
use hashdict::key::{build_compound_key, Address, DictKey, HintError, Value};
use hashdict::manager::DictManager;
use hashdict::search::key_hash;
use starknet_crypto::{poseidon_hash_many, Felt};

fn scalar(x: u64) -> Value {
    Value::Int(FieldElement::from_u64(x))
}

fn cells(xs: &[u64]) -> Vec<Option<Value>> {
    xs.iter().map(|x| Some(scalar(*x))).collect()
}

fn ptr(segment_index: isize, offset: usize) -> Address {
    Address { segment_index, offset }
}

fn sponge(xs: &[u64]) -> FieldElement {
    let felts: Vec<Felt> = xs.iter().map(|x| Felt::from(*x)).collect();
    let d = poseidon_hash_many(felts.iter()).to_be_digits();
    FieldElement { d0: d[0], d1: d[1], d2: d[2], d3: d[3] }
}

fn manager_with(segment: isize, default_value: Option<Value>) -> DictManager {
    let mut m = DictManager::new();
    m.new_dict(ptr(segment, 0), default_value).unwrap();
    m
}

#[test]
fn key_hash_of_two_scalars_is_the_sponge() {
    let h = key_hash(&vec![scalar(10), scalar(20)]);
    assert_eq!(h, sponge(&[10, 20]));
    assert_ne!(h, FieldElement::from_u64(10));
    assert_ne!(h, FieldElement::from_u64(20));
}

#[test]
fn key_hash_of_one_scalar_is_the_scalar() {
    assert_eq!(key_hash(&vec![scalar(42)]), FieldElement::from_u64(42));
    // addresses are left out before hashing
    let with_addr = vec![scalar(42), Value::Relocatable(ptr(3, 4))];
    assert_eq!(key_hash(&with_addr), FieldElement::from_u64(42));
}

#[test]
fn key_hash_changes_with_an_element() {
    assert_ne!(key_hash(&vec![scalar(1), scalar(2)]), key_hash(&vec![scalar(1), scalar(3)]));
    assert_ne!(key_hash(&vec![scalar(1), scalar(2)]), key_hash(&vec![scalar(2), scalar(1)]));
}

#[test]
fn from_u128_splits_into_limbs() {
    let x = FieldElement::from_u128((5u128 << 64) | 9);
    assert_eq!(x, FieldElement { d0: 0, d1: 0, d2: 5, d3: 9 });
}

#[test]
fn address_bytes_read_little_endian() {
    let mut a = [0u8; 20];
    a[0] = 1;
    assert_eq!(felt_from_address(&a), FieldElement::from_u64(1));
    let mut b = [0u8; 20];
    b[1] = 2;
    b[8] = 3;
    b[16] = 4;
    b[19] = 1;
    assert_eq!(felt_from_address(&b), FieldElement { d0: 0, d1: (1 << 24) | 4, d2: 3, d3: 0x200 });
}

#[test]
fn build_compound_key_reports_first_unknown_cell() {
    let c = vec![Some(scalar(1)), None, None];
    assert_eq!(build_compound_key(&c).unwrap_err(), HintError::UnknownMemoryCell(1));
    match build_compound_key(&cells(&[4, 5])).unwrap() {
        DictKey::Compound(vs) => assert_eq!(vs, vec![scalar(4), scalar(5)]),
        DictKey::Simple(_) => panic!("expected a compound key"),
    }
}

#[test]
fn write_then_read_scenario_with_preimage() {
    let mut m = manager_with(1, Some(scalar(0)));
    let prev = hashdict_write(&mut m, ptr(1, 0), &cells(&[10, 20]), scalar(7)).unwrap();
    assert_eq!(prev, scalar(0));
    assert_eq!(hashdict_read(&mut m, ptr(1, 3), &cells(&[10, 20])).unwrap(), scalar(7));
    let pre = get_preimage_for_key(&m, ptr(1, 6), sponge(&[10, 20])).unwrap();
    assert_eq!(pre, vec![scalar(10), scalar(20)]);
    assert_eq!(pre.len(), 2);
    assert_eq!(m.get_tracker(ptr(1, 6)).unwrap().current_ptr(), ptr(1, 6));
}

#[test]
fn write_returns_previous_value() {
    let mut m = manager_with(1, None);
    m.insert_value(1, &DictKey::Compound(vec![scalar(1)]), scalar(5));
    assert_eq!(hashdict_write(&mut m, ptr(1, 0), &cells(&[1]), scalar(6)).unwrap(), scalar(5));
    assert_eq!(hashdict_read(&mut m, ptr(1, 3), &cells(&[1])).unwrap(), scalar(6));
}

#[test]
fn read_of_missing_key_without_default_fails_after_logging() {
    let mut m = manager_with(2, None);
    assert_eq!(hashdict_read(&mut m, ptr(2, 0), &cells(&[1, 2])).unwrap_err(), HintError::KeyNotFound);
    assert_eq!(m.get_tracker(ptr(2, 3)).unwrap().current_ptr(), ptr(2, 3));
    assert_eq!(hashdict_write(&mut m, ptr(2, 3), &cells(&[1, 2]), scalar(1)).unwrap_err(), HintError::KeyNotFound);
    assert_eq!(m.get_tracker(ptr(2, 6)).unwrap().len(), 0);
}

#[test]
fn read_with_unknown_key_cell_fails_after_logging() {
    let mut m = manager_with(2, Some(scalar(0)));
    let c = vec![Some(scalar(1)), None];
    assert_eq!(hashdict_read(&mut m, ptr(2, 0), &c).unwrap_err(), HintError::UnknownMemoryCell(1));
    assert!(m.get_tracker(ptr(2, 3)).is_ok());
}

#[test]
fn pointer_errors_change_nothing() {
    let mut m = manager_with(2, Some(scalar(0)));
    assert_eq!(hashdict_read(&mut m, ptr(5, 0), &cells(&[1])).unwrap_err(), HintError::NoDictTracker(5));
    assert_eq!(
        hashdict_read(&mut m, ptr(2, 4), &cells(&[1])).unwrap_err(),
        HintError::MismatchedDictPtr(ptr(2, 0), ptr(2, 4))
    );
    assert_eq!(m.get_tracker(ptr(2, 0)).unwrap().current_ptr(), ptr(2, 0));
    assert_eq!(m.new_dict(ptr(2, 7), None).unwrap_err(), HintError::TakenSegment(2));
}

#[test]
fn cursor_overflow_is_reported() {
    let mut m = DictManager::new();
    m.new_dict(ptr(1, usize::MAX - 1), None).unwrap();
    assert_eq!(
        hashdict_read(&mut m, ptr(1, usize::MAX - 1), &cells(&[1])).unwrap_err(),
        HintError::CursorOverflow
    );
    assert_eq!(m.get_tracker(ptr(1, usize::MAX - 1)).unwrap().current_ptr(), ptr(1, usize::MAX - 1));
}

#[test]
fn cursor_counts_reads_and_writes() {
    let mut m = manager_with(1, Some(scalar(0)));
    let mut at = 0usize;
    for i in 0..4u64 {
        hashdict_write(&mut m, ptr(1, at), &cells(&[i, 1]), scalar(i)).unwrap();
        at += 3;
        hashdict_read(&mut m, ptr(1, at), &cells(&[i, 1])).unwrap();
        at += 3;
    }
    assert_eq!(m.get_tracker(ptr(1, 24)).unwrap().current_ptr(), ptr(1, 24));
}

#[test]
fn hashed_read_finds_compound_key() {
    let mut m = manager_with(1, None);
    m.insert_value(1, &DictKey::Compound(vec![scalar(3), scalar(4)]), scalar(99));
    m.insert_value(1, &DictKey::Compound(vec![scalar(8)]), scalar(77));
    assert_eq!(hashdict_read_from_key(&m, ptr(1, 0), sponge(&[3, 4])).unwrap(), scalar(99));
    assert_eq!(hashdict_read_from_key(&m, ptr(1, 0), FieldElement::from_u64(8)).unwrap(), scalar(77));
    assert_eq!(m.get_tracker(ptr(1, 0)).unwrap().current_ptr(), ptr(1, 0));
}

#[test]
fn hashed_read_falls_back_to_simple_key() {
    let mut m = manager_with(1, Some(scalar(0)));
    m.insert_value(1, &DictKey::Simple(scalar(55)), scalar(12));
    assert_eq!(hashdict_read_from_key(&m, ptr(1, 0), FieldElement::from_u64(55)).unwrap(), scalar(12));
    assert_eq!(
        hashdict_read_from_key(&m, ptr(1, 0), FieldElement::from_u64(56)).unwrap_err(),
        HintError::ValueNotFound
    );
    // the default is not handed out, nor stored
    assert_eq!(m.get_tracker(ptr(1, 0)).unwrap().len(), 1);
}

#[test]
fn preimage_missing_is_reported() {
    let mut m = manager_with(1, None);
    m.insert_value(1, &DictKey::Simple(scalar(55)), scalar(12));
    assert_eq!(
        get_preimage_for_key(&m, ptr(1, 0), FieldElement::from_u64(55)).unwrap_err(),
        HintError::PreimageNotFound
    );
}

#[test]
fn preimage_is_first_inserted_match() {
    let mut m = manager_with(1, None);
    // both keys hold the single scalar 6, so both hash to 6
    m.insert_value(1, &DictKey::Compound(vec![Value::Relocatable(ptr(9, 9)), scalar(6)]), scalar(1));
    m.insert_value(1, &DictKey::Compound(vec![scalar(6)]), scalar(2));
    let pre = get_preimage_for_key(&m, ptr(1, 0), FieldElement::from_u64(6)).unwrap();
    assert_eq!(pre, vec![Value::Relocatable(ptr(9, 9)), scalar(6)]);
}

#[test]
fn prefix_enumeration_keeps_insertion_order() {
    let mut m = manager_with(1, None);
    m.insert_value(1, &DictKey::Compound(vec![scalar(0xa), scalar(1)]), scalar(1));
    m.insert_value(1, &DictKey::Compound(vec![scalar(0xb), scalar(1)]), scalar(2));
    m.insert_value(1, &DictKey::Compound(vec![scalar(0xa), scalar(2)]), scalar(3));
    m.insert_value(1, &DictKey::Simple(scalar(0xa)), scalar(4));
    let found = get_keys_for_address_prefix(&m, ptr(1, 0), &cells(&[0xa])).unwrap();
    assert_eq!(found, vec![vec![scalar(0xa), scalar(1)], vec![scalar(0xa), scalar(2)]]);
    let none = get_keys_for_address_prefix(&m, ptr(1, 0), &cells(&[0xc])).unwrap();
    assert!(none.is_empty());
    let all = get_keys_for_address_prefix(&m, ptr(1, 0), &cells(&[])).unwrap();
    assert_eq!(all.len(), 3);
    let bad = vec![None];
    assert_eq!(get_keys_for_address_prefix(&m, ptr(1, 0), &bad).unwrap_err(), HintError::UnknownMemoryCell(0));
}

#[test]
fn copy_entry_between_trackers() {
    let mut m = DictManager::new();
    m.new_dict(ptr(1, 0), None).unwrap();
    m.new_dict(ptr(2, 0), None).unwrap();
    m.insert_value(1, &DictKey::Compound(vec![scalar(10), scalar(20)]), scalar(7));
    let h = sponge(&[10, 20]);
    copy_hashdict_tracker_entry(&mut m, ptr(1, 0), ptr(2, 0), h).unwrap();
    assert_eq!(m.get_tracker(ptr(2, 3)).unwrap().current_ptr(), ptr(2, 3));
    assert_eq!(hashdict_read_from_key(&m, ptr(2, 3), h).unwrap(), scalar(7));
    assert_eq!(hashdict_read_from_key(&m, ptr(1, 0), h).unwrap(), scalar(7));
    assert_eq!(m.get_tracker(ptr(1, 0)).unwrap().len(), 1);
    assert_eq!(
        copy_hashdict_tracker_entry(&mut m, ptr(1, 0), ptr(2, 3), FieldElement::from_u64(1)).unwrap_err(),
        HintError::ValueNotFound
    );
    assert_eq!(
        copy_hashdict_tracker_entry(&mut m, ptr(1, 0), ptr(2, 0), h).unwrap_err(),
        HintError::MismatchedDictPtr(ptr(2, 3), ptr(2, 0))
    );
}

#[test]
fn seeding_twice_keeps_keys_and_counts_cursor() {
    let mut m = manager_with(1, None);
    let mut a = [0u8; 20];
    let mut b = [0u8; 20];
    a[0] = 1;
    b[0] = 2;
    let addrs = vec![a, b];
    seed_precompiles(&mut m, ptr(1, 0), &addrs).unwrap();
    assert_eq!(m.get_tracker(ptr(1, 6)).unwrap().len(), 2);
    seed_precompiles(&mut m, ptr(1, 6), &addrs).unwrap();
    let t = m.get_tracker(ptr(1, 12)).unwrap();
    assert_eq!(t.len(), 2);
    assert_eq!(t.peek(&DictKey::Compound(vec![scalar(2)])), Some(scalar(1)));
    assert_eq!(hashdict_read(&mut m, ptr(1, 12), &cells(&[1])).unwrap(), scalar(1));
}

#[test]
fn track_precompiles_seeds_cancun_addresses() {
    let mut m = manager_with(1, None);
    track_precompiles(&mut m, ptr(1, 0)).unwrap();
    let n = revm::precompile::Precompiles::cancun().addresses().len();
    assert_eq!(n, 10);
    assert!(m.get_tracker(ptr(1, 30)).is_ok());
    let t = m.get_tracker(ptr(1, 3 * n)).unwrap();
    assert_eq!(t.len(), n);
    for i in 1..=10u8 {
        let mut addr = [0u8; 20];
        addr[19] = i;
        let k = felt_from_address(&addr);
        assert_eq!(k, FieldElement { d0: 0, d1: (i as u64) << 24, d2: 0, d3: 0 });
        assert_eq!(t.peek(&DictKey::Compound(vec![Value::Int(k)])), Some(scalar(1)));
    }
    let mut first = [0u8; 20];
    first[19] = 1;
    let h = felt_from_address(&first);
    assert_eq!(hashdict_read_from_key(&m, ptr(1, 3 * n), h).unwrap(), scalar(1));
}

#[test]
fn track_precompiles_twice_keeps_keys() {
    let mut m = manager_with(1, None);
    track_precompiles(&mut m, ptr(1, 0)).unwrap();
    track_precompiles(&mut m, ptr(1, 30)).unwrap();
    let t = m.get_tracker(ptr(1, 60)).unwrap();
    assert_eq!(t.len(), 10);
}

#[test]
fn canonical_elements() {
    let h = key_hash(&vec![scalar(10), scalar(20)]);
    // below the prime 2^251 + 17 * 2^192 + 1
    assert!(h.d0 < 0x0800_0000_0000_0011 || (h.d0 == 0x0800_0000_0000_0011 && h.d1 == 0 && h.d2 == 0 && h.d3 == 0));
}
