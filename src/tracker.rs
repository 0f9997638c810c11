use crate::key::{Address, DictKey, HintError, KeyView, Value};
use vstd::prelude::*;

verus! {

/// The number of memory cells that one logged dictionary access takes.
pub const DICT_ACCESS_SIZE: usize = 3;

/// The mathematical form of a tracker: its keys in order of first insertion, the
/// mapping, the value handed out for absent keys (if any), and the cursor.
pub struct TrackerView {
    pub order: Seq<KeyView>,
    pub map: Map<KeyView, Value>,
    pub default_value: Option<Value>,
    pub current_ptr: Address,
}

/// Each key stands once in the order, and the order lists exactly the mapped keys.
pub open spec fn view_wf(t: TrackerView) -> bool {
    &&& t.order.no_duplicates()
    &&& forall|k: KeyView| #[trigger] t.map.contains_key(k) <==> t.order.contains(k)
}

impl TrackerView {
    pub open spec fn empty(base: Address, default_value: Option<Value>) -> TrackerView {
        TrackerView { order: Seq::empty(), map: Map::empty(), default_value, current_ptr: base }
    }

    /// What a read of `k` yields: the mapped value, else the default.
    pub open spec fn lookup(self, k: KeyView) -> Option<Value> {
        if self.map.contains_key(k) {
            Some(self.map[k])
        } else {
            self.default_value
        }
    }

    /// Maps `k` to `v`; a new key goes to the end of the order.
    pub open spec fn insert(self, k: KeyView, v: Value) -> TrackerView {
        TrackerView {
            order: if self.map.contains_key(k) { self.order } else { self.order.push(k) },
            map: self.map.insert(k, v),
            default_value: self.default_value,
            current_ptr: self.current_ptr,
        }
    }

    /// The tracker after a read of `k`: a dictionary with a default stores it under an absent key.
    pub open spec fn touch(self, k: KeyView) -> TrackerView {
        if !self.map.contains_key(k) && self.default_value is Some {
            self.insert(k, self.default_value->Some_0)
        } else {
            self
        }
    }

    /// The cursor moved on by `n` access records.
    pub open spec fn advanced(self, n: nat) -> TrackerView {
        TrackerView {
            order: self.order,
            map: self.map,
            default_value: self.default_value,
            current_ptr: Address {
                segment_index: self.current_ptr.segment_index,
                offset: (self.current_ptr.offset + n * DICT_ACCESS_SIZE) as usize,
            },
        }
    }

    /// Whether the cursor can move on by `n` records without leaving the offsets.
    pub open spec fn can_advance(self, n: nat) -> bool {
        self.current_ptr.offset + n * DICT_ACCESS_SIZE <= usize::MAX
    }
}

pub proof fn lemma_insert_wf(t: TrackerView, k: KeyView, v: Value)
    requires
        view_wf(t),
    ensures
        view_wf(t.insert(k, v)),
{
    let n = t.insert(k, v);
    if !t.map.contains_key(k) {
        assert forall|x: KeyView| #[trigger] n.map.contains_key(x) <==> n.order.contains(x) by {
            if x != k {
                if t.order.contains(x) {
                    let i = choose|i: int| 0 <= i < t.order.len() && t.order[i] == x;
                    assert(n.order[i] == x);
                }
                if n.order.contains(x) {
                    let i = choose|i: int| 0 <= i < n.order.len() && n.order[i] == x;
                    assert(t.order[i] == x);
                }
            } else {
                assert(n.order[t.order.len() as int] == k);
            }
        }
    }
}

/// One dictionary and its access cursor.
pub struct DictTracker {
    keys: Vec<DictKey>,
    values: Vec<Value>,
    default_value: Option<Value>,
    current_ptr: Address,
    contents: Ghost<Map<KeyView, Value>>,
}

impl View for DictTracker {
    type V = TrackerView;

    closed spec fn view(&self) -> TrackerView {
        TrackerView {
            order: self.keys@.map_values(|k: DictKey| k@),
            map: self.contents@,
            default_value: self.default_value,
            current_ptr: self.current_ptr,
        }
    }
}

impl DictTracker {
    pub closed spec fn inv(&self) -> bool {
        &&& self.keys.len() == self.values.len()
        &&& forall|i: int|
            0 <= i < self.keys.len() ==> self.contents@[#[trigger] self.keys@[i]@] == self.values@[i]
    }

    pub open spec fn wf(&self) -> bool {
        self.inv() && view_wf(self@)
    }

    /// A dictionary without a default, whose records start at `base`.
    pub fn new(base: Address) -> (r: DictTracker)
        ensures
            r.wf(),
            r@ == TrackerView::empty(base, None),
    {
        DictTracker::new_with_default(base, None)
    }

    /// A dictionary that hands out `default_value` (if any) for absent keys.
    pub fn new_with_default(base: Address, default_value: Option<Value>) -> (r: DictTracker)
        ensures
            r.wf(),
            r@ == TrackerView::empty(base, default_value),
    {
        let r = DictTracker {
            keys: Vec::new(),
            values: Vec::new(),
            default_value,
            current_ptr: base,
            contents: Ghost(Map::empty()),
        };
        assert(r@.order =~= Seq::<KeyView>::empty());
        r
    }

    pub fn current_ptr(&self) -> (r: Address)
        ensures
            r == self@.current_ptr,
    {
        self.current_ptr
    }

    pub fn len(&self) -> (r: usize)
        requires
            self.wf(),
        ensures
            r == self@.order.len(),
    {
        self.keys.len()
    }

    pub fn key_at(&self, i: usize) -> (r: &DictKey)
        requires
            self.wf(),
            i < self@.order.len(),
        ensures
            r@ == self@.order[i as int],
    {
        &self.keys[i]
    }

    pub fn value_at(&self, i: usize) -> (r: Value)
        requires
            self.wf(),
            i < self@.order.len(),
        ensures
            r == self@.map[self@.order[i as int]],
    {
        self.values[i]
    }

    /// The position of `k` in the order, if it is mapped.
    pub fn find(&self, k: &DictKey) -> (r: Option<usize>)
        requires
            self.wf(),
        ensures
            r is None ==> !self@.map.contains_key(k@),
            r is Some ==> r->Some_0 < self@.order.len() && self@.order[r->Some_0 as int] == k@,
    {
        let mut i: usize = 0;
        while i < self.keys.len()
            invariant
                self.wf(),
                i <= self.keys.len(),
                forall|j: int| 0 <= j < i ==> self@.order[j] != k@,
            decreases self.keys.len() - i,
        {
            if self.keys[i].same_as(k) {
                return Some(i);
            }
            i = i + 1;
        }
        assert(!self@.order.contains(k@));
        None
    }

    /// What a read of `k` yields, without storing a default.
    pub fn peek(&self, k: &DictKey) -> (r: Option<Value>)
        requires
            self.wf(),
        ensures
            r == self@.lookup(k@),
    {
        match self.find(k) {
            Some(i) => Some(self.values[i]),
            None => self.default_value,
        }
    }

    /// The value stored under `k`, ignoring any default.
    pub fn stored(&self, k: &DictKey) -> (r: Option<Value>)
        requires
            self.wf(),
        ensures
            r == (if self@.map.contains_key(k@) { Some(self@.map[k@]) } else { None::<Value> }),
    {
        match self.find(k) {
            Some(i) => Some(self.values[i]),
            None => None,
        }
    }

    /// Maps `k` to `v`.
    pub fn insert_value(&mut self, k: &DictKey, v: Value)
        requires
            old(self).wf(),
        ensures
            final(self).wf(),
            final(self)@ == old(self)@.insert(k@, v),
    {
        proof {
            lemma_insert_wf(self@, k@, v);
        }
        let ghost before = self@;
        match self.find(k) {
            Some(i) => {
                self.values.set(i, v);
                proof {
                    self.contents@ = self.contents@.insert(k@, v);
                    assert forall|j: int| 0 <= j < self.keys.len() implies self.contents@[#[trigger] self.keys@[j]@]
                        == self.values@[j] by {
                        if j != i {
                            assert(before.order[j] != before.order[i as int]);
                        }
                    }
                }
            },
            None => {
                self.keys.push(k.duplicate());
                self.values.push(v);
                proof {
                    self.contents@ = self.contents@.insert(k@, v);
                    assert forall|j: int| 0 <= j < self.keys.len() implies self.contents@[#[trigger] self.keys@[j]@]
                        == self.values@[j] by {
                        if j < self.keys.len() - 1 {
                            assert(before.order[j] == self.keys@[j]@);
                            assert(before.order.contains(self.keys@[j]@));
                        }
                    }
                }
            },
        }
        assert(self@.order =~= before.insert(k@, v).order);
    }

    /// Reads `k`; a dictionary with a default stores it under an absent key.
    pub fn get_value(&mut self, k: &DictKey) -> (r: Result<Value, HintError>)
        requires
            old(self).wf(),
        ensures
            final(self).wf(),
            final(self)@ == old(self)@.touch(k@),
            r == (match old(self)@.lookup(k@) {
                Some(v) => Ok::<Value, HintError>(v),
                None => Err(HintError::KeyNotFound),
            }),
    {
        match self.find(k) {
            Some(i) => Ok(self.values[i]),
            None => match self.default_value {
                Some(d) => {
                    self.insert_value(k, d);
                    Ok(d)
                },
                None => Err(HintError::KeyNotFound),
            },
        }
    }

    /// Moves the cursor on by `n` access records; fails, changing nothing, where the
    /// offset would overflow.
    pub fn advance(&mut self, n: usize) -> (r: Result<(), HintError>)
        requires
            old(self).wf(),
        ensures
            final(self).wf(),
            old(self)@.can_advance(n as nat) ==> r is Ok && final(self)@ == old(self)@.advanced(n as nat),
            !old(self)@.can_advance(n as nat) ==> r == Err::<(), HintError>(HintError::CursorOverflow)
                && final(self)@ == old(self)@,
    {
        match n.checked_mul(DICT_ACCESS_SIZE) {
            None => Err(HintError::CursorOverflow),
            Some(w) => match self.current_ptr.offset.checked_add(w) {
                None => Err(HintError::CursorOverflow),
                Some(o) => {
                    self.current_ptr.offset = o;
                    Ok(())
                },
            },
        }
    }
}

} // verus!
