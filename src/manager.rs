use crate::key::{Address, DictKey, HintError, Value};
use crate::tracker::{view_wf, DictTracker, TrackerView};
use vstd::prelude::*;

verus! {

pub open spec fn seg_of(t: DictTracker) -> isize {
    t@.current_ptr.segment_index
}

/// Each tracker sits under the segment its cursor points into and is well formed.
pub open spec fn manager_view_wf(m: Map<isize, TrackerView>) -> bool {
    forall|s: isize| #[trigger] m.contains_key(s) ==> view_wf(m[s]) && m[s].current_ptr.segment_index == s
}

/// How a dictionary pointer resolves against the trackers.
pub open spec fn check_ptr(m: Map<isize, TrackerView>, dict_ptr: Address) -> Result<(), HintError> {
    let s = dict_ptr.segment_index;
    if !m.contains_key(s) {
        Err(HintError::NoDictTracker(s))
    } else if m[s].current_ptr != dict_ptr {
        Err(HintError::MismatchedDictPtr(m[s].current_ptr, dict_ptr))
    } else {
        Ok(())
    }
}

closed spec fn inv_parts(ts: Seq<DictTracker>, tb: Map<isize, TrackerView>) -> bool {
    &&& forall|i: int| 0 <= i < ts.len() ==> (#[trigger] ts[i]).wf()
    &&& forall|i: int| 0 <= i < ts.len() ==> tb.contains_key(#[trigger] seg_of(ts[i])) && tb[seg_of(ts[i])] == ts[i]@
    &&& forall|i: int, j: int| 0 <= i < j < ts.len() ==> seg_of(ts[i]) != seg_of(ts[j])
    &&& forall|s: isize| #[trigger] tb.contains_key(s) ==> exists|i: int| 0 <= i < ts.len() && seg_of(ts[i]) == s
}

proof fn lemma_parts_view_wf(ts: Seq<DictTracker>, tb: Map<isize, TrackerView>)
    requires
        inv_parts(ts, tb),
    ensures
        manager_view_wf(tb),
{
    assert forall|s: isize| #[trigger] tb.contains_key(s) implies view_wf(tb[s]) && tb[s].current_ptr.segment_index == s by {
        let i = choose|i: int| 0 <= i < ts.len() && seg_of(ts[i]) == s;
        assert(ts[i].wf());
    }
}

proof fn lemma_replace(ts: Seq<DictTracker>, tb: Map<isize, TrackerView>, i: int, t: DictTracker)
    requires
        inv_parts(ts, tb),
        0 <= i < ts.len(),
        t.wf(),
        seg_of(t) == seg_of(ts[i]),
    ensures
        inv_parts(ts.update(i, t), tb.insert(seg_of(t), t@)),
{
    let nts = ts.update(i, t);
    let ntb = tb.insert(seg_of(t), t@);
    assert forall|k: int| 0 <= k < nts.len() implies ntb.contains_key(#[trigger] seg_of(nts[k])) && ntb[seg_of(nts[k])] == nts[k]@ by {
        if k != i {
            assert(seg_of(ts[k]) != seg_of(ts[i]));
        }
    }
    assert forall|s: isize| #[trigger] ntb.contains_key(s) implies exists|k: int| 0 <= k < nts.len() && seg_of(nts[k]) == s by {
        if s == seg_of(t) {
            assert(seg_of(nts[i]) == s);
        } else {
            let k = choose|k: int| 0 <= k < ts.len() && seg_of(ts[k]) == s;
            assert(seg_of(nts[k]) == s);
        }
    }
}

/// The trackers of one execution scope, indexed by the segment of their records.
pub struct DictManager {
    trackers: Vec<DictTracker>,
    table: Ghost<Map<isize, TrackerView>>,
}

impl View for DictManager {
    type V = Map<isize, TrackerView>;

    closed spec fn view(&self) -> Map<isize, TrackerView> {
        self.table@
    }
}

impl DictManager {
    pub closed spec fn inv(&self) -> bool {
        inv_parts(self.trackers@, self.table@)
    }

    pub open spec fn wf(&self) -> bool {
        self.inv() && manager_view_wf(self@)
    }

    pub fn new() -> (r: DictManager)
        ensures
            r.wf(),
            r@ == Map::<isize, TrackerView>::empty(),
    {
        DictManager { trackers: Vec::new(), table: Ghost(Map::empty()) }
    }

    fn index_of(&self, s: isize) -> (r: Option<usize>)
        requires
            self.wf(),
        ensures
            r is None ==> !self@.contains_key(s),
            r is Some ==> r->Some_0 < self.trackers.len() && seg_of(self.trackers@[r->Some_0 as int]) == s,
    {
        let mut i: usize = 0;
        while i < self.trackers.len()
            invariant
                self.wf(),
                i <= self.trackers.len(),
                forall|j: int| 0 <= j < i ==> seg_of(self.trackers@[j]) != s,
            decreases self.trackers.len() - i,
        {
            if self.trackers[i].current_ptr().segment_index == s {
                return Some(i);
            }
            i = i + 1;
        }
        None
    }

    /// Opens a dictionary whose records start at `base`; fails where the segment has one.
    pub fn new_dict(&mut self, base: Address, default_value: Option<Value>) -> (r: Result<(), HintError>)
        requires
            old(self).wf(),
        ensures
            final(self).wf(),
            old(self)@.contains_key(base.segment_index) ==> r == Err::<(), HintError>(
                HintError::TakenSegment(base.segment_index),
            ) && final(self)@ == old(self)@,
            !old(self)@.contains_key(base.segment_index) ==> r is Ok && final(self)@ == old(self)@.insert(
                base.segment_index,
                TrackerView::empty(base, default_value),
            ),
    {
        if self.index_of(base.segment_index).is_some() {
            return Err(HintError::TakenSegment(base.segment_index));
        }
        let t = DictTracker::new_with_default(base, default_value);
        let ghost ts = self.trackers@;
        let ghost tb = self.table@;
        self.trackers.push(t);
        proof {
            self.table@ = self.table@.insert(base.segment_index, t@);
            let nts = self.trackers@;
            assert forall|i: int| 0 <= i < nts.len() implies self.table@.contains_key(#[trigger] seg_of(nts[i]))
                && self.table@[seg_of(nts[i])] == nts[i]@ by {
                if i < ts.len() {
                    assert(nts[i] == ts[i]);
                    assert(tb.contains_key(seg_of(ts[i])));
                }
            }
            assert forall|i: int, j: int| 0 <= i < j < nts.len() implies seg_of(nts[i]) != seg_of(nts[j]) by {
                if j == ts.len() {
                    assert(tb.contains_key(seg_of(ts[i])));
                }
            }
            assert forall|s: isize| #[trigger] self.table@.contains_key(s) implies exists|i: int|
                0 <= i < nts.len() && seg_of(nts[i]) == s by {
                if s == base.segment_index {
                    assert(seg_of(nts[ts.len() as int]) == s);
                } else {
                    let k = choose|k: int| 0 <= k < ts.len() && seg_of(ts[k]) == s;
                    assert(seg_of(nts[k]) == s);
                }
            }
            lemma_parts_view_wf(self.trackers@, self.table@);
        }
        Ok(())
    }

    /// Resolves a dictionary pointer: the tracker of its segment, whose cursor must equal it.
    pub fn check(&self, dict_ptr: Address) -> (r: Result<(), HintError>)
        requires
            self.wf(),
        ensures
            r == check_ptr(self@, dict_ptr),
    {
        match self.index_of(dict_ptr.segment_index) {
            None => Err(HintError::NoDictTracker(dict_ptr.segment_index)),
            Some(i) => {
                let cur = self.trackers[i].current_ptr();
                if cur != dict_ptr {
                    Err(HintError::MismatchedDictPtr(cur, dict_ptr))
                } else {
                    Ok(())
                }
            },
        }
    }

    /// The tracker that a dictionary pointer resolves to.
    pub fn get_tracker(&self, dict_ptr: Address) -> (r: Result<&DictTracker, HintError>)
        requires
            self.wf(),
        ensures
            check_ptr(self@, dict_ptr) is Err ==> r is Err && r->Err_0 == check_ptr(self@, dict_ptr)->Err_0,
            check_ptr(self@, dict_ptr) is Ok ==> r is Ok && r->Ok_0.wf() && r->Ok_0@ == self@[dict_ptr.segment_index],
    {
        match self.index_of(dict_ptr.segment_index) {
            None => Err(HintError::NoDictTracker(dict_ptr.segment_index)),
            Some(i) => {
                let t = &self.trackers[i];
                let cur = t.current_ptr();
                if cur != dict_ptr {
                    Err(HintError::MismatchedDictPtr(cur, dict_ptr))
                } else {
                    Ok(t)
                }
            },
        }
    }

    /// Takes out the tracker of segment `s` to change it; `restore` puts it back.
    fn take(&mut self, s: isize) -> (r: (usize, DictTracker))
        requires
            old(self).wf(),
            old(self)@.contains_key(s),
        ensures
            r.0 < old(self).trackers.len(),
            r.1 == old(self).trackers@[r.0 as int],
            r.1.wf(),
            r.1@ == old(self)@[s],
            seg_of(r.1) == s,
            final(self).trackers@ == old(self).trackers@.remove(r.0 as int),
            final(self).table@ == old(self).table@,
    {
        let i = self.index_of(s).unwrap();
        let t = self.trackers.remove(i);
        (i, t)
    }

    fn restore(&mut self, i: usize, t: DictTracker, Ghost(prev): Ghost<Seq<DictTracker>>)
        requires
            inv_parts(prev, old(self).table@),
            i < prev.len(),
            old(self).trackers@ == prev.remove(i as int),
            t.wf(),
            seg_of(t) == seg_of(prev[i as int]),
        ensures
            final(self).wf(),
            final(self)@ == old(self)@.insert(seg_of(t), t@),
    {
        self.trackers.insert(i, t);
        proof {
            assert(self.trackers@ =~= prev.update(i as int, t));
            lemma_replace(prev, self.table@, i as int, t);
            self.table@ = self.table@.insert(seg_of(t), t@);
            lemma_parts_view_wf(self.trackers@, self.table@);
        }
    }

    /// Moves the cursor of segment `s` on by `n` access records.
    pub fn advance(&mut self, s: isize, n: usize) -> (r: Result<(), HintError>)
        requires
            old(self).wf(),
            old(self)@.contains_key(s),
        ensures
            final(self).wf(),
            old(self)@[s].can_advance(n as nat) ==> r is Ok && final(self)@ == old(self)@.insert(
                s,
                old(self)@[s].advanced(n as nat),
            ),
            !old(self)@[s].can_advance(n as nat) ==> r == Err::<(), HintError>(HintError::CursorOverflow)
                && final(self)@ == old(self)@,
    {
        let ghost prev = self.trackers@;
        let (i, mut t) = self.take(s);
        let r = t.advance(n);
        self.restore(i, t, Ghost(prev));
        proof {
            if r is Err {
                assert(self@ =~= old(self)@);
            }
        }
        r
    }

    /// Reads `k` in segment `s`; a dictionary with a default stores it under an absent key.
    pub fn get_value(&mut self, s: isize, k: &DictKey) -> (r: Result<Value, HintError>)
        requires
            old(self).wf(),
            old(self)@.contains_key(s),
        ensures
            final(self).wf(),
            final(self)@ == old(self)@.insert(s, old(self)@[s].touch(k@)),
            r == (match old(self)@[s].lookup(k@) {
                Some(v) => Ok::<Value, HintError>(v),
                None => Err(HintError::KeyNotFound),
            }),
    {
        let ghost prev = self.trackers@;
        let (i, mut t) = self.take(s);
        let r = t.get_value(k);
        self.restore(i, t, Ghost(prev));
        r
    }

    /// Maps `k` to `v` in segment `s`.
    pub fn insert_value(&mut self, s: isize, k: &DictKey, v: Value)
        requires
            old(self).wf(),
            old(self)@.contains_key(s),
        ensures
            final(self).wf(),
            final(self)@ == old(self)@.insert(s, old(self)@[s].insert(k@, v)),
    {
        let ghost prev = self.trackers@;
        let (i, mut t) = self.take(s);
        t.insert_value(k, v);
        self.restore(i, t, Ghost(prev));
    }
}

} // verus!
