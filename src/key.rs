use crate::felt::FieldElement;
use vstd::prelude::*;

verus! {

/// A reference into VM memory: a segment and an offset within it.
#[derive(Clone, Copy, Debug, PartialEq, Eq, Structural)]
pub struct Address {
    pub segment_index: isize,
    pub offset: usize,
}

/// The content of a memory cell: a field scalar or an address.
#[derive(Clone, Copy, Debug, PartialEq, Eq, Structural)]
pub enum Value {
    Int(FieldElement),
    Relocatable(Address),
}

/// A dictionary key: one value, or an ordered sequence of values.
#[derive(Clone, Debug)]
pub enum DictKey {
    Simple(Value),
    Compound(Vec<Value>),
}

/// The mathematical form of a key.
pub enum KeyView {
    Simple(Value),
    Compound(Seq<Value>),
}

impl View for DictKey {
    type V = KeyView;

    open spec fn view(&self) -> KeyView {
        match self {
            DictKey::Simple(v) => KeyView::Simple(*v),
            DictKey::Compound(vs) => KeyView::Compound(vs@),
        }
    }
}

/// The ways a dictionary operation fails.
#[derive(Clone, Copy, Debug, PartialEq, Eq, Structural)]
pub enum HintError {
    /// No tracker is open on this segment.
    NoDictTracker(isize),
    /// The tracker's cursor (first) differs from the pointer given (second).
    MismatchedDictPtr(Address, Address),
    /// A tracker already exists on this segment.
    TakenSegment(isize),
    /// The cell at this position of a range read from memory was never written.
    UnknownMemoryCell(usize),
    /// The key has no value and the dictionary has no default.
    KeyNotFound,
    /// Neither the key found by hash nor the fallback key has a value.
    ValueNotFound,
    /// No compound key hashes to the value given.
    PreimageNotFound,
    /// Advancing the cursor would leave the range of offsets.
    CursorOverflow,
}

/// Whether every cell of the range is initialised.
pub open spec fn all_known(cells: Seq<Option<Value>>) -> bool {
    forall|i: int| 0 <= i < cells.len() ==> (#[trigger] cells[i]).is_some()
}

/// The position of the first uninitialised cell.
pub open spec fn first_unknown(cells: Seq<Option<Value>>, i: int) -> bool {
    &&& 0 <= i < cells.len()
    &&& cells[i].is_none()
    &&& forall|j: int| 0 <= j < i ==> (#[trigger] cells[j]).is_some()
}

/// The values of a range of cells known to be initialised.
pub open spec fn known_values(cells: Seq<Option<Value>>) -> Seq<Value> {
    cells.map_values(|c: Option<Value>| c.unwrap())
}

/// Reads a range of cells, in order, into a sequence of values; fails at the first
/// uninitialised cell.
pub fn read_values(cells: &Vec<Option<Value>>) -> (r: Result<Vec<Value>, HintError>)
    ensures
        all_known(cells@) ==> r is Ok && r->Ok_0@ == known_values(cells@),
        !all_known(cells@) ==> exists|i: int|
            first_unknown(cells@, i) && r == Err::<Vec<Value>, HintError>(HintError::UnknownMemoryCell(i as usize)),
{
    let mut out: Vec<Value> = Vec::new();
    let mut i: usize = 0;
    while i < cells.len()
        invariant
            i <= cells.len(),
            forall|j: int| 0 <= j < i ==> (#[trigger] cells@[j]).is_some(),
            out@ == known_values(cells@.subrange(0, i as int)),
        decreases cells.len() - i,
    {
        match cells[i] {
            Some(v) => {
                out.push(v);
            },
            None => {
                assert(first_unknown(cells@, i as int));
                return Err(HintError::UnknownMemoryCell(i));
            },
        }
        i = i + 1;
        assert(known_values(cells@.subrange(0, i as int)) =~= out@);
    }
    assert(cells@.subrange(0, i as int) =~= cells@);
    Ok(out)
}

/// Builds a compound key from a range of memory cells, in order.
pub fn build_compound_key(cells: &Vec<Option<Value>>) -> (r: Result<DictKey, HintError>)
    ensures
        all_known(cells@) ==> r is Ok && r->Ok_0@ == KeyView::Compound(known_values(cells@)),
        !all_known(cells@) ==> exists|i: int|
            first_unknown(cells@, i) && r == Err::<DictKey, HintError>(HintError::UnknownMemoryCell(i as usize)),
{
    match read_values(cells) {
        Ok(vs) => Ok(DictKey::Compound(vs)),
        Err(e) => Err(e),
    }
}

/// Copies a sequence of values.
pub fn copy_values(vs: &Vec<Value>) -> (r: Vec<Value>)
    ensures
        r@ == vs@,
{
    let mut out: Vec<Value> = Vec::new();
    let mut i: usize = 0;
    while i < vs.len()
        invariant
            i <= vs.len(),
            out@ == vs@.subrange(0, i as int),
        decreases vs.len() - i,
    {
        out.push(vs[i]);
        i = i + 1;
        assert(out@ =~= vs@.subrange(0, i as int));
    }
    assert(vs@.subrange(0, i as int) =~= vs@);
    out
}

impl DictKey {
    /// A copy of this key.
    pub fn duplicate(&self) -> (r: DictKey)
        ensures
            r@ == self@,
    {
        match self {
            DictKey::Simple(v) => DictKey::Simple(*v),
            DictKey::Compound(vs) => DictKey::Compound(copy_values(vs)),
        }
    }

    /// Structural equality of keys: same variant and same contents.
    pub fn same_as(&self, other: &DictKey) -> (r: bool)
        ensures
            r == (self@ == other@),
    {
        match (self, other) {
            (DictKey::Simple(a), DictKey::Simple(b)) => *a == *b,
            (DictKey::Compound(a), DictKey::Compound(b)) => {
                if a.len() != b.len() {
                    assert(a@.len() != b@.len());
                    assert(self@ != other@);
                    return false;
                }
                let mut i: usize = 0;
                while i < a.len()
                    invariant
                        a.len() == b.len(),
                        i <= a.len(),
                        self@ == KeyView::Compound(a@),
                        other@ == KeyView::Compound(b@),
                        forall|j: int| 0 <= j < i ==> a@[j] == b@[j],
                    decreases a.len() - i,
                {
                    if a[i] != b[i] {
                        assert(a@[i as int] != b@[i as int]);
                        assert(self@ != other@);
                        return false;
                    }
                    i = i + 1;
                }
                assert(a@ =~= b@);
                true
            },
            _ => false,
        }
    }
}

} // verus!
