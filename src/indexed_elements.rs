//! The indexed (array) part of an object: a dense vector of values that can
//! be downgraded, once, to a sparse map keyed by index.
use crate::heap::{GcCell, SlotVisitor, Trace};
use std::collections::HashMap;
use vstd::prelude::*;

verus! {

broadcast use vstd::std_specs::hash::group_hash_axioms;

/// Encoding of the value that marks a hole in the dense vector.
pub const EMPTY_VALUE_BITS: u64 = 0;

/// Attribute bits of an ordinary data property: writable, enumerable and
/// configurable.
pub const OBJECT_DATA_ATTRS: u32 = 7;

/// The number of distinct `u32` indices.
pub open spec fn index_count() -> nat {
    0x1_0000_0000
}

/// An encoded language value.
#[derive(Clone, Copy, PartialEq, Eq, Structural, Debug)]
pub struct JsValue {
    pub bits: u64,
}

impl JsValue {
    pub open spec fn empty(&self) -> bool {
        self.bits == EMPTY_VALUE_BITS
    }

    /// The value that marks a hole.
    pub fn encode_empty_value() -> (r: JsValue)
        ensures
            r.empty(),
    {
        JsValue { bits: EMPTY_VALUE_BITS }
    }

    pub fn is_empty(&self) -> (r: bool)
        ensures
            r == self.empty(),
    {
        self.bits == EMPTY_VALUE_BITS
    }
}

/// A value stored with its attribute bits.
#[derive(Clone, Copy, PartialEq, Eq, Structural, Debug)]
pub struct StoredSlot {
    pub value: JsValue,
    pub attributes: u32,
}

impl StoredSlot {
    pub fn new_raw(value: JsValue, attributes: u32) -> (r: StoredSlot)
        ensures
            r == (StoredSlot { value, attributes }),
    {
        StoredSlot { value, attributes }
    }
}

/// The sparse map after moving the first `n` values of `v` into `m`: each
/// one that is not a hole, under its index, as an ordinary data property.
pub open spec fn moved_to_sparse(m: Map<u32, StoredSlot>, v: Seq<JsValue>, n: int) -> Map<
    u32,
    StoredSlot,
>
    decreases n,
{
    if n <= 0 {
        m
    } else {
        let p = moved_to_sparse(m, v, n - 1);
        if !v[n - 1].empty() {
            p.insert((n - 1) as u32, StoredSlot { value: v[n - 1], attributes: OBJECT_DATA_ATTRS })
        } else {
            p
        }
    }
}

/// The indexed storage of an object.
pub struct IndexedElements {
    map: Option<HashMap<u32, StoredSlot>>,
    vector: Vec<JsValue>,
    length: u32,
    dense: bool,
    writable: bool,
}

impl IndexedElements {
    /// The dense vector.
    pub closed spec fn dense_values(&self) -> Seq<JsValue> {
        self.vector@
    }

    /// The sparse map, once one has been made.
    pub closed spec fn sparse_map(&self) -> Option<Map<u32, StoredSlot>> {
        match self.map {
            Some(m) => Some(m@),
            None => None,
        }
    }

    /// The sparse map, empty before one has been made.
    pub open spec fn sparse_entries(&self) -> Map<u32, StoredSlot> {
        match self.sparse_map() {
            Some(m) => m,
            None => Map::empty(),
        }
    }

    pub closed spec fn spec_length(&self) -> u32 {
        self.length
    }

    pub closed spec fn is_dense(&self) -> bool {
        self.dense
    }

    pub closed spec fn is_writable(&self) -> bool {
        self.writable
    }

    /// Every index of the dense vector fits in a `u32`, the type of the
    /// sparse map's keys.
    pub open spec fn wf(&self) -> bool {
        self.dense_values().len() <= index_count()
    }

    /// Empty, dense and writable storage.
    pub fn new() -> (r: IndexedElements)
        ensures
            r.wf(),
            r.dense_values() == Seq::<JsValue>::empty(),
            r.sparse_map() is None,
            r.spec_length() == 0,
            r.is_dense(),
            r.is_writable(),
    {
        IndexedElements {
            length: 0,
            dense: true,
            writable: true,
            vector: Vec::new(),
            map: None,
        }
    }

    /// Appends `value` to the dense vector.
    pub fn push_dense(&mut self, value: JsValue)
        requires
            old(self).wf(),
            old(self).dense_values().len() < index_count(),
        ensures
            final(self).wf(),
            final(self).dense_values() == old(self).dense_values().push(value),
            final(self).sparse_map() == old(self).sparse_map(),
            final(self).spec_length() == old(self).spec_length(),
            final(self).is_dense() == old(self).is_dense(),
            final(self).is_writable() == old(self).is_writable(),
    {
        self.vector.push(value);
    }

    /// The dense vector.
    pub fn vector(&self) -> (r: &Vec<JsValue>)
        ensures
            r@ == self.dense_values(),
    {
        &self.vector
    }

    /// The sparse map, once one has been made.
    pub fn map(&self) -> (r: Option<&HashMap<u32, StoredSlot>>)
        ensures
            r is Some == self.sparse_map() is Some,
            r is Some ==> r->Some_0@ == self.sparse_map()->Some_0,
    {
        match &self.map {
            Some(m) => Some(m),
            None => None,
        }
    }

    /// Moves every value that is not a hole from the dense vector into the
    /// sparse map, under its index, then empties every slot of the vector.
    /// There is no way back: values never return to the vector.
    pub fn make_sparse(&mut self)
        requires
            old(self).wf(),
        ensures
            final(self).wf(),
            !final(self).is_dense(),
            final(self).sparse_map() == Some(
                moved_to_sparse(
                    old(self).sparse_entries(),
                    old(self).dense_values(),
                    old(self).dense_values().len() as int,
                ),
            ),
            final(self).dense_values().len() == old(self).dense_values().len(),
            forall|i: int| 0 <= i < final(self).dense_values().len() ==> #[trigger] final(self).dense_values()[i].empty(),
            forall|i: int|
                0 <= i < old(self).dense_values().len() && !old(self).dense_values()[i].empty()
                    ==> #[trigger] final(self).sparse_entries().contains_key(i as u32)
                    && final(self).sparse_entries()[i as u32] == (StoredSlot {
                    value: old(self).dense_values()[i],
                    attributes: OBJECT_DATA_ATTRS,
                }),
            forall|k: u32|
                (k >= old(self).dense_values().len() || old(self).dense_values()[k as int].empty())
                    ==> (#[trigger] final(self).sparse_entries().contains_key(k)
                    == old(self).sparse_entries().contains_key(k) && (old(self).sparse_entries().contains_key(k)
                    ==> final(self).sparse_entries()[k] == old(self).sparse_entries()[k])),
            final(self).spec_length() == old(self).spec_length(),
            final(self).is_writable() == old(self).is_writable(),
    {
        self.dense = false;
        let ghost m0 = self.sparse_entries();
        let sparse = self.ensure_map();
        let mut map = HashMap::new();
        std::mem::swap(&mut map, sparse);
        let ghost v = self.vector@;
        let mut i: usize = 0;
        while i < self.vector.len()
            invariant
                self.vector@ == v,
                v.len() <= index_count(),
                !self.dense,
                self.writable == old(self).writable,
                self.length == old(self).length,
                i <= v.len(),
                map@ == moved_to_sparse(m0, v, i as int),
            decreases v.len() - i,
        {
            if !self.vector[i].is_empty() {
                map.insert(i as u32, StoredSlot::new_raw(self.vector[i], OBJECT_DATA_ATTRS));
            }
            i = i + 1;
        }
        let mut j: usize = 0;
        while j < self.vector.len()
            invariant
                self.vector@.len() == v.len(),
                v.len() <= index_count(),
                !self.dense,
                self.writable == old(self).writable,
                self.length == old(self).length,
                j <= v.len(),
                forall|k: int| 0 <= k < j ==> #[trigger] self.vector@[k].empty(),
            decreases v.len() - j,
        {
            self.vector.set(j, JsValue::encode_empty_value());
            j = j + 1;
        }
        self.map = Some(map);
        proof {
            lemma_moved_to_sparse(m0, v, v.len() as int);
        }
    }

    /// Marks the storage dense and drops the sparse map.
    pub fn make_dense(&mut self)
        ensures
            final(self).is_dense(),
            final(self).sparse_map() is None,
            final(self).dense_values() == old(self).dense_values(),
            final(self).spec_length() == old(self).spec_length(),
            final(self).is_writable() == old(self).is_writable(),
            final(self).wf() == old(self).wf(),
    {
        self.dense = true;
        self.map = None;
    }

    /// The sparse map, made empty on first need and reused afterwards.
    pub fn ensure_map(&mut self) -> (r: &mut HashMap<u32, StoredSlot>)
        ensures
            r@ == old(self).sparse_entries(),
            final(self).sparse_map() == Some(final(r)@),
            final(self).dense_values() == old(self).dense_values(),
            final(self).spec_length() == old(self).spec_length(),
            final(self).is_dense() == old(self).is_dense(),
            final(self).is_writable() == old(self).is_writable(),
            final(self).wf() == old(self).wf(),
    {
        if self.map.is_none() {
            self.map = Some(HashMap::with_capacity(8));
        }
        self.map.get_or_insert(HashMap::new())
    }

    pub fn length(&self) -> (r: u32)
        ensures
            r == self.spec_length(),
    {
        self.length
    }

    /// Sets the logical length, which need not match the storage.
    pub fn set_length(&mut self, len: u32)
        ensures
            final(self).spec_length() == len,
            final(self).dense_values() == old(self).dense_values(),
            final(self).sparse_map() == old(self).sparse_map(),
            final(self).is_dense() == old(self).is_dense(),
            final(self).is_writable() == old(self).is_writable(),
            final(self).wf() == old(self).wf(),
    {
        self.length = len;
    }

    pub fn dense(&self) -> (r: bool)
        ensures
            r == self.is_dense(),
    {
        self.dense
    }

    pub fn sparse(&self) -> (r: bool)
        ensures
            r == !self.is_dense(),
    {
        !self.dense()
    }

    pub fn writable(&self) -> (r: bool)
        ensures
            r == self.is_writable(),
    {
        self.writable
    }

    pub fn make_readonly(&mut self)
        ensures
            !final(self).is_writable(),
            final(self).dense_values() == old(self).dense_values(),
            final(self).sparse_map() == old(self).sparse_map(),
            final(self).spec_length() == old(self).spec_length(),
            final(self).is_dense() == old(self).is_dense(),
            final(self).wf() == old(self).wf(),
    {
        self.writable = false;
    }
}

/// After the move, each index of `v` that held a value maps to that value
/// as an ordinary data property, and every other key keeps what `m` had.
pub proof fn lemma_moved_to_sparse(m: Map<u32, StoredSlot>, v: Seq<JsValue>, n: int)
    requires
        0 <= n <= v.len(),
        v.len() <= index_count(),
    ensures
        forall|i: int|
            0 <= i < n && !v[i].empty() ==> #[trigger] moved_to_sparse(m, v, n).contains_key(i as u32)
                && moved_to_sparse(m, v, n)[i as u32] == (StoredSlot {
                value: v[i],
                attributes: OBJECT_DATA_ATTRS,
            }),
        forall|k: u32|
            (k >= n || v[k as int].empty()) ==> (#[trigger] moved_to_sparse(m, v, n).contains_key(k)
                == m.contains_key(k) && (m.contains_key(k) ==> moved_to_sparse(m, v, n)[k] == m[k])),
    decreases n,
{
    if n > 0 {
        lemma_moved_to_sparse(m, v, n - 1);
        assert forall|i: int| 0 <= i < n && !v[i].empty() implies #[trigger] moved_to_sparse(
            m,
            v,
            n,
        ).contains_key(i as u32) && moved_to_sparse(m, v, n)[i as u32] == (StoredSlot {
            value: v[i],
            attributes: OBJECT_DATA_ATTRS,
        }) by {
            if i < n - 1 {
                assert(moved_to_sparse(m, v, n - 1).contains_key(i as u32));
                assert((i as u32) != ((n - 1) as u32));
            }
        }
        assert forall|k: u32| (k >= n || v[k as int].empty()) implies (#[trigger] moved_to_sparse(
            m,
            v,
            n,
        ).contains_key(k) == m.contains_key(k) && (m.contains_key(k) ==> moved_to_sparse(m, v, n)[k]
            == m[k])) by {
            assert(k >= n - 1 || v[k as int].empty());
            assert(moved_to_sparse(m, v, n - 1).contains_key(k) == m.contains_key(k));
        }
    }
}

impl Trace for IndexedElements {
    open spec fn strong_edges(&self) -> Seq<usize> {
        Seq::empty()
    }

    open spec fn weak_edges(&self) -> Seq<usize> {
        Seq::empty()
    }

    /// The vector and map are owned by the object, and values are encoded
    /// immediates: there is nothing to visit.
    fn trace(&self, visitor: &mut SlotVisitor) {
        proof {
            assert(visitor.strong_seen() =~= old(visitor).strong_seen() + self.strong_edges());
            assert(visitor.weak_seen() =~= old(visitor).weak_seen() + self.weak_edges());
        }
    }
}

impl GcCell for IndexedElements {
    open spec fn type_tag() -> usize {
        8
    }

    fn vtable_id() -> (r: usize) {
        8
    }

    open spec fn type_label() -> Seq<char> {
        "IndexedElements"@
    }

    fn cell_type_name(&self) -> (r: &'static str) {
        "IndexedElements"
    }

    fn compute_size(&self) -> (r: usize) {
        core::mem::size_of_val(self)
    }
}

} // verus!
