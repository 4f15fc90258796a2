//! Object headers, managed pointers, weak references and the tracing contract.
//!
//! Cells live in an arena ([`Heap`]): a managed pointer is the index of its
//! header there, and a weak reference is the index of its weak slot.
use std::marker::PhantomData;
use vstd::prelude::*;

verus! {

/// Mark state of a cell that has been reached and scanned.
pub const POSSIBLY_BLACK: u8 = 0;
/// Mark state of a cell that has been reached but not yet scanned.
pub const POSSIBLY_GREY: u8 = 2;
/// Mark state of a cell not yet proven reachable in this cycle.
pub const DEFINETELY_WHITE: u8 = 1;

/// Header stored in front of every cell: the dispatch word, whose lowest bit
/// is the one-bit mark, and the three-colour mark state.
pub struct GcPointerBase {
    vtable: u64,
    cell_state: u8,
}

impl GcPointerBase {
    /// The whole dispatch word, mark bit included.
    pub closed spec fn word(&self) -> u64 {
        self.vtable
    }

    /// The current three-colour mark state.
    pub closed spec fn color(&self) -> u8 {
        self.cell_state
    }

    /// The dispatch word with the mark bit masked off.
    pub open spec fn dispatch(&self) -> u64 {
        self.word() & !1u64
    }

    /// Whether the one-bit mark is set.
    pub open spec fn marked(&self) -> bool {
        self.word() & 1u64 != 0
    }

    /// A fresh header for the behaviour table `vtable`, white and unmarked
    /// (when `vtable` keeps its lowest bit clear).
    pub fn new(vtable: usize) -> (r: Self)
        ensures
            r.word() == vtable as u64,
            r.color() == DEFINETELY_WHITE,
    {
        Self { vtable: vtable as u64, cell_state: DEFINETELY_WHITE }
    }

    /// Sets the mark bit; true when it was clear before.
    pub fn test_and_set_marked(&mut self) -> (r: bool)
        ensures
            r == !old(self).marked(),
            final(self).word() == old(self).word() | 1u64,
            final(self).marked(),
            final(self).dispatch() == old(self).dispatch(),
            final(self).color() == old(self).color(),
    {
        let prev = self.vtable & 1u64;
        let w = self.vtable;
        self.vtable = self.vtable | 1u64;
        proof {
            lemma_set_mark_bit(w);
        }
        prev == 0
    }

    /// Clears the mark bit.
    pub fn unmark(&mut self)
        ensures
            final(self).word() == old(self).word() & !1u64,
            !final(self).marked(),
            final(self).dispatch() == old(self).dispatch(),
            final(self).color() == old(self).color(),
    {
        let w = self.vtable;
        self.vtable = self.vtable & !1u64;
        proof {
            lemma_clear_mark_bit(w);
        }
    }

    pub fn state(&self) -> (r: u8)
        ensures
            r == self.color(),
    {
        self.cell_state
    }

    /// Moves the mark state from `from` to `to`; fails, changing nothing,
    /// when the current state is not `from`.
    pub fn set_state(&mut self, from: u8, to: u8) -> (r: bool)
        ensures
            r == (old(self).color() == from),
            final(self).color() == (if r { to } else { old(self).color() }),
            final(self).word() == old(self).word(),
    {
        if self.cell_state == from {
            self.cell_state = to;
            true
        } else {
            false
        }
    }

    /// Sets the mark state whatever it was (used to reset between cycles).
    pub fn force_set_state(&mut self, to: u8)
        ensures
            final(self).color() == to,
            final(self).word() == old(self).word(),
    {
        self.cell_state = to;
    }

    pub fn raw(&self) -> (r: u64)
        ensures
            r == self.word(),
    {
        self.vtable
    }

    /// The behaviour-table address, mark bit masked off.
    pub fn vtable(&self) -> (r: usize)
        ensures
            r == self.dispatch() as usize,
    {
        (self.vtable & !1u64) as usize
    }

    pub fn is_marked(&self) -> (r: bool)
        ensures
            r == self.marked(),
    {
        (self.vtable & 1u64) != 0
    }
}

proof fn lemma_set_mark_bit(w: u64)
    ensures
        (w | 1u64) & 1u64 != 0,
        (w | 1u64) & !1u64 == w & !1u64,
{
    assert((w | 1u64) & 1u64 != 0) by (bit_vector);
    assert((w | 1u64) & !1u64 == w & !1u64) by (bit_vector);
}

proof fn lemma_clear_mark_bit(w: u64)
    ensures
        (w & !1u64) & 1u64 == 0,
        (w & !1u64) & !1u64 == w & !1u64,
{
    assert((w & !1u64) & 1u64 == 0) by (bit_vector);
    assert((w & !1u64) & !1u64 == w & !1u64) by (bit_vector);
}

/// A type that can be traced: it hands each managed pointer and weak
/// reference it holds to the visitor, once each, in field order.
pub trait Trace {
    /// The header addresses this value holds strongly, in visiting order.
    spec fn strong_edges(&self) -> Seq<usize>;

    /// The weak slots this value holds, in visiting order.
    spec fn weak_edges(&self) -> Seq<usize>;

    fn trace(&self, visitor: &mut SlotVisitor)
        ensures
            final(visitor).strong_seen() == old(visitor).strong_seen() + self.strong_edges(),
            final(visitor).weak_seen() == old(visitor).weak_seen() + self.weak_edges(),
    ;
}

/// A type whose values can live in the heap: it names its behaviour table.
pub trait GcCell: Trace {
    /// Identity of the type's behaviour table.
    spec fn type_tag() -> usize;

    /// The behaviour-table identity; its lowest bit is clear, so that it
    /// leaves room for the mark bit.
    fn vtable_id() -> (r: usize)
        ensures
            r == Self::type_tag(),
            r % 2 == 0,
    ;

    /// The type's name, as diagnostics print it.
    spec fn type_label() -> Seq<char>;

    fn cell_type_name(&self) -> (r: &'static str)
        ensures
            r@ == Self::type_label(),
    ;

    /// The number of bytes the value occupies in the heap.
    fn compute_size(&self) -> (r: usize)
        ensures
            r as nat == vstd::layout::spec_size_of_val::<Self>(self),
    ;
}

/// The behaviour-table identity of `T`.
pub fn vtable_of_type<T: GcCell>() -> (r: usize)
    ensures
        r == T::type_tag(),
{
    T::vtable_id()
}

/// Marker for a managed pointer whose static type was erased; its concrete
/// type is known only from the header.
pub struct AnyCell;

/// A managed pointer: the address of a header in the [`Heap`]. It does not
/// keep its target alive; copying it copies the address.
pub struct GcPointer<T> {
    base: usize,
    marker: PhantomData<T>,
}

impl<T> Clone for GcPointer<T> {
    fn clone(&self) -> (r: Self)
        ensures
            r == *self,
    {
        GcPointer { base: self.base, marker: PhantomData }
    }
}

impl<T> Copy for GcPointer<T> {

}

impl<T> GcPointer<T> {
    /// The header address.
    pub closed spec fn addr(&self) -> usize {
        self.base
    }

    /// The pointer to the header at `addr`.
    pub(crate) fn from_addr(addr: usize) -> (r: Self)
        ensures
            r.addr() == addr,
    {
        GcPointer { base: addr, marker: PhantomData }
    }

    /// The header address.
    pub fn index(&self) -> (r: usize)
        ensures
            r == self.addr(),
    {
        self.base
    }

    /// Pointer equality: both point at the same header.
    pub fn ptr_eq<U>(this: &Self, other: &GcPointer<U>) -> (r: bool)
        ensures
            r == (this.addr() == other.addr()),
    {
        this.base == other.base
    }

    /// The same pointer with its static type erased.
    pub fn as_dyn(self) -> (r: GcPointer<AnyCell>)
        ensures
            r.addr() == self.addr(),
    {
        GcPointer { base: self.base, marker: PhantomData }
    }

    /// Whether the target's concrete type is `U`.
    pub fn is<U: GcCell>(self, heap: &Heap) -> (r: bool)
        requires
            heap.holds(self.addr()),
        ensures
            r == (heap.headers()[self.addr() as int].dispatch() == U::type_tag() as u64),
    {
        heap.headers[self.base].raw() & !1u64 == U::vtable_id() as u64
    }

    /// The same pointer typed as `U`, for callers that know the target's type.
    pub fn downcast_unchecked<U: GcCell>(self) -> (r: GcPointer<U>)
        ensures
            r.addr() == self.addr(),
    {
        GcPointer { base: self.base, marker: PhantomData }
    }

    /// The same pointer typed as `U` when the target's type is `U`.
    pub fn downcast<U: GcCell>(self, heap: &Heap) -> (r: Option<GcPointer<U>>)
        requires
            heap.holds(self.addr()),
        ensures
            r is Some == (heap.headers()[self.addr() as int].dispatch() == U::type_tag() as u64),
            r is Some ==> r->Some_0.addr() == self.addr(),
    {
        if !self.is::<U>(heap) {
            None
        } else {
            Some(self.downcast_unchecked())
        }
    }
}

#[derive(Clone, Copy, PartialEq, Eq, Structural)]
pub enum WeakState {
    Free,
    Unmarked,
    Mark,
}

/// A weak slot: the address of its target, or none once the collector has
/// cleared it.
pub struct WeakSlot {
    state: WeakState,
    value: Option<usize>,
}

/// A weak reference: the index of a weak slot. It does not keep its target
/// alive.
pub struct WeakRef<T> {
    inner: usize,
    marker: PhantomData<T>,
}

impl<T> WeakRef<T> {
    /// The index of the weak slot.
    pub closed spec fn slot(&self) -> usize {
        self.inner
    }

    /// The target, while the collector has not cleared the slot.
    pub fn upgrade(&self, heap: &Heap) -> (r: Option<GcPointer<T>>)
        requires
            heap.holds_weak(self.slot()),
        ensures
            r is Some == heap.weak_targets()[self.slot() as int] is Some,
            r is Some ==> r->Some_0.addr() == heap.weak_targets()[self.slot() as int]->Some_0,
    {
        match heap.weak_slots[self.inner].value {
            None => None,
            Some(b) => Some(GcPointer { base: b, marker: PhantomData }),
        }
    }
}

/// The cell arena: headers by address, and the weak slots.
pub struct Heap {
    headers: Vec<GcPointerBase>,
    weak_slots: Vec<WeakSlot>,
}

impl Heap {
    pub closed spec fn headers(&self) -> Seq<GcPointerBase> {
        self.headers@
    }

    /// Target of each weak slot, none where cleared.
    pub closed spec fn weak_targets(&self) -> Seq<Option<usize>> {
        self.weak_slots@.map_values(|s: WeakSlot| s.value)
    }

    pub open spec fn holds(&self, addr: usize) -> bool {
        addr < self.headers().len()
    }

    pub open spec fn holds_weak(&self, slot: usize) -> bool {
        slot < self.weak_targets().len()
    }

    /// How weak slots may evolve from `a` to `b`: none disappears, and a
    /// cleared one stays cleared; a live one either keeps its target or is
    /// cleared.
    pub open spec fn weak_evolves(a: Heap, b: Heap) -> bool {
        &&& a.weak_targets().len() <= b.weak_targets().len()
        &&& forall|i: int|
            0 <= i < a.weak_targets().len() ==> (#[trigger] b.weak_targets()[i] is None
                || b.weak_targets()[i] == a.weak_targets()[i])
    }

    pub fn new() -> (r: Heap)
        ensures
            r.headers().len() == 0,
            r.weak_targets().len() == 0,
    {
        Heap { headers: Vec::new(), weak_slots: Vec::new() }
    }

    /// Allocates a cell of type `T`: a white, unmarked header for `T`'s
    /// behaviour table.
    pub fn allocate<T: GcCell>(&mut self) -> (r: GcPointer<T>)
        requires
            old(self).headers().len() < usize::MAX,
        ensures
            r.addr() == old(self).headers().len(),
            final(self).headers().len() == old(self).headers().len() + 1,
            forall|i: int|
                0 <= i < old(self).headers().len() ==> final(self).headers()[i] == old(
                    self,
                ).headers()[i],
            final(self).headers()[r.addr() as int].word() == T::type_tag() as u64,
            final(self).headers()[r.addr() as int].dispatch() == T::type_tag() as u64,
            !final(self).headers()[r.addr() as int].marked(),
            final(self).headers()[r.addr() as int].color() == DEFINETELY_WHITE,
            final(self).weak_targets() == old(self).weak_targets(),
            Heap::weak_evolves(*old(self), *final(self)),
    {
        let tag = T::vtable_id();
        let base = self.headers.len();
        self.headers.push(GcPointerBase::new(tag as usize));
        proof {
            lemma_even_word(tag as u64);
        }
        GcPointer { base, marker: PhantomData }
    }

    pub fn header<T>(&self, p: GcPointer<T>) -> (r: &GcPointerBase)
        requires
            self.holds(p.addr()),
        ensures
            *r == self.headers()[p.addr() as int],
    {
        &self.headers[p.base]
    }

    /// The header of `p`, to be updated in place.
    pub fn header_mut<T>(&mut self, p: GcPointer<T>) -> (r: &mut GcPointerBase)
        requires
            old(self).holds(p.addr()),
        ensures
            *r == old(self).headers()[p.addr() as int],
            final(self).headers() == old(self).headers().update(p.addr() as int, *final(r)),
            final(self).weak_targets() == old(self).weak_targets(),
            Heap::weak_evolves(*old(self), *final(self)),
    {
        &mut self.headers[p.base]
    }

    /// A new weak reference to `p`.
    pub fn new_weak<T>(&mut self, p: GcPointer<T>) -> (r: WeakRef<T>)
        requires
            old(self).weak_targets().len() < usize::MAX,
        ensures
            r.slot() == old(self).weak_targets().len(),
            final(self).weak_targets() == old(self).weak_targets().push(Some(p.addr())),
            final(self).headers() == old(self).headers(),
            Heap::weak_evolves(*old(self), *final(self)),
    {
        let inner = self.weak_slots.len();
        self.weak_slots.push(WeakSlot { state: WeakState::Unmarked, value: Some(p.base) });
        proof {
            assert(self.weak_targets() =~= old(self).weak_targets().push(Some(p.addr())));
        }
        WeakRef { inner, marker: PhantomData }
    }

    /// Clears a weak slot, as the collector does once its target is found
    /// unreachable.
    pub fn clear_weak(&mut self, slot: usize)
        requires
            old(self).holds_weak(slot),
        ensures
            final(self).weak_targets() == old(self).weak_targets().update(slot as int, None),
            final(self).headers() == old(self).headers(),
            Heap::weak_evolves(*old(self), *final(self)),
    {
        self.weak_slots.set(slot, WeakSlot { state: WeakState::Free, value: None });
        proof {
            assert(self.weak_targets() =~= old(self).weak_targets().update(slot as int, None));
        }
    }
}

proof fn lemma_even_word(w: u64)
    requires
        w % 2 == 0,
    ensures
        w & !1u64 == w,
        w & 1u64 == 0,
{
    assert(w % 2 == 0 ==> w & !1u64 == w && w & 1u64 == 0) by (bit_vector);
}

/// Records the edges handed to it by [`Trace::trace`].
pub struct SlotVisitor {
    strong: Vec<usize>,
    weak: Vec<usize>,
}

impl SlotVisitor {
    pub closed spec fn strong_seen(&self) -> Seq<usize> {
        self.strong@
    }

    pub closed spec fn weak_seen(&self) -> Seq<usize> {
        self.weak@
    }

    pub fn new() -> (r: SlotVisitor)
        ensures
            r.strong_seen() == Seq::<usize>::empty(),
            r.weak_seen() == Seq::<usize>::empty(),
    {
        SlotVisitor { strong: Vec::new(), weak: Vec::new() }
    }

    /// Records a strong edge.
    pub fn visit<T>(&mut self, p: &GcPointer<T>)
        ensures
            final(self).strong_seen() == old(self).strong_seen().push(p.addr()),
            final(self).weak_seen() == old(self).weak_seen(),
    {
        self.strong.push(p.base);
    }

    /// Records a weak reference, for the collector to clear later.
    pub fn visit_weak<T>(&mut self, w: &WeakRef<T>)
        ensures
            final(self).weak_seen() == old(self).weak_seen().push(w.slot()),
            final(self).strong_seen() == old(self).strong_seen(),
    {
        self.weak.push(w.inner);
    }

    /// The strong edges recorded, in order.
    pub fn visited(&self) -> (r: &Vec<usize>)
        ensures
            r@ == self.strong_seen(),
    {
        &self.strong
    }

    /// The weak slots recorded, in order.
    pub fn visited_weak(&self) -> (r: &Vec<usize>)
        ensures
            r@ == self.weak_seen(),
    {
        &self.weak
    }
}

impl<T> Trace for GcPointer<T> {
    open spec fn strong_edges(&self) -> Seq<usize> {
        seq![self.addr()]
    }

    open spec fn weak_edges(&self) -> Seq<usize> {
        Seq::empty()
    }

    fn trace(&self, visitor: &mut SlotVisitor) {
        visitor.visit(self);
        proof {
            assert(visitor.weak_seen() =~= old(visitor).weak_seen() + self.weak_edges());
        }
    }
}

impl<T> Trace for WeakRef<T> {
    open spec fn strong_edges(&self) -> Seq<usize> {
        Seq::empty()
    }

    open spec fn weak_edges(&self) -> Seq<usize> {
        seq![self.slot()]
    }

    fn trace(&self, visitor: &mut SlotVisitor) {
        visitor.visit_weak(self);
        proof {
            assert(visitor.strong_seen() =~= old(visitor).strong_seen() + self.strong_edges());
        }
    }
}

impl<T: Trace> Trace for Option<T> {
    open spec fn strong_edges(&self) -> Seq<usize> {
        match self {
            Some(v) => v.strong_edges(),
            None => Seq::empty(),
        }
    }

    open spec fn weak_edges(&self) -> Seq<usize> {
        match self {
            Some(v) => v.weak_edges(),
            None => Seq::empty(),
        }
    }

    fn trace(&self, visitor: &mut SlotVisitor) {
        match self {
            Some(v) => v.trace(visitor),
            None => {
                proof {
                    assert(visitor.strong_seen() =~= old(visitor).strong_seen() + self.strong_edges());
                    assert(visitor.weak_seen() =~= old(visitor).weak_seen() + self.weak_edges());
                }
            },
        }
    }
}

/// The strong edges of the elements of `s`, element by element.
pub open spec fn strong_edges_of<T: Trace>(s: Seq<T>) -> Seq<usize>
    decreases s.len(),
{
    if s.len() == 0 {
        Seq::empty()
    } else {
        strong_edges_of(s.drop_last()) + s.last().strong_edges()
    }
}

/// The weak edges of the elements of `s`, element by element.
pub open spec fn weak_edges_of<T: Trace>(s: Seq<T>) -> Seq<usize>
    decreases s.len(),
{
    if s.len() == 0 {
        Seq::empty()
    } else {
        weak_edges_of(s.drop_last()) + s.last().weak_edges()
    }
}

impl<T: Trace> Trace for Vec<T> {
    open spec fn strong_edges(&self) -> Seq<usize> {
        strong_edges_of(self@)
    }

    open spec fn weak_edges(&self) -> Seq<usize> {
        weak_edges_of(self@)
    }

    fn trace(&self, visitor: &mut SlotVisitor) {
        let mut i: usize = 0;
        while i < self.len()
            invariant
                i <= self@.len(),
                visitor.strong_seen() == old(visitor).strong_seen() + strong_edges_of(
                    self@.take(i as int),
                ),
                visitor.weak_seen() == old(visitor).weak_seen() + weak_edges_of(
                    self@.take(i as int),
                ),
            decreases self@.len() - i,
        {
            self[i].trace(visitor);
            proof {
                let t = self@.take(i as int + 1);
                assert(t.drop_last() =~= self@.take(i as int));
                assert(t.last() == self@[i as int]);
                assert(visitor.strong_seen() =~= old(visitor).strong_seen() + strong_edges_of(t));
                assert(visitor.weak_seen() =~= old(visitor).weak_seen() + weak_edges_of(t));
            }
            i = i + 1;
        }
        proof {
            assert(self@.take(self@.len() as int) =~= self@);
        }
    }
}

/// The mark state after `set_state(from, to)` on a cell in state `c`.
pub open spec fn after_set_state(c: u8, from: u8, to: u8) -> u8 {
    if c == from {
        to
    } else {
        c
    }
}

/// A step the tracer takes: white to grey on discovery, grey to black once
/// scanned.
pub open spec fn tracer_step(step: (u8, u8)) -> bool {
    (step.0 == DEFINETELY_WHITE && step.1 == POSSIBLY_GREY) || (step.0 == POSSIBLY_GREY && step.1
        == POSSIBLY_BLACK)
}

/// The mark state of a new cell after the `set_state` calls in `steps`.
pub open spec fn state_after(steps: Seq<(u8, u8)>) -> u8
    decreases steps.len(),
{
    if steps.len() == 0 {
        DEFINETELY_WHITE
    } else {
        after_set_state(state_after(steps.drop_last()), steps.last().0, steps.last().1)
    }
}

/// In a cycle driven by the tracer's steps, a cell starts white and each call
/// either leaves its state as it was or moves it white to grey or grey to
/// black: white, grey, black is the only sequence it can pass through.
pub proof fn lemma_mark_cycle(steps: Seq<(u8, u8)>)
    requires
        forall|i: int| 0 <= i < steps.len() ==> tracer_step(#[trigger] steps[i]),
    ensures
        state_after(steps.take(0)) == DEFINETELY_WHITE,
        forall|k: int|
            0 <= k < steps.len() ==> {
                let c = #[trigger] state_after(steps.take(k));
                let d = state_after(steps.take(k + 1));
                d == c || (c == DEFINETELY_WHITE && d == POSSIBLY_GREY) || (c == POSSIBLY_GREY
                    && d == POSSIBLY_BLACK)
            },
{
    assert forall|k: int| 0 <= k < steps.len() implies {
        let c = #[trigger] state_after(steps.take(k));
        let d = state_after(steps.take(k + 1));
        d == c || (c == DEFINETELY_WHITE && d == POSSIBLY_GREY) || (c == POSSIBLY_GREY && d
            == POSSIBLY_BLACK)
    } by {
        assert(steps.take(k + 1).drop_last() =~= steps.take(k));
        assert(steps.take(k + 1).last() == steps[k]);
        assert(tracer_step(steps[k]));
    }
}

/// Weak slots only ever move forward: the relation between successive heaps
/// composes.
pub proof fn lemma_weak_evolves_trans(a: Heap, b: Heap, c: Heap)
    requires
        Heap::weak_evolves(a, b),
        Heap::weak_evolves(b, c),
    ensures
        Heap::weak_evolves(a, c),
{
    assert forall|i: int| 0 <= i < a.weak_targets().len() implies (#[trigger] c.weak_targets()[i]
        is None || c.weak_targets()[i] == a.weak_targets()[i]) by {
        assert(b.weak_targets()[i] is None || b.weak_targets()[i] == a.weak_targets()[i]);
    }
}

/// Once its slot is cleared, a weak reference stays cleared, whatever the
/// heap goes through; while it is not cleared it still names its first
/// target.
pub proof fn lemma_cleared_weak_stays_cleared(a: Heap, b: Heap, slot: usize)
    requires
        Heap::weak_evolves(a, b),
        a.holds_weak(slot),
    ensures
        b.holds_weak(slot),
        a.weak_targets()[slot as int] is None ==> b.weak_targets()[slot as int] is None,
        b.weak_targets()[slot as int] is Some ==> b.weak_targets()[slot as int]
            == a.weak_targets()[slot as int],
{
    assert(b.weak_targets()[slot as int] is None || b.weak_targets()[slot as int]
        == a.weak_targets()[slot as int]);
}

/// A cell allocated as `T` passes the type test for `U` exactly when `T` and
/// `U` share their behaviour table.
pub proof fn lemma_type_test_exact<T: GcCell, U: GcCell>(heap: Heap, addr: usize)
    requires
        heap.holds(addr),
        heap.headers()[addr as int].dispatch() == T::type_tag() as u64,
    ensures
        (heap.headers()[addr as int].dispatch() == U::type_tag() as u64) <==> (T::type_tag()
            == U::type_tag()),
{
}

} // verus!
