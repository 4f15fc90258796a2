use starlight_heap::heap::{
    GcPointer, GcPointerBase, Heap, SlotVisitor, Trace, DEFINETELY_WHITE, POSSIBLY_BLACK,
    POSSIBLY_GREY,
};
use starlight_heap::heap::vtable_of_type;
use starlight_heap::indexed_elements::IndexedElements;
use starlight_heap::symbol_table::JsSymbol;

#[test]
fn new_header_is_white_and_unmarked() {
    let h = GcPointerBase::new(0x1000);
    assert_eq!(h.state(), DEFINETELY_WHITE);
    assert!(!h.is_marked());
    assert_eq!(h.raw(), 0x1000);
    assert_eq!(h.vtable(), 0x1000);
}

#[test]
fn test_and_set_marked_reports_first_marking() {
    let mut h = GcPointerBase::new(0x2000);
    assert!(h.test_and_set_marked());
    assert!(h.is_marked());
    assert_eq!(h.raw(), 0x2001);
    assert_eq!(h.vtable(), 0x2000);
    assert!(!h.test_and_set_marked());
    h.unmark();
    assert!(!h.is_marked());
    assert_eq!(h.raw(), 0x2000);
    assert!(h.test_and_set_marked());
}

#[test]
fn mark_states_follow_white_grey_black() {
    let mut h = GcPointerBase::new(0x40);
    assert!(!h.set_state(POSSIBLY_GREY, POSSIBLY_BLACK));
    assert_eq!(h.state(), DEFINETELY_WHITE);
    assert!(h.set_state(DEFINETELY_WHITE, POSSIBLY_GREY));
    assert_eq!(h.state(), POSSIBLY_GREY);
    assert!(!h.set_state(DEFINETELY_WHITE, POSSIBLY_GREY));
    assert_eq!(h.state(), POSSIBLY_GREY);
    assert!(h.set_state(POSSIBLY_GREY, POSSIBLY_BLACK));
    assert_eq!(h.state(), POSSIBLY_BLACK);
    assert_eq!(h.raw(), 0x40);
}

#[test]
fn force_set_state_always_succeeds() {
    let mut h = GcPointerBase::new(0x40);
    assert!(h.set_state(DEFINETELY_WHITE, POSSIBLY_BLACK));
    h.force_set_state(DEFINETELY_WHITE);
    assert_eq!(h.state(), DEFINETELY_WHITE);
    h.force_set_state(POSSIBLY_GREY);
    assert_eq!(h.state(), POSSIBLY_GREY);
}

#[test]
fn downcast_matches_concrete_type() {
    let mut heap = Heap::new();
    let sym: GcPointer<JsSymbol> = heap.allocate::<JsSymbol>();
    let elems: GcPointer<IndexedElements> = heap.allocate::<IndexedElements>();
    assert_eq!(heap.header(sym).vtable(), vtable_of_type::<JsSymbol>());
    assert_eq!(heap.header(sym).state(), DEFINETELY_WHITE);
    let any = sym.as_dyn();
    assert!(any.is::<JsSymbol>(&heap));
    assert!(!any.is::<IndexedElements>(&heap));
    let back = any.downcast::<JsSymbol>(&heap).unwrap();
    assert!(GcPointer::ptr_eq(&back, &sym));
    assert!(any.downcast::<IndexedElements>(&heap).is_none());
    assert!(elems.as_dyn().downcast::<IndexedElements>(&heap).is_some());
    assert!(!GcPointer::ptr_eq(&sym, &elems));
}

#[test]
fn type_test_survives_marking() {
    let mut heap = Heap::new();
    let sym = heap.allocate::<JsSymbol>();
    assert!(heap.header_mut(sym).test_and_set_marked());
    assert!(heap.header(sym).is_marked());
    assert!(sym.is::<JsSymbol>(&heap));
}

#[test]
fn weak_upgrade_until_cleared() {
    let mut heap = Heap::new();
    let target = heap.allocate::<JsSymbol>();
    let weak = heap.new_weak(target);
    let up = weak.upgrade(&heap).unwrap();
    assert!(GcPointer::ptr_eq(&up, &target));
    let other = heap.allocate::<JsSymbol>();
    let _w2 = heap.new_weak(other);
    assert!(weak.upgrade(&heap).is_some());
    heap.clear_weak(0);
    assert!(weak.upgrade(&heap).is_none());
    let _later = heap.allocate::<JsSymbol>();
    assert!(weak.upgrade(&heap).is_none());
}

#[test]
fn trace_visits_each_edge_once() {
    let mut heap = Heap::new();
    let a = heap.allocate::<JsSymbol>();
    let b = heap.allocate::<JsSymbol>();
    let c = heap.allocate::<JsSymbol>();
    let w = heap.new_weak(b);
    let fields: Vec<Option<GcPointer<JsSymbol>>> = vec![Some(a), None, Some(c)];
    let mut visitor = SlotVisitor::new();
    fields.trace(&mut visitor);
    assert_eq!(visitor.visited().clone(), vec![a.index(), c.index()]);
    assert!(visitor.visited_weak().is_empty());
    w.trace(&mut visitor);
    assert_eq!(visitor.visited_weak().clone(), vec![0]);
    assert_eq!(visitor.visited().len(), 2);
    let mut second = SlotVisitor::new();
    let nested: Vec<Vec<GcPointer<JsSymbol>>> = vec![vec![a, b], vec![], vec![c]];
    nested.trace(&mut second);
    assert_eq!(second.visited().clone(), vec![0, 1, 2]);
}
