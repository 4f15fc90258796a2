use starlight_heap::heap::{GcPointer, Heap, SlotVisitor, Trace};
use starlight_heap::structure::{
    DeletedEntryHolder, MapEntry, Structure, StructureHeap, TargetTable, Transitions,
};
use starlight_heap::symbol_table::{JsSymbol, Symbol, SymbolTable};

fn key(table: &mut SymbolTable, s: &str) -> Symbol {
    Symbol::Key(table.intern(s))
}

#[test]
fn same_additions_share_a_shape() {
    let mut syms = SymbolTable::new();
    let x = key(&mut syms, "x");
    let y = key(&mut syms, "y");
    let mut heap = StructureHeap::new();
    let root = heap.allocate(Structure::ctor1(None, false, false));
    let a1 = heap.add_property_transition(root, x, 0).unwrap();
    let a2 = heap.add_property_transition(a1, y, 0).unwrap();
    let b1 = heap.add_property_transition(root, x, 0).unwrap();
    let b2 = heap.add_property_transition(b1, y, 0).unwrap();
    assert!(GcPointer::ptr_eq(&a1, &b1));
    assert!(GcPointer::ptr_eq(&a2, &b2));
    let c1 = heap.add_property_transition(root, y, 0).unwrap();
    let c2 = heap.add_property_transition(c1, x, 0).unwrap();
    assert!(!GcPointer::ptr_eq(&a2, &c2));
    let d1 = heap.add_property_transition(root, x, 1).unwrap();
    assert!(!GcPointer::ptr_eq(&a1, &d1));
}

#[test]
fn additions_stay_lazy_until_materialized() {
    let mut syms = SymbolTable::new();
    let names = ["a", "b", "c"];
    let mut heap = StructureHeap::new();
    let root = heap.allocate(Structure::ctor1(None, false, false));
    let mut cur = root;
    for n in names.iter() {
        let k = key(&mut syms, n);
        cur = heap.add_property_transition(cur, k, 0).unwrap();
        assert!(!heap.get(cur).has_table());
    }
    assert_eq!(heap.get(cur).get_slots_size(), 3);
    assert!(heap.get(cur).previous().is_some());
    assert!(Structure::allocate_table_if_needed(&mut heap, cur));
    let s = heap.get(cur);
    assert!(s.has_table());
    assert!(s.previous().is_none());
    let t = s.table().unwrap();
    assert_eq!(t.len(), 3);
    for (i, n) in names.iter().enumerate() {
        let k = key(&mut syms, n);
        assert_eq!(t.get(k), Some(MapEntry { offset: i as u32, attrs: 0 }));
    }
    assert_eq!(s.get_slots_size(), 3);
    assert!(!Structure::allocate_table_if_needed(&mut heap, root));
    assert!(!heap.get(root).has_table());
}

#[test]
fn materialization_starts_from_an_ancestor_table() {
    let mut syms = SymbolTable::new();
    let p = key(&mut syms, "p");
    let q = key(&mut syms, "q");
    let r = key(&mut syms, "r");
    let mut heap = StructureHeap::new();
    let root = heap.allocate(Structure::ctor1(None, false, false));
    let s1 = heap.add_property_transition(root, p, 0).unwrap();
    Structure::allocate_table(&mut heap, s1);
    let s2 = heap.add_property_transition(s1, q, 0).unwrap();
    let s3 = heap.add_property_transition(s2, r, 0).unwrap();
    Structure::allocate_table(&mut heap, s3);
    let t = heap.get(s3).table().unwrap();
    assert_eq!(t.len(), 3);
    assert_eq!(t.get(p), Some(MapEntry { offset: 0, attrs: 0 }));
    assert_eq!(t.get(q), Some(MapEntry { offset: 1, attrs: 0 }));
    assert_eq!(t.get(r), Some(MapEntry { offset: 2, attrs: 0 }));
    assert_eq!(heap.get(s3).get_slots_size(), 3);
    assert!(heap.get(s3).previous().is_none());
    assert_eq!(heap.get(s1).table().unwrap().len(), 1);
    let s4 = heap.add_property_transition(s3, key(&mut syms, "t"), 0).unwrap();
    Structure::allocate_table(&mut heap, s4);
    assert_eq!(heap.get(s4).table().unwrap().get(key(&mut syms, "t")), Some(MapEntry { offset: 3, attrs: 0 }));
    assert_eq!(heap.get(s4).get_slots_size(), 4);
}

#[test]
fn delete_frees_offsets_last_in_first_out() {
    let mut syms = SymbolTable::new();
    let a = key(&mut syms, "a");
    let b = key(&mut syms, "b");
    let c = key(&mut syms, "c");
    let entries = [
        (a, MapEntry { offset: 0, attrs: 0 }),
        (b, MapEntry { offset: 1, attrs: 0 }),
        (c, MapEntry { offset: 2, attrs: 0 }),
    ];
    let mut s = Structure::ctor3(&entries);
    assert!(!s.is_unique());
    assert_eq!(s.get_slots_size(), 3);
    s.delete(b);
    assert!(s.is_unique());
    assert_eq!(s.table().unwrap().get(b), None);
    assert_eq!(s.table().unwrap().len(), 2);
    assert_eq!(s.get_slots_size(), 3);
    s.delete(a);
    assert_eq!(s.get_slots_size(), 3);

    let mut holder = DeletedEntryHolder::new();
    assert!(holder.empty());
    holder.push(1);
    holder.push(0);
    holder.push(7);
    assert_eq!(holder.size(), 3);
    assert_eq!(holder.pop(), 7);
    assert_eq!(holder.size(), 2);
    assert_eq!(holder.pop(), 0);
    assert_eq!(holder.pop(), 1);
    assert!(holder.empty());
}

#[test]
fn change_attributes_keeps_offset() {
    let mut syms = SymbolTable::new();
    let a = key(&mut syms, "a");
    let mut table = TargetTable::new();
    table.insert(a, MapEntry { offset: 4, attrs: 1 });
    let mut s = Structure::ctor2(Some(table), None, true, false);
    assert!(s.is_unique());
    assert_eq!(s.get_slots_size(), 1);
    s.change_attributes(a, 6);
    assert_eq!(s.table().unwrap().get(a), Some(MapEntry { offset: 4, attrs: 6 }));
}

#[test]
fn transitions_promote_to_table_on_second_key() {
    let mut syms = SymbolTable::new();
    let a = key(&mut syms, "a");
    let b = key(&mut syms, "b");
    let mut heap = StructureHeap::new();
    let s1 = heap.allocate(Structure::ctor1(None, false, false));
    let s2 = heap.allocate(Structure::ctor1(None, false, false));
    let mut t = Transitions::new(true, false);
    assert!(t.is_enabled());
    assert!(!t.is_indexed());
    assert!(t.find(a, 0).is_none());
    t.insert(a, 0, s1);
    assert!(GcPointer::ptr_eq(&t.find(a, 0).unwrap(), &s1));
    assert!(t.find(a, 1).is_none());
    t.insert(b, 0, s2);
    assert!(GcPointer::ptr_eq(&t.find(a, 0).unwrap(), &s1));
    assert!(GcPointer::ptr_eq(&t.find(b, 0).unwrap(), &s2));
    t.insert(a, 0, s2);
    assert!(GcPointer::ptr_eq(&t.find(a, 0).unwrap(), &s2));
    t.set_indexed(true);
    assert!(t.is_indexed());
    assert!(!t.is_enabled_unique_transition());
    t.enable_unique_transition();
    assert!(t.is_enabled_unique_transition());
}

#[test]
fn flatten_only_marks_unique_shapes() {
    let mut shared = Structure::ctor1(None, false, true);
    assert!(shared.is_indexed());
    assert!(shared.is_shaped());
    shared.flatten();
    let mut unique = Structure::ctor1(None, true, false);
    assert!(!unique.is_shaped());
    unique.flatten();
    assert!(unique.is_unique());
    assert!(!unique.is_adding_map());
    assert_eq!(unique.id(), 0);
    unique.set_id(9);
    assert_eq!(unique.id(), 9);
}

#[test]
fn prototype_changes_in_place() {
    let mut cells = Heap::new();
    let proto = cells.allocate::<JsSymbol>().as_dyn();
    let mut heap = StructureHeap::new();
    let mut root = heap.allocate(Structure::ctor1(None, false, false));
    assert!(heap.get(root).prototype().is_none());
    let same = root.change_prototype_with_no_transition(&mut heap, proto);
    assert!(GcPointer::ptr_eq(&same, &root));
    assert!(GcPointer::ptr_eq(&heap.get(root).prototype().unwrap(), &proto));
}

#[test]
fn tracing_a_shape_visits_targets_then_prototype() {
    let mut syms = SymbolTable::new();
    let a = key(&mut syms, "a");
    let b = key(&mut syms, "b");
    let mut cells = Heap::new();
    let _first = cells.allocate::<JsSymbol>();
    let proto = cells.allocate::<JsSymbol>().as_dyn();
    let mut heap = StructureHeap::new();
    let root = heap.allocate(Structure::ctor1(Some(proto), false, false));
    let ca = heap.add_property_transition(root, a, 0).unwrap();
    let cb = heap.add_property_transition(root, b, 0).unwrap();
    let mut visitor = SlotVisitor::new();
    heap.get(root).trace(&mut visitor);
    assert_eq!(visitor.visited().clone(), vec![ca.index(), cb.index(), proto.index()]);
    let mut leaf_visitor = SlotVisitor::new();
    heap.get(ca).trace(&mut leaf_visitor);
    assert_eq!(leaf_visitor.visited().clone(), vec![proto.index(), root.index()]);
    assert!(leaf_visitor.visited_weak().is_empty());
}

#[test]
fn many_transitions_are_found_through_the_index() {
    let mut syms = SymbolTable::new();
    let mut heap = StructureHeap::new();
    let root = heap.allocate(Structure::ctor1(None, false, false));
    let mut children = Vec::new();
    for i in 0..20u32 {
        let k = Symbol::Index(i);
        children.push(heap.add_property_transition(root, k, i % 3).unwrap());
    }
    for i in 0..20u32 {
        let again = heap.add_property_transition(root, Symbol::Index(i), i % 3).unwrap();
        assert!(GcPointer::ptr_eq(&again, &children[i as usize]));
    }
    let other = heap.add_property_transition(root, Symbol::Index(0), 1).unwrap();
    assert!(!GcPointer::ptr_eq(&other, &children[0]));
    let named = heap.add_property_transition(root, key(&mut syms, "0"), 0).unwrap();
    assert!(!GcPointer::ptr_eq(&named, &children[0]));
}
