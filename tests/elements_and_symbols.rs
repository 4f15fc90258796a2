use starlight_heap::heap::{vtable_of_type, GcCell};
use starlight_heap::structure::Structure;
use starlight_heap::indexed_elements::{IndexedElements, JsValue, StoredSlot, OBJECT_DATA_ATTRS};
use starlight_heap::symbol_table::{Internable, JsSymbol, Symbol, SymbolID, SymbolTable};

#[test]
fn make_sparse_moves_values_and_keeps_length() {
    let mut e = IndexedElements::new();
    assert!(e.dense());
    assert!(e.writable());
    e.push_dense(JsValue { bits: 11 });
    e.push_dense(JsValue::encode_empty_value());
    e.push_dense(JsValue { bits: 33 });
    e.set_length(10);
    e.make_sparse();
    assert!(e.sparse());
    assert_eq!(e.length(), 10);
    let m = e.map().unwrap();
    assert_eq!(m.len(), 2);
    assert_eq!(m.get(&0), Some(&StoredSlot { value: JsValue { bits: 11 }, attributes: OBJECT_DATA_ATTRS }));
    assert_eq!(m.get(&2), Some(&StoredSlot { value: JsValue { bits: 33 }, attributes: OBJECT_DATA_ATTRS }));
    assert!(m.get(&1).is_none());
    assert_eq!(e.vector().len(), 3);
    assert!(e.vector().iter().all(|v| v.is_empty()));
}

#[test]
fn ensure_map_is_made_once() {
    let mut e = IndexedElements::new();
    assert!(e.map().is_none());
    e.ensure_map().insert(5, StoredSlot::new_raw(JsValue { bits: 2 }, 1));
    assert_eq!(e.ensure_map().len(), 1);
    e.make_readonly();
    assert!(!e.writable());
    e.make_dense();
    assert!(e.dense());
    assert!(e.map().is_none());
}

#[test]
fn interning_is_stable_and_injective() {
    let mut t = SymbolTable::new();
    let a = t.intern("length");
    let b = t.intern("prototype");
    let a2 = t.intern(&String::from("length"));
    assert_eq!(a, a2);
    assert_ne!(a, b);
    assert_eq!(a.raw(), 128);
    assert_eq!(b.raw(), 129);
    assert_eq!(SymbolID::public_start().raw(), 128);
    assert_eq!(t.description(a), "length");
    assert_eq!(t.description(b), "prototype");
    assert_eq!(t.next_id(), 130);
}

#[test]
fn indices_intern_without_the_registry() {
    let mut t = SymbolTable::new();
    assert_eq!(7u32.intern(&mut t), Symbol::Index(7));
    assert_eq!(9usize.intern(&mut t), Symbol::Index(9));
    assert_eq!(t.next_id(), 128);
    let s = "x".intern(&mut t);
    assert_eq!(s, String::from("x").intern(&mut t));
    assert_eq!(t.next_id(), 129);
}

#[test]
fn large_usize_interns_as_its_digits() {
    let mut t = SymbolTable::new();
    let big: usize = 4294967296;
    let s = big.intern(&mut t);
    match s {
        Symbol::Key(id) => assert_eq!(t.description(id), "4294967296"),
        Symbol::Index(_) => panic!("expected an interned key"),
    }
    assert_eq!(s, "4294967296".intern(&mut t));
}

#[test]
fn js_symbol_carries_its_key() {
    let mut t = SymbolTable::new();
    let k = Symbol::Key(t.intern("iterator"));
    let js = JsSymbol::new(k);
    assert_eq!(js.symbol(), k);
}

#[test]
fn lookup_finds_only_interned_strings() {
    let mut t = SymbolTable::new();
    assert!(t.lookup("a").is_none());
    let a = t.intern("a");
    assert_eq!(t.lookup("a"), Some(a));
    assert!(t.lookup("b").is_none());
    assert_eq!(t.next_id(), 129);
}

#[test]
fn cells_name_their_types_and_sizes() {
    let js = JsSymbol::new(Symbol::Index(1));
    assert_eq!(js.cell_type_name(), "JsSymbol");
    assert_eq!(js.compute_size(), std::mem::size_of::<JsSymbol>());
    let e = IndexedElements::new();
    assert_eq!(e.cell_type_name(), "IndexedElements");
    assert_eq!(Symbol::Index(3).cell_type_name(), "Symbol");
    assert_eq!(Structure::ctor1(None, false, false).cell_type_name(), "Structure");
    let tags = [
        vtable_of_type::<Symbol>(),
        vtable_of_type::<JsSymbol>(),
        vtable_of_type::<Structure>(),
        vtable_of_type::<IndexedElements>(),
    ];
    for i in 0..tags.len() {
        for j in (i + 1)..tags.len() {
            assert_ne!(tags[i], tags[j]);
        }
    }
}
