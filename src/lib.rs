//! Heap object model of a JavaScript engine: object headers with their mark
//! protocol, managed pointers and weak references into an arena, the tracing
//! contract, hidden-class shapes, indexed element storage and the symbol
//! interner.
pub mod heap;
pub mod indexed_elements;
pub mod structure;
pub mod symbol_table;

use heap::GcCell;
use indexed_elements::IndexedElements;
use structure::Structure;
use symbol_table::{JsSymbol, Symbol};
use vstd::prelude::*;

verus! {

/// The heap cell types of the library have pairwise distinct behaviour
/// tables, so the type test of a managed pointer tells them apart.
pub proof fn lemma_cell_tags_distinct()
    ensures
        <Symbol as GcCell>::type_tag() != <JsSymbol as GcCell>::type_tag(),
        <Symbol as GcCell>::type_tag() != <Structure as GcCell>::type_tag(),
        <Symbol as GcCell>::type_tag() != <IndexedElements as GcCell>::type_tag(),
        <JsSymbol as GcCell>::type_tag() != <Structure as GcCell>::type_tag(),
        <JsSymbol as GcCell>::type_tag() != <IndexedElements as GcCell>::type_tag(),
        <Structure as GcCell>::type_tag() != <IndexedElements as GcCell>::type_tag(),
{
}

} // verus!
