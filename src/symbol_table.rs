//! The symbol interner: a process-wide registry mapping strings to small,
//! stable identifiers used as property keys.
use crate::heap::{GcCell, SlotVisitor, Trace};
use dashmap::DashMap;
use vstd::prelude::*;

verus! {

#[verifier::external_type_specification]
#[verifier::external_body]
#[verifier::reject_recursive_types(K)]
#[verifier::reject_recursive_types(V)]
#[verifier::reject_recursive_types(S)]
pub struct ExDashMap<K, V, S>(DashMap<K, V, S>);

/// What a string-to-identifier `DashMap` holds.
pub uninterp spec fn interned_ids(m: DashMap<String, u32>) -> Map<Seq<char>, u32>;

/// What an identifier-to-string `DashMap` holds.
pub uninterp spec fn interned_names(m: DashMap<u32, String>) -> Map<u32, Seq<char>>;

/// Relies on DashMap::with_capacity: a new map holds nothing.
#[verifier::external_body]
fn new_symbol_map() -> (r: DashMap<String, u32>)
    ensures
        forall|s: Seq<char>| !(#[trigger] interned_ids(r).contains_key(s)),
{
    DashMap::with_capacity(0)
}

/// Relies on DashMap::with_capacity: a new map holds nothing.
#[verifier::external_body]
fn new_name_map() -> (r: DashMap<u32, String>)
    ensures
        forall|k: u32| !(#[trigger] interned_names(r).contains_key(k)),
{
    DashMap::with_capacity(0)
}

/// Relies on DashMap::get: the identifier stored under `s`, if any.
#[verifier::external_body]
fn symbol_map_get(m: &DashMap<String, u32>, s: &str) -> (r: Option<u32>)
    ensures
        r is Some == interned_ids(*m).contains_key(s@),
        r is Some ==> r->Some_0 == interned_ids(*m)[s@],
{
    match m.get(s) {
        Some(e) => Some(*e.value()),
        None => None,
    }
}

/// Relies on DashMap::entry and Entry::or_insert: the identifier already
/// stored under `s`, or else `v`, which is then stored under `s`; one atomic
/// step on the key's shard.
#[verifier::external_body]
fn symbol_map_insert_if_absent(m: &mut DashMap<String, u32>, s: String, v: u32) -> (r: u32)
    ensures
        interned_ids(*old(m)).contains_key(s@) ==> r == interned_ids(*old(m))[s@]
            && interned_ids(*final(m)) == interned_ids(*old(m)),
        !interned_ids(*old(m)).contains_key(s@) ==> r == v && interned_ids(*final(m))
            == interned_ids(*old(m)).insert(s@, v),
{
    *m.entry(s).or_insert(v).value()
}

/// Relies on DashMap::insert: stores `s` under `k`, replacing what was there.
#[verifier::external_body]
fn name_map_insert(m: &mut DashMap<u32, String>, k: u32, s: String)
    ensures
        interned_names(*final(m)) == interned_names(*old(m)).insert(k, s@),
{
    m.insert(k, s);
}

/// Relies on DashMap::get: a copy of the string stored under `k`, if any.
#[verifier::external_body]
fn name_map_get(m: &DashMap<u32, String>, k: u32) -> (r: Option<String>)
    ensures
        r is Some == interned_names(*m).contains_key(k),
        r is Some ==> r->Some_0@ == interned_names(*m)[k],
{
    match m.get(&k) {
        Some(e) => Some(e.value().clone()),
        None => None,
    }
}

/// The decimal digits of `n`.
pub open spec fn decimal(n: nat) -> Seq<char>
    decreases n,
{
    if n < 10 {
        seq![digit_char(n)]
    } else {
        decimal(n / 10).push(digit_char(n % 10))
    }
}

pub open spec fn digit_char(d: nat) -> char {
    if d < 10 {
        (d + 48) as char
    } else {
        '?'
    }
}

/// Relies on `usize`'s `ToString`: its decimal digits.
#[verifier::external_body]
fn usize_to_decimal(n: usize) -> (r: String)
    ensures
        r@ == decimal(n as nat),
{
    n.to_string()
}

/// First identifier handed out to interned strings; the ones below it are
/// reserved for the engine's well-known symbols.
pub const PUBLIC_START_ID: u32 = 128;

/// Identifier of an interned string.
#[derive(Clone, Copy, PartialEq, Eq, Structural, PartialOrd, Ord, Debug, Hash)]
pub struct SymbolID(u32);

impl SymbolID {
    /// The first identifier handed out to interned strings.
    pub fn public_start() -> (r: SymbolID)
        ensures
            r.id() == PUBLIC_START_ID,
    {
        SymbolID(PUBLIC_START_ID)
    }

    pub closed spec fn id(self) -> u32 {
        self.0
    }

    /// Identifiers with one number are one identifier.
    pub proof fn lemma_id_determines(a: SymbolID, b: SymbolID)
        requires
            a.id() == b.id(),
        ensures
            a == b,
    {
    }

    /// The identifier as a number.
    pub fn raw(self) -> (r: u32)
        ensures
            r == self.id(),
    {
        self.0
    }
}

/// A property key: an interned string, or an array index that needs no
/// interning.
#[derive(Clone, Copy, PartialEq, Eq, Structural, Hash, Debug)]
pub enum Symbol {
    Key(SymbolID),
    Index(u32),
}

/// The key that stands for "no property".
pub closed spec fn spec_dummy_symbol() -> Symbol {
    Symbol::Key(SymbolID(0))
}

/// The key that stands for "no property".
pub fn dummy_symbol() -> (r: Symbol)
    ensures
        r == spec_dummy_symbol(),
{
    Symbol::Key(SymbolID(0))
}

/// The registry: each interned string with its identifier, both ways, and
/// the next identifier to hand out.
pub struct SymbolTable {
    symbols: DashMap<String, u32>,
    ids: DashMap<u32, String>,
    key: u32,
}

impl SymbolTable {
    /// Identifier of each interned string.
    pub closed spec fn ids_of(&self) -> Map<Seq<char>, u32> {
        interned_ids(self.symbols)
    }

    /// String of each identifier handed out.
    pub closed spec fn names(&self) -> Map<u32, Seq<char>> {
        interned_names(self.ids)
    }

    /// The identifier the next new string receives.
    pub closed spec fn next_key(&self) -> u32 {
        self.key
    }

    /// The two maps are inverse to each other, and the identifiers handed
    /// out are exactly those from the end of the reserved range up to the
    /// next one.
    pub open spec fn wf(&self) -> bool {
        &&& PUBLIC_START_ID <= self.next_key()
        &&& forall|k: u32|
            PUBLIC_START_ID <= k < self.next_key() ==> #[trigger] self.names().contains_key(k)
        &&& forall|s: Seq<char>| #[trigger]
            self.ids_of().contains_key(s) ==> {
                &&& PUBLIC_START_ID <= self.ids_of()[s] < self.next_key()
                &&& self.names().contains_key(self.ids_of()[s])
                &&& self.names()[self.ids_of()[s]] == s
            }
        &&& forall|k: u32| #[trigger]
            self.names().contains_key(k) ==> {
                &&& self.ids_of().contains_key(self.names()[k])
                &&& self.ids_of()[self.names()[k]] == k
            }
    }

    /// What interning `s` does: a known string gets its identifier back and
    /// nothing changes; a new one gets the next identifier, recorded both
    /// ways.
    pub open spec fn intern_step(a: SymbolTable, b: SymbolTable, s: Seq<char>, id: u32) -> bool {
        if a.ids_of().contains_key(s) {
            &&& id == a.ids_of()[s]
            &&& b.ids_of() == a.ids_of()
            &&& b.names() == a.names()
            &&& b.next_key() == a.next_key()
        } else {
            &&& id == a.next_key()
            &&& b.ids_of() == a.ids_of().insert(s, id)
            &&& b.names() == a.names().insert(id, s)
            &&& b.next_key() == a.next_key() + 1
        }
    }

    pub fn new() -> (r: SymbolTable)
        ensures
            r.wf(),
            forall|s: Seq<char>| !(#[trigger] r.ids_of().contains_key(s)),
            forall|k: u32| !(#[trigger] r.names().contains_key(k)),
            r.next_key() == PUBLIC_START_ID,
    {
        SymbolTable { symbols: new_symbol_map(), ids: new_name_map(), key: PUBLIC_START_ID }
    }

    /// The next identifier a new string would receive.
    pub fn next_id(&self) -> (r: u32)
        ensures
            r == self.next_key(),
    {
        self.key
    }

    /// The identifier of `val`, if it has been interned.
    pub fn lookup(&self, val: &str) -> (r: Option<SymbolID>)
        ensures
            r is Some == self.ids_of().contains_key(val@),
            r is Some ==> r->Some_0.id() == self.ids_of()[val@],
    {
        match symbol_map_get(&self.symbols, val) {
            Some(k) => Some(SymbolID(k)),
            None => None,
        }
    }

    /// The string interned under `symbol`.
    pub fn description(&self, symbol: SymbolID) -> (r: String)
        requires
            self.names().contains_key(symbol.id()),
        ensures
            r@ == self.names()[symbol.id()],
    {
        match name_map_get(&self.ids, symbol.0) {
            Some(s) => s,
            None => String::new(),
        }
    }

    /// The identifier of `val`, handing out the next one when `val` is new.
    pub fn intern(&mut self, val: &str) -> (r: SymbolID)
        requires
            old(self).wf(),
            !old(self).ids_of().contains_key(val@) ==> old(self).next_key() < u32::MAX,
        ensures
            final(self).wf(),
            SymbolTable::intern_step(*old(self), *final(self), val@, r.id()),
    {
        if let Some(k) = symbol_map_get(&self.symbols, val) {
            return SymbolID(k);
        }
        let candidate = self.key;
        let key = symbol_map_insert_if_absent(&mut self.symbols, val.to_owned(), candidate);
        self.key = self.key + 1;
        name_map_insert(&mut self.ids, key, val.to_owned());
        proof {
            let a = *old(self);
            assert forall|k: u32| PUBLIC_START_ID <= k < self.next_key() implies #[trigger] self.names().contains_key(k) by {
                if k != key {
                    assert(a.names().contains_key(k));
                }
            }
            assert forall|s: Seq<char>| #[trigger] self.ids_of().contains_key(s) implies {
                &&& PUBLIC_START_ID <= self.ids_of()[s] < self.next_key()
                &&& self.names().contains_key(self.ids_of()[s])
                &&& self.names()[self.ids_of()[s]] == s
            } by {
                if s != val@ {
                    assert(a.ids_of().contains_key(s));
                    assert(a.ids_of()[s] != key);
                }
            }
            assert forall|k: u32| #[trigger] self.names().contains_key(k) implies {
                &&& self.ids_of().contains_key(self.names()[k])
                &&& self.ids_of()[self.names()[k]] == k
            } by {
                if k != key {
                    assert(a.names().contains_key(k));
                    let t = a.names()[k];
                    assert(a.ids_of().contains_key(t));
                    assert(t != val@);
                }
            }
        }
        SymbolID(key)
    }
}

/// Distinct interned strings have distinct identifiers.
pub proof fn lemma_distinct_strings_distinct_ids(t: SymbolTable, a: Seq<char>, b: Seq<char>)
    requires
        t.wf(),
        t.ids_of().contains_key(a),
        t.ids_of().contains_key(b),
        a != b,
    ensures
        t.ids_of()[a] != t.ids_of()[b],
{
    assert(t.names()[t.ids_of()[a]] == a);
    assert(t.names()[t.ids_of()[b]] == b);
}

/// Interning the same string twice gives the same identifier both times, and
/// the second time changes nothing.
pub proof fn lemma_intern_twice(
    t0: SymbolTable,
    t1: SymbolTable,
    t2: SymbolTable,
    s: Seq<char>,
    id1: u32,
    id2: u32,
)
    requires
        SymbolTable::intern_step(t0, t1, s, id1),
        SymbolTable::intern_step(t1, t2, s, id2),
    ensures
        id1 == id2,
        t2.ids_of() == t1.ids_of(),
        t2.names() == t1.names(),
{
    if !t0.ids_of().contains_key(s) {
        assert(t1.ids_of().contains_key(s));
    }
}

/// Interning two different new strings in turn gives two different
/// identifiers.
pub proof fn lemma_intern_distinct(
    t0: SymbolTable,
    t1: SymbolTable,
    t2: SymbolTable,
    a: Seq<char>,
    b: Seq<char>,
    ida: u32,
    idb: u32,
)
    requires
        t0.wf(),
        t1.wf(),
        SymbolTable::intern_step(t0, t1, a, ida),
        SymbolTable::intern_step(t1, t2, b, idb),
        a != b,
    ensures
        ida != idb,
{
    assert(t1.ids_of().contains_key(a));
    if t1.ids_of().contains_key(b) {
        lemma_distinct_strings_distinct_ids(t1, a, b);
    } else {
        assert(t1.ids_of()[a] < t1.next_key());
    }
}

/// A value that can serve as a property key.
pub trait Internable {
    /// The text the value is interned under; none where it stands as an
    /// index without interning.
    spec fn text(&self) -> Option<Seq<char>>;

    /// The index the value stands for, where it has no text.
    spec fn index(&self) -> u32;

    fn intern(&self, table: &mut SymbolTable) -> (r: Symbol)
        requires
            old(table).wf(),
            self.text() is Some && !old(table).ids_of().contains_key(self.text()->Some_0) ==> old(table).next_key() < u32::MAX,
        ensures
            final(table).wf(),
            self.text() is None ==> r == Symbol::Index(self.index()) && *final(table) == *old(table),
            self.text() is Some ==> r is Key && SymbolTable::intern_step(
                *old(table),
                *final(table),
                self.text()->Some_0,
                r->Key_0.id(),
            ),
    ;
}

impl Internable for str {
    open spec fn text(&self) -> Option<Seq<char>> {
        Some(self@)
    }

    open spec fn index(&self) -> u32 {
        0
    }

    fn intern(&self, table: &mut SymbolTable) -> (r: Symbol) {
        Symbol::Key(table.intern(self))
    }
}

impl Internable for String {
    open spec fn text(&self) -> Option<Seq<char>> {
        Some(self@)
    }

    open spec fn index(&self) -> u32 {
        0
    }

    fn intern(&self, table: &mut SymbolTable) -> (r: Symbol) {
        Symbol::Key(table.intern(self.as_str()))
    }
}

impl Internable for u32 {
    open spec fn text(&self) -> Option<Seq<char>> {
        None
    }

    open spec fn index(&self) -> u32 {
        *self
    }

    fn intern(&self, table: &mut SymbolTable) -> (r: Symbol) {
        Symbol::Index(*self)
    }
}

impl Internable for usize {
    open spec fn text(&self) -> Option<Seq<char>> {
        if *self <= u32::MAX {
            None
        } else {
            Some(decimal(*self as nat))
        }
    }

    open spec fn index(&self) -> u32 {
        if *self <= u32::MAX {
            *self as u32
        } else {
            0
        }
    }

    fn intern(&self, table: &mut SymbolTable) -> (r: Symbol) {
        if *self <= u32::MAX as usize {
            return (*self as u32).intern(table);
        }
        usize_to_decimal(*self).intern(table)
    }
}

/// A symbol value of the language: a heap cell carrying a property key.
pub struct JsSymbol {
    sym: Symbol,
}

impl JsSymbol {
    pub closed spec fn spec_symbol(&self) -> Symbol {
        self.sym
    }

    pub fn new(sym: Symbol) -> (r: JsSymbol)
        ensures
            r.spec_symbol() == sym,
    {
        JsSymbol { sym }
    }

    pub fn symbol(&self) -> (r: Symbol)
        ensures
            r == self.spec_symbol(),
    {
        self.sym
    }
}

impl Trace for Symbol {
    open spec fn strong_edges(&self) -> Seq<usize> {
        Seq::empty()
    }

    open spec fn weak_edges(&self) -> Seq<usize> {
        Seq::empty()
    }

    fn trace(&self, visitor: &mut SlotVisitor) {
        proof {
            assert(visitor.strong_seen() =~= old(visitor).strong_seen() + self.strong_edges());
            assert(visitor.weak_seen() =~= old(visitor).weak_seen() + self.weak_edges());
        }
    }
}

impl GcCell for Symbol {
    open spec fn type_tag() -> usize {
        2
    }

    fn vtable_id() -> (r: usize) {
        2
    }

    open spec fn type_label() -> Seq<char> {
        "Symbol"@
    }

    fn cell_type_name(&self) -> (r: &'static str) {
        "Symbol"
    }

    fn compute_size(&self) -> (r: usize) {
        core::mem::size_of_val(self)
    }
}

impl Trace for JsSymbol {
    open spec fn strong_edges(&self) -> Seq<usize> {
        Seq::empty()
    }

    open spec fn weak_edges(&self) -> Seq<usize> {
        Seq::empty()
    }

    fn trace(&self, visitor: &mut SlotVisitor) {
        proof {
            assert(visitor.strong_seen() =~= old(visitor).strong_seen() + self.strong_edges());
            assert(visitor.weak_seen() =~= old(visitor).weak_seen() + self.weak_edges());
        }
    }
}

impl GcCell for JsSymbol {
    open spec fn type_tag() -> usize {
        4
    }

    fn vtable_id() -> (r: usize) {
        4
    }

    open spec fn type_label() -> Seq<char> {
        "JsSymbol"@
    }

    fn cell_type_name(&self) -> (r: &'static str) {
        "JsSymbol"
    }

    fn compute_size(&self) -> (r: usize) {
        core::mem::size_of_val(self)
    }
}

} // verus!
