//! Hidden classes ("shapes"): shared descriptions of where each property of
//! an object is stored, linked by transitions so that objects built the same
//! way share one shape.
use crate::heap::{AnyCell, GcCell, GcPointer, SlotVisitor, Trace};
use crate::symbol_table::{dummy_symbol, spec_dummy_symbol, Symbol, SymbolID};
use std::collections::HashMap;
use vstd::prelude::*;

verus! {

broadcast use vstd::std_specs::hash::group_hash_axioms;

pub type StructureID = u32;

/// A handle to a heap-resident value.
pub type Handle<T> = GcPointer<T>;

/// Attribute bits of an entry that stands for no property.
pub const NOT_FOUND_ATTRS: u32 = 0xffff_ffff;

/// Where a property is stored, and with which attributes.
#[derive(Clone, Copy, PartialEq, Eq, Structural, Debug)]
pub struct MapEntry {
    pub offset: u32,
    pub attrs: u32,
}

/// The label of a transition: a property name with its attribute bits.
#[derive(Clone, Copy, PartialEq, Eq, Structural, Hash, Debug)]
pub struct TransitionKey {
    pub name: Symbol,
    pub attrs: u32,
}

/// An integer that identifies a property key: an interned identifier below
/// 2^32, an index at or above it.
pub open spec fn symbol_code(s: Symbol) -> u64 {
    match s {
        Symbol::Key(id) => id.id() as u64,
        Symbol::Index(i) => (i as u64 + 0x1_0000_0000u64) as u64,
    }
}

proof fn lemma_symbol_code_injective()
    ensures
        forall|a: Symbol, b: Symbol| #[trigger] symbol_code(a) == #[trigger] symbol_code(b) ==> a == b,
{
    assert forall|a: Symbol, b: Symbol| #[trigger] symbol_code(a) == #[trigger] symbol_code(b) implies a
        == b by {
        match (a, b) {
            (Symbol::Key(x), Symbol::Key(y)) => SymbolID::lemma_id_determines(x, y),
            _ => {},
        }
    }
}

fn code_of(s: Symbol) -> (r: u64)
    ensures
        r == symbol_code(s),
{
    match s {
        Symbol::Key(id) => id.raw() as u64,
        Symbol::Index(i) => i as u64 + 0x1_0000_0000u64,
    }
}

/// The table of a shape: the entry of each property name.
pub struct TargetTable {
    map: HashMap<u64, MapEntry>,
}

impl View for TargetTable {
    type V = Map<Symbol, MapEntry>;

    closed spec fn view(&self) -> Map<Symbol, MapEntry> {
        Map::new(
            |s: Symbol| self.map@.contains_key(symbol_code(s)),
            |s: Symbol| self.map@[symbol_code(s)],
        )
    }
}

/// The table built from `base` by storing each pair of `s` in turn, later
/// pairs replacing earlier ones with the same name.
pub open spec fn replay(base: Map<Symbol, MapEntry>, s: Seq<(Symbol, MapEntry)>) -> Map<
    Symbol,
    MapEntry,
>
    decreases s.len(),
{
    if s.len() == 0 {
        base
    } else {
        replay(base, s.drop_last()).insert(s.last().0, s.last().1)
    }
}

impl TargetTable {
    /// The number of entries.
    pub closed spec fn count(&self) -> nat {
        self.map@.len()
    }

    /// The table holds finitely many names, one entry each.
    pub open spec fn wf(&self) -> bool {
        &&& self@.dom().finite()
        &&& self.count() == self@.dom().len()
    }

    pub fn new() -> (r: TargetTable)
        ensures
            r.wf(),
            r@ == Map::<Symbol, MapEntry>::empty(),
            r.count() == 0,
    {
        let r = TargetTable { map: HashMap::new() };
        assert(r@ =~= Map::<Symbol, MapEntry>::empty());
        r
    }

    /// A separate table with the same entries.
    pub fn clone_table(&self) -> (r: TargetTable)
        ensures
            r@ == self@,
            r.count() == self.count(),
    {
        let r = TargetTable { map: self.map.clone() };
        assert(r@ =~= self@);
        r
    }

    pub fn len(&self) -> (r: usize)
        ensures
            r == self.count(),
    {
        self.map.len()
    }

    pub fn get(&self, name: Symbol) -> (r: Option<MapEntry>)
        ensures
            r is Some == self@.contains_key(name),
            r is Some ==> r->Some_0 == self@[name],
    {
        match self.map.get(&code_of(name)) {
            Some(e) => Some(*e),
            None => None,
        }
    }

    /// Stores `entry` under `name`, replacing what was there.
    pub fn insert(&mut self, name: Symbol, entry: MapEntry)
        requires
            old(self).wf(),
        ensures
            final(self).wf(),
            final(self)@ == old(self)@.insert(name, entry),
            final(self).count() == (if old(self)@.contains_key(name) {
                old(self).count()
            } else {
                old(self).count() + 1
            }),
    {
        self.map.insert(code_of(name), entry);
        proof {
            lemma_symbol_code_injective();
            assert(self@ =~= old(self)@.insert(name, entry));
            if old(self).map@.contains_key(symbol_code(name)) {
                assert(self.map@.dom() =~= old(self).map@.dom());
                assert(self@.dom() =~= old(self)@.dom());
            } else {
                assert(self.map@.dom() =~= old(self).map@.dom().insert(symbol_code(name)));
                assert(self@.dom() =~= old(self)@.dom().insert(name));
            }
        }
    }

    /// Takes the entry of `name` out of the table.
    pub fn remove(&mut self, name: Symbol) -> (r: Option<MapEntry>)
        requires
            old(self).wf(),
        ensures
            final(self).wf(),
            r is Some == old(self)@.contains_key(name),
            r is Some ==> r->Some_0 == old(self)@[name],
            final(self)@ == old(self)@.remove(name),
            final(self).count() == (if r is Some {
                old(self).count() - 1
            } else {
                old(self).count() as int
            }),
    {
        let r = self.map.remove(&code_of(name));
        proof {
            lemma_symbol_code_injective();
            assert(self@ =~= old(self)@.remove(name));
            assert(self.map@.dom() =~= old(self).map@.dom().remove(symbol_code(name)));
            assert(self@.dom() =~= old(self)@.dom().remove(name));
        }
        r
    }
}

/// A transition table kept as a list of distinct keys with their targets.
pub open spec fn transition_map(s: Seq<(TransitionKey, Option<Handle<Structure>>)>) -> Map<
    TransitionKey,
    Option<Handle<Structure>>,
>
    decreases s.len(),
{
    if s.len() == 0 {
        Map::empty()
    } else {
        transition_map(s.drop_last()).insert(s.last().0, s.last().1)
    }
}

pub open spec fn distinct_keys(s: Seq<(TransitionKey, Option<Handle<Structure>>)>) -> bool {
    forall|i: int, j: int| 0 <= i < j < s.len() ==> #[trigger] s[i].0 != #[trigger] s[j].0
}

proof fn lemma_transition_map_lookup(s: Seq<(TransitionKey, Option<Handle<Structure>>)>)
    requires
        distinct_keys(s),
    ensures
        forall|i: int|
            0 <= i < s.len() ==> #[trigger] transition_map(s).contains_key(s[i].0)
                && transition_map(s)[s[i].0] == s[i].1,
        forall|k: TransitionKey| #[trigger]
            transition_map(s).contains_key(k) ==> exists|i: int| 0 <= i < s.len() && s[i].0 == k,
    decreases s.len(),
{
    if s.len() > 0 {
        let t = s.drop_last();
        lemma_transition_map_lookup(t);
        assert forall|k: TransitionKey| #[trigger]
            transition_map(s).contains_key(k) implies exists|i: int| 0 <= i < s.len() && s[i].0 == k by {
            if k != s.last().0 {
                assert(transition_map(t).contains_key(k));
                let i = choose|i: int| 0 <= i < t.len() && t[i].0 == k;
                assert(t[i] == s[i]);
                assert(s[i].0 == k);
            } else {
                assert(s[s.len() - 1].0 == k);
            }
        }
        assert forall|i: int| 0 <= i < s.len() implies #[trigger] transition_map(s).contains_key(s[i].0)
            && transition_map(s)[s[i].0] == s[i].1 by {
            if i < s.len() - 1 {
                assert(t[i] == s[i]);
                assert(transition_map(t).contains_key(t[i].0));
                assert(s[i].0 != s[s.len() - 1].0);
            }
        }
    }
}

proof fn lemma_transition_map_update(
    s: Seq<(TransitionKey, Option<Handle<Structure>>)>,
    i: int,
    v: Option<Handle<Structure>>,
)
    requires
        distinct_keys(s),
        0 <= i < s.len(),
    ensures
        transition_map(s.update(i, (s[i].0, v))) == transition_map(s).insert(s[i].0, v),
    decreases s.len(),
{
    let u = s.update(i, (s[i].0, v));
    if i == s.len() - 1 {
        assert(u.drop_last() =~= s.drop_last());
        assert(transition_map(u) =~= transition_map(s).insert(s[i].0, v));
    } else {
        let t = s.drop_last();
        lemma_transition_map_update(t, i, v);
        assert(u.drop_last() =~= t.update(i, (t[i].0, v)));
        assert(s[i].0 != s[s.len() - 1].0);
        assert(transition_map(u) =~= transition_map(s).insert(s[i].0, v));
    }
}

/// An integer that identifies a transition label: the name's code above
/// the attribute bits.
pub open spec fn key_code(k: TransitionKey) -> u128 {
    (symbol_code(k.name) as u128 * 0x1_0000_0000u128 + k.attrs as u128) as u128
}

proof fn lemma_key_code_injective()
    ensures
        forall|a: TransitionKey, b: TransitionKey| #[trigger] key_code(a) == #[trigger] key_code(b) ==> a == b,
{
    lemma_symbol_code_injective();
    assert forall|a: TransitionKey, b: TransitionKey| #[trigger] key_code(a) == #[trigger] key_code(b) implies a
        == b by {
        let sa = symbol_code(a.name) as int;
        let sb = symbol_code(b.name) as int;
        let xa = a.attrs as int;
        let xb = b.attrs as int;
        assert(sa < 0x2_0000_0000 && sb < 0x2_0000_0000);
        assert(sa * 0x1_0000_0000 + xa == sb * 0x1_0000_0000 + xb);
        assert(sa == sb && xa == xb) by (nonlinear_arith)
            requires
                sa * 0x1_0000_0000 + xa == sb * 0x1_0000_0000 + xb,
                0 <= xa < 0x1_0000_0000,
                0 <= xb < 0x1_0000_0000,
                0 <= sa,
                0 <= sb,
        ;
    }
}

fn key_code_of(k: TransitionKey) -> (r: u128)
    ensures
        r == key_code(k),
{
    let s = code_of(k.name);
    assert(s < 0x2_0000_0000u64);
    s as u128 * 0x1_0000_0000u128 + k.attrs as u128
}

/// The index of a transition table gives, for the code of each key, the
/// position of that key's pair, and holds nothing else.
pub open spec fn index_matches(
    v: Seq<(TransitionKey, Option<Handle<Structure>>)>,
    ix: Map<u128, usize>,
) -> bool {
    &&& forall|c: u128| #[trigger]
        ix.contains_key(c) ==> ix[c] < v.len() && key_code(v[ix[c] as int].0) == c
    &&& forall|i: int|
        0 <= i < v.len() ==> ix.contains_key(key_code(#[trigger] v[i].0)) && ix[key_code(v[i].0)] == i
}

/// The target stored under `key` in a transition table, found through its
/// index.
fn find_in_table(
    table: &Vec<(TransitionKey, Option<Handle<Structure>>)>,
    index: &HashMap<u128, usize>,
    key: TransitionKey,
) -> (r: Option<Handle<Structure>>)
    requires
        distinct_keys(table@),
        index_matches(table@, index@),
    ensures
        r == (if transition_map(table@).contains_key(key) {
            transition_map(table@)[key]
        } else {
            None
        }),
{
    proof {
        lemma_transition_map_lookup(table@);
        lemma_key_code_injective();
    }
    match index.get(&key_code_of(key)) {
        Some(i) => {
            let i = *i;
            proof {
                assert(key_code(table@[i as int].0) == key_code(key));
                assert(table@[i as int].0 == key);
                assert(transition_map(table@).contains_key(table@[i as int].0));
            }
            table[i].1
        },
        None => {
            proof {
                if transition_map(table@).contains_key(key) {
                    let j = choose|j: int| 0 <= j < table@.len() && table@[j].0 == key;
                    assert(index@.contains_key(key_code(table@[j].0)));
                }
            }
            None
        },
    }
}

/// Where the transitions out of a shape are kept: none yet, one kept inline,
/// or a table once a second distinct transition was added.
pub enum TransitionStore {
    Empty,
    Single(TransitionKey, Option<Handle<Structure>>),
    Table(Vec<(TransitionKey, Option<Handle<Structure>>)>, HashMap<u128, usize>),
}

/// The transitions out of a shape, with the shape's sharing flags.
pub struct Transitions {
    store: TransitionStore,
    enabled: bool,
    unique_transition: bool,
    indexed: bool,
}

impl Transitions {
    /// The target of each transition.
    pub closed spec fn targets(&self) -> Map<TransitionKey, Option<Handle<Structure>>> {
        match self.store {
            TransitionStore::Empty => Map::empty(),
            TransitionStore::Single(k, c) => Map::empty().insert(k, c),
            TransitionStore::Table(v, _) => transition_map(v@),
        }
    }

    /// Whether the transitions have been promoted to a table.
    pub closed spec fn holds_table(&self) -> bool {
        self.store is Table
    }

    pub closed spec fn spec_enabled(&self) -> bool {
        self.enabled
    }

    pub closed spec fn spec_unique_transition(&self) -> bool {
        self.unique_transition
    }

    pub closed spec fn spec_indexed(&self) -> bool {
        self.indexed
    }

    pub closed spec fn wf(&self) -> bool {
        match self.store {
            TransitionStore::Table(v, ix) => distinct_keys(v@) && index_matches(v@, ix@),
            _ => true,
        }
    }

    /// The same flags and the same transitions.
    pub open spec fn same(a: Transitions, b: Transitions) -> bool {
        &&& a.targets() == b.targets()
        &&& a.holds_table() == b.holds_table()
        &&& a.spec_enabled() == b.spec_enabled()
        &&& a.spec_unique_transition() == b.spec_unique_transition()
        &&& a.spec_indexed() == b.spec_indexed()
    }

    pub fn new(enabled: bool, indexed: bool) -> (r: Transitions)
        ensures
            r.wf(),
            r.targets() == Map::<TransitionKey, Option<Handle<Structure>>>::empty(),
            !r.holds_table(),
            r.spec_enabled() == enabled,
            r.spec_indexed() == indexed,
            !r.spec_unique_transition(),
    {
        let mut this = Transitions {
            store: TransitionStore::Empty,
            enabled: false,
            unique_transition: false,
            indexed: false,
        };
        this.set_enabled(enabled);
        this.set_indexed(indexed);
        this
    }

    pub fn set_indexed(&mut self, indexed: bool)
        ensures
            final(self).spec_indexed() == indexed,
            final(self).targets() == old(self).targets(),
            final(self).holds_table() == old(self).holds_table(),
            final(self).spec_enabled() == old(self).spec_enabled(),
            final(self).spec_unique_transition() == old(self).spec_unique_transition(),
            final(self).wf() == old(self).wf(),
    {
        self.indexed = indexed;
    }

    pub fn set_enabled(&mut self, enabled: bool)
        ensures
            final(self).spec_enabled() == enabled,
            final(self).targets() == old(self).targets(),
            final(self).holds_table() == old(self).holds_table(),
            final(self).spec_indexed() == old(self).spec_indexed(),
            final(self).spec_unique_transition() == old(self).spec_unique_transition(),
            final(self).wf() == old(self).wf(),
    {
        self.enabled = enabled;
    }

    pub fn is_enabled_unique_transition(&self) -> (r: bool)
        ensures
            r == self.spec_unique_transition(),
    {
        self.unique_transition
    }

    pub fn enable_unique_transition(&mut self)
        ensures
            final(self).spec_unique_transition(),
            final(self).targets() == old(self).targets(),
            final(self).holds_table() == old(self).holds_table(),
            final(self).spec_indexed() == old(self).spec_indexed(),
            final(self).spec_enabled() == old(self).spec_enabled(),
            final(self).wf() == old(self).wf(),
    {
        self.unique_transition = true;
    }

    pub fn is_enabled(&self) -> (r: bool)
        ensures
            r == self.spec_enabled(),
    {
        self.enabled
    }

    pub fn is_indexed(&self) -> (r: bool)
        ensures
            r == self.spec_indexed(),
    {
        self.indexed
    }

    /// Records the transition labelled (`name`, `attrs`) to `map`. A second
    /// distinct transition promotes the inline one to a table, which stays.
    pub fn insert(&mut self, name: Symbol, attrs: u32, map: Handle<Structure>)
        requires
            old(self).wf(),
        ensures
            final(self).wf(),
            final(self).targets() == old(self).targets().insert(
                TransitionKey { name, attrs },
                Some(map),
            ),
            old(self).holds_table() ==> final(self).holds_table(),
            final(self).holds_table() == (old(self).holds_table() || old(self).targets().dom().len()
                > 0 && !old(self).targets().contains_key(TransitionKey { name, attrs })),
            final(self).spec_enabled() == old(self).spec_enabled(),
            final(self).spec_unique_transition() == old(self).spec_unique_transition(),
            final(self).spec_indexed() == old(self).spec_indexed(),
    {
        let key = TransitionKey { name, attrs };
        let mut store = TransitionStore::Empty;
        std::mem::swap(&mut store, &mut self.store);
        match store {
            TransitionStore::Empty => {
                self.store = TransitionStore::Single(key, Some(map));
                assert(self.targets() =~= old(self).targets().insert(key, Some(map)));
            },
            TransitionStore::Single(k, c) => {
                if k == key {
                    self.store = TransitionStore::Single(key, Some(map));
                    assert(self.targets() =~= old(self).targets().insert(key, Some(map)));
                } else {
                    let mut table: Vec<(TransitionKey, Option<Handle<Structure>>)> = Vec::new();
                    table.push((k, c));
                    table.push((key, Some(map)));
                    proof {
                        reveal_with_fuel(transition_map, 3);
                        assert(table@.drop_last().drop_last() =~= Seq::<
                            (TransitionKey, Option<Handle<Structure>>),
                        >::empty());
                        assert(table@.drop_last().last() == (k, c));
                        assert(transition_map(table@) =~= old(self).targets().insert(key, Some(map)));
                        assert(old(self).targets().dom() =~= set![k]);
                        lemma_key_code_injective();
                    }
                    let mut index: HashMap<u128, usize> = HashMap::new();
                    index.insert(key_code_of(k), 0);
                    index.insert(key_code_of(key), 1);
                    proof {
                        assert(key_code(k) != key_code(key));
                        assert forall|c: u128| #[trigger] index@.contains_key(c) implies index@[c] < table@.len()
                            && key_code(table@[index@[c] as int].0) == c by {}
                        assert forall|i2: int| 0 <= i2 < table@.len() implies index@.contains_key(
                            key_code(#[trigger] table@[i2].0),
                        ) && index@[key_code(table@[i2].0)] == i2 by {}
                    }
                    self.store = TransitionStore::Table(table, index);
                }
            },
            TransitionStore::Table(mut table, mut index) => {
                let ghost before = table@;
                let ghost ix0 = index@;
                assert(distinct_keys(before) && index_matches(before, ix0));
                assert(old(self).targets() == transition_map(before));
                proof {
                    lemma_transition_map_lookup(before);
                    lemma_key_code_injective();
                }
                let code = key_code_of(key);
                let found = match index.get(&code) {
                    Some(i) => Some(*i),
                    None => None,
                };
                match found {
                    Some(i) => {
                        assert(before[i as int].0 == key);
                        table.set(i, (key, Some(map)));
                        proof {
                            lemma_transition_map_update(before, i as int, Some(map));
                            assert(table@ =~= before.update(i as int, (before[i as int].0, Some(map))));
                            assert forall|a: int, b: int| 0 <= a < b < table@.len() implies #[trigger] table@[a].0
                                != #[trigger] table@[b].0 by {
                                assert(before[a].0 != before[b].0);
                            }
                            assert forall|i2: int| 0 <= i2 < table@.len() implies index@.contains_key(
                                key_code(#[trigger] table@[i2].0),
                            ) && index@[key_code(table@[i2].0)] == i2 by {
                                assert(table@[i2].0 == before[i2].0);
                            }
                            assert forall|c: u128| #[trigger] index@.contains_key(c) implies index@[c] < table@.len()
                                && key_code(table@[index@[c] as int].0) == c by {
                                assert(table@[index@[c] as int].0 == before[index@[c] as int].0);
                            }
                        }
                    },
                    None => {
                        let n = table.len();
                        assert(!transition_map(before).contains_key(key)) by {
                            if transition_map(before).contains_key(key) {
                                let j = choose|j: int| 0 <= j < before.len() && before[j].0 == key;
                                assert(ix0.contains_key(key_code(before[j].0)));
                            }
                        }
                        assert(forall|j: int| 0 <= j < before.len() ==> before[j].0 != key);
                        index.insert(code, n);
                        table.push((key, Some(map)));
                        proof {
                            assert(table@.drop_last() =~= before);
                            assert forall|a: int, b: int| 0 <= a < b < table@.len() implies #[trigger] table@[a].0
                                != #[trigger] table@[b].0 by {
                                if b < n {
                                    assert(before[a].0 != before[b].0);
                                } else {
                                    assert(table@[a].0 == before[a].0);
                                }
                            }
                            assert forall|i2: int| 0 <= i2 < table@.len() implies index@.contains_key(
                                key_code(#[trigger] table@[i2].0),
                            ) && index@[key_code(table@[i2].0)] == i2 by {
                                if i2 < n {
                                    assert(table@[i2].0 == before[i2].0);
                                    assert(ix0.contains_key(key_code(before[i2].0)));
                                    assert(key_code(before[i2].0) != code);
                                }
                            }
                            assert forall|c: u128| #[trigger] index@.contains_key(c) implies index@[c] < table@.len()
                                && key_code(table@[index@[c] as int].0) == c by {
                                if c != code {
                                    assert(ix0.contains_key(c));
                                    assert(table@[index@[c] as int].0 == before[index@[c] as int].0);
                                }
                            }
                        }
                    },
                }
                self.store = TransitionStore::Table(table, index);
            },
        }
    }

    /// The target of the transition labelled (`name`, `attrs`), if any.
    pub fn find(&self, name: Symbol, attrs: u32) -> (r: Option<Handle<Structure>>)
        requires
            self.wf(),
        ensures
            r == (if self.targets().contains_key(TransitionKey { name, attrs }) {
                self.targets()[TransitionKey { name, attrs }]
            } else {
                None
            }),
    {
        let key = TransitionKey { name, attrs };
        match &self.store {
            TransitionStore::Empty => None,
            TransitionStore::Single(k, c) => {
                if *k == key {
                    *c
                } else {
                    None
                }
            },
            TransitionStore::Table(table, index) => find_in_table(table, index, key),
        }
    }
}

/// One freed offset, linked to the one freed before it.
pub struct DeletedEntry {
    prev: Option<Box<DeletedEntry>>,
    offset: u32,
}

/// The offsets freed along a chain of deleted entries, oldest first.
pub closed spec fn freed_offsets(e: Option<Box<DeletedEntry>>) -> Seq<u32>
    decreases e,
{
    match e {
        None => Seq::empty(),
        Some(b) => freed_offsets(b.prev).push(b.offset),
    }
}

/// The free list of a shape: offsets freed by deletion, reused last in
/// first out.
pub struct DeletedEntryHolder {
    entry: Option<Box<DeletedEntry>>,
    size: u32,
}

impl View for DeletedEntryHolder {
    type V = Seq<u32>;

    /// The freed offsets, oldest first.
    closed spec fn view(&self) -> Seq<u32> {
        freed_offsets(self.entry)
    }
}

impl DeletedEntryHolder {
    pub closed spec fn wf(&self) -> bool {
        self.size == self@.len()
    }

    pub fn new() -> (r: DeletedEntryHolder)
        ensures
            r.wf(),
            r@ == Seq::<u32>::empty(),
    {
        DeletedEntryHolder { entry: None, size: 0 }
    }

    /// Frees `offset`.
    pub fn push(&mut self, offset: u32)
        requires
            old(self).wf(),
            old(self)@.len() < u32::MAX,
        ensures
            final(self).wf(),
            final(self)@ == old(self)@.push(offset),
    {
        let prev = self.entry.take();
        self.entry = Some(Box::new(DeletedEntry { prev, offset }));
        self.size = self.size + 1;
    }

    /// The offset freed last, taken off the list.
    pub fn pop(&mut self) -> (r: u32)
        requires
            old(self).wf(),
            old(self)@.len() > 0,
        ensures
            final(self).wf(),
            r == old(self)@.last(),
            final(self)@ == old(self)@.drop_last(),
    {
        match self.entry.take() {
            Some(b) => {
                let DeletedEntry { prev, offset } = *b;
                self.entry = prev;
                self.size = self.size - 1;
                offset
            },
            None => 0,
        }
    }

    pub fn size(&self) -> (r: u32)
        requires
            self.wf(),
        ensures
            r == self@.len(),
    {
        self.size
    }

    pub fn empty(&self) -> (r: bool)
        requires
            self.wf(),
        ensures
            r == (self@.len() == 0),
    {
        self.size == 0
    }
}

/// The free list is last in, first out: a `pop` right after `push(offset)`
/// returns `offset` and leaves the list, and its size, as before the push.
pub proof fn lemma_free_list_lifo(
    h0: DeletedEntryHolder,
    h1: DeletedEntryHolder,
    h2: DeletedEntryHolder,
    offset: u32,
    r: u32,
)
    requires
        h1@ == h0@.push(offset),
        r == h1@.last(),
        h2@ == h1@.drop_last(),
    ensures
        r == offset,
        h2@ == h0@,
        h2@.len() == h1@.len() - 1,
{
    assert(h0@.push(offset).drop_last() =~= h0@);
}

/// A shape: where each property of the objects that share it is stored.
/// Until its table is needed, a shape keeps only the property whose
/// addition produced it and a link to the shape it was added to.
pub struct Structure {
    id: StructureID,
    transitions: Transitions,
    table: Option<TargetTable>,
    deleted: DeletedEntryHolder,
    added: (Symbol, MapEntry),
    previous: Option<Handle<Structure>>,
    prototype: Option<Handle<AnyCell>>,
    calculated_size: u32,
}

impl Structure {
    pub closed spec fn spec_id(&self) -> StructureID {
        self.id
    }

    pub closed spec fn spec_transitions(&self) -> Transitions {
        self.transitions
    }

    pub closed spec fn has_table_spec(&self) -> bool {
        self.table is Some
    }

    /// The entries of the table; empty while there is none.
    pub closed spec fn entries(&self) -> Map<Symbol, MapEntry> {
        match self.table {
            Some(t) => t@,
            None => Map::empty(),
        }
    }

    pub closed spec fn table_count(&self) -> nat {
        match self.table {
            Some(t) => t.count(),
            None => 0,
        }
    }

    /// The offsets freed by deletion, oldest first.
    pub closed spec fn freed(&self) -> Seq<u32> {
        self.deleted@
    }

    /// The property whose addition produced this shape.
    pub closed spec fn spec_added(&self) -> (Symbol, MapEntry) {
        self.added
    }

    pub closed spec fn spec_previous(&self) -> Option<Handle<Structure>> {
        self.previous
    }

    pub closed spec fn spec_prototype(&self) -> Option<Handle<AnyCell>> {
        self.prototype
    }

    pub closed spec fn spec_calculated_size(&self) -> u32 {
        self.calculated_size
    }

    pub open spec fn adding(&self) -> bool {
        self.spec_added().0 != spec_dummy_symbol()
    }

    pub open spec fn unique(&self) -> bool {
        !self.spec_transitions().spec_enabled()
    }

    /// The number of storage slots objects of this shape use.
    pub open spec fn slots(&self) -> nat {
        if self.has_table_spec() {
            self.entries().dom().len() + self.freed().len()
        } else {
            self.spec_calculated_size() as nat
        }
    }

    pub closed spec fn wf(&self) -> bool {
        &&& self.transitions.wf()
        &&& self.deleted.wf()
        &&& match self.table {
            Some(t) => t.wf() && t.count() + self.deleted@.len() <= u32::MAX,
            None => self.deleted@.len() == 0,
        }
        &&& self.deleted@.len() > 0 ==> !self.transitions.spec_enabled()
        &&& self.previous is None && self.table is None ==> self.added.0 == spec_dummy_symbol()
    }

    pub fn id(&self) -> (r: StructureID)
        ensures
            r == self.spec_id(),
    {
        self.id
    }

    pub fn set_id(&mut self, id: StructureID)
        ensures
            final(self).spec_id() == id,
            final(self).wf() == old(self).wf(),
            Transitions::same(final(self).spec_transitions(), old(self).spec_transitions()),
            final(self).has_table_spec() == old(self).has_table_spec(),
            final(self).entries() == old(self).entries(),
            final(self).slots() == old(self).slots(),
    {
        self.id = id;
    }

    /// A root shape with no properties.
    pub fn ctor1(prototype: Option<Handle<AnyCell>>, unique: bool, indexed: bool) -> (r: Structure)
        ensures
            r.wf(),
            !r.has_table_spec(),
            !r.adding(),
            r.spec_previous() is None,
            r.spec_prototype() == prototype,
            r.unique() == unique,
            r.spec_transitions().spec_indexed() == indexed,
            r.spec_transitions().targets() == Map::<TransitionKey, Option<Handle<Structure>>>::empty(),
            r.freed().len() == 0,
            r.slots() == 0,
            r.spec_id() == 0,
    {
        Structure {
            prototype,
            previous: None,
            table: None,
            transitions: Transitions::new(!unique, indexed),
            deleted: DeletedEntryHolder::new(),
            added: (dummy_symbol(), MapEntry { offset: u32::MAX, attrs: NOT_FOUND_ATTRS }),
            id: 0,
            calculated_size: 0,
        }
    }

    /// A root shape over a table made elsewhere.
    pub fn ctor2(
        table: Option<TargetTable>,
        prototype: Option<Handle<AnyCell>>,
        unique: bool,
        indexed: bool,
    ) -> (r: Structure)
        requires
            table is Some ==> table->Some_0.wf() && table->Some_0.count() <= u32::MAX,
        ensures
            r.wf(),
            r.has_table_spec() == table is Some,
            table is Some ==> r.entries() == table->Some_0@,
            !r.adding(),
            r.spec_previous() is None,
            r.spec_prototype() == prototype,
            r.unique() == unique,
            r.spec_transitions().spec_indexed() == indexed,
            r.spec_transitions().targets() == Map::<TransitionKey, Option<Handle<Structure>>>::empty(),
            r.freed().len() == 0,
            r.slots() == (match table {
                Some(t) => t@.dom().len(),
                None => 0,
            }),
    {
        let mut this = Structure::ctor1(prototype, unique, indexed);
        this.table = table;
        this.calculated_size = this.get_slots_size() as u32;
        this
    }

    /// A root shape whose table holds the pairs of `it`, later pairs
    /// replacing earlier ones with the same name.
    pub fn ctor3(it: &[(Symbol, MapEntry)]) -> (r: Structure)
        requires
            it@.len() <= u32::MAX,
        ensures
            r.wf(),
            r.has_table_spec(),
            r.entries() == replay(Map::empty(), it@),
            r.slots() == r.entries().dom().len(),
            r.slots() <= it@.len(),
            !r.adding(),
            r.spec_previous() is None,
            r.spec_prototype() is None,
            !r.unique(),
            !r.spec_transitions().spec_indexed(),
            r.spec_transitions().targets() == Map::<TransitionKey, Option<Handle<Structure>>>::empty(),
            r.freed().len() == 0,
    {
        let mut table = TargetTable::new();
        let mut i: usize = 0;
        while i < it.len()
            invariant
                i <= it@.len(),
                it@.len() <= u32::MAX,
                table.wf(),
                table@ == replay(Map::empty(), it@.take(i as int)),
                table.count() <= i,
            decreases it@.len() - i,
        {
            let (name, entry) = it[i];
            table.insert(name, entry);
            proof {
                assert(it@.take(i as int + 1).drop_last() =~= it@.take(i as int));
            }
            i = i + 1;
        }
        proof {
            assert(it@.take(it@.len() as int) =~= it@);
        }
        let mut this = Structure {
            prototype: None,
            previous: None,
            table: Some(table),
            transitions: Transitions::new(true, false),
            deleted: DeletedEntryHolder::new(),
            added: (dummy_symbol(), MapEntry { offset: u32::MAX, attrs: NOT_FOUND_ATTRS }),
            id: 0,
            calculated_size: 0,
        };
        this.calculated_size = this.get_slots_size() as u32;
        this
    }

    /// The table, where one has been made.
    pub fn table(&self) -> (r: Option<&TargetTable>)
        ensures
            r is Some == self.has_table_spec(),
            r is Some ==> r->Some_0@ == self.entries(),
            r is Some ==> r->Some_0.count() == self.table_count(),
            self.wf() && r is Some ==> r->Some_0.wf(),
    {
        match &self.table {
            Some(t) => Some(t),
            None => None,
        }
    }

    /// Whether this shape was produced by adding a property.
    pub fn is_adding_map(&self) -> (r: bool)
        ensures
            r == self.adding(),
    {
        self.added.0 != dummy_symbol()
    }

    pub fn has_table(&self) -> (r: bool)
        ensures
            r == self.has_table_spec(),
    {
        self.table.is_some()
    }

    pub fn is_indexed(&self) -> (r: bool)
        ensures
            r == self.spec_transitions().spec_indexed(),
    {
        self.transitions.is_indexed()
    }

    /// Whether this shape takes part in no sharing.
    pub fn is_unique(&self) -> (r: bool)
        ensures
            r == self.unique(),
    {
        !self.transitions.is_enabled()
    }

    /// Whether this shape's identity can stand for its layout.
    pub fn is_shaped(&self) -> (r: bool)
        ensures
            r == self.spec_transitions().spec_enabled(),
    {
        !self.is_unique() || self.transitions.is_enabled()
    }

    /// The shape this one was produced from, while it has no table of its own.
    pub fn previous(&self) -> (r: Option<Handle<Structure>>)
        ensures
            r == self.spec_previous(),
    {
        self.previous
    }

    pub fn prototype(&self) -> (r: Option<Handle<AnyCell>>)
        ensures
            r == self.spec_prototype(),
    {
        self.prototype
    }

    /// Marks a unique shape as the end of a dedicated transition.
    pub fn flatten(&mut self)
        ensures
            final(self).wf() == old(self).wf(),
            !old(self).unique() ==> *final(self) == *old(self),
            old(self).unique() ==> final(self).spec_transitions().spec_unique_transition(),
            final(self).unique() == old(self).unique(),
            final(self).spec_transitions().targets() == old(self).spec_transitions().targets(),
            final(self).spec_transitions().holds_table() == old(self).spec_transitions().holds_table(),
            final(self).spec_transitions().spec_indexed() == old(self).spec_transitions().spec_indexed(),
            final(self).spec_id() == old(self).spec_id(),
            final(self).has_table_spec() == old(self).has_table_spec(),
            final(self).entries() == old(self).entries(),
            final(self).freed() == old(self).freed(),
            final(self).spec_added() == old(self).spec_added(),
            final(self).spec_previous() == old(self).spec_previous(),
            final(self).spec_prototype() == old(self).spec_prototype(),
            final(self).spec_calculated_size() == old(self).spec_calculated_size(),
            final(self).slots() == old(self).slots(),
    {
        if self.is_unique() {
            self.transitions.enable_unique_transition();
        }
    }

    /// The number of storage slots objects of this shape use: with a
    /// table, its entries plus the freed offsets still held.
    pub fn get_slots_size(&self) -> (r: usize)
        requires
            self.wf(),
        ensures
            r == self.slots(),
            r <= u32::MAX,
    {
        match &self.table {
            Some(table) => table.len() + self.deleted.size() as usize,
            None => self.calculated_size as usize,
        }
    }

    /// Removes `name` from the table and frees its offset; the shape becomes
    /// unique, as its offsets may now be reused differently.
    pub fn delete(&mut self, name: Symbol)
        requires
            old(self).wf(),
            old(self).has_table_spec(),
            old(self).entries().contains_key(name),
        ensures
            final(self).wf(),
            final(self).has_table_spec(),
            final(self).entries() == old(self).entries().remove(name),
            final(self).freed() == old(self).freed().push(old(self).entries()[name].offset),
            final(self).unique(),
            final(self).slots() == old(self).slots(),
            final(self).spec_transitions().targets() == old(self).spec_transitions().targets(),
            final(self).spec_transitions().holds_table() == old(self).spec_transitions().holds_table(),
            final(self).spec_transitions().spec_unique_transition() == old(self).spec_transitions().spec_unique_transition(),
            final(self).spec_transitions().spec_indexed() == old(self).spec_transitions().spec_indexed(),
            final(self).spec_added() == old(self).spec_added(),
            final(self).spec_previous() == old(self).spec_previous(),
            final(self).spec_prototype() == old(self).spec_prototype(),
            final(self).spec_id() == old(self).spec_id(),
            final(self).spec_calculated_size() == old(self).spec_calculated_size(),
    {
        self.transitions.set_enabled(false);
        let mut table = self.table.take().unwrap();
        let it = table.remove(name).unwrap();
        self.table = Some(table);
        self.deleted.push(it.offset);
    }

    /// Gives the property `name` new attribute bits, in place.
    pub fn change_attributes(&mut self, name: Symbol, attributes: u32)
        requires
            old(self).wf(),
            old(self).has_table_spec(),
            old(self).entries().contains_key(name),
            old(self).unique(),
        ensures
            final(self).wf(),
            final(self).has_table_spec(),
            final(self).entries() == old(self).entries().insert(
                name,
                MapEntry { offset: old(self).entries()[name].offset, attrs: attributes },
            ),
            final(self).freed() == old(self).freed(),
            final(self).slots() == old(self).slots(),
            Transitions::same(final(self).spec_transitions(), old(self).spec_transitions()),
            final(self).spec_added() == old(self).spec_added(),
            final(self).spec_previous() == old(self).spec_previous(),
            final(self).spec_prototype() == old(self).spec_prototype(),
            final(self).spec_id() == old(self).spec_id(),
            final(self).spec_calculated_size() == old(self).spec_calculated_size(),
    {
        let mut table = self.table.take().unwrap();
        let it = table.get(name).unwrap();
        table.insert(name, MapEntry { offset: it.offset, attrs: attributes });
        self.table = Some(table);
    }
}

/// The additions recorded along the ancestors of a shape, starting at `cur`
/// and walking up, until an ancestor with a table or the root. Each step
/// must reach a shape allocated before the last one (below `bound`).
pub open spec fn ancestor_additions(
    shapes: Seq<Structure>,
    cur: Option<Handle<Structure>>,
    bound: int,
) -> Seq<(Symbol, MapEntry)>
    decreases bound,
{
    match cur {
        None => Seq::empty(),
        Some(c) => {
            let i = c.addr() as int;
            if 0 <= i < bound && i < shapes.len() && !shapes[i].has_table_spec() {
                (if shapes[i].adding() {
                    seq![shapes[i].spec_added()]
                } else {
                    Seq::empty()
                }) + ancestor_additions(shapes, shapes[i].spec_previous(), i)
            } else {
                Seq::empty()
            }
        },
    }
}

/// The additions a table made for shape `h` replays, in the order they are
/// collected: the shape's own, then its ancestors' walking up.
pub open spec fn pending_additions(shapes: Seq<Structure>, h: int) -> Seq<(Symbol, MapEntry)> {
    (if shapes[h].adding() {
        seq![shapes[h].spec_added()]
    } else {
        Seq::empty()
    }) + ancestor_additions(shapes, shapes[h].spec_previous(), h)
}

/// The table the walk of `ancestor_additions` ends on: the entries of the
/// first ancestor with a table, or none when it reaches the root.
pub open spec fn ancestor_base(
    shapes: Seq<Structure>,
    cur: Option<Handle<Structure>>,
    bound: int,
) -> Map<Symbol, MapEntry>
    decreases bound,
{
    match cur {
        None => Map::empty(),
        Some(c) => {
            let i = c.addr() as int;
            if 0 <= i < bound && i < shapes.len() {
                if shapes[i].has_table_spec() {
                    shapes[i].entries()
                } else {
                    ancestor_base(shapes, shapes[i].spec_previous(), i)
                }
            } else {
                Map::empty()
            }
        },
    }
}

/// The whole name-to-entry map of shape `h`, as its table holds it once
/// made: the entries of its nearest ancestor with a table, with the
/// additions recorded since replayed over them.
pub open spec fn materialized_entries(shapes: Seq<Structure>, h: int) -> Map<Symbol, MapEntry> {
    replay(ancestor_base(shapes, shapes[h].spec_previous(), h), pending_additions(shapes, h))
}

/// The arena of shapes: a handle to a shape is its index here.
pub struct StructureHeap {
    shapes: Vec<Structure>,
}

impl StructureHeap {
    pub closed spec fn shapes(&self) -> Seq<Structure> {
        self.shapes@
    }

    pub open spec fn holds(&self, h: Handle<Structure>) -> bool {
        h.addr() < self.shapes().len()
    }

    /// Every transition out of a shape leads to a shape in the arena that
    /// was produced by adding the transition's property.
    pub open spec fn transitions_labelled(&self) -> bool {
        forall|i: int, k: TransitionKey|
            0 <= i < self.shapes().len() && #[trigger] self.shapes()[i].spec_transitions().targets().contains_key(k)
                ==> {
                let t = self.shapes()[i].spec_transitions().targets()[k];
                t is Some ==> {
                    &&& self.holds(t->Some_0)
                    &&& self.shapes()[t->Some_0.addr() as int].spec_added().0 == k.name
                    &&& self.shapes()[t->Some_0.addr() as int].spec_added().1.attrs == k.attrs
                }
            }
    }

    /// A shape without a table links to a shape allocated before it, whose
    /// slots all lie below its own slot count.
    pub open spec fn parents_smaller(&self) -> bool {
        forall|i: int|
            0 <= i < self.shapes().len() && !(#[trigger] self.shapes()[i]).has_table_spec()
                && self.shapes()[i].spec_previous() is Some ==> {
                let p = self.shapes()[i].spec_previous()->Some_0.addr() as int;
                &&& p < i
                &&& self.shapes()[p].slots() < self.shapes()[i].spec_calculated_size()
            }
    }

    pub open spec fn wf(&self) -> bool {
        &&& self.shapes().len() <= u32::MAX
        &&& forall|i: int| 0 <= i < self.shapes().len() ==> #[trigger] self.shapes()[i].wf()
        &&& self.transitions_labelled()
        &&& self.parents_smaller()
    }

    /// What adding the property (`name`, `attrs`) to shape `from` did, going
    /// from `a` to `b` and returning `r`: an existing transition is followed;
    /// otherwise, unless `from` is unique or full, a new shape without a
    /// table is made, holding the property at the next slot, and the
    /// transition to it is recorded.
    pub open spec fn add_post(
        a: StructureHeap,
        b: StructureHeap,
        from: Handle<Structure>,
        name: Symbol,
        attrs: u32,
        r: Option<Handle<Structure>>,
    ) -> bool {
        let key = TransitionKey { name, attrs };
        let src = a.shapes()[from.addr() as int];
        let existing = src.spec_transitions().targets().contains_key(key)
            && src.spec_transitions().targets()[key] is Some;
        if existing {
            &&& r == src.spec_transitions().targets()[key]
            &&& b.shapes() == a.shapes()
        } else if src.unique() || src.slots() >= u32::MAX || a.shapes().len() >= u32::MAX {
            &&& r is None
            &&& b.shapes() == a.shapes()
        } else {
            let c = r->Some_0;
            let child = b.shapes()[c.addr() as int];
            &&& r is Some
            &&& c.addr() == a.shapes().len()
            &&& b.shapes().len() == a.shapes().len() + 1
            &&& forall|i: int|
                0 <= i < a.shapes().len() && i != from.addr() ==> #[trigger] b.shapes()[i]
                    == a.shapes()[i]
            &&& b.shapes()[from.addr() as int].spec_transitions().targets()
                == src.spec_transitions().targets().insert(key, Some(c))
            &&& b.shapes()[from.addr() as int].entries() == src.entries()
            &&& b.shapes()[from.addr() as int].has_table_spec() == src.has_table_spec()
            &&& b.shapes()[from.addr() as int].slots() == src.slots()
            &&& b.shapes()[from.addr() as int].spec_added() == src.spec_added()
            &&& b.shapes()[from.addr() as int].spec_previous() == src.spec_previous()
            &&& !child.has_table_spec()
            &&& child.spec_added() == (name, MapEntry { offset: src.slots() as u32, attrs })
            &&& child.spec_previous() == Some(from)
            &&& child.spec_prototype() == src.spec_prototype()
            &&& !child.unique()
            &&& child.spec_transitions().spec_indexed() == src.spec_transitions().spec_indexed()
            &&& child.spec_transitions().targets() == Map::<
                TransitionKey,
                Option<Handle<Structure>>,
            >::empty()
            &&& child.slots() == src.slots() + 1
        }
    }

    pub fn new() -> (r: StructureHeap)
        ensures
            r.wf(),
            r.shapes().len() == 0,
    {
        StructureHeap { shapes: Vec::new() }
    }

    /// Places a root shape in the arena.
    pub fn allocate(&mut self, s: Structure) -> (r: Handle<Structure>)
        requires
            old(self).wf(),
            s.wf(),
            s.spec_transitions().targets() == Map::<TransitionKey, Option<Handle<Structure>>>::empty(),
            s.spec_previous() is None,
            old(self).shapes().len() < u32::MAX,
        ensures
            final(self).wf(),
            r.addr() == old(self).shapes().len(),
            final(self).shapes() == old(self).shapes().push(s),
    {
        let r = Handle::<Structure>::from_addr(self.shapes.len());
        self.shapes.push(s);
        proof {
            assert forall|i: int, k: TransitionKey|
                0 <= i < self.shapes().len() && #[trigger] self.shapes()[i].spec_transitions().targets().contains_key(
                    k,
                ) implies {
                let t = self.shapes()[i].spec_transitions().targets()[k];
                t is Some ==> {
                    &&& self.holds(t->Some_0)
                    &&& self.shapes()[t->Some_0.addr() as int].spec_added().0 == k.name
                    &&& self.shapes()[t->Some_0.addr() as int].spec_added().1.attrs == k.attrs
                }
            } by {
                assert(i < old(self).shapes().len());
                assert(old(self).shapes()[i].spec_transitions().targets().contains_key(k));
            }
            assert forall|i: int|
                0 <= i < self.shapes().len() && !(#[trigger] self.shapes()[i]).has_table_spec()
                    && self.shapes()[i].spec_previous() is Some implies {
                let p = self.shapes()[i].spec_previous()->Some_0.addr() as int;
                &&& p < i
                &&& self.shapes()[p].slots() < self.shapes()[i].spec_calculated_size()
            } by {
                assert(i < old(self).shapes().len());
                assert(old(self).shapes()[i] == self.shapes()[i]);
            }
        }
        r
    }

    pub fn get(&self, h: Handle<Structure>) -> (r: &Structure)
        requires
            self.holds(h),
        ensures
            *r == self.shapes()[h.addr() as int],
    {
        &self.shapes[h.index()]
    }

    /// The shape reached from `from` by adding the property (`name`,
    /// `attrs`): the one an earlier identical addition made, so that objects
    /// built the same way share it, or else a new one. None where `from` is
    /// unique (its objects change their shape in place) or cannot grow.
    pub fn add_property_transition(&mut self, from: Handle<Structure>, name: Symbol, attrs: u32) -> (r:
        Option<Handle<Structure>>)
        requires
            old(self).wf(),
            old(self).holds(from),
        ensures
            final(self).wf(),
            StructureHeap::add_post(*old(self), *final(self), from, name, attrs, r),
    {
        let fi = from.index();
        proof {
            assert(old(self).shapes()[fi as int].wf());
        }
        if let Some(child) = self.shapes[fi].transitions.find(name, attrs) {
            return Some(child);
        }
        if !self.shapes[fi].transitions.is_enabled() {
            return None;
        }
        let slots = self.shapes[fi].get_slots_size();
        if slots >= u32::MAX as usize || self.shapes.len() >= u32::MAX as usize {
            return None;
        }
        let offset = slots as u32;
        let child = Handle::<Structure>::from_addr(self.shapes.len());
        let s = Structure {
            id: 0,
            transitions: Transitions::new(true, self.shapes[fi].transitions.is_indexed()),
            table: None,
            deleted: DeletedEntryHolder::new(),
            added: (name, MapEntry { offset, attrs }),
            previous: Some(from),
            prototype: self.shapes[fi].prototype,
            calculated_size: offset + 1,
        };
        self.shapes[fi].transitions.insert(name, attrs, child);
        self.shapes.push(s);
        proof {
            let key = TransitionKey { name, attrs };
            assert forall|i: int, k: TransitionKey|
                0 <= i < self.shapes().len() && #[trigger] self.shapes()[i].spec_transitions().targets().contains_key(
                    k,
                ) implies {
                let t = self.shapes()[i].spec_transitions().targets()[k];
                t is Some ==> {
                    &&& self.holds(t->Some_0)
                    &&& self.shapes()[t->Some_0.addr() as int].spec_added().0 == k.name
                    &&& self.shapes()[t->Some_0.addr() as int].spec_added().1.attrs == k.attrs
                }
            } by {
                if i != fi || k != key {
                    assert(i < old(self).shapes().len());
                    assert(old(self).shapes()[i].spec_transitions().targets().contains_key(k));
                }
            }
            assert forall|i: int| 0 <= i < self.shapes().len() implies #[trigger] self.shapes()[i].wf() by {
                if i < old(self).shapes().len() {
                    assert(old(self).shapes()[i].wf());
                }
            }
            assert forall|i: int|
                0 <= i < self.shapes().len() && !(#[trigger] self.shapes()[i]).has_table_spec()
                    && self.shapes()[i].spec_previous() is Some implies {
                let p = self.shapes()[i].spec_previous()->Some_0.addr() as int;
                &&& p < i
                &&& self.shapes()[p].slots() < self.shapes()[i].spec_calculated_size()
            } by {
                if i < old(self).shapes().len() {
                    assert(old(self).shapes()[i].spec_previous() == self.shapes()[i].spec_previous());
                    assert(!old(self).shapes()[i].has_table_spec());
                }
            }
        }
        Some(child)
    }
}

impl Structure {
    /// Makes the table of shape `h`, which has none: walks up its ancestors
    /// collecting the recorded additions until one with a table or the
    /// root, copies that ancestor's table (if any), replays the additions
    /// over the copy, and cuts the link to the parent, as the shape now owns
    /// its whole table.
    pub fn allocate_table(heap: &mut StructureHeap, h: Handle<Structure>)
        requires
            old(heap).wf(),
            old(heap).holds(h),
            !old(heap).shapes()[h.addr() as int].has_table_spec(),
        ensures
            final(heap).wf(),
            final(heap).shapes().len() == old(heap).shapes().len(),
            forall|i: int|
                0 <= i < old(heap).shapes().len() && i != h.addr() ==> #[trigger] final(heap).shapes()[i] == old(heap).shapes()[i],
            final(heap).shapes()[h.addr() as int].has_table_spec(),
            final(heap).shapes()[h.addr() as int].entries() == materialized_entries(
                old(heap).shapes(),
                h.addr() as int,
            ),
            final(heap).shapes()[h.addr() as int].slots() <= old(heap).shapes()[h.addr() as int].slots(),
            final(heap).shapes()[h.addr() as int].spec_previous() is None,
            final(heap).shapes()[h.addr() as int].spec_added() == old(heap).shapes()[h.addr() as int].spec_added(),
            final(heap).shapes()[h.addr() as int].spec_prototype() == old(heap).shapes()[h.addr() as int].spec_prototype(),
            final(heap).shapes()[h.addr() as int].spec_id() == old(heap).shapes()[h.addr() as int].spec_id(),
            final(heap).shapes()[h.addr() as int].freed() == old(heap).shapes()[h.addr() as int].freed(),
            Transitions::same(
                final(heap).shapes()[h.addr() as int].spec_transitions(),
                old(heap).shapes()[h.addr() as int].spec_transitions(),
            ),
    {
        let hi = h.index();
        let ghost shapes = heap.shapes@;
        let ghost base = ancestor_base(shapes, shapes[hi as int].spec_previous(), hi as int);
        proof {
            lemma_pending_fits(*heap, hi as int);
            assert(shapes[hi as int].wf());
        }
        let mut stack: Vec<(Symbol, MapEntry)> = Vec::new();
        if heap.shapes[hi].is_adding_map() {
            stack.push(heap.shapes[hi].added);
        }
        let mut current = heap.shapes[hi].previous;
        let mut bound = hi;
        let mut base_at: Option<usize> = None;
        proof {
            assert(stack@ + ancestor_additions(shapes, current, bound as int) =~= pending_additions(
                shapes,
                hi as int,
            ));
        }
        loop
            invariant_except_break
                base_at is None,
            invariant
                heap.shapes@ == shapes,
                hi < shapes.len(),
                bound <= hi,
                stack@ + ancestor_additions(shapes, current, bound as int) == pending_additions(
                    shapes,
                    hi as int,
                ),
                ancestor_base(shapes, current, bound as int) == base,
            ensures
                stack@ == pending_additions(shapes, hi as int),
                base_at is Some ==> base_at->Some_0 < shapes.len() && shapes[base_at->Some_0 as int].has_table_spec()
                    && shapes[base_at->Some_0 as int].entries() == base,
                base_at is None ==> base == Map::<Symbol, MapEntry>::empty(),
            decreases bound,
        {
            match current {
                Some(cur) => {
                    let ci = cur.index();
                    if ci >= bound || ci >= heap.shapes.len() {
                        proof {
                            assert(stack@ + ancestor_additions(shapes, current, bound as int) =~= stack@);
                        }
                        break ;
                    }
                    if heap.shapes[ci].has_table() {
                        proof {
                            assert(stack@ + ancestor_additions(shapes, current, bound as int) =~= stack@);
                        }
                        base_at = Some(ci);
                        break ;
                    }
                    let ghost old_stack = stack@;
                    if heap.shapes[ci].is_adding_map() {
                        stack.push(heap.shapes[ci].added);
                    }
                    proof {
                        let part = if shapes[ci as int].adding() {
                            seq![shapes[ci as int].spec_added()]
                        } else {
                            Seq::empty()
                        };
                        assert(stack@ =~= old_stack + part);
                        assert(old_stack + (part + ancestor_additions(
                            shapes,
                            shapes[ci as int].spec_previous(),
                            ci as int,
                        )) =~= stack@ + ancestor_additions(
                            shapes,
                            shapes[ci as int].spec_previous(),
                            ci as int,
                        ));
                    }
                    current = heap.shapes[ci].previous;
                    bound = ci;
                },
                None => {
                    proof {
                        assert(stack@ + ancestor_additions(shapes, current, bound as int) =~= stack@);
                    }
                    break ;
                },
            }
        }
        let mut table = match base_at {
            Some(b) => match &heap.shapes[b].table {
                Some(t) => t.clone_table(),
                None => TargetTable::new(),
            },
            None => TargetTable::new(),
        };
        proof {
            if base_at is Some {
                assert(shapes[base_at->Some_0 as int].wf());
            }
            assert(table@ == base);
            assert(table.wf());
        }
        let mut i: usize = 0;
        while i < stack.len()
            invariant
                i <= stack@.len(),
                table.wf(),
                table@ == replay(base, stack@.take(i as int)),
                table.count() <= base.dom().len() + i,
                base.dom().len() + stack@.len() <= shapes[hi as int].spec_calculated_size(),
            decreases stack@.len() - i,
        {
            let (name, entry) = stack[i];
            table.insert(name, entry);
            proof {
                assert(stack@.take(i as int + 1).drop_last() =~= stack@.take(i as int));
            }
            i = i + 1;
        }
        proof {
            assert(stack@.take(stack@.len() as int) =~= stack@);
        }
        heap.shapes[hi].table = Some(table);
        heap.shapes[hi].previous = None;
        proof {
            assert forall|i: int| 0 <= i < heap.shapes().len() implies #[trigger] heap.shapes()[i].wf() by {
                assert(old(heap).shapes()[i].wf());
            }
            assert forall|i: int, k: TransitionKey|
                0 <= i < heap.shapes().len() && #[trigger] heap.shapes()[i].spec_transitions().targets().contains_key(
                    k,
                ) implies {
                let t = heap.shapes()[i].spec_transitions().targets()[k];
                t is Some ==> {
                    &&& heap.holds(t->Some_0)
                    &&& heap.shapes()[t->Some_0.addr() as int].spec_added().0 == k.name
                    &&& heap.shapes()[t->Some_0.addr() as int].spec_added().1.attrs == k.attrs
                }
            } by {
                assert(old(heap).shapes()[i].spec_transitions().targets().contains_key(k));
            }
            assert forall|i: int|
                0 <= i < heap.shapes().len() && !(#[trigger] heap.shapes()[i]).has_table_spec()
                    && heap.shapes()[i].spec_previous() is Some implies {
                let p = heap.shapes()[i].spec_previous()->Some_0.addr() as int;
                &&& p < i
                &&& heap.shapes()[p].slots() < heap.shapes()[i].spec_calculated_size()
            } by {
                assert(i != hi);
                assert(old(heap).shapes()[i] == heap.shapes()[i]);
                assert(!old(heap).shapes()[i].has_table_spec());
            }
        }
    }

    /// Makes the table of shape `h` if it has none and is not a root; true
    /// when the shape has a table afterwards.
    pub fn allocate_table_if_needed(heap: &mut StructureHeap, h: Handle<Structure>) -> (r: bool)
        requires
            old(heap).wf(),
            old(heap).holds(h),
        ensures
            final(heap).wf(),
            r == (old(heap).shapes()[h.addr() as int].has_table_spec() || old(heap).shapes()[h.addr() as int].spec_previous() is Some),
            r == final(heap).shapes()[h.addr() as int].has_table_spec(),
            !r || old(heap).shapes()[h.addr() as int].has_table_spec() ==> final(heap).shapes() == old(heap).shapes(),
            r && !old(heap).shapes()[h.addr() as int].has_table_spec() ==> {
                &&& final(heap).shapes().len() == old(heap).shapes().len()
                &&& forall|i: int|
                    0 <= i < old(heap).shapes().len() && i != h.addr() ==> #[trigger] final(heap).shapes()[i] == old(heap).shapes()[i]
                &&& final(heap).shapes()[h.addr() as int].entries() == materialized_entries(
                    old(heap).shapes(),
                    h.addr() as int,
                )
                &&& final(heap).shapes()[h.addr() as int].slots() <= old(heap).shapes()[h.addr() as int].slots()
                &&& final(heap).shapes()[h.addr() as int].spec_previous() is None
                &&& final(heap).shapes()[h.addr() as int].spec_added() == old(heap).shapes()[h.addr() as int].spec_added()
                &&& final(heap).shapes()[h.addr() as int].spec_prototype() == old(heap).shapes()[h.addr() as int].spec_prototype()
                &&& final(heap).shapes()[h.addr() as int].spec_id() == old(heap).shapes()[h.addr() as int].spec_id()
                &&& final(heap).shapes()[h.addr() as int].freed() == old(heap).shapes()[h.addr() as int].freed()
                &&& Transitions::same(
                    final(heap).shapes()[h.addr() as int].spec_transitions(),
                    old(heap).shapes()[h.addr() as int].spec_transitions(),
                )
            },
    {
        if !heap.shapes[h.index()].has_table() {
            if heap.shapes[h.index()].previous.is_none() {
                return false;
            }
            Structure::allocate_table(heap, h);
        }
        true
    }
}

/// The walk from a shape without a table fits in its slot count: the
/// ancestor table it ends on and the additions it collects together hold no
/// more entries than the shape has slots.
proof fn lemma_pending_fits(heap: StructureHeap, j: int)
    requires
        heap.wf(),
        0 <= j < heap.shapes().len(),
        !heap.shapes()[j].has_table_spec(),
    ensures
        ancestor_base(heap.shapes(), heap.shapes()[j].spec_previous(), j).dom().finite(),
        ancestor_base(heap.shapes(), heap.shapes()[j].spec_previous(), j).dom().len()
            + pending_additions(heap.shapes(), j).len() <= heap.shapes()[j].spec_calculated_size(),
    decreases j,
{
    let s = heap.shapes();
    assert(s[j].wf());
    match s[j].spec_previous() {
        None => {},
        Some(p) => {
            let pi = p.addr() as int;
            assert(pi < j && s[pi].slots() < s[j].spec_calculated_size());
            assert(s[pi].wf());
            if s[pi].has_table_spec() {
                assert(ancestor_additions(s, s[pi].spec_previous(), pi).len() >= 0);
            } else {
                lemma_pending_fits(heap, pi);
            }
        },
    }
}

impl GcPointer<Structure> {
    /// Sets the prototype of the shape in place, without a transition.
    pub fn change_prototype_with_no_transition(
        &mut self,
        heap: &mut StructureHeap,
        prototype: Handle<AnyCell>,
    ) -> (r: Self)
        requires
            old(heap).wf(),
            old(heap).holds(*old(self)),
        ensures
            r == *old(self),
            *final(self) == *old(self),
            final(heap).wf(),
            final(heap).shapes().len() == old(heap).shapes().len(),
            forall|i: int|
                0 <= i < old(heap).shapes().len() && i != old(self).addr() ==> #[trigger] final(heap).shapes()[i] == old(heap).shapes()[i],
            final(heap).shapes()[old(self).addr() as int].spec_prototype() == Some(prototype),
            final(heap).shapes()[old(self).addr() as int].entries() == old(heap).shapes()[old(self).addr() as int].entries(),
            final(heap).shapes()[old(self).addr() as int].spec_added() == old(heap).shapes()[old(self).addr() as int].spec_added(),
            final(heap).shapes()[old(self).addr() as int].spec_id() == old(heap).shapes()[old(self).addr() as int].spec_id(),
            final(heap).shapes()[old(self).addr() as int].has_table_spec() == old(heap).shapes()[old(self).addr() as int].has_table_spec(),
            final(heap).shapes()[old(self).addr() as int].spec_transitions() == old(heap).shapes()[old(self).addr() as int].spec_transitions(),
            final(heap).shapes()[old(self).addr() as int].freed() == old(heap).shapes()[old(self).addr() as int].freed(),
            final(heap).shapes()[old(self).addr() as int].spec_previous() == old(heap).shapes()[old(self).addr() as int].spec_previous(),
            final(heap).shapes()[old(self).addr() as int].spec_calculated_size() == old(heap).shapes()[old(self).addr() as int].spec_calculated_size(),
    {
        let i = self.index();
        heap.shapes[i].prototype = Some(prototype);
        proof {
            assert forall|j: int| 0 <= j < heap.shapes().len() implies #[trigger] heap.shapes()[j].wf() by {
                assert(old(heap).shapes()[j].wf());
            }
            assert forall|j: int, k: TransitionKey|
                0 <= j < heap.shapes().len() && #[trigger] heap.shapes()[j].spec_transitions().targets().contains_key(
                    k,
                ) implies {
                let t = heap.shapes()[j].spec_transitions().targets()[k];
                t is Some ==> {
                    &&& heap.holds(t->Some_0)
                    &&& heap.shapes()[t->Some_0.addr() as int].spec_added().0 == k.name
                    &&& heap.shapes()[t->Some_0.addr() as int].spec_added().1.attrs == k.attrs
                }
            } by {
                assert(old(heap).shapes()[j].spec_transitions().targets().contains_key(k));
            }
            assert forall|j: int|
                0 <= j < heap.shapes().len() && !(#[trigger] heap.shapes()[j]).has_table_spec()
                    && heap.shapes()[j].spec_previous() is Some implies {
                let p = heap.shapes()[j].spec_previous()->Some_0.addr() as int;
                &&& p < j
                &&& heap.shapes()[p].slots() < heap.shapes()[j].spec_calculated_size()
            } by {
                assert(!old(heap).shapes()[j].has_table_spec());
            }
        }
        *self
    }
}

/// Objects that add the same property with the same attributes to the same
/// shape end up sharing one shape: a second identical addition returns what
/// the first did, and changes nothing.
pub proof fn lemma_shape_sharing(
    a: StructureHeap,
    b: StructureHeap,
    c: StructureHeap,
    from: Handle<Structure>,
    name: Symbol,
    attrs: u32,
    r1: Option<Handle<Structure>>,
    r2: Option<Handle<Structure>>,
)
    requires
        a.wf(),
        a.holds(from),
        StructureHeap::add_post(a, b, from, name, attrs, r1),
        StructureHeap::add_post(b, c, from, name, attrs, r2),
        r1 is Some,
    ensures
        r2 == r1,
        c.shapes() == b.shapes(),
{
    let key = TransitionKey { name, attrs };
    let src = a.shapes()[from.addr() as int];
    if !(src.spec_transitions().targets().contains_key(key) && src.spec_transitions().targets()[key] is Some) {
        assert(b.shapes()[from.addr() as int].spec_transitions().targets().contains_key(key));
    }
}

/// A shape reached through a transition was produced by adding that
/// transition's property: shapes whose last additions differ in name are
/// different shapes, so adding `"x"` then `"y"` and adding `"y"` then `"x"`
/// end at different shapes.
pub proof fn lemma_transition_order_matters(
    heap: StructureHeap,
    p: Handle<Structure>,
    kp: TransitionKey,
    q: Handle<Structure>,
    kq: TransitionKey,
)
    requires
        heap.wf(),
        heap.holds(p),
        heap.holds(q),
        heap.shapes()[p.addr() as int].spec_transitions().targets().contains_key(kp),
        heap.shapes()[q.addr() as int].spec_transitions().targets().contains_key(kq),
        heap.shapes()[p.addr() as int].spec_transitions().targets()[kp] is Some,
        heap.shapes()[q.addr() as int].spec_transitions().targets()[kq] is Some,
        kp.name != kq.name,
    ensures
        heap.shapes()[p.addr() as int].spec_transitions().targets()[kp] != heap.shapes()[q.addr() as int].spec_transitions().targets()[kq],
{
    assert(heap.shapes()[p.addr() as int].spec_transitions().targets().contains_key(kp));
    assert(heap.shapes()[q.addr() as int].spec_transitions().targets().contains_key(kq));
}

/// Replaying additions of distinct names, none already in `base`, adds
/// exactly those names, each with the entry it was added with, and keeps
/// every entry of `base`: the table grows by one entry per addition.
pub proof fn lemma_replay_distinct(base: Map<Symbol, MapEntry>, s: Seq<(Symbol, MapEntry)>)
    requires
        base.dom().finite(),
        forall|i: int, j: int| 0 <= i < j < s.len() ==> #[trigger] s[i].0 != #[trigger] s[j].0,
        forall|i: int| 0 <= i < s.len() ==> !base.contains_key(#[trigger] s[i].0),
    ensures
        forall|i: int|
            0 <= i < s.len() ==> #[trigger] replay(base, s).contains_key(s[i].0) && replay(base, s)[s[i].0]
                == s[i].1,
        forall|k: Symbol| #[trigger]
            base.contains_key(k) ==> replay(base, s).contains_key(k) && replay(base, s)[k] == base[k],
        forall|k: Symbol| #[trigger]
            replay(base, s).contains_key(k) ==> base.contains_key(k) || exists|i: int|
                0 <= i < s.len() && s[i].0 == k,
        replay(base, s).dom().finite(),
        replay(base, s).dom().len() == base.dom().len() + s.len(),
    decreases s.len(),
{
    if s.len() > 0 {
        let t = s.drop_last();
        lemma_replay_distinct(base, t);
        let last = s.last();
        assert(!replay(base, t).contains_key(last.0)) by {
            if replay(base, t).contains_key(last.0) {
                if !base.contains_key(last.0) {
                    let i = choose|i: int| 0 <= i < t.len() && t[i].0 == last.0;
                    assert(s[i].0 == s[s.len() - 1].0);
                }
            }
        }
        assert(replay(base, s).dom() =~= replay(base, t).dom().insert(last.0));
        assert forall|k: Symbol| #[trigger] replay(base, s).contains_key(k) implies base.contains_key(k)
            || exists|i: int| 0 <= i < s.len() && s[i].0 == k by {
            if k != last.0 {
                assert(replay(base, t).contains_key(k));
                if !base.contains_key(k) {
                    let i = choose|i: int| 0 <= i < t.len() && t[i].0 == k;
                    assert(t[i] == s[i]);
                }
            } else {
                assert(s[s.len() - 1].0 == k);
            }
        }
        assert forall|k: Symbol| #[trigger] base.contains_key(k) implies replay(base, s).contains_key(k)
            && replay(base, s)[k] == base[k] by {
            assert(k != last.0);
        }
        assert forall|i: int| 0 <= i < s.len() implies #[trigger] replay(base, s).contains_key(s[i].0)
            && replay(base, s)[s[i].0] == s[i].1 by {
            if i < s.len() - 1 {
                assert(t[i] == s[i]);
                assert(replay(base, t).contains_key(t[i].0));
                assert(s[i].0 != s[s.len() - 1].0);
            }
        }
    }
}

/// `ancestor_additions` reads only the added property, parent link and
/// table presence of shapes below `bound`.
proof fn lemma_ancestor_additions_frame(
    s1: Seq<Structure>,
    s2: Seq<Structure>,
    cur: Option<Handle<Structure>>,
    bound: int,
)
    requires
        bound <= s1.len(),
        bound <= s2.len(),
        forall|i: int|
            0 <= i < bound ==> {
                &&& (#[trigger] s1[i]).spec_added() == s2[i].spec_added()
                &&& s1[i].spec_previous() == s2[i].spec_previous()
                &&& s1[i].has_table_spec() == s2[i].has_table_spec()
            },
        forall|i: int| 0 <= i < bound ==> (#[trigger] s1[i]).entries() == s2[i].entries(),
    ensures
        ancestor_additions(s1, cur, bound) == ancestor_additions(s2, cur, bound),
        ancestor_base(s1, cur, bound) == ancestor_base(s2, cur, bound),
    decreases bound,
{
    match cur {
        None => {},
        Some(c) => {
            let i = c.addr() as int;
            if 0 <= i < bound {
                assert(s1[i].spec_added() == s2[i].spec_added());
                lemma_ancestor_additions_frame(s1, s2, s1[i].spec_previous(), i);
            }
        },
    }
}

/// Adding a property to a shape without a table stays lazy: the new shape
/// gets no table, and what its table would replay is the new property
/// followed by everything its parent's would. Along a chain of additions
/// from a root without a table, materializing the last shape's table
/// therefore replays exactly the chain's additions.
pub proof fn lemma_addition_is_lazy(
    a: StructureHeap,
    b: StructureHeap,
    from: Handle<Structure>,
    name: Symbol,
    attrs: u32,
    r: Option<Handle<Structure>>,
)
    requires
        a.wf(),
        a.holds(from),
        !a.shapes()[from.addr() as int].has_table_spec(),
        StructureHeap::add_post(a, b, from, name, attrs, r),
        r is Some,
        r->Some_0.addr() == a.shapes().len(),
        name != spec_dummy_symbol(),
    ensures
        !b.shapes()[r->Some_0.addr() as int].has_table_spec(),
        pending_additions(b.shapes(), r->Some_0.addr() as int) == seq![
            (name, MapEntry { offset: a.shapes()[from.addr() as int].slots() as u32, attrs }),
        ] + pending_additions(a.shapes(), from.addr() as int),
        ancestor_base(b.shapes(), b.shapes()[r->Some_0.addr() as int].spec_previous(), r->Some_0.addr() as int)
            == ancestor_base(a.shapes(), a.shapes()[from.addr() as int].spec_previous(), from.addr() as int),
{
    let key = TransitionKey { name, attrs };
    let src = a.shapes()[from.addr() as int];
    let f = from.addr() as int;
    let c = r->Some_0.addr() as int;
    if src.spec_transitions().targets().contains_key(key) && src.spec_transitions().targets()[key] is Some {
        let t = src.spec_transitions().targets()[key];
        assert(a.shapes()[f].spec_transitions().targets().contains_key(key));
        assert(a.holds(t->Some_0));
    }
    let child = b.shapes()[c];
    assert(child.spec_previous() == Some(from));
    assert(child.spec_added().0 == name);
    lemma_ancestor_additions_frame(a.shapes(), b.shapes(), src.spec_previous(), f);
    assert(b.shapes()[f].spec_added() == src.spec_added());
    assert(ancestor_additions(b.shapes(), Some(from), c) == pending_additions(b.shapes(), f));
    assert(pending_additions(b.shapes(), f) =~= pending_additions(a.shapes(), f));
    assert(ancestor_base(b.shapes(), Some(from), c) == ancestor_base(b.shapes(), b.shapes()[f].spec_previous(), f));
}

/// The additions recorded along `chain`, newest first: the order in which
/// a table made for its last shape replays them.
pub open spec fn chain_additions(shapes: Seq<Structure>, chain: Seq<Handle<Structure>>) -> Seq<
    (Symbol, MapEntry),
> {
    Seq::new(
        (chain.len() - 1) as nat,
        |k: int| shapes[chain[chain.len() - 1 - k].addr() as int].spec_added(),
    )
}

/// A chain of shapes without tables, each produced by adding one property
/// to the one before, starting from a root: what a table for the last shape
/// replays is exactly the chain's additions, over no inherited table. With
/// distinct names, that table holds exactly those names, each with the
/// entry (offset and attributes) it was added with.
pub proof fn lemma_chain_materializes(heap: StructureHeap, chain: Seq<Handle<Structure>>)
    requires
        heap.wf(),
        chain.len() >= 1,
        forall|i: int| 0 <= i < chain.len() ==> heap.holds(#[trigger] chain[i]),
        forall|i: int| 0 <= i < chain.len() ==> !heap.shapes()[#[trigger] chain[i].addr() as int].has_table_spec(),
        heap.shapes()[chain[0].addr() as int].spec_previous() is None,
        forall|i: int|
            1 <= i < chain.len() ==> heap.shapes()[#[trigger] chain[i].addr() as int].spec_previous()
                == Some(chain[i - 1]),
        forall|i: int| 1 <= i < chain.len() ==> heap.shapes()[#[trigger] chain[i].addr() as int].adding(),
    ensures
        ({
            let last = chain[chain.len() - 1].addr() as int;
            &&& ancestor_base(heap.shapes(), heap.shapes()[last].spec_previous(), last) == Map::<
                Symbol,
                MapEntry,
            >::empty()
            &&& pending_additions(heap.shapes(), last) == chain_additions(heap.shapes(), chain)
        }),
        ({
            let last = chain[chain.len() - 1].addr() as int;
            let adds = chain_additions(heap.shapes(), chain);
            (forall|i: int, j: int| 0 <= i < j < adds.len() ==> #[trigger] adds[i].0 != #[trigger] adds[j].0)
                ==> {
                &&& materialized_entries(heap.shapes(), last).dom().len() == chain.len() - 1
                &&& forall|i: int|
                    0 <= i < adds.len() ==> #[trigger] materialized_entries(heap.shapes(), last).contains_key(adds[i].0)
                        && materialized_entries(heap.shapes(), last)[adds[i].0] == adds[i].1
            }
        }),
    decreases chain.len(),
{
    lemma_chain_pending(heap, chain);
    let last = chain[chain.len() - 1].addr() as int;
    let adds = chain_additions(heap.shapes(), chain);
    if forall|i: int, j: int| 0 <= i < j < adds.len() ==> #[trigger] adds[i].0 != #[trigger] adds[j].0 {
        lemma_replay_distinct(Map::empty(), adds);
    }
}

proof fn lemma_chain_pending(heap: StructureHeap, chain: Seq<Handle<Structure>>)
    requires
        heap.wf(),
        chain.len() >= 1,
        forall|i: int| 0 <= i < chain.len() ==> heap.holds(#[trigger] chain[i]),
        forall|i: int| 0 <= i < chain.len() ==> !heap.shapes()[#[trigger] chain[i].addr() as int].has_table_spec(),
        heap.shapes()[chain[0].addr() as int].spec_previous() is None,
        forall|i: int|
            1 <= i < chain.len() ==> heap.shapes()[#[trigger] chain[i].addr() as int].spec_previous()
                == Some(chain[i - 1]),
        forall|i: int| 1 <= i < chain.len() ==> heap.shapes()[#[trigger] chain[i].addr() as int].adding(),
    ensures
        ({
            let last = chain[chain.len() - 1].addr() as int;
            &&& ancestor_base(heap.shapes(), heap.shapes()[last].spec_previous(), last) == Map::<
                Symbol,
                MapEntry,
            >::empty()
            &&& pending_additions(heap.shapes(), last) == chain_additions(heap.shapes(), chain)
        }),
    decreases chain.len(),
{
    let s = heap.shapes();
    let n = chain.len();
    let last = chain[n - 1].addr() as int;
    assert(!s[last].has_table_spec());
    assert(s[last].wf());
    if n == 1 {
        assert(chain_additions(s, chain) =~= Seq::empty());
        assert(pending_additions(s, last) =~= Seq::empty());
    } else {
        let c = chain.drop_last();
        assert forall|i: int| 0 <= i < c.len() implies heap.holds(#[trigger] c[i]) by {
            assert(c[i] == chain[i]);
        }
        assert forall|i: int| 0 <= i < c.len() implies !heap.shapes()[#[trigger] c[i].addr() as int].has_table_spec() by {
            assert(c[i] == chain[i]);
        }
        assert forall|i: int| 1 <= i < c.len() implies heap.shapes()[#[trigger] c[i].addr() as int].spec_previous()
            == Some(c[i - 1]) by {
            assert(c[i] == chain[i]);
        }
        assert forall|i: int| 1 <= i < c.len() implies heap.shapes()[#[trigger] c[i].addr() as int].adding() by {
            assert(c[i] == chain[i]);
        }
        lemma_chain_pending(heap, c);
        let p = chain[n - 2];
        assert(s[last].spec_previous() == Some(p));
        assert(heap.holds(chain[n - 1]));
        assert(s[last].adding());
        assert(heap.holds(p));
        assert(!s[p.addr() as int].has_table_spec());
        assert(p.addr() < last);
        assert(chain_additions(s, chain) =~= seq![s[last].spec_added()] + chain_additions(s, c));
        assert(pending_additions(s, last) =~= seq![s[last].spec_added()] + pending_additions(s, p.addr() as int));
    }
}

/// The targets held by a transition table, entry by entry.
pub open spec fn transition_edges(s: Seq<(TransitionKey, Option<Handle<Structure>>)>) -> Seq<usize>
    decreases s.len(),
{
    if s.len() == 0 {
        Seq::empty()
    } else {
        transition_edges(s.drop_last()) + s.last().1.strong_edges()
    }
}

/// `keys` lists, without repeats, exactly the keys of `m` that lead to a
/// shape, and `e` holds the address of each one's target, in that order.
pub open spec fn edges_list_targets(
    m: Map<TransitionKey, Option<Handle<Structure>>>,
    e: Seq<usize>,
    keys: Seq<TransitionKey>,
) -> bool {
    &&& keys.no_duplicates()
    &&& keys.len() == e.len()
    &&& forall|i: int|
        0 <= i < keys.len() ==> #[trigger] m.contains_key(keys[i]) && m[keys[i]] is Some && e[i]
            == m[keys[i]]->Some_0.addr()
    &&& forall|k: TransitionKey| #[trigger]
        m.contains_key(k) && m[k] is Some ==> keys.contains(k)
}

proof fn lemma_table_edges(s: Seq<(TransitionKey, Option<Handle<Structure>>)>) -> (keys: Seq<
    TransitionKey,
>)
    requires
        distinct_keys(s),
    ensures
        edges_list_targets(transition_map(s), transition_edges(s), keys),
    decreases s.len(),
{
    if s.len() == 0 {
        let keys = Seq::<TransitionKey>::empty();
        assert(edges_list_targets(transition_map(s), transition_edges(s), keys));
        keys
    } else {
        let t = s.drop_last();
        assert(distinct_keys(t)) by {
            assert forall|i: int, j: int| 0 <= i < j < t.len() implies #[trigger] t[i].0 != #[trigger] t[j].0 by {
                assert(t[i] == s[i] && t[j] == s[j]);
            }
        }
        let kt = lemma_table_edges(t);
        lemma_transition_map_lookup(t);
        let (k, c) = s.last();
        let mt = transition_map(t);
        let m = transition_map(s);
        assert(!mt.contains_key(k)) by {
            if mt.contains_key(k) {
                let i = choose|i: int| 0 <= i < t.len() && t[i].0 == k;
                assert(s[i].0 == s[s.len() - 1].0);
            }
        }
        assert(forall|i: int| 0 <= i < kt.len() ==> kt[i] != k);
        match c {
            None => {
                assert(transition_edges(s) =~= transition_edges(t));
                assert forall|kk: TransitionKey| #[trigger] m.contains_key(kk) && m[kk] is Some implies kt.contains(kk) by {
                    assert(kk != k);
                    assert(mt.contains_key(kk));
                }
                assert forall|i: int| 0 <= i < kt.len() implies #[trigger] m.contains_key(kt[i]) && m[kt[i]] is Some
                    && transition_edges(s)[i] == m[kt[i]]->Some_0.addr() by {
                    assert(mt.contains_key(kt[i]));
                }
                kt
            },
            Some(h) => {
                let keys = kt.push(k);
                let e = transition_edges(s);
                assert(e =~= transition_edges(t).push(h.addr()));
                assert forall|kk: TransitionKey| #[trigger] m.contains_key(kk) && m[kk] is Some implies keys.contains(kk) by {
                    if kk == k {
                        assert(keys[keys.len() - 1] == k);
                    } else {
                        assert(mt.contains_key(kk));
                        let i = choose|i: int| 0 <= i < kt.len() && kt[i] == kk;
                        assert(keys[i] == kk);
                    }
                }
                assert forall|i: int| 0 <= i < keys.len() implies #[trigger] m.contains_key(keys[i]) && m[keys[i]] is Some
                    && e[i] == m[keys[i]]->Some_0.addr() by {
                    if i < kt.len() {
                        assert(keys[i] == kt[i]);
                        assert(mt.contains_key(kt[i]));
                    }
                }
                assert(keys.no_duplicates()) by {
                    assert forall|i: int, j: int| 0 <= i < keys.len() && 0 <= j < keys.len() && i != j implies keys[i]
                        != keys[j] by {
                        if i < kt.len() && j < kt.len() {
                            assert(keys[i] == kt[i] && keys[j] == kt[j]);
                        } else if i < kt.len() {
                            assert(keys[i] == kt[i]);
                        } else {
                            assert(keys[j] == kt[j]);
                        }
                    }
                }
                keys
            },
        }
    }
}

impl Transitions {
    /// The edges a trace of the transitions hands out: the address of the
    /// target of every transition that leads to a shape, once per
    /// transition, and nothing else.
    pub proof fn lemma_strong_edges(t: Transitions)
        requires
            t.wf(),
        ensures
            exists|keys: Seq<TransitionKey>| edges_list_targets(t.targets(), t.strong_edges(), keys),
            (forall|k: TransitionKey| #[trigger] t.targets().contains_key(k) ==> t.targets()[k] is None)
                ==> t.strong_edges() == Seq::<usize>::empty(),
    {
        let keys = match t.store {
            TransitionStore::Empty => {
                let keys = Seq::<TransitionKey>::empty();
                assert(edges_list_targets(t.targets(), t.strong_edges(), keys));
                keys
            },
            TransitionStore::Single(k, c) => {
                let m = t.targets();
                assert(m.contains_key(k) && m[k] == c);
                let keys = if c is Some {
                    seq![k]
                } else {
                    Seq::empty()
                };
                assert forall|kk: TransitionKey| #[trigger] m.contains_key(kk) && m[kk] is Some implies keys.contains(kk) by {
                    assert(kk == k);
                    assert(keys[0] == k);
                }
                assert(edges_list_targets(m, t.strong_edges(), keys));
                keys
            },
            TransitionStore::Table(v, _) => lemma_table_edges(v@),
        };
        assert(edges_list_targets(t.targets(), t.strong_edges(), keys));
        if forall|k: TransitionKey| #[trigger] t.targets().contains_key(k) ==> t.targets()[k] is None {
            if keys.len() > 0 {
                assert(t.targets().contains_key(keys[0]));
            }
            assert(t.strong_edges() =~= Seq::<usize>::empty());
        }
    }
}

impl Structure {
    /// The edges a trace of a shape hands out: the targets of its
    /// transitions, each once (see `Transitions::lemma_strong_edges`), then
    /// the prototype and the parent shape, each where present.
    pub proof fn lemma_trace_edges(s: Structure)
        requires
            s.wf(),
        ensures
            s.strong_edges() == s.spec_transitions().strong_edges() + s.spec_prototype().strong_edges()
                + s.spec_previous().strong_edges(),
            s.weak_edges() == Seq::<usize>::empty(),
            exists|keys: Seq<TransitionKey>|
                edges_list_targets(
                    s.spec_transitions().targets(),
                    s.spec_transitions().strong_edges(),
                    keys,
                ),
            (forall|k: TransitionKey| #[trigger] s.spec_transitions().targets().contains_key(k)
                ==> s.spec_transitions().targets()[k] is None) ==> s.strong_edges()
                == s.spec_prototype().strong_edges() + s.spec_previous().strong_edges(),
    {
        Transitions::lemma_strong_edges(s.transitions);
        assert(Seq::<usize>::empty() + s.spec_prototype().strong_edges() =~= s.spec_prototype().strong_edges());
    }
}

impl Trace for Transitions {
    closed spec fn strong_edges(&self) -> Seq<usize> {
        match self.store {
            TransitionStore::Empty => Seq::empty(),
            TransitionStore::Single(_, c) => c.strong_edges(),
            TransitionStore::Table(v, _) => transition_edges(v@),
        }
    }

    open spec fn weak_edges(&self) -> Seq<usize> {
        Seq::empty()
    }

    /// Visits the target of every transition.
    fn trace(&self, visitor: &mut SlotVisitor) {
        match &self.store {
            TransitionStore::Empty => {
                assert(visitor.strong_seen() =~= old(visitor).strong_seen() + self.strong_edges());
                assert(visitor.weak_seen() =~= old(visitor).weak_seen() + self.weak_edges());
            },
            TransitionStore::Single(_, c) => {
                c.trace(visitor);
                assert(visitor.weak_seen() =~= old(visitor).weak_seen() + self.weak_edges());
            },
            TransitionStore::Table(table, _) => {
                let mut i: usize = 0;
                while i < table.len()
                    invariant
                        i <= table@.len(),
                        self.strong_edges() == transition_edges(table@),
                        visitor.strong_seen() == old(visitor).strong_seen() + transition_edges(
                            table@.take(i as int),
                        ),
                        visitor.weak_seen() == old(visitor).weak_seen(),
                    decreases table@.len() - i,
                {
                    table[i].1.trace(visitor);
                    proof {
                        let t = table@.take(i as int + 1);
                        assert(t.drop_last() =~= table@.take(i as int));
                        assert(visitor.strong_seen() =~= old(visitor).strong_seen() + transition_edges(t));
                        assert(visitor.weak_seen() =~= old(visitor).weak_seen());
                    }
                    i = i + 1;
                }
                proof {
                    assert(table@.take(table@.len() as int) =~= table@);
                    assert(visitor.weak_seen() =~= old(visitor).weak_seen() + self.weak_edges());
                }
            },
        }
    }
}

impl Trace for Structure {
    /// The targets of the transitions, then the prototype, then the parent
    /// shape. The table and the free list are owned by the shape and hold no
    /// edge.
    open spec fn strong_edges(&self) -> Seq<usize> {
        self.spec_transitions().strong_edges() + self.spec_prototype().strong_edges()
            + self.spec_previous().strong_edges()
    }

    open spec fn weak_edges(&self) -> Seq<usize> {
        Seq::empty()
    }

    fn trace(&self, visitor: &mut SlotVisitor) {
        self.transitions.trace(visitor);
        self.prototype.trace(visitor);
        self.previous.trace(visitor);
        proof {
            assert(visitor.strong_seen() =~= old(visitor).strong_seen() + self.strong_edges());
            assert(visitor.weak_seen() =~= old(visitor).weak_seen() + self.weak_edges());
        }
    }
}

impl GcCell for Structure {
    open spec fn type_tag() -> usize {
        6
    }

    fn vtable_id() -> (r: usize) {
        6
    }

    open spec fn type_label() -> Seq<char> {
        "Structure"@
    }

    fn cell_type_name(&self) -> (r: &'static str) {
        "Structure"
    }

    fn compute_size(&self) -> (r: usize) {
        core::mem::size_of_val(self)
    }
}

} // verus!
