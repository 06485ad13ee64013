use crate::types::Symbol;
use vstd::prelude::*;

verus! {

/// A map keyed by symbol, kept as a list of entries with distinct symbols.
#[derive(Debug)]
pub struct SymbolMap<V> {
    entries: Vec<(Symbol, V)>,
}

/// The symbols of a list of entries, in order.
pub closed spec fn entry_symbols<V>(entries: Seq<(Symbol, V)>) -> Seq<Seq<char>> {
    entries.map_values(|entry: (Symbol, V)| entry.0@)
}

/// The map that a list of entries with distinct symbols stands for.
pub closed spec fn entries_map<V>(entries: Seq<(Symbol, V)>) -> Map<Seq<char>, V> {
    Map::new(
        |symbol: Seq<char>| entry_symbols(entries).contains(symbol),
        |symbol: Seq<char>| entries[entry_symbols(entries).index_of(symbol)].1,
    )
}

/// Replacing the value of entry `i` replaces the value of its symbol in the map.
proof fn lemma_entries_set_value<V>(entries: Seq<(Symbol, V)>, i: int)
    requires
        entry_symbols(entries).no_duplicates(),
        0 <= i < entries.len(),
    ensures
        forall|w: V| {
            let updated = #[trigger] entries.update(i, (entries[i].0, w));
            &&& entry_symbols(updated) == entry_symbols(entries)
            &&& entries_map(updated) == entries_map(entries).insert(entries[i].0@, w)
        },
{
    assert forall|w: V| {
        let updated = #[trigger] entries.update(i, (entries[i].0, w));
        &&& entry_symbols(updated) == entry_symbols(entries)
        &&& entries_map(updated) == entries_map(entries).insert(entries[i].0@, w)
    } by {
        let updated = entries.update(i, (entries[i].0, w));
        assert(entry_symbols(updated) =~= entry_symbols(entries));
        let syms = entry_symbols(entries);
        assert(syms[i] == entries[i].0@);
        assert(syms.contains(syms[i]));
        assert forall|k: Seq<char>| syms.contains(k) implies syms.index_of(k) == i <==> k == syms[i] by {
            let j = syms.index_of(k);
            if k == syms[i] {
                assert(syms[j] == syms[i]);
            }
        }
        assert(entries_map(updated) =~= entries_map(entries).insert(entries[i].0@, w));
    }
}

/// Replacing entry `i` by one of the same symbol replaces the value of that symbol.
proof fn lemma_entries_replace<V>(entries: Seq<(Symbol, V)>, i: int, symbol: Symbol, w: V)
    requires
        entry_symbols(entries).no_duplicates(),
        0 <= i < entries.len(),
        symbol@ == entries[i].0@,
    ensures
        entry_symbols(entries.update(i, (symbol, w))) == entry_symbols(entries),
        entries_map(entries.update(i, (symbol, w))) == entries_map(entries).insert(symbol@, w),
{
    let updated = entries.update(i, (symbol, w));
    assert(entry_symbols(updated) =~= entry_symbols(entries));
    let syms = entry_symbols(entries);
    assert(syms[i] == symbol@);
    assert(syms.contains(syms[i]));
    assert forall|k: Seq<char>| syms.contains(k) implies syms.index_of(k) == i <==> k == syms[i] by {
        let j = syms.index_of(k);
        if k == syms[i] {
            assert(syms[j] == syms[i]);
        }
    }
    assert(entries_map(updated) =~= entries_map(entries).insert(symbol@, w));
}

/// Appending an entry for a new symbol adds that symbol to the map.
proof fn lemma_entries_push<V>(entries: Seq<(Symbol, V)>, symbol: Symbol, w: V)
    requires
        entry_symbols(entries).no_duplicates(),
        !entry_symbols(entries).contains(symbol@),
    ensures
        entry_symbols(entries.push((symbol, w))).no_duplicates(),
        entries_map(entries.push((symbol, w))) == entries_map(entries).insert(symbol@, w),
{
    let pushed = entries.push((symbol, w));
    let syms = entry_symbols(entries);
    let syms2 = entry_symbols(pushed);
    assert(syms2 =~= syms.push(symbol@));
    assert(syms2.no_duplicates()) by {
        assert forall|a: int, b: int| 0 <= a < syms2.len() && 0 <= b < syms2.len() && a != b implies syms2[a] != syms2[b] by {
            if a < syms.len() && b < syms.len() {
            } else if a < syms.len() {
                assert(syms.contains(syms[a]));
            } else if b < syms.len() {
                assert(syms.contains(syms[b]));
            }
        }
    }
    assert forall|k: Seq<char>| syms2.contains(k) <==> (syms.contains(k) || k == symbol@) by {
        if syms2.contains(k) && k != symbol@ {
            let j = choose|j: int| 0 <= j < syms2.len() && syms2[j] == k;
            assert(syms[j] == k);
        }
        if syms.contains(k) {
            let j = choose|j: int| 0 <= j < syms.len() && syms[j] == k;
            assert(syms2[j] == k);
        }
        if k == symbol@ {
            assert(syms2[syms.len() as int] == k);
        }
    }
    assert forall|k: Seq<char>| syms.contains(k) implies syms2.index_of(k) == syms.index_of(k) by {
        let j = syms.index_of(k);
        let j2 = syms2.index_of(k);
        assert(syms2.contains(k));
        assert(syms2[j] == k);
    }
    assert(syms2.contains(symbol@));
    assert(syms2.index_of(symbol@) == syms.len()) by {
        let j2 = syms2.index_of(symbol@);
        if j2 < syms.len() {
            assert(syms.contains(symbol@));
        }
    }
    assert(entries_map(pushed) =~= entries_map(entries).insert(symbol@, w));
}

impl<V> SymbolMap<V> {
    /// The symbols of the entries, in order.
    pub closed spec fn symbols(&self) -> Seq<Seq<char>> {
        entry_symbols(self.entries@)
    }

    /// No symbol has two entries.
    pub closed spec fn wf(&self) -> bool {
        self.symbols().no_duplicates()
    }
}

impl<V> View for SymbolMap<V> {
    type V = Map<Seq<char>, V>;

    closed spec fn view(&self) -> Map<Seq<char>, V> {
        entries_map(self.entries@)
    }
}

impl<V> SymbolMap<V> {
    pub fn new() -> (map: SymbolMap<V>)
        ensures
            map.wf(),
            map@ == Map::<Seq<char>, V>::empty(),
    {
        let map = SymbolMap { entries: Vec::new() };
        proof {
            assert(map@ =~= Map::<Seq<char>, V>::empty());
        }
        map
    }

    /// The index of the entry of `symbol`, if any.
    fn position(&self, symbol: &str) -> (r: Option<usize>)
        requires
            self.wf(),
        ensures
            match r {
                Some(i) => i < self.entries@.len() && self.symbols()[i as int] == symbol@,
                None => !self.symbols().contains(symbol@),
            },
    {
        let key = symbol.to_string();
        let n = self.entries.len();
        for i in 0..n
            invariant
                n == self.entries@.len(),
                key@ == symbol@,
                forall|j: int| 0 <= j < i ==> self.symbols()[j] != symbol@,
        {
            if self.entries[i].0 == key {
                return Some(i);
            }
        }
        None
    }

    /// Whether `symbol` has an entry.
    pub fn contains_key(&self, symbol: &str) -> (r: bool)
        requires
            self.wf(),
        ensures
            r == self@.contains_key(symbol@),
    {
        self.position(symbol).is_some()
    }

    /// The value of `symbol`, if any.
    pub fn get(&self, symbol: &str) -> (r: Option<&V>)
        requires
            self.wf(),
        ensures
            match r {
                Some(value) => self@.contains_key(symbol@) && *value == self@[symbol@],
                None => !self@.contains_key(symbol@),
            },
    {
        match self.position(symbol) {
            Some(i) => {
                proof {
                    assert(self.symbols().contains(symbol@));
                    assert(self.symbols().index_of(symbol@) == i);
                }
                Some(&self.entries[i].1)
            },
            None => None,
        }
    }

    /// A mutable reference to the value of `symbol`, if any; what is written through it
    /// becomes the value.
    pub fn get_mut(&mut self, symbol: &str) -> (r: Option<&mut V>)
        requires
            old(self).wf(),
        ensures
            final(self).wf(),
            match r {
                Some(value) => {
                    &&& old(self)@.contains_key(symbol@)
                    &&& *value == old(self)@[symbol@]
                    &&& final(self)@ == old(self)@.insert(symbol@, *final(value))
                },
                None => !old(self)@.contains_key(symbol@) && final(self)@ == old(self)@,
            },
    {
        match self.position(symbol) {
            Some(i) => {
                proof {
                    assert(self.symbols().contains(symbol@));
                    assert(self.symbols().index_of(symbol@) == i);
                    lemma_entries_set_value(self.entries@, i as int);
                }
                Some(&mut self.entries[i].1)
            },
            None => None,
        }
    }

    /// Sets the value of `symbol`, replacing any earlier one.
    pub fn insert(&mut self, symbol: Symbol, value: V)
        requires
            old(self).wf(),
        ensures
            final(self).wf(),
            final(self)@ == old(self)@.insert(symbol@, value),
    {
        match self.position(symbol.as_str()) {
            Some(i) => {
                proof {
                    lemma_entries_replace(self.entries@, i as int, symbol, value);
                }
                self.entries.set(i, (symbol, value));
            },
            None => {
                proof {
                    lemma_entries_push(self.entries@, symbol, value);
                }
                self.entries.push((symbol, value));
            },
        }
    }
}

} // verus!
