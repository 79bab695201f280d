//! The dependency symbol index: a read-only, multi-valued mapping from
//! every symbol name found in a library archive to the units that define
//! it.
//!
//! The index is an association list keyed by symbol name, each key held
//! once, each key's unit list free of duplicates and ordered by first
//! insertion, so that "the first recorded unit" is well defined.

use vstd::prelude::*;

use crate::strutil::str_eq;
use crate::types::{CrateName, MangledSymbol};

verus! {

/// One symbol with every unit that defines it.
pub struct IndexEntry {
    pub key: MangledSymbol,
    pub units: Vec<CrateName>,
}

/// The view of one entry: the key text and the unit texts in order.
pub open spec fn index_entry_view(e: IndexEntry) -> (Seq<char>, Seq<Seq<char>>) {
    (e.key@, e.units@.map_values(|u: CrateName| u@))
}

/// The unit list a view records under a key: the first matching entry's.
pub open spec fn index_lookup(v: Seq<(Seq<char>, Seq<Seq<char>>)>, key: Seq<char>) -> Option<
    Seq<Seq<char>>,
>
    decreases v.len(),
{
    if v.len() == 0 {
        None
    } else if v[0].0 == key {
        Some(v[0].1)
    } else {
        index_lookup(v.drop_first(), key)
    }
}

/// Whether some entry carries the key.
pub open spec fn index_has(v: Seq<(Seq<char>, Seq<Seq<char>>)>, key: Seq<char>) -> bool {
    exists|i: int| 0 <= i < v.len() && (#[trigger] v[i]).0 == key
}

/// Keys are pairwise distinct and every unit list is nonempty and free of
/// duplicates.
pub open spec fn index_wf(v: Seq<(Seq<char>, Seq<Seq<char>>)>) -> bool {
    &&& forall|i: int, j: int|
        0 <= i < j < v.len() ==> (#[trigger] v[i]).0 != (#[trigger] v[j]).0
    &&& forall|i: int|
        0 <= i < v.len() ==> (#[trigger] v[i]).1.len() > 0
    &&& forall|i: int, a: int, b: int|
        0 <= i < v.len() && 0 <= a < b < v[i].1.len() ==> #[trigger] v[i].1[a] != #[trigger] v[i].1[b]
}

pub proof fn lemma_index_lookup_at(v: Seq<(Seq<char>, Seq<Seq<char>>)>, j: int)
    requires
        forall|x: int, y: int| 0 <= x < y < v.len() ==> (#[trigger] v[x]).0 != (#[trigger] v[y]).0,
        0 <= j < v.len(),
    ensures
        index_lookup(v, v[j].0) == Some(v[j].1),
    decreases v.len(),
{
    if j > 0 {
        assert forall|x: int, y: int|
            0 <= x < y < v.drop_first().len() implies (#[trigger] v.drop_first()[x]).0 != (
        #[trigger] v.drop_first()[y]).0 by {
            assert(v.drop_first()[x] == v[x + 1]);
            assert(v.drop_first()[y] == v[y + 1]);
        }
        assert(v.drop_first()[j - 1] == v[j]);
        lemma_index_lookup_at(v.drop_first(), j - 1);
    }
}

pub proof fn lemma_index_lookup_absent(v: Seq<(Seq<char>, Seq<Seq<char>>)>, key: Seq<char>)
    requires
        !index_has(v, key),
    ensures
        index_lookup(v, key) is None,
    decreases v.len(),
{
    if v.len() > 0 {
        assert(v[0].0 != key);
        assert(!index_has(v.drop_first(), key)) by {
            assert forall|i: int| 0 <= i < v.drop_first().len() implies (#[trigger] v.drop_first()[
                i
            ]).0 != key by {
                assert(v.drop_first()[i] == v[i + 1]);
            }
        }
        lemma_index_lookup_absent(v.drop_first(), key);
    }
}

/// One (symbol, unit) pair, as archives yield them.
pub struct SymbolUnitPair {
    pub symbol: MangledSymbol,
    pub unit: CrateName,
}

/// The view of a pair list.
pub open spec fn pairs_view(p: Seq<SymbolUnitPair>) -> Seq<(Seq<char>, Seq<char>)> {
    p.map_values(|x: SymbolUnitPair| (x.symbol@, x.unit@))
}

/// The deduplicated unit list that a run of pairs produces for one key,
/// in first-insertion order.
pub open spec fn units_for(pairs: Seq<(Seq<char>, Seq<char>)>, key: Seq<char>) -> Seq<Seq<char>>
    decreases pairs.len(),
{
    if pairs.len() == 0 {
        Seq::empty()
    } else {
        let prev = units_for(pairs.drop_last(), key);
        if pairs.last().0 == key && !prev.contains(pairs.last().1) {
            prev.push(pairs.last().1)
        } else {
            prev
        }
    }
}

/// Maps every symbol defined by some dependency archive to the units
/// that define it.
pub struct DepsIndex {
    entries: Vec<IndexEntry>,
}

impl View for DepsIndex {
    type V = Seq<(Seq<char>, Seq<Seq<char>>)>;

    closed spec fn view(&self) -> Seq<(Seq<char>, Seq<Seq<char>>)> {
        self.entries@.map_values(|e: IndexEntry| index_entry_view(e))
    }
}

impl DepsIndex {
    pub open spec fn wf(&self) -> bool {
        index_wf(self@)
    }

    /// The unit list recorded under a key.
    pub open spec fn units(&self, key: Seq<char>) -> Option<Seq<Seq<char>>> {
        index_lookup(self@, key)
    }

    pub fn new() -> (r: Self)
        ensures
            r.wf(),
            r@.len() == 0,
            forall|key: Seq<char>| #[trigger] r.units(key) is None,
    {
        DepsIndex { entries: Vec::new() }
    }

    /// How many distinct symbols are recorded.
    pub fn len(&self) -> (r: usize)
        ensures
            r == self@.len(),
    {
        self.entries.len()
    }

    /// The first unit recorded for a symbol, the strongest attribution
    /// signal there is.
    pub fn get_first(&self, key: &str) -> (r: Option<&CrateName>)
        requires
            self.wf(),
        ensures
            match r {
                Some(u) => self.units(key@) matches Some(us) && us.len() > 0 && u@ == us[0],
                None => self.units(key@) is None,
            },
    {
        let mut i: usize = 0;
        while i < self.entries.len()
            invariant
                0 <= i <= self.entries@.len(),
                self.wf(),
                self@ == self.entries@.map_values(|e: IndexEntry| index_entry_view(e)),
                forall|k: int| 0 <= k < i ==> (#[trigger] self@[k]).0 != key@,
            decreases self.entries@.len() - i,
        {
            if str_eq(self.entries[i].key.as_str(), key) {
                proof {
                    lemma_index_lookup_at(self@, i as int);
                }
                return Some(&self.entries[i].units[0]);
            }
            i = i + 1;
        }
        proof {
            lemma_index_lookup_absent(self@, key@);
        }
        None
    }

    /// Every unit recorded for a symbol.
    pub fn get_vec(&self, key: &str) -> (r: Option<&Vec<CrateName>>)
        requires
            self.wf(),
        ensures
            match r {
                Some(us) => self.units(key@) == Some(us@.map_values(|u: CrateName| u@)),
                None => self.units(key@) is None,
            },
    {
        let mut i: usize = 0;
        while i < self.entries.len()
            invariant
                0 <= i <= self.entries@.len(),
                self.wf(),
                self@ == self.entries@.map_values(|e: IndexEntry| index_entry_view(e)),
                forall|k: int| 0 <= k < i ==> (#[trigger] self@[k]).0 != key@,
            decreases self.entries@.len() - i,
        {
            if str_eq(self.entries[i].key.as_str(), key) {
                proof {
                    lemma_index_lookup_at(self@, i as int);
                }
                return Some(&self.entries[i].units);
            }
            i = i + 1;
        }
        proof {
            lemma_index_lookup_absent(self@, key@);
        }
        None
    }

    /// Records that `unit` defines `symbol`; a unit already recorded for
    /// the symbol is not recorded twice.
    pub fn insert(&mut self, symbol: MangledSymbol, unit: CrateName) -> (r: ())
        requires
            old(self).wf(),
        ensures
            final(self).wf(),
            final(self).units(symbol@) == Some(
                match old(self).units(symbol@) {
                    Some(us) => if us.contains(unit@) {
                        us
                    } else {
                        us.push(unit@)
                    },
                    None => seq![unit@],
                },
            ),
            forall|key: Seq<char>|
                key != symbol@ ==> #[trigger] final(self).units(key) == old(self).units(key),
    {
        let ghost old_view = self@;
        let key_chars = crate::strutil::str_to_chars(symbol.as_str());
        let mut i: usize = 0;
        while i < self.entries.len()
            invariant
                0 <= i <= self.entries@.len(),
                key_chars@ == symbol@,
                index_wf(old_view),
                self@ == old_view,
                self.entries@ == old(self).entries@,
                forall|k: int| 0 <= k < i ==> (#[trigger] self@[k]).0 != symbol@,
            decreases self.entries@.len() - i,
        {
            let cand = crate::strutil::str_to_chars(self.entries[i].key.as_str());
            if crate::strutil::chars_eq(&key_chars, &cand) {
                proof {
                    lemma_index_lookup_at(old_view, i as int);
                }
                let mut j: usize = 0;
                let n_units = self.entries[i].units.len();
                while j < n_units
                    invariant
                        0 <= j <= n_units,
                        i < self.entries@.len(),
                        index_wf(old_view),
                        old_view[i as int].0 == symbol@,
                        self@ == old_view,
                        self.entries@ == old(self).entries@,
                        n_units == self.entries@[i as int].units@.len(),
                        forall|t: int|
                            0 <= t < j ==> (#[trigger] self.entries@[i as int].units@[t])@
                                != unit@,
                    decreases n_units - j,
                {
                    if str_eq(self.entries[i].units[j].as_str(), unit.as_str()) {
                        proof {
                            lemma_index_lookup_at(old_view, i as int);
                            assert(old_view[i as int].1[j as int] == self.entries@[
                            i as int].units@[j as int]@);
                            assert(old_view[i as int].1.contains(unit@));
                        }
                        return ;
                    }
                    j = j + 1;
                }
                proof {
                    lemma_index_lookup_at(old_view, i as int);
                    assert forall|t: int|
                        0 <= t < old_view[i as int].1.len() implies (#[trigger] old_view[
                    i as int].1[t]) != unit@ by {
                        assert(old_view[i as int].1[t] == self.entries@[i as int].units@[t]@);
                    }
                    assert(!old_view[i as int].1.contains(unit@));
                }
                let ghost old_units = old_view[i as int].1;
                self.entries[i].units.push(unit);
                proof {
                    assert(self@ =~= old_view.update(
                        i as int,
                        (symbol@, old_units.push(unit@)),
                    )) by {
                        assert forall|t: int| 0 <= t < self@.len() implies self@[t] == old_view
                            .update(i as int, (symbol@, old_units.push(unit@)))[t] by {
                            if t == i {
                                assert(self.entries@[t].units@ =~= old(self).entries@[
                                t].units@.push(unit));
                                assert(self.entries@[t].units@.map_values(|u: CrateName| u@)
                                    =~= old_units.push(unit@));
                            }
                        }
                    }
                    assert(index_wf(self@)) by {
                        assert forall|x: int, y: int|
                            0 <= x < y < self@.len() implies (#[trigger] self@[x]).0 != (
                        #[trigger] self@[y]).0 by {
                            if x != i {
                                assert(self@[x] == old_view[x]);
                            }
                            if y != i {
                                assert(self@[y] == old_view[y]);
                            }
                        }
                    }
                    lemma_index_lookup_at(self@, i as int);
                    assert forall|key: Seq<char>| key != symbol@ implies #[trigger] index_lookup(
                        self@,
                        key,
                    ) == index_lookup(old_view, key) by {
                        if index_has(old_view, key) {
                            let t = choose|t: int|
                                0 <= t < old_view.len() && (#[trigger] old_view[t]).0 == key;
                            lemma_index_lookup_at(old_view, t);
                            assert(self@[t] == old_view[t]);
                            lemma_index_lookup_at(self@, t);
                        } else {
                            lemma_index_lookup_absent(old_view, key);
                            assert(!index_has(self@, key)) by {
                                assert forall|t: int| 0 <= t < self@.len() implies (
                                #[trigger] self@[t]).0 != key by {
                                    if t != i {
                                        assert(self@[t] == old_view[t]);
                                    }
                                }
                            }
                            lemma_index_lookup_absent(self@, key);
                        }
                    }
                }
                return ;
            }
            i = i + 1;
        }
        proof {
            lemma_index_lookup_absent(old_view, symbol@);
        }
        let mut units: Vec<CrateName> = Vec::new();
        units.push(unit);
        self.entries.push(IndexEntry { key: symbol, units });
        proof {
            let nv = self@;
            assert(nv =~= old_view.push((symbol@, seq![unit@]))) by {
                assert forall|t: int| 0 <= t < nv.len() implies nv[t] == old_view.push(
                    (symbol@, seq![unit@]),
                )[t] by {
                    if t < nv.len() - 1 {
                        assert(self.entries@[t] == old(self).entries@[t]);
                    } else {
                        assert(self.entries@[t].units@.map_values(|u: CrateName| u@)
                            =~= seq![unit@]);
                    }
                }
            }
            assert(index_wf(nv)) by {
                assert forall|x: int, y: int| 0 <= x < y < nv.len() implies (#[trigger] nv[x]).0
                    != (#[trigger] nv[y]).0 by {
                    if y < nv.len() - 1 {
                        assert(nv[x] == old_view[x] && nv[y] == old_view[y]);
                    } else {
                        assert(nv[x] == old_view[x]);
                    }
                }
            }
            lemma_index_lookup_at(nv, nv.len() - 1);
            assert forall|key: Seq<char>| key != symbol@ implies #[trigger] index_lookup(nv, key)
                == index_lookup(old_view, key) by {
                if index_has(old_view, key) {
                    let t = choose|t: int|
                        0 <= t < old_view.len() && (#[trigger] old_view[t]).0 == key;
                    lemma_index_lookup_at(old_view, t);
                    assert(nv[t] == old_view[t]);
                    lemma_index_lookup_at(nv, t);
                } else {
                    lemma_index_lookup_absent(old_view, key);
                    assert(!index_has(nv, key)) by {
                        assert forall|t: int| 0 <= t < nv.len() implies (#[trigger] nv[t]).0
                            != key by {
                            if t < nv.len() - 1 {
                                assert(nv[t] == old_view[t]);
                            }
                        }
                    }
                    lemma_index_lookup_absent(nv, key);
                }
            }
        }
    }
}

/// Builds the index from every (symbol, unit) pair the archives yielded,
/// in order, collapsing duplicate pairs.
pub fn collect_deps_symbols(pairs: Vec<SymbolUnitPair>) -> (r: DepsIndex)
    ensures
        r.wf(),
        forall|key: Seq<char>|
            #[trigger] r.units(key) == (if units_for(pairs_view(pairs@), key).len() > 0 {
                Some(units_for(pairs_view(pairs@), key))
            } else {
                None::<Seq<Seq<char>>>
            }),
{
    let ghost pv = pairs_view(pairs@);
    let mut index = DepsIndex::new();
    let mut i: usize = 0;
    while i < pairs.len()
        invariant
            0 <= i <= pairs@.len(),
            pv == pairs_view(pairs@),
            index.wf(),
            forall|key: Seq<char>|
                #[trigger] index.units(key) == (if units_for(pv.take(i as int), key).len() > 0 {
                    Some(units_for(pv.take(i as int), key))
                } else {
                    None::<Seq<Seq<char>>>
                }),
        decreases pairs@.len() - i,
    {
        let p = &pairs[i];
        let sym = MangledSymbol::new(p.symbol.as_str().to_owned());
        let unit = CrateName::new(p.unit.as_str().to_owned());
        let ghost key = p.symbol@;
        let ghost before = index.units(key);
        index.insert(sym, unit);
        proof {
            assert(pv[i as int] == (pairs@[i as int].symbol@, pairs@[i as int].unit@));
            assert forall|k: Seq<char>|
                #[trigger] index.units(k) == (if units_for(pv.take(i as int + 1), k).len() > 0 {
                    Some(units_for(pv.take(i as int + 1), k))
                } else {
                    None::<Seq<Seq<char>>>
                }) by {
                assert(pv.take(i as int + 1).drop_last() =~= pv.take(i as int));
                assert(pv.take(i as int + 1).last() == pv[i as int]);
                if k == key {
                    match before {
                        Some(us) => {
                            assert(us == units_for(pv.take(i as int), k));
                        },
                        None => {
                            assert(units_for(pv.take(i as int), k) =~= Seq::<Seq<char>>::empty());
                            assert(units_for(pv.take(i as int + 1), k) =~= seq![pv[i as int].1]);
                        },
                    }
                }
            }
        }
        i = i + 1;
    }
    proof {
        assert(pv.take(pairs@.len() as int) =~= pv);
    }
    index
}

} // verus!
