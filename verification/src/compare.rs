//! The comparison engine: diffing two analysis snapshots at the symbol
//! and crate level.
//!
//! Both sides are summarized as tables of (name, total size) rows with
//! pairwise distinct names; the diff emits one change record for every
//! name present in either table, carrying the size on each side where the
//! name exists and nothing where it does not.

use vstd::multiset::Multiset;
use vstd::prelude::*;

use crate::strutil::str_eq;
use crate::types::ByteSize;

verus! {

/// A name with the total size attributed to it on one side.
#[derive(Clone, Debug)]
pub struct NamedSize {
    pub name: String,
    pub size: u64,
}

/// File-level and code-section-level sizes of the two snapshots compared.
#[derive(Clone, Copy, Debug, PartialEq, Eq, Structural)]
pub struct FileSizeDiff {
    pub file_size_before: ByteSize,
    pub file_size_after: ByteSize,
    pub text_size_before: ByteSize,
    pub text_size_after: ByteSize,
}

/// How one symbol's size changed between two snapshots; a `None` side
/// means the symbol is absent from that snapshot, never zero.
#[derive(Clone, Debug)]
pub struct SymbolChange {
    pub name: String,
    pub demangled: String,
    pub size_before: Option<u64>,
    pub size_after: Option<u64>,
}

/// How one crate's attributed size changed between two snapshots.
#[derive(Clone, Debug)]
pub struct CrateChange {
    pub name: String,
    pub size_before: Option<u64>,
    pub size_after: Option<u64>,
}

/// The symbol-level and crate-level diff of two snapshots.
#[derive(Clone, Debug)]
pub struct AnalysisComparison {
    pub file_size_diff: FileSizeDiff,
    pub symbol_changes: Vec<SymbolChange>,
    pub crate_changes: Vec<CrateChange>,
}

/// The size a table records under a name: the first matching row's.
pub open spec fn table_lookup(t: Seq<NamedSize>, key: Seq<char>) -> Option<u64>
    decreases t.len(),
{
    if t.len() == 0 {
        None
    } else if t[0].name@ == key {
        Some(t[0].size)
    } else {
        table_lookup(t.drop_first(), key)
    }
}

/// Whether some row carries the name.
pub open spec fn table_has(t: Seq<NamedSize>, key: Seq<char>) -> bool {
    exists|i: int| 0 <= i < t.len() && (#[trigger] t[i]).name@ == key
}

/// Names are pairwise distinct.
pub open spec fn unique_names(t: Seq<NamedSize>) -> bool {
    forall|i: int, j: int|
        0 <= i < j < t.len() ==> (#[trigger] t[i]).name@ != (#[trigger] t[j]).name@
}

pub proof fn lemma_table_lookup_at(t: Seq<NamedSize>, j: int)
    requires
        unique_names(t),
        0 <= j < t.len(),
    ensures
        table_lookup(t, t[j].name@) == Some(t[j].size),
    decreases t.len(),
{
    if j > 0 {
        assert(unique_names(t.drop_first())) by {
            assert forall|a: int, b: int|
                0 <= a < b < t.drop_first().len() implies (#[trigger] t.drop_first()[a]).name@
                != (#[trigger] t.drop_first()[b]).name@ by {
                assert(t.drop_first()[a] == t[a + 1]);
                assert(t.drop_first()[b] == t[b + 1]);
            }
        }
        assert(t.drop_first()[j - 1] == t[j]);
        lemma_table_lookup_at(t.drop_first(), j - 1);
    }
}

pub proof fn lemma_table_lookup_absent(t: Seq<NamedSize>, key: Seq<char>)
    requires
        !table_has(t, key),
    ensures
        table_lookup(t, key) is None,
    decreases t.len(),
{
    if t.len() > 0 {
        assert(t[0].name@ != key);
        assert(!table_has(t.drop_first(), key)) by {
            assert forall|i: int| 0 <= i < t.drop_first().len() implies (#[trigger] t.drop_first()[
                i
            ]).name@ != key by {
                assert(t.drop_first()[i] == t[i + 1]);
            }
        }
        lemma_table_lookup_absent(t.drop_first(), key);
    }
}

/// The size a table records under a name, executably.
pub fn table_get(t: &Vec<NamedSize>, name: &str) -> (r: Option<u64>)
    requires
        unique_names(t@),
    ensures
        r == table_lookup(t@, name@),
        r is Some <==> table_has(t@, name@),
{
    let mut i: usize = 0;
    while i < t.len()
        invariant
            0 <= i <= t@.len(),
            unique_names(t@),
            forall|k: int| 0 <= k < i ==> (#[trigger] t@[k]).name@ != name@,
        decreases t@.len() - i,
    {
        if str_eq(t[i].name.as_str(), name) {
            proof {
                lemma_table_lookup_at(t@, i as int);
            }
            return Some(t[i].size);
        }
        i = i + 1;
    }
    proof {
        lemma_table_lookup_absent(t@, name@);
    }
    None
}

/// What it means for change records to describe the diff of two symbol
/// tables: each record's sides are the tables' entries for its name, each
/// record's name occurs in some table, every name of either table has
/// exactly one record, and a record's demangled text is its name.
pub open spec fn describes_symbol_changes(
    b: Seq<NamedSize>,
    a: Seq<NamedSize>,
    out: Seq<SymbolChange>,
) -> bool {
    &&& forall|i: int|
        0 <= i < out.len() ==> {
            &&& (#[trigger] out[i]).size_before == table_lookup(b, out[i].name@)
            &&& out[i].size_after == table_lookup(a, out[i].name@)
            &&& out[i].demangled@ == out[i].name@
            &&& table_has(b, out[i].name@) || table_has(a, out[i].name@)
        }
    &&& forall|i: int, j: int|
        0 <= i < j < out.len() ==> (#[trigger] out[i]).name@ != (#[trigger] out[j]).name@
    &&& forall|i: int|
        0 <= i < b.len() ==> exists|k: int|
            0 <= k < out.len() && (#[trigger] out[k]).name@ == (#[trigger] b[i]).name@
    &&& forall|i: int|
        0 <= i < a.len() ==> exists|k: int|
            0 <= k < out.len() && (#[trigger] out[k]).name@ == (#[trigger] a[i]).name@
}

/// The same, for crate-level records.
pub open spec fn describes_crate_changes(
    b: Seq<NamedSize>,
    a: Seq<NamedSize>,
    out: Seq<CrateChange>,
) -> bool {
    &&& forall|i: int|
        0 <= i < out.len() ==> {
            &&& (#[trigger] out[i]).size_before == table_lookup(b, out[i].name@)
            &&& out[i].size_after == table_lookup(a, out[i].name@)
            &&& table_has(b, out[i].name@) || table_has(a, out[i].name@)
        }
    &&& forall|i: int, j: int|
        0 <= i < j < out.len() ==> (#[trigger] out[i]).name@ != (#[trigger] out[j]).name@
    &&& forall|i: int|
        0 <= i < b.len() ==> exists|k: int|
            0 <= k < out.len() && (#[trigger] out[k]).name@ == (#[trigger] b[i]).name@
    &&& forall|i: int|
        0 <= i < a.len() ==> exists|k: int|
            0 <= k < out.len() && (#[trigger] out[k]).name@ == (#[trigger] a[i]).name@
}

/// Emits one symbol change per name present in either table, with the
/// table entries on the sides where the name exists.
#[verifier::rlimit(60)]
pub fn compare_symbol_tables(before: &Vec<NamedSize>, after: &Vec<NamedSize>) -> (r: Vec<
    SymbolChange,
>)
    requires
        unique_names(before@),
        unique_names(after@),
    ensures
        describes_symbol_changes(before@, after@, r@),
{
    let mut out: Vec<SymbolChange> = Vec::new();
    let mut i: usize = 0;
    while i < before.len()
        invariant
            0 <= i <= before@.len(),
            unique_names(before@),
            unique_names(after@),
            out@.len() == i,
            forall|k: int| 0 <= k < i ==> (#[trigger] out@[k]).name@ == before@[k].name@,
            forall|k: int|
                0 <= k < i ==> {
                    &&& (#[trigger] out@[k]).size_before == table_lookup(before@, out@[k].name@)
                    &&& out@[k].size_after == table_lookup(after@, out@[k].name@)
                    &&& out@[k].demangled@ == out@[k].name@
                    &&& table_has(before@, out@[k].name@)
                },
        decreases before@.len() - i,
    {
        let name = before[i].name.clone();
        let demangled = before[i].name.clone();
        let sb = table_get(before, name.as_str());
        let sa = table_get(after, name.as_str());
        out.push(SymbolChange { name, demangled, size_before: sb, size_after: sa });
        i = i + 1;
    }
    let ghost phase1 = out@;
    let mut j: usize = 0;
    while j < after.len()
        invariant
            0 <= j <= after@.len(),
            unique_names(before@),
            unique_names(after@),
            phase1.len() == before@.len(),
            phase1.len() <= out@.len(),
            forall|k: int|
                0 <= k < phase1.len() ==> (#[trigger] out@[k]).name@ == before@[k].name@,
            forall|k: int|
                phase1.len() <= k < out@.len() ==> !table_has(
                    before@,
                    (#[trigger] out@[k]).name@,
                ),
            forall|k: int|
                phase1.len() <= k < out@.len() ==> exists|t: int|
                    0 <= t < j && (#[trigger] out@[k]).name@ == after@[t].name@,
            forall|k: int|
                0 <= k < out@.len() ==> {
                    &&& (#[trigger] out@[k]).size_before == table_lookup(before@, out@[k].name@)
                    &&& out@[k].size_after == table_lookup(after@, out@[k].name@)
                    &&& out@[k].demangled@ == out@[k].name@
                    &&& table_has(before@, out@[k].name@) || table_has(after@, out@[k].name@)
                },
            forall|x: int, y: int|
                0 <= x < y < out@.len() ==> (#[trigger] out@[x]).name@ != (
                #[trigger] out@[y]).name@,
            forall|k: int|
                0 <= k < j ==> exists|t: int|
                    0 <= t < out@.len() && (#[trigger] out@[t]).name@ == (
                    #[trigger] after@[k]).name@,
        decreases after@.len() - j,
    {
        let name = after[j].name.clone();
        let already_before = table_get(before, name.as_str());
        if already_before.is_none() {
            proof {
                lemma_table_lookup_at(after@, j as int);
            }
            let demangled = after[j].name.clone();
            let sa = Some(after[j].size);
            let ghost prev = out@;
            out.push(SymbolChange { name, demangled, size_before: None, size_after: sa });
            proof {
                let newi = out@.len() - 1;
                assert(forall|k: int| 0 <= k < prev.len() ==> out@[k] == prev[k]);
                assert(out@[newi].name@ == after@[j as int].name@);
                assert forall|k: int| 0 <= k < j as int implies exists|t: int|
                    0 <= t < out@.len() && (#[trigger] out@[t]).name@ == (
                    #[trigger] after@[k]).name@ by {
                    let t = choose|t: int|
                        0 <= t < prev.len() && (#[trigger] prev[t]).name@ == after@[k].name@;
                    assert(out@[t] == prev[t]);
                }
                assert forall|k: int|
                    phase1.len() <= k < out@.len() implies exists|t: int|
                    0 <= t < j + 1 && (#[trigger] out@[k]).name@ == after@[t].name@ by {
                    if k < newi {
                        assert(out@[k] == prev[k]);
                        let t = choose|t: int|
                            0 <= t < j as int && (#[trigger] prev[k]).name@ == after@[t].name@;
                        assert(out@[k].name@ == after@[t].name@);
                    } else {
                        assert(out@[k].name@ == after@[j as int].name@);
                    }
                }
                assert forall|x: int, y: int|
                    0 <= x < y < out@.len() implies (#[trigger] out@[x]).name@ != (
                #[trigger] out@[y]).name@ by {
                    if y == newi {
                        if x < phase1.len() {
                            assert(before@[x].name@ == out@[x].name@);
                            if out@[x].name@ == out@[y].name@ {
                                assert(table_has(before@, out@[y].name@));
                                assert(false);
                            }
                        } else {
                            let t = choose|t: int|
                                0 <= t < j && (#[trigger] out@[x]).name@ == after@[t].name@;
                            assert(after@[t].name@ != after@[j as int].name@);
                        }
                    }
                }
            }
        } else {
            proof {
                let t = choose|t: int|
                    0 <= t < before@.len() && (#[trigger] before@[t]).name@ == after@[
                    j as int].name@;
                assert(out@[t].name@ == after@[j as int].name@);
            }
        }
        j = j + 1;
    }
    proof {
        assert forall|i: int| 0 <= i < before@.len() implies exists|k: int|
            0 <= k < out@.len() && (#[trigger] out@[k]).name@ == (#[trigger] before@[i]).name@ by {
            assert(out@[i].name@ == before@[i].name@);
        }
    }
    out
}

/// Emits one crate change per name present in either table.
#[verifier::rlimit(60)]
pub fn compare_crate_tables(before: &Vec<NamedSize>, after: &Vec<NamedSize>) -> (r: Vec<
    CrateChange,
>)
    requires
        unique_names(before@),
        unique_names(after@),
    ensures
        describes_crate_changes(before@, after@, r@),
{
    let mut out: Vec<CrateChange> = Vec::new();
    let mut i: usize = 0;
    while i < before.len()
        invariant
            0 <= i <= before@.len(),
            unique_names(before@),
            unique_names(after@),
            out@.len() == i,
            forall|k: int| 0 <= k < i ==> (#[trigger] out@[k]).name@ == before@[k].name@,
            forall|k: int|
                0 <= k < i ==> {
                    &&& (#[trigger] out@[k]).size_before == table_lookup(before@, out@[k].name@)
                    &&& out@[k].size_after == table_lookup(after@, out@[k].name@)
                    &&& table_has(before@, out@[k].name@)
                },
        decreases before@.len() - i,
    {
        let name = before[i].name.clone();
        let sb = table_get(before, name.as_str());
        let sa = table_get(after, name.as_str());
        out.push(CrateChange { name, size_before: sb, size_after: sa });
        i = i + 1;
    }
    let ghost phase1 = out@;
    let mut j: usize = 0;
    while j < after.len()
        invariant
            0 <= j <= after@.len(),
            unique_names(before@),
            unique_names(after@),
            phase1.len() == before@.len(),
            phase1.len() <= out@.len(),
            forall|k: int|
                0 <= k < phase1.len() ==> (#[trigger] out@[k]).name@ == before@[k].name@,
            forall|k: int|
                phase1.len() <= k < out@.len() ==> !table_has(
                    before@,
                    (#[trigger] out@[k]).name@,
                ),
            forall|k: int|
                phase1.len() <= k < out@.len() ==> exists|t: int|
                    0 <= t < j && (#[trigger] out@[k]).name@ == after@[t].name@,
            forall|k: int|
                0 <= k < out@.len() ==> {
                    &&& (#[trigger] out@[k]).size_before == table_lookup(before@, out@[k].name@)
                    &&& out@[k].size_after == table_lookup(after@, out@[k].name@)
                    &&& table_has(before@, out@[k].name@) || table_has(after@, out@[k].name@)
                },
            forall|x: int, y: int|
                0 <= x < y < out@.len() ==> (#[trigger] out@[x]).name@ != (
                #[trigger] out@[y]).name@,
            forall|k: int|
                0 <= k < j ==> exists|t: int|
                    0 <= t < out@.len() && (#[trigger] out@[t]).name@ == (
                    #[trigger] after@[k]).name@,
        decreases after@.len() - j,
    {
        let name = after[j].name.clone();
        let already_before = table_get(before, name.as_str());
        if already_before.is_none() {
            proof {
                lemma_table_lookup_at(after@, j as int);
            }
            let sa = Some(after[j].size);
            let ghost prev = out@;
            out.push(CrateChange { name, size_before: None, size_after: sa });
            proof {
                let newi = out@.len() - 1;
                assert(forall|k: int| 0 <= k < prev.len() ==> out@[k] == prev[k]);
                assert(out@[newi].name@ == after@[j as int].name@);
                assert forall|k: int| 0 <= k < j as int implies exists|t: int|
                    0 <= t < out@.len() && (#[trigger] out@[t]).name@ == (
                    #[trigger] after@[k]).name@ by {
                    let t = choose|t: int|
                        0 <= t < prev.len() && (#[trigger] prev[t]).name@ == after@[k].name@;
                    assert(out@[t] == prev[t]);
                }
                assert forall|k: int|
                    phase1.len() <= k < out@.len() implies exists|t: int|
                    0 <= t < j + 1 && (#[trigger] out@[k]).name@ == after@[t].name@ by {
                    if k < newi {
                        assert(out@[k] == prev[k]);
                        let t = choose|t: int|
                            0 <= t < j as int && (#[trigger] prev[k]).name@ == after@[t].name@;
                        assert(out@[k].name@ == after@[t].name@);
                    } else {
                        assert(out@[k].name@ == after@[j as int].name@);
                    }
                }
                assert forall|x: int, y: int|
                    0 <= x < y < out@.len() implies (#[trigger] out@[x]).name@ != (
                #[trigger] out@[y]).name@ by {
                    if y == newi {
                        if x < phase1.len() {
                            assert(before@[x].name@ == out@[x].name@);
                            if out@[x].name@ == out@[y].name@ {
                                assert(table_has(before@, out@[y].name@));
                                assert(false);
                            }
                        } else {
                            let t = choose|t: int|
                                0 <= t < j && (#[trigger] out@[x]).name@ == after@[t].name@;
                            assert(after@[t].name@ != after@[j as int].name@);
                        }
                    }
                }
            }
        } else {
            proof {
                let t = choose|t: int|
                    0 <= t < before@.len() && (#[trigger] before@[t]).name@ == after@[
                    j as int].name@;
                assert(out@[t].name@ == after@[j as int].name@);
            }
        }
        j = j + 1;
    }
    proof {
        assert forall|i: int| 0 <= i < before@.len() implies exists|k: int|
            0 <= k < out@.len() && (#[trigger] out@[k]).name@ == (#[trigger] before@[i]).name@ by {
            assert(out@[i].name@ == before@[i].name@);
        }
    }
    out
}

/// Comparing a snapshot with itself yields no change: every symbol record
/// of the diff of a table against itself has equal sides.
pub proof fn lemma_compare_identity_symbols(t: Seq<NamedSize>, out: Seq<SymbolChange>)
    requires
        describes_symbol_changes(t, t, out),
    ensures
        forall|i: int| 0 <= i < out.len() ==> (#[trigger] out[i]).size_before == out[i].size_after,
{
}

/// Comparing a snapshot with itself yields no change: every crate record
/// of the diff of a table against itself has equal sides.
pub proof fn lemma_compare_identity_crates(t: Seq<NamedSize>, out: Seq<CrateChange>)
    requires
        describes_crate_changes(t, t, out),
    ensures
        forall|i: int| 0 <= i < out.len() ==> (#[trigger] out[i]).size_before == out[i].size_after,
{
}

/// The signed size change a record describes: the difference when both
/// sides exist, the full size when only one does, nothing when neither.
pub open spec fn spec_absolute_change(c: CrateChange) -> Option<int> {
    match (c.size_before, c.size_after) {
        (Some(b), Some(a)) => Some(a - b),
        (None, Some(a)) => Some(a as int),
        (Some(b), None) => Some(-(b as int)),
        (None, None) => None,
    }
}

/// Sizes small enough that signed differences fit the machine integers.
pub open spec fn size_opt_ok(o: Option<u64>) -> bool {
    match o {
        Some(v) => v <= i64::MAX,
        None => true,
    }
}

pub open spec fn crate_change_ok(c: CrateChange) -> bool {
    size_opt_ok(c.size_before) && size_opt_ok(c.size_after)
}

impl CrateChange {
    /// The signed size change, if either side exists.
    pub fn absolute_change(&self) -> (r: Option<i64>)
        requires
            crate_change_ok(*self),
        ensures
            match r {
                Some(d) => spec_absolute_change(*self) == Some(d as int),
                None => spec_absolute_change(*self) is None,
            },
    {
        match (self.size_before, self.size_after) {
            (Some(b), Some(a)) => Some(a as i64 - b as i64),
            (None, Some(a)) => Some(a as i64),
            (Some(b), None) => Some(-(b as i64)),
            (None, None) => None,
        }
    }
}

fn dup_crate_change(c: &CrateChange) -> (r: CrateChange)
    ensures
        r == *c,
{
    CrateChange { name: c.name.clone(), size_before: c.size_before, size_after: c.size_after }
}

fn dup_symbol_change(c: &SymbolChange) -> (r: SymbolChange)
    ensures
        r == *c,
{
    SymbolChange {
        name: c.name.clone(),
        demangled: c.demangled.clone(),
        size_before: c.size_before,
        size_after: c.size_after,
    }
}

/// A crate change counts as significant when its absolute change reaches
/// the threshold; a record with no sizes at all is kept regardless.
pub open spec fn spec_significant_crate(c: CrateChange, threshold: u64) -> bool {
    match spec_absolute_change(c) {
        Some(d) => (if d >= 0 {
            d
        } else {
            -d
        }) >= threshold,
        None => true,
    }
}

/// A symbol change counts as significant when the difference of its two
/// sides, or the present side, reaches the threshold.
pub open spec fn spec_significant_symbol(c: SymbolChange, threshold: u64) -> bool {
    match (c.size_before, c.size_after) {
        (Some(b), Some(a)) => (if a >= b {
            a - b
        } else {
            b - a
        }) >= threshold,
        (None, Some(a)) => a >= threshold,
        (Some(b), None) => b >= threshold,
        (None, None) => false,
    }
}

/// A record existed on both sides and can carry a percentage.
pub open spec fn has_pct(c: CrateChange) -> bool {
    &&& c.size_before matches Some(b) && b > 0
    &&& c.size_after is Some
}

/// A record that exists only in the second snapshot.
pub open spec fn is_new_entry(b: Option<u64>, a: Option<u64>) -> bool {
    b is None && a is Some
}

/// A record that existed only in the first snapshot.
pub open spec fn is_removed_entry(b: Option<u64>, a: Option<u64>) -> bool {
    b is Some && a is None
}

/// The crate changes that reach the threshold, in order.
pub open spec fn spec_significant_crates(s: Seq<CrateChange>, threshold: u64) -> Seq<CrateChange> {
    s.filter(|c: CrateChange| spec_significant_crate(c, threshold))
}

/// The symbol changes that reach the threshold, in order.
pub open spec fn spec_significant_symbols(s: Seq<SymbolChange>, threshold: u64) -> Seq<
    SymbolChange,
> {
    s.filter(|c: SymbolChange| spec_significant_symbol(c, threshold))
}

/// The crate changes that carry a percentage, in order.
pub open spec fn spec_pct_crates(s: Seq<CrateChange>) -> Seq<CrateChange> {
    s.filter(|c: CrateChange| has_pct(c))
}

/// The crate records present only in the second snapshot, in order.
pub open spec fn spec_new_crates(s: Seq<CrateChange>) -> Seq<CrateChange> {
    s.filter(|c: CrateChange| is_new_entry(c.size_before, c.size_after))
}

/// The crate records present only in the first snapshot, in order.
pub open spec fn spec_removed_crates(s: Seq<CrateChange>) -> Seq<CrateChange> {
    s.filter(|c: CrateChange| is_removed_entry(c.size_before, c.size_after))
}

/// The symbol records present only in the second snapshot, in order.
pub open spec fn spec_new_symbols(s: Seq<SymbolChange>) -> Seq<SymbolChange> {
    s.filter(|c: SymbolChange| is_new_entry(c.size_before, c.size_after))
}

/// The symbol records present only in the first snapshot, in order.
pub open spec fn spec_removed_symbols(s: Seq<SymbolChange>) -> Seq<SymbolChange> {
    s.filter(|c: SymbolChange| is_removed_entry(c.size_before, c.size_after))
}

proof fn lemma_significant_crates_step(s: Seq<CrateChange>, i: int, t: u64)
    requires
        0 <= i < s.len(),
    ensures
        spec_significant_crates(s.take(i + 1), t) == if spec_significant_crate(s[i], t) {
            spec_significant_crates(s.take(i), t).push(s[i])
        } else {
            spec_significant_crates(s.take(i), t)
        },
{
    reveal(Seq::filter);
    assert(s.take(i + 1).drop_last() =~= s.take(i));
    assert(s.take(i + 1).last() == s[i]);
}

proof fn lemma_significant_symbols_step(s: Seq<SymbolChange>, i: int, t: u64)
    requires
        0 <= i < s.len(),
    ensures
        spec_significant_symbols(s.take(i + 1), t) == if spec_significant_symbol(s[i], t) {
            spec_significant_symbols(s.take(i), t).push(s[i])
        } else {
            spec_significant_symbols(s.take(i), t)
        },
{
    reveal(Seq::filter);
    assert(s.take(i + 1).drop_last() =~= s.take(i));
    assert(s.take(i + 1).last() == s[i]);
}

proof fn lemma_pct_crates_step(s: Seq<CrateChange>, i: int)
    requires
        0 <= i < s.len(),
    ensures
        spec_pct_crates(s.take(i + 1)) == if has_pct(s[i]) {
            spec_pct_crates(s.take(i)).push(s[i])
        } else {
            spec_pct_crates(s.take(i))
        },
{
    reveal(Seq::filter);
    assert(s.take(i + 1).drop_last() =~= s.take(i));
    assert(s.take(i + 1).last() == s[i]);
}

proof fn lemma_new_crates_step(s: Seq<CrateChange>, i: int)
    requires
        0 <= i < s.len(),
    ensures
        spec_new_crates(s.take(i + 1)) == if is_new_entry(s[i].size_before, s[i].size_after) {
            spec_new_crates(s.take(i)).push(s[i])
        } else {
            spec_new_crates(s.take(i))
        },
{
    reveal(Seq::filter);
    assert(s.take(i + 1).drop_last() =~= s.take(i));
    assert(s.take(i + 1).last() == s[i]);
}

proof fn lemma_removed_crates_step(s: Seq<CrateChange>, i: int)
    requires
        0 <= i < s.len(),
    ensures
        spec_removed_crates(s.take(i + 1)) == if is_removed_entry(
            s[i].size_before,
            s[i].size_after,
        ) {
            spec_removed_crates(s.take(i)).push(s[i])
        } else {
            spec_removed_crates(s.take(i))
        },
{
    reveal(Seq::filter);
    assert(s.take(i + 1).drop_last() =~= s.take(i));
    assert(s.take(i + 1).last() == s[i]);
}

proof fn lemma_new_symbols_step(s: Seq<SymbolChange>, i: int)
    requires
        0 <= i < s.len(),
    ensures
        spec_new_symbols(s.take(i + 1)) == if is_new_entry(s[i].size_before, s[i].size_after) {
            spec_new_symbols(s.take(i)).push(s[i])
        } else {
            spec_new_symbols(s.take(i))
        },
{
    reveal(Seq::filter);
    assert(s.take(i + 1).drop_last() =~= s.take(i));
    assert(s.take(i + 1).last() == s[i]);
}

proof fn lemma_removed_symbols_step(s: Seq<SymbolChange>, i: int)
    requires
        0 <= i < s.len(),
    ensures
        spec_removed_symbols(s.take(i + 1)) == if is_removed_entry(
            s[i].size_before,
            s[i].size_after,
        ) {
            spec_removed_symbols(s.take(i)).push(s[i])
        } else {
            spec_removed_symbols(s.take(i))
        },
{
    reveal(Seq::filter);
    assert(s.take(i + 1).drop_last() =~= s.take(i));
    assert(s.take(i + 1).last() == s[i]);
}

/// Sum of the absolute changes of the records that have one.
pub open spec fn sum_changes(s: Seq<CrateChange>) -> int
    decreases s.len(),
{
    if s.len() == 0 {
        0
    } else {
        sum_changes(s.drop_last()) + (match spec_absolute_change(s.last()) {
            Some(d) => d,
            None => 0,
        })
    }
}

/// Numerator of the relative change: the absolute difference.
pub open spec fn pct_num(c: CrateChange) -> int
    recommends
        has_pct(c),
{
    let b = c.size_before->Some_0;
    let a = c.size_after->Some_0;
    if a >= b {
        a - b
    } else {
        b - a
    }
}

/// Denominator of the relative change: the size before.
pub open spec fn pct_den(c: CrateChange) -> int
    recommends
        has_pct(c),
{
    c.size_before->Some_0 as int
}

/// `x`'s relative change is at least `y`'s, compared exactly by cross
/// multiplication.
pub open spec fn pct_ge(x: CrateChange, y: CrateChange) -> bool
    recommends
        has_pct(x),
        has_pct(y),
{
    pct_num(x) * pct_den(y) >= pct_num(y) * pct_den(x)
}

proof fn lemma_pct_ge_total(x: CrateChange, y: CrateChange)
    requires
        has_pct(x),
        has_pct(y),
    ensures
        pct_ge(x, y) || pct_ge(y, x),
{
}

proof fn lemma_pct_ge_trans(x: CrateChange, y: CrateChange, z: CrateChange)
    requires
        has_pct(x),
        has_pct(y),
        has_pct(z),
        pct_ge(x, y),
        pct_ge(y, z),
    ensures
        pct_ge(x, z),
{
    let a = pct_num(x);
    let b = pct_den(x);
    let c = pct_num(y);
    let d = pct_den(y);
    let e = pct_num(z);
    let f = pct_den(z);
    assert(a * f >= e * b) by (nonlinear_arith)
        requires
            a * d >= c * b,
            c * f >= e * d,
            b > 0,
            d > 0,
            f > 0,
            a >= 0,
            c >= 0,
            e >= 0,
    ;
}

/// Executable cross-multiplied comparison of two relative changes.
fn pct_ge_exec(x: &CrateChange, y: &CrateChange) -> (r: bool)
    requires
        has_pct(*x),
        has_pct(*y),
    ensures
        r == pct_ge(*x, *y),
{
    let bx = match x.size_before {
        Some(v) => v,
        None => 0,
    };
    let ax = match x.size_after {
        Some(v) => v,
        None => 0,
    };
    let by = match y.size_before {
        Some(v) => v,
        None => 0,
    };
    let ay = match y.size_after {
        Some(v) => v,
        None => 0,
    };
    let nx: u128 = if ax >= bx {
        (ax - bx) as u128
    } else {
        (bx - ax) as u128
    };
    let ny: u128 = if ay >= by {
        (ay - by) as u128
    } else {
        (by - ay) as u128
    };
    proof {
        assert(nx * (by as u128) <= 0xFFFFFFFFFFFFFFFF * 0xFFFFFFFFFFFFFFFF) by (nonlinear_arith)
            requires
                nx <= 0xFFFFFFFFFFFFFFFF,
                by <= 0xFFFFFFFFFFFFFFFF,
        ;
        assert(ny * (bx as u128) <= 0xFFFFFFFFFFFFFFFF * 0xFFFFFFFFFFFFFFFF) by (nonlinear_arith)
            requires
                ny <= 0xFFFFFFFFFFFFFFFF,
                bx <= 0xFFFFFFFFFFFFFFFF,
        ;
    }
    nx * (by as u128) >= ny * (bx as u128)
}

impl AnalysisComparison {
    /// The crate changes whose absolute change reaches the threshold;
    /// records absent from both sides are kept.
    pub fn significant_changes(&self, threshold: u64) -> (r: Vec<CrateChange>)
        ensures
            r@ == spec_significant_crates(self.crate_changes@, threshold),
    {
        let mut out: Vec<CrateChange> = Vec::new();
        let mut i: usize = 0;
        while i < self.crate_changes.len()
            invariant
                0 <= i <= self.crate_changes@.len(),
                out@ == spec_significant_crates(self.crate_changes@.take(i as int), threshold),
            decreases self.crate_changes@.len() - i,
        {
            let c = &self.crate_changes[i];
            let keep = match (c.size_before, c.size_after) {
                (Some(b), Some(a)) => (if a >= b {
                    a - b
                } else {
                    b - a
                }) >= threshold,
                (None, Some(a)) => a >= threshold,
                (Some(b), None) => b >= threshold,
                (None, None) => true,
            };
            proof {
                lemma_significant_crates_step(self.crate_changes@, i as int, threshold);
            }
            if keep {
                out.push(dup_crate_change(c));
            }
            i = i + 1;
        }
        proof {
            assert(self.crate_changes@.take(self.crate_changes@.len() as int)
                =~= self.crate_changes@);
        }
        out
    }

    /// The symbol changes whose size difference reaches the threshold.
    pub fn significant_symbol_changes(&self, threshold: u64) -> (r: Vec<SymbolChange>)
        ensures
            r@ == spec_significant_symbols(self.symbol_changes@, threshold),
    {
        let mut out: Vec<SymbolChange> = Vec::new();
        let mut i: usize = 0;
        while i < self.symbol_changes.len()
            invariant
                0 <= i <= self.symbol_changes@.len(),
                out@ == spec_significant_symbols(self.symbol_changes@.take(i as int), threshold),
            decreases self.symbol_changes@.len() - i,
        {
            let c = &self.symbol_changes[i];
            let keep = match (c.size_before, c.size_after) {
                (Some(b), Some(a)) => (if a >= b {
                    a - b
                } else {
                    b - a
                }) >= threshold,
                (None, Some(a)) => a >= threshold,
                (Some(b), None) => b >= threshold,
                (None, None) => false,
            };
            proof {
                lemma_significant_symbols_step(self.symbol_changes@, i as int, threshold);
            }
            if keep {
                out.push(dup_symbol_change(c));
            }
            i = i + 1;
        }
        proof {
            assert(self.symbol_changes@.take(self.symbol_changes@.len() as int)
                =~= self.symbol_changes@);
        }
        out
    }

    /// The total of all absolute crate size changes.
    pub fn total_size_change(&self) -> (r: i64)
        requires
            forall|i: int|
                0 <= i < self.crate_changes@.len() ==> crate_change_ok(
                    #[trigger] self.crate_changes@[i],
                ),
            i64::MIN <= sum_changes(self.crate_changes@) <= i64::MAX,
        ensures
            r == sum_changes(self.crate_changes@),
    {
        let mut acc: i128 = 0;
        let mut i: usize = 0;
        while i < self.crate_changes.len()
            invariant
                0 <= i <= self.crate_changes@.len(),
                forall|k: int|
                    0 <= k < self.crate_changes@.len() ==> crate_change_ok(
                        #[trigger] self.crate_changes@[k],
                    ),
                acc == sum_changes(self.crate_changes@.take(i as int)),
                -(i as int) * 0x7FFFFFFFFFFFFFFF <= acc <= (i as int) * 0x7FFFFFFFFFFFFFFF,
            decreases self.crate_changes@.len() - i,
        {
            let c = &self.crate_changes[i];
            let d: i128 = match (c.size_before, c.size_after) {
                (Some(b), Some(a)) => a as i128 - b as i128,
                (None, Some(a)) => a as i128,
                (Some(b), None) => -(b as i128),
                (None, None) => 0,
            };
            proof {
                assert(self.crate_changes@.take(i + 1).drop_last() =~= self.crate_changes@.take(
                    i as int,
                ));
                assert(self.crate_changes@.take(i + 1).last() == self.crate_changes@[i as int]);
            }
            acc = acc + d;
            i = i + 1;
        }
        proof {
            assert(self.crate_changes@.take(self.crate_changes@.len() as int)
                =~= self.crate_changes@);
        }
        acc as i64
    }

    /// The crates present on both sides, sorted by relative change,
    /// largest magnitude first; comparisons are exact rational ones.
    pub fn crates_by_percent_change(&self) -> (r: Vec<CrateChange>)
        ensures
            r@.to_multiset() == spec_pct_crates(self.crate_changes@).to_multiset(),
            forall|i: int| 0 <= i < r@.len() ==> has_pct(#[trigger] r@[i]),
            forall|i: int, j: int|
                0 <= i < j < r@.len() ==> pct_ge(#[trigger] r@[i], #[trigger] r@[j]),
    {
        let mut filtered: Vec<CrateChange> = Vec::new();
        let mut i: usize = 0;
        while i < self.crate_changes.len()
            invariant
                0 <= i <= self.crate_changes@.len(),
                filtered@ == spec_pct_crates(self.crate_changes@.take(i as int)),
                forall|k: int| 0 <= k < filtered@.len() ==> has_pct(#[trigger] filtered@[k]),
            decreases self.crate_changes@.len() - i,
        {
            let c = &self.crate_changes[i];
            let keep = match (c.size_before, c.size_after) {
                (Some(b), Some(_)) => b > 0,
                _ => false,
            };
            proof {
                lemma_pct_crates_step(self.crate_changes@, i as int);
            }
            if keep {
                filtered.push(dup_crate_change(c));
            }
            i = i + 1;
        }
        proof {
            assert(self.crate_changes@.take(self.crate_changes@.len() as int)
                =~= self.crate_changes@);
        }
        let mut out: Vec<CrateChange> = Vec::new();
        proof {
            broadcast use vstd::seq_lib::group_to_multiset_ensures;

            assert(out@.to_multiset() =~= filtered@.take(0).to_multiset());
        }
        let mut j: usize = 0;
        while j < filtered.len()
            invariant
                0 <= j <= filtered@.len(),
                forall|k: int| 0 <= k < filtered@.len() ==> has_pct(#[trigger] filtered@[k]),
                forall|k: int| 0 <= k < out@.len() ==> has_pct(#[trigger] out@[k]),
                forall|x: int, y: int|
                    0 <= x < y < out@.len() ==> pct_ge(#[trigger] out@[x], #[trigger] out@[y]),
                out@.to_multiset() == filtered@.take(j as int).to_multiset(),
            decreases filtered@.len() - j,
        {
            let x = dup_crate_change(&filtered[j]);
            let mut k: usize = 0;
            while k < out.len() && pct_ge_exec(&out[k], &x)
                invariant
                    0 <= k <= out@.len(),
                    has_pct(x),
                    forall|t: int| 0 <= t < out@.len() ==> has_pct(#[trigger] out@[t]),
                    forall|t: int| 0 <= t < k ==> pct_ge(#[trigger] out@[t], x),
                decreases out@.len() - k,
            {
                k = k + 1;
            }
            let ghost prev = out@;
            proof {
                if k < out@.len() {
                    lemma_pct_ge_total(out@[k as int], x);
                }
            }
            out.insert(k, x);
            proof {
                assert forall|a: int, b: int|
                    0 <= a < b < out@.len() implies pct_ge(
                    #[trigger] out@[a],
                    #[trigger] out@[b],
                ) by {
                    if b == k && a < k {
                        assert(out@[a] == prev[a]);
                    } else if a == k && b > k {
                        assert(out@[b] == prev[b - 1]);
                        assert(pct_ge(x, prev[k as int]));
                        if b - 1 > k {
                            assert(pct_ge(prev[k as int], prev[b - 1]));
                            lemma_pct_ge_trans(x, prev[k as int], prev[b - 1]);
                        }
                    } else if b < k {
                        assert(out@[a] == prev[a] && out@[b] == prev[b]);
                    } else if a > k {
                        assert(out@[a] == prev[a - 1] && out@[b] == prev[b - 1]);
                    } else if a < k && b > k {
                        assert(out@[a] == prev[a] && out@[b] == prev[b - 1]);
                        assert(pct_ge(x, prev[k as int]));
                        if b - 1 > k {
                            assert(pct_ge(prev[k as int], prev[b - 1]));
                            lemma_pct_ge_trans(x, prev[k as int], prev[b - 1]);
                        }
                        if b - 1 == k {
                        }
                        assert(pct_ge(out@[a], out@[b]));
                    }
                }
                assert(out@.to_multiset() == filtered@.take(j + 1).to_multiset()) by {
                    broadcast use vstd::seq_lib::group_to_multiset_ensures;

                    assert(out@ =~= prev.take(k as int) + (seq![x] + prev.skip(k as int)));
                    vstd::seq_lib::lemma_multiset_commutative(
                        prev.take(k as int),
                        seq![x] + prev.skip(k as int),
                    );
                    vstd::seq_lib::lemma_multiset_commutative(seq![x], prev.skip(k as int));
                    assert(prev =~= prev.take(k as int) + prev.skip(k as int));
                    vstd::seq_lib::lemma_multiset_commutative(
                        prev.take(k as int),
                        prev.skip(k as int),
                    );
                    assert(seq![x].to_multiset() =~= Multiset::<CrateChange>::empty().insert(x))
                        by {
                        assert(seq![x] =~= Seq::<CrateChange>::empty().push(x));
                    }
                    assert(filtered@.take(j + 1) =~= filtered@.take(j as int).push(
                        filtered@[j as int],
                    ));
                    assert(x == filtered@[j as int]);
                }
            }
            j = j + 1;
        }
        proof {
            assert(filtered@.take(filtered@.len() as int) =~= filtered@);
        }
        out
    }

    /// The crates that exist only in the second snapshot.
    pub fn new_crates(&self) -> (r: Vec<CrateChange>)
        ensures
            r@ == spec_new_crates(self.crate_changes@),
    {
        let mut out: Vec<CrateChange> = Vec::new();
        let mut i: usize = 0;
        while i < self.crate_changes.len()
            invariant
                0 <= i <= self.crate_changes@.len(),
                out@ == spec_new_crates(self.crate_changes@.take(i as int)),
            decreases self.crate_changes@.len() - i,
        {
            let c = &self.crate_changes[i];
            proof {
                lemma_new_crates_step(self.crate_changes@, i as int);
            }
            if c.size_before.is_none() && c.size_after.is_some() {
                out.push(dup_crate_change(c));
            }
            i = i + 1;
        }
        proof {
            assert(self.crate_changes@.take(self.crate_changes@.len() as int)
                =~= self.crate_changes@);
        }
        out
    }

    /// The crates that existed only in the first snapshot.
    pub fn removed_crates(&self) -> (r: Vec<CrateChange>)
        ensures
            r@ == spec_removed_crates(self.crate_changes@),
    {
        let mut out: Vec<CrateChange> = Vec::new();
        let mut i: usize = 0;
        while i < self.crate_changes.len()
            invariant
                0 <= i <= self.crate_changes@.len(),
                out@ == spec_removed_crates(self.crate_changes@.take(i as int)),
            decreases self.crate_changes@.len() - i,
        {
            let c = &self.crate_changes[i];
            proof {
                lemma_removed_crates_step(self.crate_changes@, i as int);
            }
            if c.size_before.is_some() && c.size_after.is_none() {
                out.push(dup_crate_change(c));
            }
            i = i + 1;
        }
        proof {
            assert(self.crate_changes@.take(self.crate_changes@.len() as int)
                =~= self.crate_changes@);
        }
        out
    }

    /// The symbols that exist only in the second snapshot.
    pub fn new_symbols(&self) -> (r: Vec<SymbolChange>)
        ensures
            r@ == spec_new_symbols(self.symbol_changes@),
    {
        let mut out: Vec<SymbolChange> = Vec::new();
        let mut i: usize = 0;
        while i < self.symbol_changes.len()
            invariant
                0 <= i <= self.symbol_changes@.len(),
                out@ == spec_new_symbols(self.symbol_changes@.take(i as int)),
            decreases self.symbol_changes@.len() - i,
        {
            let c = &self.symbol_changes[i];
            proof {
                lemma_new_symbols_step(self.symbol_changes@, i as int);
            }
            if c.size_before.is_none() && c.size_after.is_some() {
                out.push(dup_symbol_change(c));
            }
            i = i + 1;
        }
        proof {
            assert(self.symbol_changes@.take(self.symbol_changes@.len() as int)
                =~= self.symbol_changes@);
        }
        out
    }

    /// The symbols that existed only in the first snapshot.
    pub fn removed_symbols(&self) -> (r: Vec<SymbolChange>)
        ensures
            r@ == spec_removed_symbols(self.symbol_changes@),
    {
        let mut out: Vec<SymbolChange> = Vec::new();
        let mut i: usize = 0;
        while i < self.symbol_changes.len()
            invariant
                0 <= i <= self.symbol_changes@.len(),
                out@ == spec_removed_symbols(self.symbol_changes@.take(i as int)),
            decreases self.symbol_changes@.len() - i,
        {
            let c = &self.symbol_changes[i];
            proof {
                lemma_removed_symbols_step(self.symbol_changes@, i as int);
            }
            if c.size_before.is_some() && c.size_after.is_none() {
                out.push(dup_symbol_change(c));
            }
            i = i + 1;
        }
        proof {
            assert(self.symbol_changes@.take(self.symbol_changes@.len() as int)
                =~= self.symbol_changes@);
        }
        out
    }
}

} // verus!
