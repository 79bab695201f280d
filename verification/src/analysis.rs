//! Analysis snapshots: symbols enriched with their attribution, summary
//! tables, and the glue that compares two snapshots.

use vstd::prelude::*;

use crate::compare::{compare_crate_tables, compare_symbol_tables, describes_crate_changes,
    describes_symbol_changes, table_lookup, unique_names, AnalysisComparison, FileSizeDiff,
    NamedSize};
use crate::crate_name::{from_sym, names_view, spec_from_sym, StdHandling};
use crate::llvm_ir::LlvmFunctionMap;
use crate::strutil::str_eq;
use crate::types::{AggregateLlvmFunction, AggregateSymbol, BuildContext, ByteSize, CrateName, RawSymbol};

verus! {

/// A raw symbol together with the unit it was attributed to and whether
/// the attribution was corroborated.
pub struct EnrichedSymbol {
    pub symbol: RawSymbol,
    pub unit: CrateName,
    pub exact: bool,
}

/// The immutable result of one analysis run: the measured sizes, the
/// attributed symbols, and the per-function IR totals when IR text was
/// available.
pub struct AnalysisResult {
    /// Total file size of the binary.
    pub file_size: ByteSize,
    /// Size of the analyzed code section.
    pub text_size: ByteSize,
    /// Every extracted symbol with its attribution.
    pub symbols: Vec<EnrichedSymbol>,
    /// Per-function IR totals, when IR files were analyzed.
    pub ir_data: Option<LlvmFunctionMap>,
}

/// Attaches an attribution to every raw symbol, in order.
pub fn enrich_symbols(
    context: &BuildContext,
    std_handling: StdHandling,
    raw: Vec<RawSymbol>,
) -> (r: Vec<EnrichedSymbol>)
    requires
        context.deps_symbols.wf(),
    ensures
        r@.len() == raw@.len(),
        forall|t: int|
            0 <= t < r@.len() ==> {
                &&& (#[trigger] r@[t]).symbol == raw@[t]
                &&& (r@[t].unit@, r@[t].exact) == spec_from_sym(
                    context.deps_symbols@,
                    names_view(context.std_crates@),
                    names_view(context.dep_crates@),
                    std_handling,
                    raw@[t].mangled@,
                    raw@[t].trimmed@,
                    raw@[t].scheme,
                    match raw@[t].embedded_unit {
                        Some(u) => Some(u@),
                        None => None,
                    },
                )
            },
{
    let ghost orig = raw@;
    let total = raw.len();
    let mut rest = raw;
    let mut out: Vec<EnrichedSymbol> = Vec::new();
    let mut i: usize = 0;
    while rest.len() > 0
        invariant
            0 <= i <= orig.len(),
            total == orig.len(),
            i + rest@.len() == orig.len(),
            rest@ == orig.skip(i as int),
            context.deps_symbols.wf(),
            out@.len() == i,
            forall|t: int|
                0 <= t < out@.len() ==> {
                    &&& (#[trigger] out@[t]).symbol == orig[t]
                    &&& (out@[t].unit@, out@[t].exact) == spec_from_sym(
                        context.deps_symbols@,
                        names_view(context.std_crates@),
                        names_view(context.dep_crates@),
                        std_handling,
                        orig[t].mangled@,
                        orig[t].trimmed@,
                        orig[t].scheme,
                        match orig[t].embedded_unit {
                            Some(u) => Some(u@),
                            None => None,
                        },
                    )
                },
        decreases rest@.len(),
    {
        let sym = rest.remove(0);
        proof {
            assert(orig.skip(i as int)[0] == orig[i as int]);
            assert(orig.skip(i as int).remove(0) =~= orig.skip(i as int + 1));
            assert(sym == orig[i as int]);
            assert(i < orig.len());
        }
        let (unit, exact) = from_sym(context, std_handling, &sym);
        out.push(EnrichedSymbol { symbol: sym, unit, exact });
        i = i + 1;
    }
    proof {
        assert(orig =~= raw@);
    }
    out
}

/// The total size a run of rows gives one name.
pub open spec fn sum_for(rows: Seq<NamedSize>, key: Seq<char>) -> int
    decreases rows.len(),
{
    if rows.len() == 0 {
        0
    } else {
        sum_for(rows.drop_last(), key) + (if rows.last().name@ == key {
            rows.last().size as int
        } else {
            0
        })
    }
}

/// Some row carries the name.
pub open spec fn rows_have(rows: Seq<NamedSize>, key: Seq<char>) -> bool {
    exists|i: int| 0 <= i < rows.len() && (#[trigger] rows[i]).name@ == key
}

proof fn lemma_sum_for_bound(rows: Seq<NamedSize>, key: Seq<char>)
    ensures
        sum_for(rows, key) >= 0,
    decreases rows.len(),
{
    if rows.len() > 0 {
        lemma_sum_for_bound(rows.drop_last(), key);
    }
}

/// Collapses rows with equal names into one row holding the summed size;
/// names keep their first-seen order.
pub fn sum_by_name(rows: Vec<NamedSize>) -> (r: Vec<NamedSize>)
    requires
        forall|key: Seq<char>| sum_for(rows@, key) <= u64::MAX,
    ensures
        unique_names(r@),
        forall|key: Seq<char>|
            #[trigger] table_lookup(r@, key) == (if rows_have(rows@, key) {
                Some(sum_for(rows@, key) as u64)
            } else {
                None::<u64>
            }),
{
    let ghost orig = rows@;
    let total = rows.len();
    let mut rest = rows;
    let mut out: Vec<NamedSize> = Vec::new();
    let mut i: usize = 0;
    while rest.len() > 0
        invariant
            0 <= i <= orig.len(),
            total == orig.len(),
            i + rest@.len() == orig.len(),
            rest@ == orig.skip(i as int),
            unique_names(out@),
            forall|key: Seq<char>| sum_for(orig, key) <= u64::MAX,
            forall|key: Seq<char>|
                #[trigger] table_lookup(out@, key) == (if rows_have(orig.take(i as int), key) {
                    Some(sum_for(orig.take(i as int), key) as u64)
                } else {
                    None::<u64>
                }),
        decreases rest@.len(),
    {
        let row = rest.remove(0);
        proof {
            assert(orig.skip(i as int)[0] == orig[i as int]);
            assert(orig.skip(i as int).remove(0) =~= orig.skip(i as int + 1));
            assert(row == orig[i as int]);
            assert(i < orig.len());
            assert(orig.take(i as int + 1).drop_last() =~= orig.take(i as int));
            assert(orig.take(i as int + 1).last() == orig[i as int]);
        }
        let ghost key = row.name@;
        let ghost prev_out = out@;
        proof {
            lemma_sum_for_prefix_le(orig, i as int + 1, key);
            lemma_sum_for_bound(orig.take(i as int), key);
        }
        let mut j: usize = 0;
        let mut merged = false;
        while j < out.len()
            invariant_except_break
                0 <= j <= out@.len(),
                out@ == prev_out,
                unique_names(out@),
                key == row.name@,
                0 <= i < orig.len(),
                row == orig[i as int],
                !merged,
                forall|k2: Seq<char>| sum_for(orig, k2) <= u64::MAX,
                forall|k2: Seq<char>|
                    #[trigger] table_lookup(out@, k2) == (if rows_have(orig.take(i as int), k2) {
                        Some(sum_for(orig.take(i as int), k2) as u64)
                    } else {
                        None::<u64>
                    }),
                forall|t: int| 0 <= t < j ==> (#[trigger] out@[t]).name@ != key,
            ensures
                unique_names(out@),
                merged ==> forall|k2: Seq<char>|
                    #[trigger] table_lookup(out@, k2) == (if rows_have(
                        orig.take(i as int + 1),
                        k2,
                    ) {
                        Some(sum_for(orig.take(i as int + 1), k2) as u64)
                    } else {
                        None::<u64>
                    }),
                !merged ==> out@ == prev_out && (forall|t: int|
                    0 <= t < out@.len() ==> (#[trigger] out@[t]).name@ != key),
            decreases out@.len() - j,
        {
            if str_eq(out[j].name.as_str(), row.name.as_str()) {
                proof {
                    assert(orig.take(i as int + 1).drop_last() =~= orig.take(i as int));
                    assert(orig.take(i as int + 1).last() == orig[i as int]);
                    lemma_sum_for_prefix_le(orig, i as int + 1, key);
                    lemma_sum_for_bound(orig.take(i as int), key);
                    crate::compare::lemma_table_lookup_at(prev_out, j as int);
                    assert(rows_have(orig.take(i as int), key)) by {
                        if !rows_have(orig.take(i as int), key) {
                            assert(table_lookup(prev_out, key) is None);
                        }
                    }
                    assert(prev_out[j as int].size == sum_for(orig.take(i as int), key));
                }
                let new_size = out[j].size + row.size;
                out[j].size = new_size;
                proof {
                    assert(out@ =~= prev_out.update(
                        j as int,
                        NamedSize { name: prev_out[j as int].name, size: new_size },
                    ));
                    assert(out@[j as int].name@ == key);
                    assert(unique_names(out@)) by {
                        assert forall|x: int, y: int|
                            0 <= x < y < out@.len() implies (#[trigger] out@[x]).name@ != (
                        #[trigger] out@[y]).name@ by {
                            if x != j {
                                assert(out@[x] == prev_out[x]);
                            }
                            if y != j {
                                assert(out@[y] == prev_out[y]);
                            }
                        }
                    }
                    crate::compare::lemma_table_lookup_at(out@, j as int);
                    assert forall|k: Seq<char>| k != key implies #[trigger] table_lookup(out@, k)
                        == table_lookup(prev_out, k) by {
                        lemma_lookup_update_other(prev_out, out@, j as int, k);
                    }
                    assert forall|k: Seq<char>|
                        #[trigger] table_lookup(out@, k) == (if rows_have(
                            orig.take(i as int + 1),
                            k,
                        ) {
                            Some(sum_for(orig.take(i as int + 1), k) as u64)
                        } else {
                            None::<u64>
                        }) by {
                        lemma_rows_have_step(orig, i as int, k);
                    }
                }
                merged = true;
                break ;
            }
            j = j + 1;
        }
        if !merged {
            proof {
                crate::compare::lemma_table_lookup_absent(prev_out, key);
                assert(!rows_have(orig.take(i as int), key)) by {
                    if rows_have(orig.take(i as int), key) {
                        assert(table_lookup(prev_out, key) is Some);
                    }
                }
                assert(sum_for(orig.take(i as int), key) == 0) by {
                    lemma_sum_absent(orig.take(i as int), key);
                }
            }
            out.push(row);
            proof {
                let nv = out@;
                assert(nv =~= prev_out.push(orig[i as int]));
                assert(unique_names(nv)) by {
                    assert forall|x: int, y: int|
                        0 <= x < y < nv.len() implies (#[trigger] nv[x]).name@ != (
                    #[trigger] nv[y]).name@ by {
                        if y < nv.len() - 1 {
                            assert(nv[x] == prev_out[x] && nv[y] == prev_out[y]);
                        } else {
                            assert(nv[x] == prev_out[x]);
                        }
                    }
                }
                crate::compare::lemma_table_lookup_at(nv, nv.len() - 1);
                assert forall|k: Seq<char>| k != key implies #[trigger] table_lookup(nv, k)
                    == table_lookup(prev_out, k) by {
                    lemma_lookup_push_other(prev_out, nv, k);
                }
                assert forall|k: Seq<char>|
                    #[trigger] table_lookup(nv, k) == (if rows_have(orig.take(i as int + 1), k) {
                        Some(sum_for(orig.take(i as int + 1), k) as u64)
                    } else {
                        None::<u64>
                    }) by {
                    lemma_rows_have_step(orig, i as int, k);
                }
            }
        }
        i = i + 1;
    }
    proof {
        assert(orig.take(orig.len() as int) =~= orig);
    }
    out
}

/// Row presence after one more row: the new row's name or anything
/// already present.
proof fn lemma_rows_have_step(orig: Seq<NamedSize>, i: int, k: Seq<char>)
    requires
        0 <= i < orig.len(),
    ensures
        rows_have(orig.take(i + 1), k) == (rows_have(orig.take(i), k) || orig[i].name@ == k),
        sum_for(orig.take(i + 1), k) == sum_for(orig.take(i), k) + (if orig[i].name@ == k {
            orig[i].size as int
        } else {
            0
        }),
{
    assert(orig.take(i + 1).drop_last() =~= orig.take(i));
    assert(orig.take(i + 1).last() == orig[i]);
    if rows_have(orig.take(i + 1), k) {
        let t = choose|t: int|
            0 <= t < orig.take(i + 1).len() && (#[trigger] orig.take(i + 1)[t]).name@ == k;
        if t < i {
            assert(orig.take(i)[t].name@ == k);
        }
    }
    if rows_have(orig.take(i), k) {
        let t = choose|t: int|
            0 <= t < orig.take(i).len() && (#[trigger] orig.take(i)[t]).name@ == k;
        assert(orig.take(i + 1)[t].name@ == k);
    }
    if orig[i].name@ == k {
        assert(orig.take(i + 1)[i].name@ == k);
    }
}

proof fn lemma_sum_absent(rows: Seq<NamedSize>, key: Seq<char>)
    requires
        !rows_have(rows, key),
    ensures
        sum_for(rows, key) == 0,
    decreases rows.len(),
{
    if rows.len() > 0 {
        assert(!rows_have(rows.drop_last(), key)) by {
            if rows_have(rows.drop_last(), key) {
                let t = choose|t: int|
                    0 <= t < rows.drop_last().len() && (#[trigger] rows.drop_last()[t]).name@
                        == key;
                assert(rows[t].name@ == key);
            }
        }
        assert(rows[rows.len() - 1].name@ != key);
        lemma_sum_absent(rows.drop_last(), key);
    }
}

/// Partial sums never exceed the total sum.
proof fn lemma_sum_for_prefix_le(rows: Seq<NamedSize>, i: int, key: Seq<char>)
    requires
        0 <= i <= rows.len(),
    ensures
        sum_for(rows.take(i), key) <= sum_for(rows, key),
    decreases rows.len() - i,
{
    if i == rows.len() {
        assert(rows.take(i) =~= rows);
    } else {
        lemma_sum_for_prefix_le(rows, i + 1, key);
        assert(rows.take(i + 1).drop_last() =~= rows.take(i));
        assert(rows.take(i + 1).last() == rows[i]);
    }
}

proof fn lemma_lookup_update_other(
    prev: Seq<NamedSize>,
    now: Seq<NamedSize>,
    j: int,
    k: Seq<char>,
)
    requires
        unique_names(prev),
        unique_names(now),
        0 <= j < prev.len(),
        now.len() == prev.len(),
        forall|t: int| 0 <= t < prev.len() && t != j ==> #[trigger] now[t] == prev[t],
        now[j].name@ == prev[j].name@,
        k != prev[j].name@,
    ensures
        table_lookup(now, k) == table_lookup(prev, k),
{
    if crate::compare::table_has(prev, k) {
        let t = choose|t: int| 0 <= t < prev.len() && (#[trigger] prev[t]).name@ == k;
        crate::compare::lemma_table_lookup_at(prev, t);
        assert(now[t] == prev[t]);
        crate::compare::lemma_table_lookup_at(now, t);
    } else {
        crate::compare::lemma_table_lookup_absent(prev, k);
        assert(!crate::compare::table_has(now, k)) by {
            if crate::compare::table_has(now, k) {
                let t = choose|t: int| 0 <= t < now.len() && (#[trigger] now[t]).name@ == k;
                if t != j {
                    assert(prev[t].name@ == k);
                }
            }
        }
        crate::compare::lemma_table_lookup_absent(now, k);
    }
}

proof fn lemma_lookup_push_other(prev: Seq<NamedSize>, now: Seq<NamedSize>, k: Seq<char>)
    requires
        unique_names(prev),
        unique_names(now),
        now.len() == prev.len() + 1,
        forall|t: int| 0 <= t < prev.len() ==> #[trigger] now[t] == prev[t],
        k != now[now.len() - 1].name@,
    ensures
        table_lookup(now, k) == table_lookup(prev, k),
{
    if crate::compare::table_has(prev, k) {
        let t = choose|t: int| 0 <= t < prev.len() && (#[trigger] prev[t]).name@ == k;
        crate::compare::lemma_table_lookup_at(prev, t);
        assert(now[t] == prev[t]);
        crate::compare::lemma_table_lookup_at(now, t);
    } else {
        crate::compare::lemma_table_lookup_absent(prev, k);
        assert(!crate::compare::table_has(now, k)) by {
            if crate::compare::table_has(now, k) {
                let t = choose|t: int| 0 <= t < now.len() && (#[trigger] now[t]).name@ == k;
                if t < now.len() - 1 {
                    assert(prev[t].name@ == k);
                }
            }
        }
        crate::compare::lemma_table_lookup_absent(now, k);
    }
}

/// One row per symbol, keyed by the trimmed demangled name.
pub fn symbol_rows(symbols: &Vec<EnrichedSymbol>) -> (r: Vec<NamedSize>)
    ensures
        r@.len() == symbols@.len(),
        forall|t: int|
            0 <= t < r@.len() ==> (#[trigger] r@[t]).name@ == symbols@[t].symbol.trimmed@ && r@[
            t].size == symbols@[t].symbol.size,
{
    let mut out: Vec<NamedSize> = Vec::new();
    let mut i: usize = 0;
    while i < symbols.len()
        invariant
            0 <= i <= symbols@.len(),
            out@.len() == i,
            forall|t: int|
                0 <= t < out@.len() ==> (#[trigger] out@[t]).name@ == symbols@[t].symbol.trimmed@
                    && out@[t].size == symbols@[t].symbol.size,
        decreases symbols@.len() - i,
    {
        let s = &symbols[i];
        out.push(NamedSize { name: s.symbol.trimmed.as_str().to_owned(), size: s.symbol.size });
        i = i + 1;
    }
    out
}

/// One row per symbol, keyed by the attributed unit.
pub fn unit_rows(symbols: &Vec<EnrichedSymbol>) -> (r: Vec<NamedSize>)
    ensures
        r@.len() == symbols@.len(),
        forall|t: int|
            0 <= t < r@.len() ==> (#[trigger] r@[t]).name@ == symbols@[t].unit@ && r@[t].size
                == symbols@[t].symbol.size,
{
    let mut out: Vec<NamedSize> = Vec::new();
    let mut i: usize = 0;
    while i < symbols.len()
        invariant
            0 <= i <= symbols@.len(),
            out@.len() == i,
            forall|t: int|
                0 <= t < out@.len() ==> (#[trigger] out@[t]).name@ == symbols@[t].unit@ && out@[
                t].size == symbols@[t].symbol.size,
        decreases symbols@.len() - i,
    {
        let s = &symbols[i];
        out.push(NamedSize { name: s.unit.as_str().to_owned(), size: s.symbol.size });
        i = i + 1;
    }
    out
}

/// The (trimmed name, size) pairs of a snapshot's symbols.
pub open spec fn symbol_pairs(symbols: Seq<EnrichedSymbol>) -> Seq<(Seq<char>, u64)> {
    symbols.map_values(|s: EnrichedSymbol| (s.symbol.trimmed@, s.symbol.size))
}

/// The (unit, size) pairs of a snapshot's symbols.
pub open spec fn unit_pairs(symbols: Seq<EnrichedSymbol>) -> Seq<(Seq<char>, u64)> {
    symbols.map_values(|s: EnrichedSymbol| (s.unit@, s.symbol.size))
}

/// `t` is the symbol table of these symbols: unique names, and per name
/// exactly the summed size of the matching symbols, present if and only
/// if some symbol carries the name.
pub open spec fn is_symbol_table_of(t: Seq<NamedSize>, symbols: Seq<EnrichedSymbol>) -> bool {
    &&& unique_names(t)
    &&& forall|key: Seq<char>|
        #[trigger] table_lookup(t, key) == (if pairs_have(symbol_pairs(symbols), key) {
            Some(sum_for_names(symbol_pairs(symbols), key) as u64)
        } else {
            None::<u64>
        })
}

/// `t` is the crate table of these symbols, keyed by attributed unit.
pub open spec fn is_crate_table_of(t: Seq<NamedSize>, symbols: Seq<EnrichedSymbol>) -> bool {
    &&& unique_names(t)
    &&& forall|key: Seq<char>|
        #[trigger] table_lookup(t, key) == (if pairs_have(unit_pairs(symbols), key) {
            Some(sum_for_names(unit_pairs(symbols), key) as u64)
        } else {
            None::<u64>
        })
}

impl AnalysisResult {
    /// The summed sizes of this snapshot's symbols, one row per trimmed
    /// demangled name.
    pub fn symbol_table(&self) -> (r: Vec<NamedSize>)
        requires
            forall|key: Seq<char>|
                #[trigger] sum_for_names(
                    symbol_pairs(self.symbols@),
                    key,
                ) <= u64::MAX,
        ensures
            is_symbol_table_of(r@, self.symbols@),
    {
        let rows = symbol_rows(&self.symbols);
        proof {
            let pairs = symbol_pairs(self.symbols@);
            lemma_rows_pairs_agree(rows@, pairs);
        }
        sum_by_name(rows)
    }

    /// The summed sizes of this snapshot's symbols, one row per unit.
    pub fn crate_table(&self) -> (r: Vec<NamedSize>)
        requires
            forall|key: Seq<char>|
                #[trigger] sum_for_names(
                    unit_pairs(self.symbols@),
                    key,
                ) <= u64::MAX,
        ensures
            is_crate_table_of(r@, self.symbols@),
    {
        let rows = unit_rows(&self.symbols);
        proof {
            let pairs = unit_pairs(self.symbols@);
            lemma_rows_pairs_agree(rows@, pairs);
        }
        sum_by_name(rows)
    }

    /// The largest symbols of this snapshot, sorted by size descending,
    /// at most `n` of them.
    pub fn top_symbols(&self, n: usize) -> (r: Vec<NamedSize>)
        ensures
            r@.len() == (if n <= self.symbols@.len() {
                n as int
            } else {
                self.symbols@.len() as int
            }),
            forall|i: int, j: int| 0 <= i < j < r@.len() ==> (#[trigger] r@[i]).size >= (#[trigger] r@[j]).size,
            exists|rows: Seq<NamedSize>, sorted: Seq<NamedSize>|
                #![trigger sorted.to_multiset(), rows.to_multiset()]
                {
                    &&& rows.len() == self.symbols@.len()
                    &&& (forall|t: int|
                        0 <= t < rows.len() ==> (#[trigger] rows[t]).name@ == self.symbols@[
                        t].symbol.trimmed@ && rows[t].size == self.symbols@[t].symbol.size)
                    &&& sorted.to_multiset() == rows.to_multiset()
                    &&& (forall|i: int, j: int|
                        0 <= i < j < sorted.len() ==> (#[trigger] sorted[i]).size >= (
                        #[trigger] sorted[j]).size)
                    &&& r@ == sorted.take(
                        if n <= self.symbols@.len() {
                            n as int
                        } else {
                            self.symbols@.len() as int
                        },
                    )
                },
    {
        let rows = symbol_rows(&self.symbols);
        let ghost rows_view = rows@;
        let mut out: Vec<NamedSize> = Vec::new();
        proof {
            broadcast use vstd::seq_lib::group_to_multiset_ensures;

            assert(out@.to_multiset() =~= rows_view.take(0).to_multiset());
        }
        let total = rows.len();
        let mut rest = rows;
        let mut i: usize = 0;
        while rest.len() > 0
            invariant
                0 <= i <= rows_view.len(),
                total == rows_view.len(),
                i + rest@.len() == rows_view.len(),
                rest@ == rows_view.skip(i as int),
                out@.len() == i,
                out@.to_multiset() == rows_view.take(i as int).to_multiset(),
                forall|x: int, y: int|
                    0 <= x < y < out@.len() ==> (#[trigger] out@[x]).size >= (
                    #[trigger] out@[y]).size,
            decreases rest@.len(),
        {
            let row = rest.remove(0);
            proof {
                assert(rows_view.skip(i as int)[0] == rows_view[i as int]);
                assert(rows_view.skip(i as int).remove(0) =~= rows_view.skip(i as int + 1));
                assert(row == rows_view[i as int]);
                assert(i < rows_view.len());
            }
            let mut k: usize = 0;
            while k < out.len() && out[k].size >= row.size
                invariant
                    0 <= k <= out@.len(),
                    forall|t: int| 0 <= t < k ==> (#[trigger] out@[t]).size >= row.size,
                decreases out@.len() - k,
            {
                k = k + 1;
            }
            let ghost prev = out@;
            out.insert(k, row);
            proof {
                assert forall|x: int, y: int|
                    0 <= x < y < out@.len() implies (#[trigger] out@[x]).size >= (
                #[trigger] out@[y]).size by {
                    if y == k && x < k {
                        assert(out@[x] == prev[x]);
                    } else if x == k && y > k {
                        assert(out@[y] == prev[y - 1]);
                        if y - 1 > k {
                            assert(prev[k as int].size >= prev[y - 1].size);
                        }
                        assert(k < prev.len() ==> row.size > prev[k as int].size);
                    } else if y < k {
                        assert(out@[x] == prev[x] && out@[y] == prev[y]);
                    } else if x > k {
                        assert(out@[x] == prev[x - 1] && out@[y] == prev[y - 1]);
                    } else {
                        assert(out@[x] == prev[x] && out@[y] == prev[y - 1]);
                        assert(k < prev.len() ==> row.size > prev[k as int].size);
                    }
                }
                assert(out@.to_multiset() == rows_view.take(i as int + 1).to_multiset()) by {
                    broadcast use vstd::seq_lib::group_to_multiset_ensures;

                    assert(out@ =~= prev.take(k as int) + (seq![row] + prev.skip(k as int)));
                    vstd::seq_lib::lemma_multiset_commutative(
                        prev.take(k as int),
                        seq![row] + prev.skip(k as int),
                    );
                    vstd::seq_lib::lemma_multiset_commutative(seq![row], prev.skip(k as int));
                    assert(prev =~= prev.take(k as int) + prev.skip(k as int));
                    vstd::seq_lib::lemma_multiset_commutative(
                        prev.take(k as int),
                        prev.skip(k as int),
                    );
                    assert(seq![row].to_multiset() =~= vstd::multiset::Multiset::<
                        NamedSize,
                    >::empty().insert(row)) by {
                        assert(seq![row] =~= Seq::<NamedSize>::empty().push(row));
                    }
                    assert(rows_view.take(i as int + 1) =~= rows_view.take(i as int).push(
                        rows_view[i as int],
                    ));
                }
            }
            i = i + 1;
        }
        proof {
            assert(rows_view.take(rows_view.len() as int) =~= rows_view);
        }
        let ghost sorted_full = out@;
        if n < out.len() {
            out.truncate(n);
            proof {
                assert(out@ =~= sorted_full.take(n as int));
            }
        } else {
            proof {
                assert(out@ =~= sorted_full.take(sorted_full.len() as int));
            }
        }
        out
    }
}

/// The total size a run of (name, size) pairs gives one name.
pub open spec fn sum_for_names(pairs: Seq<(Seq<char>, u64)>, key: Seq<char>) -> int
    decreases pairs.len(),
{
    if pairs.len() == 0 {
        0
    } else {
        sum_for_names(pairs.drop_last(), key) + (if pairs.last().0 == key {
            pairs.last().1 as int
        } else {
            0
        })
    }
}

/// Some pair carries the name.
pub open spec fn pairs_have(pairs: Seq<(Seq<char>, u64)>, key: Seq<char>) -> bool {
    exists|i: int| 0 <= i < pairs.len() && (#[trigger] pairs[i]).0 == key
}

/// Rows built elementwise from pairs have the same sums and presence.
proof fn lemma_rows_pairs_agree(rows: Seq<NamedSize>, pairs: Seq<(Seq<char>, u64)>)
    requires
        rows.len() == pairs.len(),
        forall|t: int|
            0 <= t < rows.len() ==> (#[trigger] rows[t]).name@ == pairs[t].0 && rows[t].size
                == pairs[t].1,
    ensures
        forall|key: Seq<char>| #[trigger] sum_for(rows, key) == sum_for_names(pairs, key),
        forall|key: Seq<char>| #[trigger] rows_have(rows, key) == pairs_have(pairs, key),
    decreases rows.len(),
{
    if rows.len() > 0 {
        assert forall|t: int|
            0 <= t < rows.drop_last().len() implies (#[trigger] rows.drop_last()[t]).name@
                == pairs.drop_last()[t].0 && rows.drop_last()[t].size == pairs.drop_last()[
            t].1 by {
            assert(rows.drop_last()[t] == rows[t]);
            assert(pairs.drop_last()[t] == pairs[t]);
        }
        lemma_rows_pairs_agree(rows.drop_last(), pairs.drop_last());
        assert forall|key: Seq<char>| #[trigger] sum_for(rows, key) == sum_for_names(
            pairs,
            key,
        ) by {
            assert(sum_for(rows.drop_last(), key) == sum_for_names(pairs.drop_last(), key));
            assert(rows.last().name@ == pairs.last().0 && rows.last().size == pairs.last().1);
        }
        assert forall|key: Seq<char>| #[trigger] rows_have(rows, key) == pairs_have(
            pairs,
            key,
        ) by {
            if rows_have(rows, key) {
                let t = choose|t: int|
                    0 <= t < rows.len() && (#[trigger] rows[t]).name@ == key;
                assert(pairs[t].0 == key);
            }
            if pairs_have(pairs, key) {
                let t = choose|t: int| 0 <= t < pairs.len() && (#[trigger] pairs[t]).0 == key;
                assert(rows[t].name@ == key);
            }
        }
    } else {
        assert forall|key: Seq<char>| #[trigger] rows_have(rows, key) == pairs_have(
            pairs,
            key,
        ) by {}
    }
}

/// Diffs two snapshots: one symbol change per trimmed name present in
/// either, one crate change per unit present in either, and the four raw
/// sizes side by side.
pub fn compare_analyses(before: &AnalysisResult, after: &AnalysisResult) -> (r: AnalysisComparison)
    requires
        forall|key: Seq<char>|
            #[trigger] sum_for_names(symbol_pairs(before.symbols@), key) <= u64::MAX,
        forall|key: Seq<char>|
            #[trigger] sum_for_names(symbol_pairs(after.symbols@), key) <= u64::MAX,
        forall|key: Seq<char>|
            #[trigger] sum_for_names(unit_pairs(before.symbols@), key) <= u64::MAX,
        forall|key: Seq<char>|
            #[trigger] sum_for_names(unit_pairs(after.symbols@), key) <= u64::MAX,
    ensures
        r.file_size_diff.file_size_before == before.file_size,
        r.file_size_diff.file_size_after == after.file_size,
        r.file_size_diff.text_size_before == before.text_size,
        r.file_size_diff.text_size_after == after.text_size,
        exists|tb: Seq<NamedSize>, ta: Seq<NamedSize>|
            #[trigger] describes_symbol_changes(tb, ta, r.symbol_changes@) && is_symbol_table_of(
                tb,
                before.symbols@,
            ) && is_symbol_table_of(ta, after.symbols@),
        exists|tb: Seq<NamedSize>, ta: Seq<NamedSize>|
            #[trigger] describes_crate_changes(tb, ta, r.crate_changes@) && is_crate_table_of(
                tb,
                before.symbols@,
            ) && is_crate_table_of(ta, after.symbols@),
{
    let sym_before = before.symbol_table();
    let sym_after = after.symbol_table();
    let crate_before = before.crate_table();
    let crate_after = after.crate_table();
    let symbol_changes = compare_symbol_tables(&sym_before, &sym_after);
    let crate_changes = compare_crate_tables(&crate_before, &crate_after);
    let result = AnalysisComparison {
        file_size_diff: FileSizeDiff {
            file_size_before: before.file_size,
            file_size_after: after.file_size,
            text_size_before: before.text_size,
            text_size_after: after.text_size,
        },
        symbol_changes,
        crate_changes,
    };
    proof {
        assert(describes_symbol_changes(sym_before@, sym_after@, result.symbol_changes@)
            && is_symbol_table_of(sym_before@, before.symbols@) && is_symbol_table_of(
            sym_after@,
            after.symbols@,
        ));
        assert(describes_crate_changes(crate_before@, crate_after@, result.crate_changes@)
            && is_crate_table_of(crate_before@, before.symbols@) && is_crate_table_of(
            crate_after@,
            after.symbols@,
        ));
    }
    result
}

/// Comparing equal snapshots yields no change: when both tables of a
/// symbol diff summarize the same symbols, every record's two sides are
/// equal; likewise per crate.
pub proof fn lemma_compare_snapshots_identity(
    symbols: Seq<EnrichedSymbol>,
    tb: Seq<NamedSize>,
    ta: Seq<NamedSize>,
    symbol_changes: Seq<crate::compare::SymbolChange>,
    cb: Seq<NamedSize>,
    ca: Seq<NamedSize>,
    crate_changes: Seq<crate::compare::CrateChange>,
)
    requires
        is_symbol_table_of(tb, symbols),
        is_symbol_table_of(ta, symbols),
        describes_symbol_changes(tb, ta, symbol_changes),
        is_crate_table_of(cb, symbols),
        is_crate_table_of(ca, symbols),
        describes_crate_changes(cb, ca, crate_changes),
    ensures
        forall|i: int|
            0 <= i < symbol_changes.len() ==> (#[trigger] symbol_changes[i]).size_before
                == symbol_changes[i].size_after,
        forall|i: int|
            0 <= i < crate_changes.len() ==> (#[trigger] crate_changes[i]).size_before
                == crate_changes[i].size_after,
{
    assert forall|i: int|
        0 <= i < symbol_changes.len() implies (#[trigger] symbol_changes[i]).size_before
        == symbol_changes[i].size_after by {
        assert(table_lookup(tb, symbol_changes[i].name@) == table_lookup(
            ta,
            symbol_changes[i].name@,
        ));
    }
    assert forall|i: int|
        0 <= i < crate_changes.len() implies (#[trigger] crate_changes[i]).size_before
        == crate_changes[i].size_after by {
        assert(table_lookup(cb, crate_changes[i].name@) == table_lookup(
            ca,
            crate_changes[i].name@,
        ));
    }
}


/// The (hash-stripped trimmed name, size) pairs of a snapshot's symbols.
pub open spec fn agg_sym_pairs(symbols: Seq<EnrichedSymbol>) -> Seq<(Seq<char>, u64)> {
    symbols.map_values(
        |s: EnrichedSymbol| (crate::types::strip_hash_spec(s.symbol.trimmed@), s.symbol.size),
    )
}

/// The (hash-stripped trimmed name, attributed unit) pairs of a
/// snapshot's symbols.
pub open spec fn agg_sym_units(symbols: Seq<EnrichedSymbol>) -> Seq<(Seq<char>, Seq<char>)> {
    symbols.map_values(
        |s: EnrichedSymbol| (crate::types::strip_hash_spec(s.symbol.trimmed@), s.unit@),
    )
}

/// How many pairs carry the name.
pub open spec fn count_for_names(pairs: Seq<(Seq<char>, u64)>, key: Seq<char>) -> int
    decreases pairs.len(),
{
    if pairs.len() == 0 {
        0
    } else {
        count_for_names(pairs.drop_last(), key) + (if pairs.last().0 == key {
            1int
        } else {
            0int
        })
    }
}

proof fn lemma_count_for_names_bound(pairs: Seq<(Seq<char>, u64)>, key: Seq<char>)
    ensures
        0 <= count_for_names(pairs, key) <= pairs.len(),
    decreases pairs.len(),
{
    if pairs.len() > 0 {
        lemma_count_for_names_bound(pairs.drop_last(), key);
    }
}

proof fn lemma_sum_names_nonneg(pairs: Seq<(Seq<char>, u64)>, key: Seq<char>)
    ensures
        sum_for_names(pairs, key) >= 0,
    decreases pairs.len(),
{
    if pairs.len() > 0 {
        lemma_sum_names_nonneg(pairs.drop_last(), key);
    }
}

proof fn lemma_sum_names_prefix_le(pairs: Seq<(Seq<char>, u64)>, i: int, key: Seq<char>)
    requires
        0 <= i <= pairs.len(),
    ensures
        sum_for_names(pairs.take(i), key) <= sum_for_names(pairs, key),
        sum_for_names(pairs.take(i), key) >= 0,
    decreases pairs.len() - i,
{
    lemma_sum_names_nonneg(pairs.take(i), key);
    if i == pairs.len() {
        assert(pairs.take(i) =~= pairs);
    } else {
        lemma_sum_names_prefix_le(pairs, i + 1, key);
        assert(pairs.take(i + 1).drop_last() =~= pairs.take(i));
        assert(pairs.take(i + 1).last() == pairs[i]);
    }
}

/// What one aggregate entry says about the symbols seen so far.
pub open spec fn agg_sym_entry_ok(entry: AggregateSymbol, symbols: Seq<EnrichedSymbol>) -> bool {
    &&& pairs_have(agg_sym_pairs(symbols), entry.name@)
    &&& entry.total_size.0 == sum_for_names(agg_sym_pairs(symbols), entry.name@)
    &&& entry.copies.0 == count_for_names(agg_sym_pairs(symbols), entry.name@)
    &&& names_view(entry.crates@) == crate::index::units_for(agg_sym_units(symbols), entry.name@)
}

/// Aggregates a snapshot's symbols by hash-stripped trimmed name: per
/// name the summed size, the number of copies, and every attributed unit
/// once, in first-seen order.
#[verifier::rlimit(100)]
#[verifier::spinoff_prover]
pub fn aggregate_symbols(symbols: &Vec<EnrichedSymbol>) -> (r: Vec<AggregateSymbol>)
    requires
        forall|key: Seq<char>|
            #[trigger] sum_for_names(agg_sym_pairs(symbols@), key) <= u64::MAX,
    ensures
        forall|x: int, y: int|
            0 <= x < y < r@.len() ==> (#[trigger] r@[x]).name@ != (#[trigger] r@[y]).name@,
        forall|t: int| 0 <= t < r@.len() ==> agg_sym_entry_ok(#[trigger] r@[t], symbols@),
        forall|k: int|
            0 <= k < symbols@.len() ==> exists|t: int|
                0 <= t < r@.len() && (#[trigger] r@[t]).name@ == crate::types::strip_hash_spec(
                    (#[trigger] symbols@[k]).symbol.trimmed@,
                ),
{
    let ghost pairs = agg_sym_pairs(symbols@);
    let ghost upairs = agg_sym_units(symbols@);
    let mut out: Vec<AggregateSymbol> = Vec::new();
    let mut i: usize = 0;
    while i < symbols.len()
        invariant
            0 <= i <= symbols@.len(),
            pairs == agg_sym_pairs(symbols@),
            upairs == agg_sym_units(symbols@),
            forall|key: Seq<char>| #[trigger] sum_for_names(pairs, key) <= u64::MAX,
            forall|x: int, y: int|
                0 <= x < y < out@.len() ==> (#[trigger] out@[x]).name@ != (
                #[trigger] out@[y]).name@,
            forall|t: int|
                0 <= t < out@.len() ==> {
                    &&& pairs_have(pairs.take(i as int), (#[trigger] out@[t]).name@)
                    &&& out@[t].total_size.0 == sum_for_names(pairs.take(i as int), out@[t].name@)
                    &&& out@[t].copies.0 == count_for_names(pairs.take(i as int), out@[t].name@)
                    &&& names_view(out@[t].crates@) == crate::index::units_for(
                        upairs.take(i as int),
                        out@[t].name@,
                    )
                },
            forall|key: Seq<char>|
                #[trigger] pairs_have(pairs.take(i as int), key) ==> exists|t: int|
                    0 <= t < out@.len() && out@[t].name@ == key,
        decreases symbols@.len() - i,
    {
        let stripped = symbols[i].symbol.trimmed.strip_hash();
        let key_chars = crate::strutil::str_to_chars(stripped.as_str());
        let size = symbols[i].symbol.size;
        let unit = CrateName::from_str(symbols[i].unit.as_str());
        let ghost key = stripped@;
        proof {
            assert(pairs[i as int] == (key, size));
            assert(upairs[i as int] == (key, symbols@[i as int].unit@));
            assert(pairs.take(i as int + 1).drop_last() =~= pairs.take(i as int));
            assert(pairs.take(i as int + 1).last() == pairs[i as int]);
            assert(upairs.take(i as int + 1).drop_last() =~= upairs.take(i as int));
            assert(upairs.take(i as int + 1).last() == upairs[i as int]);
            lemma_sum_names_prefix_le(pairs, i as int + 1, key);
            lemma_sum_names_prefix_le(pairs, i as int, key);
            lemma_count_for_names_bound(pairs.take(i as int), key);
            assert(pairs.take(i as int).len() <= i);
        }
        let ghost prev_out = out@;
        let mut j: usize = 0;
        let mut merged = false;
        while j < out.len()
            invariant_except_break
                0 <= j <= out@.len(),
                out@ == prev_out,
                !merged,
                key == key_chars@,
                0 <= i < symbols@.len(),
                symbols@.len() <= usize::MAX,
                pairs == agg_sym_pairs(symbols@),
                upairs == agg_sym_units(symbols@),
                pairs[i as int] == (key, symbols@[i as int].symbol.size),
                upairs[i as int] == (key, symbols@[i as int].unit@),
                size == symbols@[i as int].symbol.size,
                unit@ == symbols@[i as int].unit@,
                forall|key2: Seq<char>| #[trigger] sum_for_names(pairs, key2) <= u64::MAX,
                forall|x: int, y: int|
                    0 <= x < y < out@.len() ==> (#[trigger] out@[x]).name@ != (
                    #[trigger] out@[y]).name@,
                forall|t: int|
                    0 <= t < out@.len() ==> {
                        &&& pairs_have(pairs.take(i as int), (#[trigger] out@[t]).name@)
                        &&& out@[t].total_size.0 == sum_for_names(
                            pairs.take(i as int),
                            out@[t].name@,
                        )
                        &&& out@[t].copies.0 == count_for_names(
                            pairs.take(i as int),
                            out@[t].name@,
                        )
                        &&& names_view(out@[t].crates@) == crate::index::units_for(
                            upairs.take(i as int),
                            out@[t].name@,
                        )
                    },
                forall|t: int| 0 <= t < j ==> (#[trigger] out@[t]).name@ != key,
            ensures
                forall|x: int, y: int|
                    0 <= x < y < out@.len() ==> (#[trigger] out@[x]).name@ != (
                    #[trigger] out@[y]).name@,
                merged ==> forall|t: int|
                    0 <= t < out@.len() ==> {
                        &&& pairs_have(pairs.take(i as int + 1), (#[trigger] out@[t]).name@)
                        &&& out@[t].total_size.0 == sum_for_names(
                            pairs.take(i as int + 1),
                            out@[t].name@,
                        )
                        &&& out@[t].copies.0 == count_for_names(
                            pairs.take(i as int + 1),
                            out@[t].name@,
                        )
                        &&& names_view(out@[t].crates@) == crate::index::units_for(
                            upairs.take(i as int + 1),
                            out@[t].name@,
                        )
                    },
                merged ==> exists|t: int|
                    0 <= t < out@.len() && (#[trigger] out@[t]).name@ == key,
                merged ==> out@.len() == prev_out.len(),
                merged ==> forall|t: int|
                    0 <= t < out@.len() ==> (#[trigger] out@[t]).name@ == prev_out[t].name@,
                !merged ==> out@ == prev_out && (forall|t: int|
                    0 <= t < out@.len() ==> (#[trigger] out@[t]).name@ != key),
            decreases out@.len() - j,
        {
            let cand = crate::strutil::str_to_chars(out[j].name.as_str());
            if crate::strutil::chars_eq(&cand, &key_chars) {
                proof {
                    assert(pairs.take(i as int + 1).drop_last() =~= pairs.take(i as int));
                    assert(pairs.take(i as int + 1).last() == pairs[i as int]);
                    assert(upairs.take(i as int + 1).drop_last() =~= upairs.take(i as int));
                    assert(upairs.take(i as int + 1).last() == upairs[i as int]);
                    lemma_sum_names_prefix_le(pairs, i as int + 1, key);
                    lemma_count_for_names_bound(pairs.take(i as int), key);
                    assert(pairs.take(i as int).len() <= i);
                }
                proof {
                    assert(out@[j as int].name@ == key);
                    assert(pairs.len() == symbols@.len());
                    assert(pairs.take(i as int).len() == i as int);
                    assert(out@[j as int].copies.0 <= i);
                }
                let new_total = out[j].total_size.value() + size;
                let new_copies = out[j].copies.value() + 1;
                out[j].total_size = ByteSize::new(new_total);
                out[j].copies = crate::types::NumberOfCopies::new(new_copies);
                let ghost mid_out = out@;
                let mut in_crates = false;
                let mut c: usize = 0;
                let n_crates = out[j].crates.len();
                while c < n_crates && !in_crates
                    invariant
                        0 <= c <= n_crates,
                        j < out@.len(),
                        out@ == mid_out,
                        key == key_chars@,
                        unit@ == symbols@[i as int].unit@,
                        n_crates == out@[j as int].crates@.len(),
                        in_crates ==> exists|t: int|
                            0 <= t < n_crates && (#[trigger] out@[j as int].crates@[t])@
                                == unit@,
                        !in_crates ==> forall|t: int|
                            0 <= t < c ==> (#[trigger] out@[j as int].crates@[t])@ != unit@,
                    decreases n_crates - c + (if in_crates {
                        0int
                    } else {
                        1int
                    }),
                {
                    let cc = crate::strutil::str_to_chars(out[j].crates[c].as_str());
                    let uc = crate::strutil::str_to_chars(unit.as_str());
                    if crate::strutil::chars_eq(&cc, &uc) {
                        in_crates = true;
                    } else {
                        c = c + 1;
                    }
                }
                let ghost old_crates = out@[j as int].crates@;
                if !in_crates {
                    let unit_copy = CrateName::from_str(unit.as_str());
                    out[j].crates.push(unit_copy);
                }
                proof {
                    let updated = out@[j as int];
                    if in_crates {
                        assert(names_view(updated.crates@).contains(unit@)) by {
                            let t = choose|t: int|
                                0 <= t < old_crates.len() && (#[trigger] old_crates[t])@
                                    == unit@;
                            assert(names_view(updated.crates@)[t] == unit@);
                        }
                        assert(names_view(updated.crates@) =~= crate::index::units_for(
                            upairs.take(i as int + 1),
                            key,
                        ));
                    } else {
                        assert(!names_view(old_crates).contains(unit@)) by {
                            if names_view(old_crates).contains(unit@) {
                                let t = choose|t: int|
                                    0 <= t < names_view(old_crates).len() && names_view(
                                        old_crates,
                                    )[t] == unit@;
                                assert(old_crates[t]@ == unit@);
                            }
                        }
                        assert(names_view(updated.crates@) =~= names_view(old_crates).push(
                            unit@,
                        ));
                        assert(names_view(updated.crates@) =~= crate::index::units_for(
                            upairs.take(i as int + 1),
                            key,
                        ));
                    }
                    assert forall|t: int|
                        0 <= t < out@.len() implies {
                        &&& pairs_have(pairs.take(i as int + 1), (#[trigger] out@[t]).name@)
                        &&& out@[t].total_size.0 == sum_for_names(
                            pairs.take(i as int + 1),
                            out@[t].name@,
                        )
                        &&& out@[t].copies.0 == count_for_names(
                            pairs.take(i as int + 1),
                            out@[t].name@,
                        )
                        &&& names_view(out@[t].crates@) == crate::index::units_for(
                            upairs.take(i as int + 1),
                            out@[t].name@,
                        )
                    } by {
                        if t != j {
                            assert(out@[t] == prev_out[t]);
                            assert(out@[t].name@ != key);
                            if pairs_have(pairs.take(i as int), out@[t].name@) {
                                let w = choose|w: int|
                                    0 <= w < pairs.take(i as int).len() && (#[trigger] pairs.take(
                                        i as int,
                                    )[w]).0 == out@[t].name@;
                                assert(pairs.take(i as int + 1)[w].0 == out@[t].name@);
                            }
                        } else {
                            assert(out@[t].name@ == key);
                            assert(pairs.take(i as int + 1)[i as int].0 == key);
                        }
                    }
                    assert(out@[j as int].name@ == key);
                }
                merged = true;
                break ;
            }
            j = j + 1;
        }
        if !merged {
            proof {
                assert(!pairs_have(pairs.take(i as int), key)) by {
                    if pairs_have(pairs.take(i as int), key) {
                        let w = choose|w: int|
                            0 <= w < pairs.take(i as int).len() && (#[trigger] pairs.take(
                                i as int,
                            )[w]).0 == key;
                        assert(false);
                    }
                }
                lemma_sum_absent_names(pairs.take(i as int), key);
                lemma_count_absent_names(pairs.take(i as int), key);
                assert forall|t: int|
                    0 <= t < upairs.take(i as int).len() implies (#[trigger] upairs.take(
                    i as int,
                )[t]).0 != key by {
                    assert(upairs.take(i as int)[t].0 == pairs[t].0);
                    assert(pairs.take(i as int)[t].0 == pairs[t].0);
                }
                lemma_units_absent(upairs.take(i as int), key);
            }
            let mut crates: Vec<CrateName> = Vec::new();
            crates.push(unit);
            out.push(
                AggregateSymbol {
                    name: stripped,
                    total_size: ByteSize::new(size),
                    copies: crate::types::NumberOfCopies::new(1),
                    crates,
                },
            );
            proof {
                let nv = out@;
                let new_entry = nv[nv.len() - 1];
                assert(new_entry.name@ == key);
                assert(names_view(new_entry.crates@) =~= seq![unit@]);
                assert(pairs.take(i as int + 1).drop_last() =~= pairs.take(i as int));
                assert(pairs.take(i as int + 1).last() == pairs[i as int]);
                assert(upairs.take(i as int + 1).drop_last() =~= upairs.take(i as int));
                assert(upairs.take(i as int + 1).last() == upairs[i as int]);
                assert(crate::index::units_for(upairs.take(i as int + 1), key) =~= seq![unit@]);
                assert forall|t: int|
                    0 <= t < nv.len() implies {
                    &&& pairs_have(pairs.take(i as int + 1), (#[trigger] nv[t]).name@)
                    &&& nv[t].total_size.0 == sum_for_names(
                        pairs.take(i as int + 1),
                        nv[t].name@,
                    )
                    &&& nv[t].copies.0 == count_for_names(pairs.take(i as int + 1), nv[t].name@)
                    &&& names_view(nv[t].crates@) == crate::index::units_for(
                        upairs.take(i as int + 1),
                        nv[t].name@,
                    )
                } by {
                    if t < nv.len() - 1 {
                        assert(nv[t] == prev_out[t]);
                        assert(nv[t].name@ != key);
                        if pairs_have(pairs.take(i as int), nv[t].name@) {
                            let w = choose|w: int|
                                0 <= w < pairs.take(i as int).len() && (#[trigger] pairs.take(
                                    i as int,
                                )[w]).0 == nv[t].name@;
                            assert(pairs.take(i as int + 1)[w].0 == nv[t].name@);
                        }
                    } else {
                        assert(pairs.take(i as int + 1)[i as int].0 == key);
                    }
                }
                assert forall|x: int, y: int|
                    0 <= x < y < nv.len() implies (#[trigger] nv[x]).name@ != (
                #[trigger] nv[y]).name@ by {
                    if y < nv.len() - 1 {
                        assert(nv[x] == prev_out[x] && nv[y] == prev_out[y]);
                    } else {
                        assert(nv[x] == prev_out[x]);
                    }
                }
            }
        }
        proof {
            assert forall|key2: Seq<char>|
                #[trigger] pairs_have(pairs.take(i as int + 1), key2) implies exists|t: int|
                0 <= t < out@.len() && out@[t].name@ == key2 by {
                let w = choose|w: int|
                    0 <= w < pairs.take(i as int + 1).len() && (#[trigger] pairs.take(
                        i as int + 1,
                    )[w]).0 == key2;
                if w < i {
                    assert(pairs.take(i as int)[w].0 == key2);
                    assert(pairs_have(pairs.take(i as int), key2));
                    let t = choose|t: int|
                        0 <= t < prev_out.len() && (#[trigger] prev_out[t]).name@ == key2;
                    assert(out@[t].name@ == key2);
                } else {
                    assert(key2 == key);
                    assert(exists|t: int|
                        0 <= t < out@.len() && (#[trigger] out@[t]).name@ == key);
                }
            }
        }
        i = i + 1;
    }
    proof {
        assert(pairs.take(pairs.len() as int) =~= pairs);
        assert(upairs.take(upairs.len() as int) =~= upairs);
        assert forall|k: int|
            0 <= k < symbols@.len() implies exists|t: int|
            0 <= t < out@.len() && (#[trigger] out@[t]).name@ == crate::types::strip_hash_spec(
                (#[trigger] symbols@[k]).symbol.trimmed@,
            ) by {
            assert(pairs[k].0 == crate::types::strip_hash_spec(symbols@[k].symbol.trimmed@));
            assert(pairs_have(pairs.take(i as int), pairs[k].0)) by {
                assert(pairs.take(i as int)[k] == pairs[k]);
            }
        }
    }
    out
}

proof fn lemma_sum_absent_names(pairs: Seq<(Seq<char>, u64)>, key: Seq<char>)
    requires
        !pairs_have(pairs, key),
    ensures
        sum_for_names(pairs, key) == 0,
    decreases pairs.len(),
{
    if pairs.len() > 0 {
        assert(!pairs_have(pairs.drop_last(), key)) by {
            if pairs_have(pairs.drop_last(), key) {
                let t = choose|t: int|
                    0 <= t < pairs.drop_last().len() && (#[trigger] pairs.drop_last()[t]).0
                        == key;
                assert(pairs[t].0 == key);
            }
        }
        assert(pairs[pairs.len() - 1].0 != key);
        lemma_sum_absent_names(pairs.drop_last(), key);
    }
}

proof fn lemma_count_absent_names(pairs: Seq<(Seq<char>, u64)>, key: Seq<char>)
    requires
        !pairs_have(pairs, key),
    ensures
        count_for_names(pairs, key) == 0,
    decreases pairs.len(),
{
    if pairs.len() > 0 {
        assert(!pairs_have(pairs.drop_last(), key)) by {
            if pairs_have(pairs.drop_last(), key) {
                let t = choose|t: int|
                    0 <= t < pairs.drop_last().len() && (#[trigger] pairs.drop_last()[t]).0
                        == key;
                assert(pairs[t].0 == key);
            }
        }
        assert(pairs[pairs.len() - 1].0 != key);
        lemma_count_absent_names(pairs.drop_last(), key);
    }
}

proof fn lemma_units_absent(pairs: Seq<(Seq<char>, Seq<char>)>, key: Seq<char>)
    requires
        forall|t: int| 0 <= t < pairs.len() ==> (#[trigger] pairs[t]).0 != key,
    ensures
        crate::index::units_for(pairs, key) =~= Seq::<Seq<char>>::empty(),
    decreases pairs.len(),
{
    if pairs.len() > 0 {
        assert forall|t: int|
            0 <= t < pairs.drop_last().len() implies (#[trigger] pairs.drop_last()[t]).0
            != key by {
            assert(pairs.drop_last()[t] == pairs[t]);
        }
        assert(pairs[pairs.len() - 1].0 != key);
        lemma_units_absent(pairs.drop_last(), key);
    }
}


/// One function of one crate, as the IR grouping hands them over.
pub struct CrateFunction {
    pub unit: CrateName,
    pub function: crate::types::LlvmFunction,
}

/// The (function name, line count) pairs of a grouped function list.
pub open spec fn agg_fn_lines(fns: Seq<CrateFunction>) -> Seq<(Seq<char>, usize)> {
    fns.map_values(|f: CrateFunction| (f.function.name@, f.function.lines.0))
}

/// The (function name, copy count) pairs of a grouped function list.
pub open spec fn agg_fn_copies(fns: Seq<CrateFunction>) -> Seq<(Seq<char>, usize)> {
    fns.map_values(|f: CrateFunction| (f.function.name@, f.function.copies.0))
}

/// The (function name, unit) pairs of a grouped function list.
pub open spec fn agg_fn_units(fns: Seq<CrateFunction>) -> Seq<(Seq<char>, Seq<char>)> {
    fns.map_values(|f: CrateFunction| (f.function.name@, f.unit@))
}

/// Some pair carries the name.
pub open spec fn upairs_have(pairs: Seq<(Seq<char>, usize)>, key: Seq<char>) -> bool {
    exists|i: int| 0 <= i < pairs.len() && (#[trigger] pairs[i]).0 == key
}

/// The total count a run of pairs gives one name.
pub open spec fn sum_usize_for(pairs: Seq<(Seq<char>, usize)>, key: Seq<char>) -> int
    decreases pairs.len(),
{
    if pairs.len() == 0 {
        0
    } else {
        sum_usize_for(pairs.drop_last(), key) + (if pairs.last().0 == key {
            pairs.last().1 as int
        } else {
            0
        })
    }
}

proof fn lemma_sum_usize_nonneg(pairs: Seq<(Seq<char>, usize)>, key: Seq<char>)
    ensures
        sum_usize_for(pairs, key) >= 0,
    decreases pairs.len(),
{
    if pairs.len() > 0 {
        lemma_sum_usize_nonneg(pairs.drop_last(), key);
    }
}

proof fn lemma_sum_usize_prefix_le(pairs: Seq<(Seq<char>, usize)>, i: int, key: Seq<char>)
    requires
        0 <= i <= pairs.len(),
    ensures
        sum_usize_for(pairs.take(i), key) <= sum_usize_for(pairs, key),
        sum_usize_for(pairs.take(i), key) >= 0,
    decreases pairs.len() - i,
{
    lemma_sum_usize_nonneg(pairs.take(i), key);
    if i == pairs.len() {
        assert(pairs.take(i) =~= pairs);
    } else {
        lemma_sum_usize_prefix_le(pairs, i + 1, key);
        assert(pairs.take(i + 1).drop_last() =~= pairs.take(i));
        assert(pairs.take(i + 1).last() == pairs[i]);
    }
}

proof fn lemma_sum_usize_absent(pairs: Seq<(Seq<char>, usize)>, key: Seq<char>)
    requires
        !upairs_have(pairs, key),
    ensures
        sum_usize_for(pairs, key) == 0,
    decreases pairs.len(),
{
    if pairs.len() > 0 {
        assert(!upairs_have(pairs.drop_last(), key)) by {
            if upairs_have(pairs.drop_last(), key) {
                let t = choose|t: int|
                    0 <= t < pairs.drop_last().len() && (#[trigger] pairs.drop_last()[t]).0
                        == key;
                assert(pairs[t].0 == key);
            }
        }
        assert(pairs[pairs.len() - 1].0 != key);
        lemma_sum_usize_absent(pairs.drop_last(), key);
    }
}

/// What one aggregate entry says about the grouped functions.
pub open spec fn agg_fn_entry_ok(entry: AggregateLlvmFunction, fns: Seq<CrateFunction>) -> bool {
    &&& upairs_have(agg_fn_lines(fns), entry.name@)
    &&& entry.total_llvm_lines.0 == sum_usize_for(agg_fn_lines(fns), entry.name@)
    &&& entry.copies.0 == sum_usize_for(agg_fn_copies(fns), entry.name@)
    &&& names_view(entry.crates@) == crate::index::units_for(agg_fn_units(fns), entry.name@)
}

/// Aggregates grouped IR functions by name: per name the summed line and
/// copy counts, and every crate once, in first-seen order.
#[verifier::rlimit(100)]
#[verifier::spinoff_prover]
pub fn aggregate_llvm_functions(fns: &Vec<CrateFunction>) -> (r: Vec<AggregateLlvmFunction>)
    requires
        forall|key: Seq<char>| #[trigger] sum_usize_for(agg_fn_lines(fns@), key) <= usize::MAX,
        forall|key: Seq<char>| #[trigger] sum_usize_for(agg_fn_copies(fns@), key) <= usize::MAX,
    ensures
        forall|x: int, y: int|
            0 <= x < y < r@.len() ==> (#[trigger] r@[x]).name@ != (#[trigger] r@[y]).name@,
        forall|t: int| 0 <= t < r@.len() ==> agg_fn_entry_ok(#[trigger] r@[t], fns@),
        forall|k: int|
            0 <= k < fns@.len() ==> exists|t: int|
                0 <= t < r@.len() && (#[trigger] r@[t]).name@ == (
                #[trigger] fns@[k]).function.name@,
{
    let ghost lpairs = agg_fn_lines(fns@);
    let ghost cpairs = agg_fn_copies(fns@);
    let ghost upairs = agg_fn_units(fns@);
    let mut out: Vec<AggregateLlvmFunction> = Vec::new();
    let mut i: usize = 0;
    while i < fns.len()
        invariant
            0 <= i <= fns@.len(),
            lpairs == agg_fn_lines(fns@),
            cpairs == agg_fn_copies(fns@),
            upairs == agg_fn_units(fns@),
            forall|key: Seq<char>| #[trigger] sum_usize_for(lpairs, key) <= usize::MAX,
            forall|key: Seq<char>| #[trigger] sum_usize_for(cpairs, key) <= usize::MAX,
            forall|x: int, y: int|
                0 <= x < y < out@.len() ==> (#[trigger] out@[x]).name@ != (
                #[trigger] out@[y]).name@,
            forall|t: int|
                0 <= t < out@.len() ==> {
                    &&& upairs_have(lpairs.take(i as int), (#[trigger] out@[t]).name@)
                    &&& out@[t].total_llvm_lines.0 == sum_usize_for(
                        lpairs.take(i as int),
                        out@[t].name@,
                    )
                    &&& out@[t].copies.0 == sum_usize_for(cpairs.take(i as int), out@[t].name@)
                    &&& names_view(out@[t].crates@) == crate::index::units_for(
                        upairs.take(i as int),
                        out@[t].name@,
                    )
                },
            forall|key: Seq<char>|
                #[trigger] upairs_have(lpairs.take(i as int), key) ==> exists|t: int|
                    0 <= t < out@.len() && out@[t].name@ == key,
        decreases fns@.len() - i,
    {
        let name = crate::types::LlvmFunctionName::from_str(fns[i].function.name.as_str());
        let key_chars = crate::strutil::str_to_chars(name.as_str());
        let lines = fns[i].function.lines.value();
        let copies = fns[i].function.copies.value();
        let unit = CrateName::from_str(fns[i].unit.as_str());
        let ghost key = name@;
        proof {
            assert(lpairs[i as int] == (key, fns@[i as int].function.lines.0));
            assert(cpairs[i as int] == (key, fns@[i as int].function.copies.0));
            assert(upairs[i as int] == (key, fns@[i as int].unit@));
            assert(lpairs.take(i as int + 1).drop_last() =~= lpairs.take(i as int));
            assert(lpairs.take(i as int + 1).last() == lpairs[i as int]);
            assert(cpairs.take(i as int + 1).drop_last() =~= cpairs.take(i as int));
            assert(cpairs.take(i as int + 1).last() == cpairs[i as int]);
            assert(upairs.take(i as int + 1).drop_last() =~= upairs.take(i as int));
            assert(upairs.take(i as int + 1).last() == upairs[i as int]);
            lemma_sum_usize_prefix_le(lpairs, i as int + 1, key);
            lemma_sum_usize_prefix_le(lpairs, i as int, key);
            lemma_sum_usize_prefix_le(cpairs, i as int + 1, key);
            lemma_sum_usize_prefix_le(cpairs, i as int, key);
        }
        let ghost prev_out = out@;
        let mut j: usize = 0;
        let mut merged = false;
        while j < out.len()
            invariant_except_break
                0 <= j <= out@.len(),
                out@ == prev_out,
                !merged,
                key == key_chars@,
                0 <= i < fns@.len(),
                fns@.len() <= usize::MAX,
                lpairs == agg_fn_lines(fns@),
                cpairs == agg_fn_copies(fns@),
                upairs == agg_fn_units(fns@),
                lpairs[i as int] == (key, fns@[i as int].function.lines.0),
                cpairs[i as int] == (key, fns@[i as int].function.copies.0),
                upairs[i as int] == (key, fns@[i as int].unit@),
                lines == fns@[i as int].function.lines.0,
                copies == fns@[i as int].function.copies.0,
                unit@ == fns@[i as int].unit@,
                forall|key2: Seq<char>| #[trigger] sum_usize_for(lpairs, key2) <= usize::MAX,
                forall|key2: Seq<char>| #[trigger] sum_usize_for(cpairs, key2) <= usize::MAX,
                forall|x: int, y: int|
                    0 <= x < y < out@.len() ==> (#[trigger] out@[x]).name@ != (
                    #[trigger] out@[y]).name@,
                forall|t: int|
                    0 <= t < out@.len() ==> {
                        &&& upairs_have(lpairs.take(i as int), (#[trigger] out@[t]).name@)
                        &&& out@[t].total_llvm_lines.0 == sum_usize_for(
                            lpairs.take(i as int),
                            out@[t].name@,
                        )
                        &&& out@[t].copies.0 == sum_usize_for(
                            cpairs.take(i as int),
                            out@[t].name@,
                        )
                        &&& names_view(out@[t].crates@) == crate::index::units_for(
                            upairs.take(i as int),
                            out@[t].name@,
                        )
                    },
                forall|t: int| 0 <= t < j ==> (#[trigger] out@[t]).name@ != key,
            ensures
                forall|x: int, y: int|
                    0 <= x < y < out@.len() ==> (#[trigger] out@[x]).name@ != (
                    #[trigger] out@[y]).name@,
                merged ==> forall|t: int|
                    0 <= t < out@.len() ==> {
                        &&& upairs_have(lpairs.take(i as int + 1), (#[trigger] out@[t]).name@)
                        &&& out@[t].total_llvm_lines.0 == sum_usize_for(
                            lpairs.take(i as int + 1),
                            out@[t].name@,
                        )
                        &&& out@[t].copies.0 == sum_usize_for(
                            cpairs.take(i as int + 1),
                            out@[t].name@,
                        )
                        &&& names_view(out@[t].crates@) == crate::index::units_for(
                            upairs.take(i as int + 1),
                            out@[t].name@,
                        )
                    },
                merged ==> exists|t: int|
                    0 <= t < out@.len() && (#[trigger] out@[t]).name@ == key,
                merged ==> out@.len() == prev_out.len(),
                merged ==> forall|t: int|
                    0 <= t < out@.len() ==> (#[trigger] out@[t]).name@ == prev_out[t].name@,
                !merged ==> out@ == prev_out && (forall|t: int|
                    0 <= t < out@.len() ==> (#[trigger] out@[t]).name@ != key),
            decreases out@.len() - j,
        {
            let cand = crate::strutil::str_to_chars(out[j].name.as_str());
            if crate::strutil::chars_eq(&cand, &key_chars) {
                proof {
                    assert(out@[j as int].name@ == key);
                    assert(lpairs.take(i as int + 1).drop_last() =~= lpairs.take(i as int));
                    assert(lpairs.take(i as int + 1).last() == lpairs[i as int]);
                    assert(cpairs.take(i as int + 1).drop_last() =~= cpairs.take(i as int));
                    assert(cpairs.take(i as int + 1).last() == cpairs[i as int]);
                    assert(upairs.take(i as int + 1).drop_last() =~= upairs.take(i as int));
                    assert(upairs.take(i as int + 1).last() == upairs[i as int]);
                    lemma_sum_usize_prefix_le(lpairs, i as int + 1, key);
                    lemma_sum_usize_prefix_le(cpairs, i as int + 1, key);
                }
                let new_lines = out[j].total_llvm_lines.value() + lines;
                let new_copies = out[j].copies.value() + copies;
                out[j].total_llvm_lines = crate::types::LlvmIrLines::new(new_lines);
                out[j].copies = crate::types::NumberOfCopies::new(new_copies);
                let ghost mid_out = out@;
                let mut in_crates = false;
                let mut c: usize = 0;
                let n_crates = out[j].crates.len();
                while c < n_crates && !in_crates
                    invariant
                        0 <= c <= n_crates,
                        j < out@.len(),
                        out@ == mid_out,
                        key == key_chars@,
                        unit@ == fns@[i as int].unit@,
                        n_crates == out@[j as int].crates@.len(),
                        in_crates ==> exists|t: int|
                            0 <= t < n_crates && (#[trigger] out@[j as int].crates@[t])@
                                == unit@,
                        !in_crates ==> forall|t: int|
                            0 <= t < c ==> (#[trigger] out@[j as int].crates@[t])@ != unit@,
                    decreases n_crates - c + (if in_crates {
                        0int
                    } else {
                        1int
                    }),
                {
                    let cc = crate::strutil::str_to_chars(out[j].crates[c].as_str());
                    let uc = crate::strutil::str_to_chars(unit.as_str());
                    if crate::strutil::chars_eq(&cc, &uc) {
                        in_crates = true;
                    } else {
                        c = c + 1;
                    }
                }
                let ghost old_crates = out@[j as int].crates@;
                if !in_crates {
                    let unit_copy = CrateName::from_str(unit.as_str());
                    out[j].crates.push(unit_copy);
                }
                proof {
                    let updated = out@[j as int];
                    if in_crates {
                        assert(names_view(updated.crates@).contains(unit@)) by {
                            let t = choose|t: int|
                                0 <= t < old_crates.len() && (#[trigger] old_crates[t])@
                                    == unit@;
                            assert(names_view(updated.crates@)[t] == unit@);
                        }
                        assert(names_view(updated.crates@) =~= crate::index::units_for(
                            upairs.take(i as int + 1),
                            key,
                        ));
                    } else {
                        assert(!names_view(old_crates).contains(unit@)) by {
                            if names_view(old_crates).contains(unit@) {
                                let t = choose|t: int|
                                    0 <= t < names_view(old_crates).len() && names_view(
                                        old_crates,
                                    )[t] == unit@;
                                assert(old_crates[t]@ == unit@);
                            }
                        }
                        assert(names_view(updated.crates@) =~= names_view(old_crates).push(
                            unit@,
                        ));
                        assert(names_view(updated.crates@) =~= crate::index::units_for(
                            upairs.take(i as int + 1),
                            key,
                        ));
                    }
                    assert forall|t: int|
                        0 <= t < out@.len() implies {
                        &&& upairs_have(lpairs.take(i as int + 1), (#[trigger] out@[t]).name@)
                        &&& out@[t].total_llvm_lines.0 == sum_usize_for(
                            lpairs.take(i as int + 1),
                            out@[t].name@,
                        )
                        &&& out@[t].copies.0 == sum_usize_for(
                            cpairs.take(i as int + 1),
                            out@[t].name@,
                        )
                        &&& names_view(out@[t].crates@) == crate::index::units_for(
                            upairs.take(i as int + 1),
                            out@[t].name@,
                        )
                    } by {
                        if t != j {
                            assert(out@[t] == prev_out[t]);
                            assert(out@[t].name@ != key);
                            if upairs_have(lpairs.take(i as int), out@[t].name@) {
                                let w = choose|w: int|
                                    0 <= w < lpairs.take(i as int).len() && (
                                    #[trigger] lpairs.take(i as int)[w]).0 == out@[t].name@;
                                assert(lpairs.take(i as int + 1)[w].0 == out@[t].name@);
                            }
                        } else {
                            assert(out@[t].name@ == key);
                            assert(lpairs.take(i as int + 1)[i as int].0 == key);
                        }
                    }
                    assert(out@[j as int].name@ == key);
                }
                merged = true;
                break ;
            }
            j = j + 1;
        }
        if !merged {
            proof {
                assert(!upairs_have(lpairs.take(i as int), key)) by {
                    if upairs_have(lpairs.take(i as int), key) {
                        let w = choose|w: int|
                            0 <= w < lpairs.take(i as int).len() && (#[trigger] lpairs.take(
                                i as int,
                            )[w]).0 == key;
                        assert(false);
                    }
                }
                assert(!upairs_have(cpairs.take(i as int), key)) by {
                    if upairs_have(cpairs.take(i as int), key) {
                        let w = choose|w: int|
                            0 <= w < cpairs.take(i as int).len() && (#[trigger] cpairs.take(
                                i as int,
                            )[w]).0 == key;
                        assert(lpairs.take(i as int)[w].0 == cpairs[w].0);
                        assert(false);
                    }
                }
                lemma_sum_usize_absent(lpairs.take(i as int), key);
                lemma_sum_usize_absent(cpairs.take(i as int), key);
                assert forall|t: int|
                    0 <= t < upairs.take(i as int).len() implies (#[trigger] upairs.take(
                    i as int,
                )[t]).0 != key by {
                    assert(upairs.take(i as int)[t].0 == lpairs[t].0);
                    assert(lpairs.take(i as int)[t].0 == lpairs[t].0);
                }
                lemma_units_absent(upairs.take(i as int), key);
            }
            let mut crates: Vec<CrateName> = Vec::new();
            crates.push(unit);
            out.push(
                AggregateLlvmFunction {
                    name,
                    total_llvm_lines: crate::types::LlvmIrLines::new(lines),
                    copies: crate::types::NumberOfCopies::new(copies),
                    crates,
                },
            );
            proof {
                let nv = out@;
                let new_entry = nv[nv.len() - 1];
                assert(new_entry.name@ == key);
                assert(names_view(new_entry.crates@) =~= seq![unit@]);
                assert(lpairs.take(i as int + 1).drop_last() =~= lpairs.take(i as int));
                assert(lpairs.take(i as int + 1).last() == lpairs[i as int]);
                assert(cpairs.take(i as int + 1).drop_last() =~= cpairs.take(i as int));
                assert(cpairs.take(i as int + 1).last() == cpairs[i as int]);
                assert(upairs.take(i as int + 1).drop_last() =~= upairs.take(i as int));
                assert(upairs.take(i as int + 1).last() == upairs[i as int]);
                assert(crate::index::units_for(upairs.take(i as int + 1), key) =~= seq![unit@]);
                assert forall|t: int|
                    0 <= t < nv.len() implies {
                    &&& upairs_have(lpairs.take(i as int + 1), (#[trigger] nv[t]).name@)
                    &&& nv[t].total_llvm_lines.0 == sum_usize_for(
                        lpairs.take(i as int + 1),
                        nv[t].name@,
                    )
                    &&& nv[t].copies.0 == sum_usize_for(cpairs.take(i as int + 1), nv[t].name@)
                    &&& names_view(nv[t].crates@) == crate::index::units_for(
                        upairs.take(i as int + 1),
                        nv[t].name@,
                    )
                } by {
                    if t < nv.len() - 1 {
                        assert(nv[t] == prev_out[t]);
                        assert(nv[t].name@ != key);
                        if upairs_have(lpairs.take(i as int), nv[t].name@) {
                            let w = choose|w: int|
                                0 <= w < lpairs.take(i as int).len() && (#[trigger] lpairs.take(
                                    i as int,
                                )[w]).0 == nv[t].name@;
                            assert(lpairs.take(i as int + 1)[w].0 == nv[t].name@);
                        }
                    } else {
                        assert(lpairs.take(i as int + 1)[i as int].0 == key);
                    }
                }
                assert forall|x: int, y: int|
                    0 <= x < y < nv.len() implies (#[trigger] nv[x]).name@ != (
                #[trigger] nv[y]).name@ by {
                    if y < nv.len() - 1 {
                        assert(nv[x] == prev_out[x] && nv[y] == prev_out[y]);
                    } else {
                        assert(nv[x] == prev_out[x]);
                    }
                }
            }
        }
        proof {
            assert forall|key2: Seq<char>|
                #[trigger] upairs_have(lpairs.take(i as int + 1), key2) implies exists|t: int|
                0 <= t < out@.len() && out@[t].name@ == key2 by {
                let w = choose|w: int|
                    0 <= w < lpairs.take(i as int + 1).len() && (#[trigger] lpairs.take(
                        i as int + 1,
                    )[w]).0 == key2;
                if w < i {
                    assert(lpairs.take(i as int)[w].0 == key2);
                    assert(upairs_have(lpairs.take(i as int), key2));
                    let t = choose|t: int|
                        0 <= t < prev_out.len() && (#[trigger] prev_out[t]).name@ == key2;
                    assert(out@[t].name@ == key2);
                } else {
                    assert(key2 == key);
                    assert(exists|t: int|
                        0 <= t < out@.len() && (#[trigger] out@[t]).name@ == key);
                }
            }
        }
        i = i + 1;
    }
    proof {
        assert(lpairs.take(lpairs.len() as int) =~= lpairs);
        assert(cpairs.take(cpairs.len() as int) =~= cpairs);
        assert(upairs.take(upairs.len() as int) =~= upairs);
        assert forall|k: int|
            0 <= k < fns@.len() implies exists|t: int|
            0 <= t < out@.len() && (#[trigger] out@[t]).name@ == (
            #[trigger] fns@[k]).function.name@ by {
            assert(lpairs[k].0 == fns@[k].function.name@);
            assert(upairs_have(lpairs.take(i as int), lpairs[k].0)) by {
                assert(lpairs.take(i as int)[k] == lpairs[k]);
            }
        }
    }
    out
}

} // verus!
