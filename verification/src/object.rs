//! The binary symbol extractor: format detection, record conversion,
//! address-level deduplication, and the debug-database fallback logic.
//!
//! Format detection is the library's own code.  The object-format parsers
//! themselves run beside the file I/O, not here: every one of them
//! demangles each symbol name as it parses, the demangler's hash-trimming
//! step can abort on crafted names, and the portable-executable reader is
//! additionally written for trusted data only — so none of those calls
//! can carry a contract this library could promise.  The caller parses
//! and hands the raw records to [`collect_object_data`], which converts
//! and deduplicates them under exact contracts.

use vstd::prelude::*;

use crate::types::{CrateName, DemangledSymbol, ManglingScheme, MangledSymbol, RawSymbol};

verus! {

/// Byte order of an object file.
#[derive(Clone, Copy, Debug, PartialEq, Eq, Structural)]
pub enum Endianness {
    Little,
    Big,
}

/// The object format the leading bytes announce.
#[derive(Clone, Copy, Debug, PartialEq, Eq, Structural)]
pub enum BinFormat {
    Elf32(Endianness),
    Elf64(Endianness),
    Macho,
    Pe,
    Unknown,
}

/// The format the first bytes of an object file announce: an ELF class
/// and byte order, a portable executable, a Mach-O magic, or nothing
/// recognizable.
pub open spec fn spec_detect_format(data: Seq<u8>) -> BinFormat {
    if data.len() < 8 {
        BinFormat::Unknown
    } else if data[0] == 0x7F && data[1] == 0x45 && data[2] == 0x4C && data[3] == 0x46 {
        if data[5] != 1 && data[5] != 2 {
            BinFormat::Unknown
        } else {
            let order = if data[5] == 1 {
                Endianness::Little
            } else {
                Endianness::Big
            };
            if data[4] == 1 {
                BinFormat::Elf32(order)
            } else if data[4] == 2 {
                BinFormat::Elf64(order)
            } else {
                BinFormat::Unknown
            }
        }
    } else if data[0] == 0x4D && data[1] == 0x5A {
        BinFormat::Pe
    } else if spec_is_macho_magic(data[0], data[1], data[2], data[3]) {
        BinFormat::Macho
    } else {
        BinFormat::Unknown
    }
}

/// The four-byte magics of the Mach-O family.
pub open spec fn spec_is_macho_magic(b0: u8, b1: u8, b2: u8, b3: u8) -> bool {
    ||| (b0 == 0xCA && b1 == 0xFE && b2 == 0xBA && b3 == 0xBE)
    ||| (b0 == 0xFE && b1 == 0xED && b2 == 0xFA && b3 == 0xCE)
    ||| (b0 == 0xFE && b1 == 0xED && b2 == 0xFA && b3 == 0xCF)
    ||| (b0 == 0xCE && b1 == 0xFA && b2 == 0xED && b3 == 0xFE)
    ||| (b0 == 0xCF && b1 == 0xFA && b2 == 0xED && b3 == 0xFE)
}

/// Classifies an object file by its leading bytes.
pub fn detect_format(data: &[u8]) -> (r: BinFormat)
    ensures
        r == spec_detect_format(data@),
{
    if data.len() < 8 {
        return BinFormat::Unknown;
    }
    if data[0] == 0x7F && data[1] == 0x45 && data[2] == 0x4C && data[3] == 0x46 {
        let order = if data[5] == 1 {
            Endianness::Little
        } else if data[5] == 2 {
            Endianness::Big
        } else {
            return BinFormat::Unknown;
        };
        if data[4] == 1 {
            BinFormat::Elf32(order)
        } else if data[4] == 2 {
            BinFormat::Elf64(order)
        } else {
            BinFormat::Unknown
        }
    } else if data[0] == 0x4D && data[1] == 0x5A {
        BinFormat::Pe
    } else if (data[0] == 0xCA && data[1] == 0xFE && data[2] == 0xBA && data[3] == 0xBE) || (data[0]
        == 0xFE && data[1] == 0xED && data[2] == 0xFA && data[3] == 0xCE) || (data[0] == 0xFE
        && data[1] == 0xED && data[2] == 0xFA && data[3] == 0xCF) || (data[0] == 0xCE && data[1]
        == 0xFA && data[2] == 0xED && data[3] == 0xFE) || (data[0] == 0xCF && data[1] == 0xFA
        && data[2] == 0xED && data[3] == 0xFE) {
        BinFormat::Macho
    } else {
        BinFormat::Unknown
    }
}

/// Every field of a symbol as plain values: the complete name, demangled
/// and trimmed texts, the embedded crate, the scheme code, the address
/// and the size.
pub open spec fn raw_symbol_view(s: RawSymbol) -> (
    Seq<char>,
    Seq<char>,
    Seq<char>,
    Option<Seq<char>>,
    int,
    u64,
    u64,
) {
    (
        s.mangled@,
        s.demangled@,
        s.trimmed@,
        match s.embedded_unit {
            Some(u) => Some(u@),
            None => None,
        },
        s.scheme.code(),
        s.address,
        s.size,
    )
}

/// The views of a symbol list.
pub open spec fn raw_symbols_view(v: Seq<RawSymbol>) -> Seq<
    (Seq<char>, Seq<char>, Seq<char>, Option<Seq<char>>, int, u64, u64),
> {
    v.map_values(|s: RawSymbol| raw_symbol_view(s))
}

#[verifier::external_type_specification]
pub struct ExKind(binfarce::demangle::Kind);

#[verifier::external_type_specification]
pub struct ExSymbolName(binfarce::demangle::SymbolName);

#[verifier::external_type_specification]
pub struct ExSymbolData(binfarce::demangle::SymbolData);

/// The scheme code of one of the demangler's kinds, numbered as
/// [`ManglingScheme::code`] numbers the library's own schemes.
pub open spec fn kind_code(k: binfarce::demangle::Kind) -> int {
    match k {
        binfarce::demangle::Kind::Legacy => 0,
        binfarce::demangle::Kind::V0 => 1,
        binfarce::demangle::Kind::Unknown => 2,
    }
}

/// One parsed symbol record as plain values: the complete and trimmed
/// names, the embedded crate, the scheme code, the address and the size.
pub open spec fn sym_data_view(s: binfarce::demangle::SymbolData) -> (
    Seq<char>,
    Seq<char>,
    Option<Seq<char>>,
    int,
    u64,
    u64,
) {
    (
        s.name.complete@,
        s.name.trimmed@,
        match s.name.crate_name {
            Some(c) => Some(c@),
            None => None,
        },
        kind_code(s.name.kind),
        s.address,
        s.size,
    )
}

/// The views of a parsed record list.
pub open spec fn sym_datas_view(v: Seq<binfarce::demangle::SymbolData>) -> Seq<
    (Seq<char>, Seq<char>, Option<Seq<char>>, int, u64, u64),
> {
    v.map_values(|s: binfarce::demangle::SymbolData| sym_data_view(s))
}

/// The symbol views a record list converts to.
pub open spec fn expanded_views(records: Seq<binfarce::demangle::SymbolData>) -> Seq<
    (Seq<char>, Seq<char>, Seq<char>, Option<Seq<char>>, int, u64, u64),
> {
    sym_datas_view(records).map_values(
        |v: (Seq<char>, Seq<char>, Option<Seq<char>>, int, u64, u64)| expand_sym_view(v),
    )
}

/// A parsed record expanded to a symbol view: the complete name serves as
/// both the lookup name and the demangled text.
pub open spec fn expand_sym_view(v: (Seq<char>, Seq<char>, Option<Seq<char>>, int, u64, u64)) -> (
    Seq<char>,
    Seq<char>,
    Seq<char>,
    Option<Seq<char>>,
    int,
    u64,
    u64,
) {
    (v.0, v.0, v.1, v.2, v.3, v.4, v.5)
}

/// Turns parsed symbol records into the library's own symbols, field for
/// field; the complete name serves as both the lookup name and the
/// demangled text, as the demangler leaves it.
pub fn raw_symbols_from(records: Vec<binfarce::demangle::SymbolData>) -> (r: Vec<RawSymbol>)
    ensures
        raw_symbols_view(r@) == expanded_views(records@),
{
    let ghost orig = records@;
    let total = records.len();
    let mut rest = records;
    let mut out: Vec<RawSymbol> = Vec::new();
    let mut i: usize = 0;
    while rest.len() > 0
        invariant
            0 <= i <= orig.len(),
            total == orig.len(),
            i + rest@.len() == orig.len(),
            rest@ == orig.skip(i as int),
            out@.len() == i,
            forall|t: int|
                0 <= t < out@.len() ==> raw_symbol_view(#[trigger] out@[t]) == expand_sym_view(
                    sym_data_view(orig[t]),
                ),
        decreases rest@.len(),
    {
        let record = rest.remove(0);
        proof {
            assert(orig.skip(i as int)[0] == orig[i as int]);
            assert(orig.skip(i as int).remove(0) =~= orig.skip(i as int + 1));
            assert(record == orig[i as int]);
            assert(i < orig.len());
        }
        let name = record.name;
        let scheme = match name.kind {
            binfarce::demangle::Kind::Legacy => ManglingScheme::Legacy,
            binfarce::demangle::Kind::V0 => ManglingScheme::Versioned,
            binfarce::demangle::Kind::Unknown => ManglingScheme::Unknown,
        };
        let embedded_unit = match name.crate_name {
            Some(c) => Some(CrateName::new(c)),
            None => None,
        };
        let complete = name.complete;
        out.push(
            RawSymbol {
                mangled: MangledSymbol::new(complete.clone()),
                demangled: DemangledSymbol::new(complete),
                trimmed: DemangledSymbol::new(name.trimmed),
                address: record.address,
                size: record.size,
                scheme,
                embedded_unit,
            },
        );
        i = i + 1;
    }
    proof {
        assert(raw_symbols_view(out@) =~= expanded_views(orig));
    }
    out
}

/// Addresses strictly increase along the list.
pub open spec fn addr_sorted(s: Seq<RawSymbol>) -> bool {
    forall|i: int, j: int|
        0 <= i < j < s.len() ==> (#[trigger] s[i]).address < (#[trigger] s[j]).address
}

/// Some symbol in the list sits at the address.
pub open spec fn has_addr(s: Seq<RawSymbol>, a: u64) -> bool {
    exists|i: int| 0 <= i < s.len() && (#[trigger] s[i]).address == a
}

/// `x` is the first symbol of `v` at its address.
pub open spec fn first_at_addr(v: Seq<RawSymbol>, x: RawSymbol) -> bool {
    exists|j: int|
        0 <= j < v.len() && #[trigger] v[j] == x && forall|k: int|
            0 <= k < j ==> (#[trigger] v[k]).address != x.address
}

/// What deduplication leaves: symbols sorted by strictly increasing
/// address, one per input address, each the first input symbol at its
/// address.
pub open spec fn dedup_post(v: Seq<RawSymbol>, r: Seq<RawSymbol>) -> bool {
    &&& addr_sorted(r)
    &&& forall|a: u64| #[trigger] has_addr(r, a) <==> has_addr(v, a)
    &&& forall|t: int| 0 <= t < r.len() ==> first_at_addr(v, #[trigger] r[t])
}

/// Sorts symbols by address and keeps exactly one symbol per address,
/// the first one seen.
pub fn dedup_symbols(v: Vec<RawSymbol>) -> (r: Vec<RawSymbol>)
    ensures
        dedup_post(v@, r@),
{
    let ghost orig = v@;
    let total = v.len();
    let mut rest = v;
    let mut out: Vec<RawSymbol> = Vec::new();
    let mut i: usize = 0;
    while rest.len() > 0
        invariant
            0 <= i <= orig.len(),
            total == orig.len(),
            i + rest@.len() == orig.len(),
            rest@ == orig.skip(i as int),
            addr_sorted(out@),
            forall|a: u64| #[trigger] has_addr(out@, a) <==> has_addr(orig.take(i as int), a),
            forall|t: int| 0 <= t < out@.len() ==> first_at_addr(orig.take(i as int), #[trigger] out@[t]),
        decreases rest@.len(),
    {
        let sym = rest.remove(0);
        proof {
            assert(orig.skip(i as int)[0] == orig[i as int]);
            assert(orig.skip(i as int).remove(0) =~= orig.skip(i as int + 1));
            assert(sym == orig[i as int]);
        }
        let addr = sym.address;
        let mut k: usize = 0;
        let mut found = false;
        while k < out.len() && !found && out[k].address < addr
            invariant
                0 <= k <= out@.len(),
                addr_sorted(out@),
                !found,
                forall|t: int| 0 <= t < k ==> (#[trigger] out@[t]).address < addr,
            decreases out@.len() - k,
        {
            k = k + 1;
        }
        if k < out.len() && out[k].address == addr {
            found = true;
        }
        let ghost prev = out@;
        if !found {
            proof {
                assert(!has_addr(prev, addr)) by {
                    if has_addr(prev, addr) {
                        let t = choose|t: int|
                            0 <= t < prev.len() && (#[trigger] prev[t]).address == addr;
                        if t < k {
                        } else {
                            assert(prev[t].address >= prev[k as int].address || t == k);
                        }
                    }
                }
            }
            out.insert(k, sym);
            proof {
                assert forall|x: int, y: int|
                    0 <= x < y < out@.len() implies (#[trigger] out@[x]).address < (
                #[trigger] out@[y]).address by {
                    if y == k {
                        assert(out@[x] == prev[x]);
                    } else if x == k {
                        assert(out@[y] == prev[y - 1]);
                        assert(k < prev.len() ==> prev[k as int].address > addr);
                    } else if y < k {
                        assert(out@[x] == prev[x] && out@[y] == prev[y]);
                    } else if x > k {
                        assert(out@[x] == prev[x - 1] && out@[y] == prev[y - 1]);
                    } else {
                        assert(out@[x] == prev[x] && out@[y] == prev[y - 1]);
                        assert(k < prev.len() ==> prev[k as int].address > addr);
                    }
                }
                assert forall|a: u64| #[trigger] has_addr(out@, a) <==> has_addr(
                    orig.take(i as int + 1),
                    a,
                ) by {
                    assert(orig.take(i as int + 1)[i as int] == orig[i as int]);
                    assert forall|t: int| 0 <= t < orig.take(i as int).len() implies orig.take(
                        i as int,
                    )[t] == orig.take(i as int + 1)[t] by {}
                    if has_addr(out@, a) {
                        let t = choose|t: int|
                            0 <= t < out@.len() && (#[trigger] out@[t]).address == a;
                        if t < k {
                            assert(prev[t].address == a);
                            let u = choose|u: int|
                                0 <= u < orig.take(i as int).len() && (#[trigger] orig.take(
                                    i as int,
                                )[u]).address == a;
                            assert(orig.take(i as int + 1)[u].address == a);
                        } else if t == k {
                            assert(orig.take(i as int + 1)[i as int].address == a);
                        } else {
                            assert(prev[t - 1].address == a);
                            let u = choose|u: int|
                                0 <= u < orig.take(i as int).len() && (#[trigger] orig.take(
                                    i as int,
                                )[u]).address == a;
                            assert(orig.take(i as int + 1)[u].address == a);
                        }
                    }
                    if has_addr(orig.take(i as int + 1), a) {
                        let u = choose|u: int|
                            0 <= u < orig.take(i as int + 1).len() && (#[trigger] orig.take(
                                i as int + 1,
                            )[u]).address == a;
                        if u < i {
                            assert(orig.take(i as int)[u].address == a);
                            assert(has_addr(prev, a));
                            let t = choose|t: int|
                                0 <= t < prev.len() && (#[trigger] prev[t]).address == a;
                            if t < k {
                                assert(out@[t].address == a);
                            } else {
                                assert(out@[t + 1].address == a);
                            }
                        } else {
                            assert(out@[k as int].address == a);
                        }
                    }
                }
                assert forall|t: int|
                    0 <= t < out@.len() implies first_at_addr(
                    orig.take(i as int + 1),
                    #[trigger] out@[t],
                ) by {
                    assert(orig.take(i as int + 1)[i as int] == orig[i as int]);
                    if t == k {
                        assert forall|m: int| 0 <= m < i implies (#[trigger] orig.take(
                            i as int + 1,
                        )[m]).address != addr by {
                            assert(orig.take(i as int)[m] == orig.take(i as int + 1)[m]);
                            if orig.take(i as int)[m].address == addr {
                                assert(has_addr(orig.take(i as int), addr));
                            }
                        }
                    } else {
                        let ghost prev_t: int = if t < k {
                            t
                        } else {
                            t - 1
                        };
                        assert(out@[t] == prev[prev_t]);
                        let j = choose|j: int|
                            0 <= j < orig.take(i as int).len() && #[trigger] orig.take(i as int)[j]
                                == prev[prev_t] && forall|m: int|
                                0 <= m < j ==> (#[trigger] orig.take(i as int)[m]).address != prev[
                                prev_t].address;
                        assert(orig.take(i as int + 1)[j] == prev[prev_t]);
                        assert forall|m: int| 0 <= m < j implies (#[trigger] orig.take(
                            i as int + 1,
                        )[m]).address != out@[t].address by {
                            assert(orig.take(i as int)[m] == orig.take(i as int + 1)[m]);
                        }
                    }
                }
            }
        } else {
            proof {
                assert(has_addr(prev, addr)) by {
                    assert(prev[k as int].address == addr);
                }
                assert forall|a: u64| #[trigger] has_addr(out@, a) <==> has_addr(
                    orig.take(i as int + 1),
                    a,
                ) by {
                    assert(orig.take(i as int + 1)[i as int] == orig[i as int]);
                    assert forall|t: int| 0 <= t < orig.take(i as int).len() implies orig.take(
                        i as int,
                    )[t] == orig.take(i as int + 1)[t] by {}
                    if has_addr(orig.take(i as int + 1), a) {
                        let u = choose|u: int|
                            0 <= u < orig.take(i as int + 1).len() && (#[trigger] orig.take(
                                i as int + 1,
                            )[u]).address == a;
                        if u < i {
                            assert(orig.take(i as int)[u].address == a);
                        } else {
                            assert(a == addr);
                        }
                    }
                    if has_addr(out@, a) {
                        let u = choose|u: int|
                            0 <= u < out@.len() && (#[trigger] out@[u]).address == a;
                        let w = choose|w: int|
                            0 <= w < orig.take(i as int).len() && (#[trigger] orig.take(i as int)[
                            w]).address == a;
                        assert(orig.take(i as int + 1)[w].address == a);
                    }
                }
                assert forall|t: int|
                    0 <= t < out@.len() implies first_at_addr(
                    orig.take(i as int + 1),
                    #[trigger] out@[t],
                ) by {
                    let j = choose|j: int|
                        0 <= j < orig.take(i as int).len() && #[trigger] orig.take(i as int)[j]
                            == out@[t] && forall|m: int|
                            0 <= m < j ==> (#[trigger] orig.take(i as int)[m]).address != out@[
                        t].address;
                    assert(orig.take(i as int + 1)[j] == out@[t]);
                    assert forall|m: int| 0 <= m < j implies (#[trigger] orig.take(i as int + 1)[
                    m]).address != out@[t].address by {
                        assert(orig.take(i as int)[m] == orig.take(i as int + 1)[m]);
                    }
                }
            }
        }
        proof {
            assert(i < orig.len());
        }
        i = i + 1;
    }
    proof {
        assert(orig =~= v@);
        assert(orig.take(orig.len() as int) =~= orig);
    }
    out
}

/// The set of distinct addresses in a symbol list.
pub open spec fn addr_set(v: Seq<RawSymbol>) -> Set<u64> {
    Set::new(|a: u64| has_addr(v, a))
}

proof fn lemma_sorted_addr_count(r: Seq<RawSymbol>)
    requires
        addr_sorted(r),
    ensures
        addr_set(r).finite(),
        addr_set(r).len() == r.len(),
    decreases r.len(),
{
    if r.len() == 0 {
        assert(addr_set(r) =~= Set::<u64>::empty());
    } else {
        let head = r.drop_last();
        lemma_sorted_addr_count(head);
        let a = r.last().address;
        assert(!addr_set(head).contains(a)) by {
            if has_addr(head, a) {
                let t = choose|t: int|
                    0 <= t < head.len() && (#[trigger] head[t]).address == a;
                assert(r[t].address < r[r.len() - 1].address);
            }
        }
        assert(addr_set(r) =~= addr_set(head).insert(a)) by {
            assert forall|x: u64| addr_set(r).contains(x) implies addr_set(head).insert(
                a,
            ).contains(x) by {
                let t = choose|t: int| 0 <= t < r.len() && (#[trigger] r[t]).address == x;
                if t < r.len() - 1 {
                    assert(head[t].address == x);
                }
            }
            assert forall|x: u64| addr_set(head).insert(a).contains(x) implies addr_set(
                r,
            ).contains(x) by {
                if x == a {
                    assert(r[r.len() - 1].address == x);
                } else {
                    let t = choose|t: int|
                        0 <= t < head.len() && (#[trigger] head[t]).address == x;
                    assert(r[t].address == x);
                }
            }
        }
    }
}

/// Dedup bound: the extractor returns exactly one symbol per distinct
/// input address, and no two returned symbols share an address.
pub proof fn lemma_dedup_bound(v: Seq<RawSymbol>, r: Seq<RawSymbol>)
    requires
        dedup_post(v, r),
    ensures
        r.len() == addr_set(v).len(),
        forall|i: int, j: int|
            0 <= i < j < r.len() ==> (#[trigger] r[i]).address != (#[trigger] r[j]).address,
{
    lemma_sorted_addr_count(r);
    assert(addr_set(r) =~= addr_set(v));
}

/// The symbols of one binary's code section, deduplicated, plus the
/// section's size.
pub struct RawObjectAnalysis {
    pub symbols: Vec<RawSymbol>,
    pub text_size: u64,
}

/// Assembles one binary's analysis from the symbol records its parser
/// yielded: every record converted field for field, then deduplicated by
/// address, first occurrence winning.
pub fn collect_object_data(
    records: Vec<binfarce::demangle::SymbolData>,
    text_size: u64,
) -> (r: RawObjectAnalysis)
    ensures
        r.text_size == text_size,
        exists|raw: Seq<RawSymbol>|
            #[trigger] dedup_post(raw, r.symbols@) && raw_symbols_view(raw) == expanded_views(
                records@,
            ),
{
    let raw = raw_symbols_from(records);
    let ghost raw_view = raw@;
    let symbols = dedup_symbols(raw);
    let result = RawObjectAnalysis { symbols, text_size };
    proof {
        assert(dedup_post(raw_view, result.symbols@) && raw_symbols_view(raw_view)
            == expanded_views(records@));
    }
    result
}

/// One public (global) symbol record of a debug database: where it sits
/// and the mangled name it carries.
pub struct PdbPublicRecord {
    pub section: u16,
    pub offset: u32,
    pub name: String,
}

/// One procedure record of a debug database: its resolved virtual
/// address, when the database could resolve one, its section-relative
/// place and length, and its unmangled name.
pub struct PdbProcRecord {
    pub rva: Option<u32>,
    pub section: u16,
    pub offset: u32,
    pub len: u32,
    pub name: String,
}

/// A public record lies within a procedure's range: same section, offset
/// at or past the procedure's start and strictly before its end.
pub open spec fn covers(p: PdbPublicRecord, proc: PdbProcRecord) -> bool {
    p.section == proc.section && proc.offset <= p.offset < proc.offset + proc.len
}

/// Some public record lies within the procedure's range.
pub open spec fn some_public_covers(publics: Seq<PdbPublicRecord>, proc: PdbProcRecord) -> bool {
    exists|k: int| 0 <= k < publics.len() && covers(#[trigger] publics[k], proc)
}

/// What one reconstructed symbol says about its procedure record: its
/// address and size are the procedure's; its names come from a covering
/// public record's mangled name through the demangler when one exists,
/// and otherwise from the procedure's own name, taken as both the
/// complete and trimmed name under the legacy scheme.
pub open spec fn describes_pdb_symbol(
    publics: Seq<PdbPublicRecord>,
    proc: PdbProcRecord,
    s: RawSymbol,
) -> bool {
    &&& proc.rva matches Some(rva) && s.address == rva as u64
    &&& s.size == proc.len as u64
    &&& if some_public_covers(publics, proc) {
        exists|k: int|
            0 <= k < publics.len() && covers(#[trigger] publics[k], proc) && {
                let parts = crate::demangle::demangle_total(
                    vstd::utf8::encode_utf8(publics[k].name@),
                );
                &&& s.mangled@ == parts.0
                &&& s.demangled@ == parts.0
                &&& s.trimmed@ == parts.1
                &&& s.scheme.code() == parts.3
                &&& (match s.embedded_unit {
                    Some(u) => parts.2 == Some(u@),
                    None => parts.2 is None,
                })
            }
    } else {
        &&& s.mangled@ == proc.name@
        &&& s.demangled@ == proc.name@
        &&& s.trimmed@ == proc.name@
        &&& s.scheme == ManglingScheme::Legacy
        &&& s.embedded_unit is None
    }
}

/// The procedure records that carry a resolved address, in order.
pub open spec fn spec_kept_procs(procs: Seq<PdbProcRecord>) -> Seq<PdbProcRecord> {
    procs.filter(|p: PdbProcRecord| p.rva is Some)
}

proof fn lemma_kept_procs_step(s: Seq<PdbProcRecord>, i: int)
    requires
        0 <= i < s.len(),
    ensures
        spec_kept_procs(s.take(i + 1)) == if s[i].rva is Some {
            spec_kept_procs(s.take(i)).push(s[i])
        } else {
            spec_kept_procs(s.take(i))
        },
{
    reveal(Seq::filter);
    assert(s.take(i + 1).drop_last() =~= s.take(i));
    assert(s.take(i + 1).last() == s[i]);
}

/// Scans the publics for a record lying within the procedure's range.
fn find_covering_public(publics: &Vec<PdbPublicRecord>, section: u16, offset: u32, len: u32, ghost_proc: Ghost<PdbProcRecord>) -> (r:
    Option<usize>)
    requires
        ghost_proc@.section == section,
        ghost_proc@.offset == offset,
        ghost_proc@.len == len,
    ensures
        match r {
            Some(k) => k < publics@.len() && covers(publics@[k as int], ghost_proc@),
            None => !some_public_covers(publics@, ghost_proc@),
        },
{
    let mut k: usize = 0;
    while k < publics.len()
        invariant
            0 <= k <= publics@.len(),
            ghost_proc@.section == section,
            ghost_proc@.offset == offset,
            ghost_proc@.len == len,
            forall|t: int| 0 <= t < k ==> !covers(#[trigger] publics@[t], ghost_proc@),
        decreases publics@.len() - k,
    {
        let p = &publics[k];
        if p.section == section && offset <= p.offset && (p.offset as u64) < (offset as u64) + (
        len as u64) {
            return Some(k);
        }
        k = k + 1;
    }
    None
}

/// Reconstructs the symbols of a native-symbol-free executable from its
/// debug database's records: every procedure with a resolved address
/// yields one symbol, named by a covering public record's mangled name
/// when one exists and by its own unmangled name otherwise.  Records
/// without a resolvable address are dropped.
pub fn match_pdb_records(publics: &Vec<PdbPublicRecord>, procs: Vec<PdbProcRecord>) -> (r: Vec<
    RawSymbol,
>)
    ensures
        r@.len() == spec_kept_procs(procs@).len(),
        forall|t: int|
            0 <= t < r@.len() ==> describes_pdb_symbol(
                publics@,
                spec_kept_procs(procs@)[t],
                #[trigger] r@[t],
            ),
{
    let ghost orig = procs@;
    let total = procs.len();
    let mut rest = procs;
    let mut out: Vec<RawSymbol> = Vec::new();
    let mut i: usize = 0;
    proof {
        reveal(Seq::filter);
        assert(spec_kept_procs(orig.take(0)) =~= Seq::<PdbProcRecord>::empty());
    }
    while rest.len() > 0
        invariant
            0 <= i <= orig.len(),
            total == orig.len(),
            i + rest@.len() == orig.len(),
            rest@ == orig.skip(i as int),
            out@.len() == spec_kept_procs(orig.take(i as int)).len(),
            forall|t: int|
                0 <= t < out@.len() ==> describes_pdb_symbol(
                    publics@,
                    spec_kept_procs(orig.take(i as int))[t],
                    #[trigger] out@[t],
                ),
        decreases rest@.len(),
    {
        let proc = rest.remove(0);
        proof {
            assert(orig.skip(i as int)[0] == orig[i as int]);
            assert(orig.skip(i as int).remove(0) =~= orig.skip(i as int + 1));
            assert(proc == orig[i as int]);
            assert(i < orig.len());
            lemma_kept_procs_step(orig, i as int);
        }
        let rva = match proc.rva {
            Some(v) => v,
            None => {
                i = i + 1;
                continue ;
            },
        };
        let found = find_covering_public(
            publics,
            proc.section,
            proc.offset,
            proc.len,
            Ghost(proc),
        );
        let sym = match found {
            Some(k) => {
                let bytes = publics[k].name.as_str().as_bytes_vec();
                let dn = crate::demangle::demangle_name(&bytes);
                let complete = dn.complete;
                RawSymbol {
                    mangled: MangledSymbol::new(complete.as_str().to_owned()),
                    demangled: DemangledSymbol::new(complete.as_str().to_owned()),
                    trimmed: dn.trimmed,
                    address: rva as u64,
                    size: proc.len as u64,
                    scheme: dn.scheme,
                    embedded_unit: dn.embedded,
                }
            },
            None => {
                RawSymbol {
                    mangled: MangledSymbol::new(proc.name.clone()),
                    demangled: DemangledSymbol::new(proc.name.clone()),
                    trimmed: DemangledSymbol::new(proc.name),
                    address: rva as u64,
                    size: proc.len as u64,
                    scheme: ManglingScheme::Legacy,
                    embedded_unit: None,
                }
            },
        };
        proof {
            assert(describes_pdb_symbol(publics@, orig[i as int], sym));
        }
        out.push(sym);
        i = i + 1;
    }
    proof {
        assert(orig.take(orig.len() as int) =~= orig);
    }
    out
}

} // verus!
