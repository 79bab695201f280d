use substance::analysis::{aggregate_llvm_functions, aggregate_symbols, compare_analyses,
    enrich_symbols, sum_by_name, AnalysisResult, CrateFunction};
use substance::cargo::{classify_message_reason, MessageKind};
use substance::cli::{parse_message_format, Args, MessageFormat};
use substance::compare::{compare_crate_tables, compare_symbol_tables, NamedSize};
use substance::crate_name::{extract_crate_from_function, from_sym, parse_crate_from_sym,
    unknown_crate_name, StdHandling, UNKNOWN};
use substance::env::{pdb_sibling_file_name, rlib_path_to_cratename};
use substance::formatting::{format_bytes, format_count, format_duration, format_size,
    format_size_diff};
use substance::index::{collect_deps_symbols, DepsIndex, SymbolUnitPair};
use substance::llvm_ir::{analyze_llvm_ir_data, has_hash, is_ascii_hexdigit, parse_function_name};
use substance::object::{collect_object_data, dedup_symbols, detect_format, BinFormat,
    Endianness};
use substance::types::{BuildContext, ByteSize, CrateName, DemangledSymbol, LlvmFunction,
    LlvmFunctionName, LlvmIrLines, ManglingScheme, MangledSymbol, NumberOfCopies, RawSymbol};

fn raw_symbol(name: &str, address: u64, size: u64, scheme: ManglingScheme) -> RawSymbol {
    RawSymbol {
        mangled: MangledSymbol::from_str(name),
        demangled: DemangledSymbol::from_str(name),
        trimmed: DemangledSymbol::from_str(name),
        address,
        size,
        scheme,
        embedded_unit: None,
    }
}

fn context_with(index: DepsIndex, std_crates: Vec<&str>, dep_crates: Vec<&str>) -> BuildContext {
    BuildContext {
        std_crates: std_crates.into_iter().map(CrateName::from_str).collect(),
        dep_crates: dep_crates.into_iter().map(CrateName::from_str).collect(),
        deps_symbols: index,
        wall_millis: 0,
        file_size: ByteSize::new(0),
        text_size: ByteSize::new(0),
    }
}

#[test]
fn test_format_bytes() {
    assert_eq!(format_bytes(0), "0 B");
    assert_eq!(format_bytes(512), "512 B");
    assert_eq!(format_bytes(1023), "1023 B");
    assert_eq!(format_bytes(1024), "1.00 KiB");
    assert_eq!(format_bytes(1536), "1.50 KiB");
    assert_eq!(format_bytes(1048576), "1.00 MiB");
    assert_eq!(format_bytes(1073741824), "1.00 GiB");
}

#[test]
fn test_format_size_diff() {
    assert_eq!(format_size_diff(0), "no change");
    assert_eq!(format_size_diff(1024), "+1.00 KiB");
    assert_eq!(format_size_diff(-2048), "-2.00 KiB");
    assert_eq!(format_size_diff(1048576), "+1.00 MiB");
    assert_eq!(format_size_diff(-1048576), "-1.00 MiB");
}

#[test]
fn test_format_duration() {
    assert_eq!(format_duration(0), "0.00s");
    assert_eq!(format_duration(1000), "1.00s");
    assert_eq!(format_duration(1500), "1.50s");
    assert_eq!(format_duration(500), "0.50s");
}

#[test]
fn test_format_count() {
    assert_eq!(format_count(0, "file"), "0 files");
    assert_eq!(format_count(1, "file"), "1 file");
    assert_eq!(format_count(2, "file"), "2 files");
    assert_eq!(format_count(100, "symbol"), "100 symbols");
}

#[test]
fn test_format_size_compact() {
    assert_eq!(format_size(512), "512B");
    assert_eq!(format_size(1536), "1.5KiB");
    assert_eq!(format_size(1048576), "1.0MiB");
}

#[test]
fn test_llvm_ir_analysis() {
    let sample_ir = r#"; ModuleID = 'test'
source_filename = "test"

define internal void @"_ZN4core3ptr42drop_in_place$LT$substance..BloatError$GT$17h70910838441ee278E"(ptr align 8 %_1) unnamed_addr #0 !dbg !123 {
start:
  %a = alloca [8 x i8], align 8
  %b = alloca [8 x i8], align 8
  call void @some_function()
  ret void
}

define internal void @"_ZN42_$LT$$RF$T$u20$as$u20$core..fmt..Debug$GT$3fmt17haddeafc23f955172E"(ptr %self) unnamed_addr #0 !dbg !456 {
start:
  %temp = alloca [16 x i8], align 8
  call void @another_function()
  call void @yet_another_function()
  ret void
}

define internal void @"_ZN42_$LT$$RF$T$u20$as$u20$core..fmt..Debug$GT$3fmt17haddeafc23f955172E"(ptr %self) unnamed_addr #0 !dbg !789 {
start:
  %duplicate = alloca [8 x i8], align 8
  ret void
}
"#;

    let result = analyze_llvm_ir_data(sample_ir.as_bytes());

    assert_eq!(result.len(), 2);

    let drop_fn = result
        .get("core::ptr::drop_in_place<substance::BloatError>")
        .unwrap();
    assert_eq!(drop_fn.copies.value(), 1);
    assert_eq!(drop_fn.lines.value(), 4);

    let debug_fn = result.get("<&T as core::fmt::Debug>::fmt").unwrap();
    assert_eq!(debug_fn.copies.value(), 2);
    assert_eq!(debug_fn.lines.value(), 6);
}

#[test]
fn test_function_name_demangling() {
    let test_cases = vec![
        (
            r#"define internal void @"_ZN4core3ptr42drop_in_place$LT$substance..BloatError$GT$17h70910838441ee278E"(ptr align 8 %_1) unnamed_addr #0 !dbg !123"#,
            "core::ptr::drop_in_place<substance::BloatError>",
        ),
        (
            r#"define internal void @"_ZN42_$LT$$RF$T$u20$as$u20$core..fmt..Debug$GT$3fmt17haddeafc23f955172E"(ptr %self) unnamed_addr #0 !dbg !456"#,
            "<&T as core::fmt::Debug>::fmt",
        ),
        (
            r#"define internal void @"_ZN4core3fmt3num50_$LT$impl$u20$core..fmt..Debug$u20$for$u20$u32$GT$3fmt17h245219febfc19038E"(ptr %self) unnamed_addr #0 !dbg !789"#,
            "core::fmt::num::<impl core::fmt::Debug for u32>::fmt",
        ),
        (
            r#"define internal void @"_ZN3std2rt10lang_start28_$u7b$$u7b$closure$u7d$$u7d$17h0455556706c7eca7E"(ptr %self) unnamed_addr #0 !dbg !999"#,
            "std::rt::lang_start::{{closure}}",
        ),
    ];

    for (llvm_line, expected_demangled) in test_cases {
        let result = parse_function_name(llvm_line);
        assert!(result.is_some(), "no function name in: {}", llvm_line);
        let demangled = result.unwrap();
        assert_eq!(demangled.as_str(), expected_demangled);
    }
}

#[test]
fn test_hash_removal() {
    assert!(has_hash("some::function::name::h1234567890abcdef"));
    assert!(!has_hash("some::function::name"));
    assert!(!has_hash("some::function::name::h123"));
    assert!(!has_hash("some::function::name::g1234567890abcdef"));

    let mangled = "_ZN4test8function17h1234567890abcdefE";
    let symbol_name = binfarce::demangle::SymbolName::demangle(mangled);
    let mut name = symbol_name.trimmed.clone();

    if has_hash(&name) {
        let len = name.len() - 19;
        name.truncate(len);
    }

    assert!(!name.contains("::h"));
}

#[test]
fn test_strip_hash() {
    let with_hash = DemangledSymbol::from_str("foo::bar::h9e2b8a2a7a115765");
    assert_eq!(with_hash.strip_hash().as_str(), "foo::bar");

    let without = DemangledSymbol::from_str("serde::ser::Serialize::serialize");
    assert_eq!(
        without.strip_hash().as_str(),
        "serde::ser::Serialize::serialize"
    );

    let fifteen = DemangledSymbol::from_str("foo::bar::h9e2b8a2a7a11576");
    assert_eq!(fifteen.strip_hash().as_str(), "foo::bar::h9e2b8a2a7a11576");

    let upper = DemangledSymbol::from_str("foo::bar::h9E2B8A2A7A115765");
    assert_eq!(upper.strip_hash().as_str(), "foo::bar::h9E2B8A2A7A115765");
}

#[test]
fn test_is_ascii_hexdigit() {
    assert!(is_ascii_hexdigit(b'0'));
    assert!(is_ascii_hexdigit(b'9'));
    assert!(is_ascii_hexdigit(b'a'));
    assert!(is_ascii_hexdigit(b'f'));
    assert!(!is_ascii_hexdigit(b'g'));
    assert!(!is_ascii_hexdigit(b'A'));
    assert!(!is_ascii_hexdigit(b':'));
}

#[test]
fn test_rlib_path_to_cratename_examples() {
    let test_cases = [
        ("libaliri_braid-e8f9425717316f27.rlib", "aliri_braid"),
        ("libariadne-4461764e96a6aad7.rlib", "ariadne"),
        ("libariadne-fa988516bead4084.rlib", "ariadne"),
        ("libbinfarce-54616b3acfd03db2.rlib", "binfarce"),
        ("libbinfarce-c8780ecc9f2812a9.rlib", "binfarce"),
        ("libbitflags-0ada03d8b14b6bb7.rlib", "bitflags"),
        ("libbyteorder-681a16c1411db6d4.rlib", "byteorder"),
        ("libcompact_str-0145c52390060b57.rlib", "compact_str"),
        (
            "libfacet_macros_parse-663a66863aa3d445.rlib",
            "facet_macros_parse",
        ),
        ("libunicode_ident-c4cd5a2669b29311.rlib", "unicode_ident"),
        ("libsubstance-f1b89b45b144f585.rlib", "substance"),
    ];

    for (filename, expected_crate) in &test_cases {
        let got = rlib_path_to_cratename(filename);
        assert_eq!(got.as_str(), *expected_crate, "failed on filename: {filename}");
    }
}

#[test]
fn test_rlib_path_to_cratename_minimal() {
    let cratename = rlib_path_to_cratename("libfoo-123456abcdefabcd.rlib");
    assert_eq!(cratename.as_str(), "foo");
}

#[test]
fn test_rlib_path_to_cratename_underscore() {
    let cratename = rlib_path_to_cratename("libbar_baz-abcd1234abcdabcd.rlib");
    assert_eq!(cratename.as_str(), "bar_baz");
}

fn named(name: &str, size: u64) -> NamedSize {
    NamedSize {
        name: name.to_string(),
        size,
    }
}

#[test]
fn test_symbol_comparison() {
    let baseline_symbols = vec![
        named("foo::bar", 100),
        named("baz::qux", 200),
        named("removed::symbol", 50),
    ];
    let baseline_crates = vec![named("crate1", 300), named("crate2", 250)];
    let current_symbols = vec![
        named("foo::bar", 150),
        named("baz::qux", 200),
        named("new::symbol", 75),
    ];
    let current_crates = vec![named("crate1", 350), named("crate2", 275)];

    let symbol_changes = compare_symbol_tables(&baseline_symbols, &current_symbols);
    // One record per name present in either snapshot, unchanged names
    // reported as zero-delta.
    assert_eq!(symbol_changes.len(), 4);

    let foo_change = symbol_changes
        .iter()
        .find(|s| s.demangled == "foo::bar")
        .expect("foo::bar change not found");
    assert_eq!(foo_change.size_before, Some(100));
    assert_eq!(foo_change.size_after, Some(150));

    let same = symbol_changes
        .iter()
        .find(|s| s.demangled == "baz::qux")
        .expect("baz::qux change not found");
    assert_eq!(same.size_before, Some(200));
    assert_eq!(same.size_after, Some(200));

    let new_symbol = symbol_changes
        .iter()
        .find(|s| s.demangled == "new::symbol")
        .expect("new::symbol not found");
    assert_eq!(new_symbol.size_before, None);
    assert_eq!(new_symbol.size_after, Some(75));

    let removed_symbol = symbol_changes
        .iter()
        .find(|s| s.demangled == "removed::symbol")
        .expect("removed::symbol not found");
    assert_eq!(removed_symbol.size_before, Some(50));
    assert_eq!(removed_symbol.size_after, None);

    let crate_changes = compare_crate_tables(&baseline_crates, &current_crates);
    assert_eq!(crate_changes.len(), 2);

    let crate1_change = crate_changes
        .iter()
        .find(|c| c.name == "crate1")
        .expect("crate1 change not found");
    assert_eq!(crate1_change.size_before, Some(300));
    assert_eq!(crate1_change.size_after, Some(350));
}

#[test]
fn test_comparison_identity() {
    let table = vec![named("a::b", 10), named("c::d", 20)];
    let changes = compare_symbol_tables(&table, &table);
    assert_eq!(changes.len(), 2);
    for c in &changes {
        assert_eq!(c.size_before, c.size_after);
    }
}

#[test]
fn test_ambiguous_trait_impl() {
    let sym_text = "<euclid::rect::TypedRect<f64> as resvg::geom::RectExt>::x";
    let index = collect_deps_symbols(vec![SymbolUnitPair {
        symbol: MangledSymbol::from_str(sym_text),
        unit: CrateName::from_str("resvg"),
    }]);
    let context = context_with(index, vec![], vec!["euclid", "resvg"]);
    let sym = raw_symbol(sym_text, 0, 0, ManglingScheme::Legacy);
    let (unit, exact) = from_sym(&context, StdHandling::Split, &sym);
    assert_eq!(unit.as_str(), "resvg");
    assert!(exact);
}

#[test]
fn test_trait_impl_without_index() {
    let sym_text = "<euclid::rect::TypedRect<f64> as resvg::geom::RectExt>::x";
    let context = context_with(DepsIndex::new(), vec![], vec![]);
    let sym = raw_symbol(sym_text, 0, 0, ManglingScheme::Legacy);
    let (unit, exact) = from_sym(&context, StdHandling::Split, &sym);
    // The two sides disagree and nothing corroborates either: the type's
    // side wins, marked inexact.
    assert_eq!(unit.as_str(), "euclid");
    assert!(!exact);
}

#[test]
fn test_resolve_determinism() {
    let sym_text = "<T as core::fmt::Display>::fmt::h92003a61120a7e1a";
    let context = context_with(DepsIndex::new(), vec!["core", "std"], vec![]);
    let sym = raw_symbol(sym_text, 0, 0, ManglingScheme::Legacy);
    let first = from_sym(&context, StdHandling::Merged, &sym);
    let second = from_sym(&context, StdHandling::Merged, &sym);
    assert_eq!(first.0.as_str(), second.0.as_str());
    assert_eq!(first.1, second.1);
    assert_eq!(first.0.as_str(), "std");
    assert!(first.1);
}

#[test]
fn test_versioned_scheme_resolution() {
    let context = context_with(DepsIndex::new(), vec!["core"], vec!["serde"]);

    let mut embedded = raw_symbol("whatever", 0, 0, ManglingScheme::Versioned);
    embedded.embedded_unit = Some(CrateName::from_str("serde"));
    let (unit, exact) = from_sym(&context, StdHandling::Split, &embedded);
    assert_eq!(unit.as_str(), "serde");
    assert!(exact);

    let parsed = raw_symbol("serde::de::Deserialize", 0, 0, ManglingScheme::Versioned);
    let (unit, exact) = from_sym(&context, StdHandling::Split, &parsed);
    assert_eq!(unit.as_str(), "serde");
    assert!(!exact);

    let stranger = raw_symbol("nosuch::thing", 0, 0, ManglingScheme::Versioned);
    let (unit, exact) = from_sym(&context, StdHandling::Split, &stranger);
    assert_eq!(unit.as_str(), UNKNOWN);
    assert!(exact);

    let opaque = raw_symbol("???", 0, 0, ManglingScheme::Unknown);
    let (unit, exact) = from_sym(&context, StdHandling::Split, &opaque);
    assert_eq!(unit.as_str(), unknown_crate_name().as_str());
    assert!(exact);
}

#[test]
fn test_parse_crate_from_sym() {
    assert_eq!(parse_crate_from_sym("serde::ser::Serialize"), "serde");
    assert_eq!(parse_crate_from_sym("nocolons"), "");
    assert_eq!(parse_crate_from_sym("<&foo::Bar>::baz"), "foo");
}

#[test]
fn test_extract_crate_from_function() {
    assert_eq!(extract_crate_from_function(&LlvmFunctionName::from_str(
        "<T as alloc::vec::Vec>::method"
    )), "alloc");
    assert_eq!(extract_crate_from_function(&LlvmFunctionName::from_str(
        "core::ptr::drop_in_place"
    )), "core");
    assert_eq!(extract_crate_from_function(&LlvmFunctionName::from_str(
        "my_crate::module::function"
    )), "my_crate");
    assert_eq!(extract_crate_from_function(&LlvmFunctionName::from_str(
        "<MyType>::method"
    )), "method");
    assert_eq!(extract_crate_from_function(&LlvmFunctionName::from_str("1234")), "unknown");
}

#[test]
fn test_dedup_symbols() {
    let symbols = vec![
        raw_symbol("at5_first", 5, 10, ManglingScheme::Legacy),
        raw_symbol("at3", 3, 20, ManglingScheme::Legacy),
        raw_symbol("at5_second", 5, 30, ManglingScheme::Legacy),
        raw_symbol("at1", 1, 40, ManglingScheme::Legacy),
    ];
    let deduped = dedup_symbols(symbols);
    // Four records spanning three unique addresses leave exactly three
    // symbols, sorted by address, the first occurrence winning.
    assert_eq!(deduped.len(), 3);
    assert_eq!(deduped[0].address, 1);
    assert_eq!(deduped[1].address, 3);
    assert_eq!(deduped[2].address, 5);
    assert_eq!(deduped[2].mangled.as_str(), "at5_first");
}

#[test]
fn test_detect_format() {
    assert_eq!(
        detect_format(&[0x7F, b'E', b'L', b'F', 2, 1, 0, 0]),
        BinFormat::Elf64(Endianness::Little)
    );
    assert_eq!(
        detect_format(&[0x7F, b'E', b'L', b'F', 1, 2, 0, 0]),
        BinFormat::Elf32(Endianness::Big)
    );
    assert_eq!(detect_format(b"MZ\0\0\0\0\0\0"), BinFormat::Pe);
    assert_eq!(
        detect_format(&[0xCF, 0xFA, 0xED, 0xFE, 0, 0, 0, 0]),
        BinFormat::Macho
    );
    assert_eq!(detect_format(b"garbage!"), BinFormat::Unknown);
    assert_eq!(detect_format(b"MZ"), BinFormat::Unknown);
}

#[test]
fn test_collect_object_data() {
    let record = |name: &str, address: u64, size: u64| binfarce::demangle::SymbolData {
        name: binfarce::demangle::SymbolName::demangle(name),
        address,
        size,
    };
    let records = vec![
        record("_ZN3foo3bar17h1234567890abcdefE", 7, 10),
        record("plain_symbol", 3, 20),
        record("_ZN3baz3qux17h1234567890abcdefE", 7, 30),
    ];
    let analysis = collect_object_data(records, 640);
    assert_eq!(analysis.text_size, 640);
    // Three records spanning two unique addresses leave two symbols,
    // address-sorted, first occurrence winning.
    assert_eq!(analysis.symbols.len(), 2);
    assert_eq!(analysis.symbols[0].address, 3);
    assert_eq!(analysis.symbols[0].mangled.as_str(), "plain_symbol");
    assert_eq!(analysis.symbols[1].address, 7);
    assert_eq!(analysis.symbols[1].mangled.as_str(), "foo::bar::h1234567890abcdef");
    assert_eq!(analysis.symbols[1].trimmed.as_str(), "foo::bar");
    assert!(matches!(analysis.symbols[1].scheme, ManglingScheme::Legacy));
}

#[test]
fn test_parse_function_name_colon_escape() {
    // A crafted legacy name whose demangled text is a single colon; the
    // library leaves it unrecognized instead of trimming it.
    let line = r#"define internal void @"_ZN5$u3a$E"(ptr %x) {"#;
    let result = parse_function_name(line);
    assert_eq!(result.unwrap().as_str(), "_ZN5$u3a$E");
}

#[test]
fn test_pdb_sibling_file_name() {
    assert_eq!(pdb_sibling_file_name("my-tool.exe"), "my_tool.pdb");
    assert_eq!(pdb_sibling_file_name("plain"), "plain.pdb");
    assert_eq!(pdb_sibling_file_name("a-b-c.bin.exe"), "a_b_c.bin.pdb");
}

#[test]
fn test_aggregate_symbols() {
    let sym = |trimmed: &str, unit: &str, size: u64| substance::analysis::EnrichedSymbol {
        symbol: raw_symbol(trimmed, 0, size, ManglingScheme::Legacy),
        unit: CrateName::from_str(unit),
        exact: true,
    };
    let symbols = vec![
        sym("foo::bar::h1111111111111111", "alpha", 10),
        sym("foo::bar::h2222222222222222", "beta", 5),
        sym("foo::bar::h1111111111111111", "alpha", 7),
        sym("other::fn", "alpha", 3),
    ];
    let aggregated = aggregate_symbols(&symbols);
    assert_eq!(aggregated.len(), 2);
    assert_eq!(aggregated[0].name.as_str(), "foo::bar");
    assert_eq!(aggregated[0].total_size.value(), 22);
    assert_eq!(aggregated[0].copies.value(), 3);
    assert_eq!(aggregated[0].crates.len(), 2);
    assert_eq!(aggregated[0].crates[0].as_str(), "alpha");
    assert_eq!(aggregated[0].crates[1].as_str(), "beta");
    assert_eq!(aggregated[1].name.as_str(), "other::fn");
    assert_eq!(aggregated[1].total_size.value(), 3);
    assert_eq!(aggregated[1].copies.value(), 1);
}

#[test]
fn test_aggregate_llvm_functions() {
    let entry = |unit: &str, name: &str, lines: usize, copies: usize| CrateFunction {
        unit: CrateName::from_str(unit),
        function: LlvmFunction {
            name: LlvmFunctionName::from_str(name),
            lines: LlvmIrLines::new(lines),
            copies: NumberOfCopies::new(copies),
        },
    };
    let fns = vec![
        entry("alpha", "foo", 4, 1),
        entry("beta", "foo", 2, 2),
        entry("alpha", "bar", 9, 1),
    ];
    let aggregated = aggregate_llvm_functions(&fns);
    assert_eq!(aggregated.len(), 2);
    assert_eq!(aggregated[0].name.as_str(), "foo");
    assert_eq!(aggregated[0].total_llvm_lines.value(), 6);
    assert_eq!(aggregated[0].copies.value(), 3);
    assert_eq!(aggregated[0].crates.len(), 2);
    assert_eq!(aggregated[1].name.as_str(), "bar");
    assert_eq!(aggregated[1].total_llvm_lines.value(), 9);
    assert_eq!(aggregated[1].copies.value(), 1);
}

#[test]
fn test_index_dedup_and_first() {
    let pair = |s: &str, u: &str| SymbolUnitPair {
        symbol: MangledSymbol::from_str(s),
        unit: CrateName::from_str(u),
    };
    let index = collect_deps_symbols(vec![
        pair("sym_a", "cc"),
        pair("sym_a", "cc"),
        pair("sym_a", "fern"),
        pair("sym_b", "svgdom"),
    ]);
    assert_eq!(index.len(), 2);
    let units = index.get_vec("sym_a").unwrap();
    assert_eq!(units.len(), 2);
    assert_eq!(units[0].as_str(), "cc");
    assert_eq!(units[1].as_str(), "fern");
    assert_eq!(index.get_first("sym_a").unwrap().as_str(), "cc");
    assert!(index.get_first("missing").is_none());
}

#[test]
fn test_ir_merge_order_independent() {
    let file_a = b"define void @foo() {\n  a\n  b\n}\n";
    let file_b = b"define void @foo() {\n  c\n}\ndefine void @bar() {\n  d\n  e\n  f\n}\n";

    let mut forward = analyze_llvm_ir_data(file_a);
    let b_first = analyze_llvm_ir_data(file_b);
    forward.merge_from(&b_first);

    let mut backward = analyze_llvm_ir_data(file_b);
    let a_second = analyze_llvm_ir_data(file_a);
    backward.merge_from(&a_second);

    for name in ["foo", "bar"] {
        let f = forward.get(name).unwrap();
        let g = backward.get(name).unwrap();
        assert_eq!(f.lines.value(), g.lines.value());
        assert_eq!(f.copies.value(), g.copies.value());
    }
    let foo = forward.get("foo").unwrap();
    assert_eq!(foo.lines.value(), 3);
    assert_eq!(foo.copies.value(), 2);
}

#[test]
fn test_record_lines() {
    let mut f = substance::types::LlvmFunction {
        name: LlvmFunctionName::from_str("foo"),
        lines: substance::types::LlvmIrLines::new(4),
        copies: substance::types::NumberOfCopies::new(1),
    };
    f.record_lines(2);
    assert_eq!(f.lines.value(), 6);
    assert_eq!(f.copies.value(), 2);
}

#[test]
fn test_sum_by_name() {
    let rows = vec![named("a", 10), named("b", 5), named("a", 7)];
    let table = sum_by_name(rows);
    assert_eq!(table.len(), 2);
    assert_eq!(table[0].name, "a");
    assert_eq!(table[0].size, 17);
    assert_eq!(table[1].name, "b");
    assert_eq!(table[1].size, 5);
}

fn enriched(name: &str, unit: &str, size: u64) -> substance::analysis::EnrichedSymbol {
    substance::analysis::EnrichedSymbol {
        symbol: raw_symbol(name, 0, size, ManglingScheme::Legacy),
        unit: CrateName::from_str(unit),
        exact: true,
    }
}

#[test]
fn test_top_symbols_and_compare_analyses() {
    let before = AnalysisResult {
        file_size: ByteSize::new(1000),
        text_size: ByteSize::new(800),
        symbols: vec![
            enriched("foo::bar", "crate1", 100),
            enriched("baz::qux", "crate2", 200),
            enriched("removed::symbol", "crate1", 50),
        ],
        ir_data: None,
    };
    let after = AnalysisResult {
        file_size: ByteSize::new(1200),
        text_size: ByteSize::new(900),
        symbols: vec![
            enriched("foo::bar", "crate1", 150),
            enriched("baz::qux", "crate2", 200),
            enriched("new::symbol", "crate2", 75),
        ],
        ir_data: None,
    };

    let top = before.top_symbols(2);
    assert_eq!(top.len(), 2);
    assert_eq!(top[0].name, "baz::qux");
    assert_eq!(top[0].size, 200);
    assert_eq!(top[1].name, "foo::bar");

    let comparison = compare_analyses(&before, &after);
    assert_eq!(comparison.file_size_diff.file_size_before.value(), 1000);
    assert_eq!(comparison.file_size_diff.file_size_after.value(), 1200);
    assert_eq!(comparison.symbol_changes.len(), 4);
    assert_eq!(comparison.crate_changes.len(), 2);

    let total = comparison.total_size_change();
    assert_eq!(total, 75);

    let new_syms = comparison.new_symbols();
    assert_eq!(new_syms.len(), 1);
    assert_eq!(new_syms[0].demangled, "new::symbol");

    let removed_syms = comparison.removed_symbols();
    assert_eq!(removed_syms.len(), 1);
    assert_eq!(removed_syms[0].demangled, "removed::symbol");

    let significant = comparison.significant_changes(80);
    assert_eq!(significant.len(), 0);
    let significant_small = comparison.significant_changes(20);
    assert_eq!(significant_small.len(), 1);

    let sig_syms = comparison.significant_symbol_changes(60);
    assert_eq!(sig_syms.len(), 1);
    assert_eq!(sig_syms[0].demangled, "new::symbol");

    let by_pct = comparison.crates_by_percent_change();
    assert_eq!(by_pct.len(), 2);
    // crate2 grew by three eighths, crate1 not at all.
    assert_eq!(by_pct[0].name, "crate2");
    assert_eq!(by_pct[1].name, "crate1");
}

#[test]
fn test_enrich_symbols() {
    let context = context_with(DepsIndex::new(), vec!["core"], vec!["serde"]);
    let raw = vec![raw_symbol("serde::ser::to_string::h0123456789abcdef", 1, 2,
        ManglingScheme::Legacy)];
    let enriched_syms = enrich_symbols(&context, StdHandling::Split, raw);
    assert_eq!(enriched_syms.len(), 1);
    assert_eq!(enriched_syms[0].unit.as_str(), "serde");
    assert!(enriched_syms[0].exact);
}

#[test]
fn test_message_classification() {
    assert_eq!(classify_message_reason("timing-info"), MessageKind::TimingInfo);
    assert_eq!(
        classify_message_reason("compiler-artifact"),
        MessageKind::CompilerArtifact
    );
    assert_eq!(classify_message_reason("build-finished"), MessageKind::Ignored);
    assert_eq!(classify_message_reason("something-else"), MessageKind::Unknown);
}

#[test]
fn test_parse_message_format() {
    assert_eq!(parse_message_format("table"), Ok(MessageFormat::Table));
    assert_eq!(parse_message_format("json"), Ok(MessageFormat::Json));
    assert!(parse_message_format("yaml").is_err());
}

#[test]
fn test_get_profile() {
    let mut args = Args {
        help: false,
        version: false,
        lib: false,
        bin: None,
        example: None,
        test: None,
        package: None,
        release: false,
        jobs: None,
        features: None,
        all_features: false,
        no_default_features: false,
        profile: None,
        config: None,
        target: None,
        target_dir: None,
        frozen: false,
        locked: false,
        unstable: vec![],
        crates: false,
        filter: None,
        split_std: false,
        symbols_section: None,
        no_relative_size: false,
        full_fn: false,
        n: 20,
        wide: false,
        verbose: false,
        manifest_path: None,
        message_format: MessageFormat::Table,
    };
    assert_eq!(args.get_profile(), "dev");
    args.release = true;
    assert_eq!(args.get_profile(), "release");
    args.profile = Some("bench".to_string());
    assert_eq!(args.get_profile(), "bench");
}
