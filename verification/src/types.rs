//! Strongly-typed strings and quantities for the analysis engine.
//!
//! Byte sizes, line counts and copy counts are distinct wrapper types so
//! that one can never silently stand in for another, and every textual
//! name carries its role in its type.

use vstd::prelude::*;

use crate::strutil::{chars_subrange, chars_to_string, hex_digit_char, is_hex_digit_char,
    str_to_chars};

verus! {

/// A number of lines of intermediate-representation text.
#[derive(Clone, Copy, Debug, PartialEq, Eq, Structural)]
pub struct LlvmIrLines(pub usize);

impl LlvmIrLines {
    pub fn new(v: usize) -> (r: Self)
        ensures
            r.0 == v,
    {
        LlvmIrLines(v)
    }

    pub fn value(&self) -> (r: usize)
        ensures
            r == self.0,
    {
        self.0
    }
}

/// How many monomorphized copies of a function were seen.
#[derive(Clone, Copy, Debug, PartialEq, Eq, Structural)]
pub struct NumberOfCopies(pub usize);

impl NumberOfCopies {
    pub fn new(v: usize) -> (r: Self)
        ensures
            r.0 == v,
    {
        NumberOfCopies(v)
    }

    pub fn value(&self) -> (r: usize)
        ensures
            r == self.0,
    {
        self.0
    }
}

/// A size in bytes.
#[derive(Clone, Copy, Debug, PartialEq, Eq, Structural)]
pub struct ByteSize(pub u64);

impl ByteSize {
    pub fn new(v: u64) -> (r: Self)
        ensures
            r.0 == v,
    {
        ByteSize(v)
    }

    pub fn value(&self) -> (r: u64)
        ensures
            r == self.0,
    {
        self.0
    }
}

/// The name of one compilation unit (a library or binary target).
#[derive(Clone, Debug)]
pub struct CrateName {
    text: String,
}

impl View for CrateName {
    type V = Seq<char>;

    closed spec fn view(&self) -> Seq<char> {
        self.text@
    }
}

impl CrateName {
    pub fn new(text: String) -> (r: Self)
        ensures
            r@ == text@,
    {
        CrateName { text }
    }

    pub fn from_str(text: &str) -> (r: Self)
        ensures
            r@ == text@,
    {
        CrateName { text: text.to_owned() }
    }

    pub fn as_str(&self) -> (r: &str)
        ensures
            r@ == self@,
    {
        self.text.as_str()
    }
}

/// A symbol name as the index keys it: the complete name the extractor
/// recovered from a symbol table or archive member.
#[derive(Clone, Debug)]
pub struct MangledSymbol {
    text: String,
}

impl View for MangledSymbol {
    type V = Seq<char>;

    closed spec fn view(&self) -> Seq<char> {
        self.text@
    }
}

impl MangledSymbol {
    pub fn new(text: String) -> (r: Self)
        ensures
            r@ == text@,
    {
        MangledSymbol { text }
    }

    pub fn from_str(text: &str) -> (r: Self)
        ensures
            r@ == text@,
    {
        MangledSymbol { text: text.to_owned() }
    }

    pub fn as_str(&self) -> (r: &str)
        ensures
            r@ == self@,
    {
        self.text.as_str()
    }
}

/// A fully demangled symbol name including the crate path, possibly still
/// carrying a trailing `::h<16 hex digits>` hash.
#[derive(Clone, Debug)]
pub struct DemangledSymbol {
    text: String,
}

/// The hash suffix a demangled symbol may carry: `::h` followed by exactly
/// sixteen lowercase hex digits at the very end of the name.
pub open spec fn has_hash_suffix(s: Seq<char>) -> bool {
    &&& s.len() >= 19
    &&& s[s.len() - 19] == ':'
    &&& s[s.len() - 18] == ':'
    &&& s[s.len() - 17] == 'h'
    &&& forall|j: int| s.len() - 16 <= j < s.len() ==> is_hex_digit_char(#[trigger] s[j])
}

/// What [`DemangledSymbol::strip_hash`] returns: the name with the hash
/// suffix removed when one is present, the name itself otherwise.
pub open spec fn strip_hash_spec(s: Seq<char>) -> Seq<char> {
    if has_hash_suffix(s) {
        s.take(s.len() - 19)
    } else {
        s
    }
}

impl View for DemangledSymbol {
    type V = Seq<char>;

    closed spec fn view(&self) -> Seq<char> {
        self.text@
    }
}

impl DemangledSymbol {
    pub fn new(text: String) -> (r: Self)
        ensures
            r@ == text@,
    {
        DemangledSymbol { text }
    }

    pub fn from_str(text: &str) -> (r: Self)
        ensures
            r@ == text@,
    {
        DemangledSymbol { text: text.to_owned() }
    }

    pub fn as_str(&self) -> (r: &str)
        ensures
            r@ == self@,
    {
        self.text.as_str()
    }

    /// Removes the `::h<16 lowercase hex digits>` suffix if it is present;
    /// any other tail, including a shorter hex run, is left untouched.
    pub fn strip_hash(&self) -> (r: DemangledSymbolWithoutHash)
        ensures
            r@ == strip_hash_spec(self@),
    {
        let chars = str_to_chars(self.text.as_str());
        let n = chars.len();
        let mut is_hash = n >= 19 && chars[n - 19] == ':' && chars[n - 18] == ':' && chars[n - 17]
            == 'h';
        if is_hash {
            let mut j: usize = n - 16;
            while j < n
                invariant
                    n - 16 <= j <= n,
                    n == chars@.len(),
                    n >= 19,
                    is_hash == forall|k: int|
                        n - 16 <= k < j ==> is_hex_digit_char(#[trigger] chars@[k]),
                decreases n - j,
            {
                if !hex_digit_char(chars[j]) {
                    is_hash = false;
                }
                j = j + 1;
            }
        }
        if is_hash {
            assert(has_hash_suffix(self@));
            let kept = chars_subrange(&chars, 0, n - 19);
            proof {
                assert(kept@ =~= self@.take(self@.len() - 19));
            }
            DemangledSymbolWithoutHash { text: chars_to_string(&kept) }
        } else {
            assert(!has_hash_suffix(self@));
            DemangledSymbolWithoutHash { text: self.text.clone() }
        }
    }
}

/// Stripping a freshly appended hash suffix gives the name back: for any
/// name and any sixteen lowercase hex digits, appending `::h` plus the
/// digits and then stripping restores the original name exactly.
pub proof fn lemma_strip_appended_hash(s: Seq<char>, h: Seq<char>)
    requires
        h.len() == 16,
        forall|j: int| 0 <= j < h.len() ==> is_hex_digit_char(#[trigger] h[j]),
    ensures
        strip_hash_spec(s + seq![':', ':', 'h'] + h) == s,
{
    let t = s + seq![':', ':', 'h'] + h;
    assert(t.len() == s.len() + 19);
    assert(t[t.len() - 19] == ':');
    assert(t[t.len() - 18] == ':');
    assert(t[t.len() - 17] == 'h');
    assert forall|j: int| t.len() - 16 <= j < t.len() implies is_hex_digit_char(
        #[trigger] t[j],
    ) by {
        assert(t[j] == h[j - s.len() - 3]);
    }
    assert(has_hash_suffix(t));
    assert(t.take(t.len() - 19) =~= s);
}

/// A demangled symbol name whose hash suffix, if any, has been stripped.
#[derive(Clone, Debug)]
pub struct DemangledSymbolWithoutHash {
    text: String,
}

impl View for DemangledSymbolWithoutHash {
    type V = Seq<char>;

    closed spec fn view(&self) -> Seq<char> {
        self.text@
    }
}

impl DemangledSymbolWithoutHash {
    pub fn new(text: String) -> (r: Self)
        ensures
            r@ == text@,
    {
        DemangledSymbolWithoutHash { text }
    }

    pub fn from_str(text: &str) -> (r: Self)
        ensures
            r@ == text@,
    {
        DemangledSymbolWithoutHash { text: text.to_owned() }
    }

    pub fn as_str(&self) -> (r: &str)
        ensures
            r@ == self@,
    {
        self.text.as_str()
    }
}

/// The hash-stripped, demangled name of a function seen in IR text.
#[derive(Clone, Debug)]
pub struct LlvmFunctionName {
    text: String,
}

impl View for LlvmFunctionName {
    type V = Seq<char>;

    closed spec fn view(&self) -> Seq<char> {
        self.text@
    }
}

impl LlvmFunctionName {
    pub fn new(text: String) -> (r: Self)
        ensures
            r@ == text@,
    {
        LlvmFunctionName { text }
    }

    pub fn from_str(text: &str) -> (r: Self)
        ensures
            r@ == text@,
    {
        LlvmFunctionName { text: text.to_owned() }
    }

    pub fn as_str(&self) -> (r: &str)
        ensures
            r@ == self@,
    {
        self.text.as_str()
    }
}

/// The path of one IR text file.
#[derive(Clone, Debug)]
pub struct LlvmFilePath {
    text: String,
}

impl View for LlvmFilePath {
    type V = Seq<char>;

    closed spec fn view(&self) -> Seq<char> {
        self.text@
    }
}

impl LlvmFilePath {
    pub fn new(text: String) -> (r: Self)
        ensures
            r@ == text@,
    {
        LlvmFilePath { text }
    }

    pub fn as_str(&self) -> (r: &str)
        ensures
            r@ == self@,
    {
        self.text.as_str()
    }
}

/// How a symbol name was mangled: the purely textual legacy scheme, the
/// self-describing versioned scheme, or something unrecognized.
#[derive(Clone, Copy, Debug, PartialEq, Eq, Structural)]
pub enum ManglingScheme {
    Legacy,
    Versioned,
    Unknown,
}

/// One symbol as the extractor returns it: the complete name the index is
/// keyed by, its demangled and trimmed forms, where it sits and how large
/// it is, plus what the demangler learned about it.
#[derive(Clone, Debug)]
pub struct RawSymbol {
    /// The complete symbol name, used for every index lookup.
    pub mangled: MangledSymbol,
    /// The demangled name, hash suffix included.
    pub demangled: DemangledSymbol,
    /// The demangled name with the trailing hash segment removed.
    pub trimmed: DemangledSymbol,
    /// Virtual address of the symbol in the binary.
    pub address: u64,
    /// Size of the symbol in the code section.
    pub size: u64,
    /// Which mangling scheme the demangler recognized.
    pub scheme: ManglingScheme,
    /// The defining unit, when the versioned scheme embeds it.
    pub embedded_unit: Option<CrateName>,
}

/// Info about a symbol attributed to a crate.
#[derive(Clone, Debug)]
pub struct Symbol {
    /// A fully demangled symbol name including crate path.
    pub name: DemangledSymbol,
    /// The size of this symbol in the code section.
    pub size: ByteSize,
}

/// Info about a function found in IR text.
#[derive(Clone, Debug)]
pub struct LlvmFunction {
    /// The hash-stripped demangled function name.
    pub name: LlvmFunctionName,
    /// How many lines of IR this function has, over all copies.
    pub lines: LlvmIrLines,
    /// How many copies of this function were found.
    pub copies: NumberOfCopies,
}

/// A symbol aggregated across crates by its hash-stripped name.
#[derive(Clone, Debug)]
pub struct AggregateSymbol {
    pub name: DemangledSymbolWithoutHash,
    /// Total size of the symbol across all crates.
    pub total_size: ByteSize,
    /// Number of copies found.
    pub copies: NumberOfCopies,
    /// Every crate this symbol was found in, each listed once.
    pub crates: Vec<CrateName>,
}

/// An IR function aggregated across crates by name.
#[derive(Clone, Debug)]
pub struct AggregateLlvmFunction {
    pub name: LlvmFunctionName,
    /// Total number of IR lines across all crates.
    pub total_llvm_lines: LlvmIrLines,
    /// Number of copies found.
    pub copies: NumberOfCopies,
    /// Every crate this function was found in, each listed once.
    pub crates: Vec<CrateName>,
}

/// What kind of artifact a build produced.
#[derive(Clone, Copy, Debug, PartialEq, Eq, Structural)]
pub enum ArtifactKind {
    Binary,
    Library,
    DynLib,
}


/// Everything the resolver needs to know about one build: the unit-name
/// sets, the dependency symbol index, and the measured sizes.
pub struct BuildContext {
    /// Crate names of the standard-library units found beside the
    /// toolchain.
    pub std_crates: Vec<CrateName>,
    /// Crate names of the dependencies this build produced.
    pub dep_crates: Vec<CrateName>,
    /// Maps mangled symbols to the crate names they belong to.
    pub deps_symbols: crate::index::DepsIndex,
    /// Wall-clock duration of the build, in milliseconds.
    pub wall_millis: u64,
    /// Total file size of the binary.
    pub file_size: ByteSize,
    /// Size of the code section.
    pub text_size: ByteSize,
}

} // verus!
