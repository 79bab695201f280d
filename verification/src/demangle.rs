//! The library's window onto the symbol demangler.
//!
//! What a demangler returns for a mangled name is a pure function of the
//! name, but writing it out would mean restating the whole demangling
//! grammar; the result is therefore given a name, [`demangle_parts`], and
//! every contract downstream speaks of that name.
//!
//! One class of name stays away from the demangler entirely: its
//! hash-trimming step removes everything from the byte before the last
//! `:` of the demangled text, which underflows or splits a character when
//! a legacy name smuggles a colon or a non-ASCII character into its last
//! path segment (a raw `:` byte, or a `$u..$` escape decoding to `:` or
//! past ASCII).  [`spec_demangle_hazard`] recognizes every such name from
//! its bytes, conservatively; the trusted wrapper requires its absence,
//! and [`demangle_name`] falls back to treating a hazardous name as
//! unrecognized, which is total and verified.

use vstd::prelude::*;

use crate::strutil::push_char;
use crate::types::{CrateName, DemangledSymbol, ManglingScheme};

verus! {

/// What the demangler returns for one mangled name: the complete
/// demangled text, the trimmed text (hash segment removed), the defining
/// crate when the scheme embeds one, and a scheme code as
/// [`ManglingScheme::code`] numbers them.
pub uninterp spec fn demangle_parts(mangled: Seq<u8>) -> (Seq<char>, Seq<char>, Option<
    Seq<char>,
>, int);

impl ManglingScheme {
    /// Numbering of the schemes, used to tie executable values to
    /// [`demangle_parts`].
    pub open spec fn code(self) -> int {
        match self {
            ManglingScheme::Legacy => 0,
            ManglingScheme::Versioned => 1,
            ManglingScheme::Unknown => 2,
        }
    }
}

/// The demangler's answer for one name.
pub struct DemangledName {
    /// The complete demangled name, hash suffix included.
    pub complete: DemangledSymbol,
    /// The demangled name with the trailing hash segment removed.
    pub trimmed: DemangledSymbol,
    /// The defining crate, when the versioned scheme embeds it.
    pub embedded: Option<CrateName>,
    /// Which mangling scheme was recognized.
    pub scheme: ManglingScheme,
}

/// A hex digit byte, either case.
pub open spec fn is_hex_byte(b: u8) -> bool {
    (48 <= b && b <= 57) || (97 <= b && b <= 102) || (65 <= b && b <= 70)
}

/// The value of one hex digit byte.
pub open spec fn hex_digit_val(b: u8) -> int {
    if 48 <= b && b <= 57 {
        b - 48
    } else if 97 <= b && b <= 102 {
        b - 87
    } else {
        b - 55
    }
}

/// The digits with leading zeros removed.
pub open spec fn strip_zero_digits(s: Seq<u8>) -> Seq<u8>
    decreases s.len(),
{
    if s.len() > 0 && s[0] == 48 {
        strip_zero_digits(s.drop_first())
    } else {
        s
    }
}

/// A well-formed escape's digits decode to a harmless character: a value
/// at most `0x7F` and not the colon `0x3A`.
pub open spec fn escape_digits_safe(d: Seq<u8>) -> bool {
    let t = strip_zero_digits(d);
    ||| t.len() <= 1
    ||| (t.len() == 2 && hex_digit_val(t[0]) <= 7 && !(hex_digit_val(t[0]) == 3 && hex_digit_val(
        t[1],
    ) == 10))
}

/// A `$u<hex>$` escape starts at `i` and decodes to a colon or to a
/// character past ASCII (or to nothing the demangler accepts, counted
/// conservatively).
pub open spec fn suspicious_escape_at(s: Seq<u8>, i: int) -> bool {
    let e = crate::llvm_ir::byte_pos(s, 36, i + 2);
    &&& 0 <= i
    &&& i + 2 <= s.len()
    &&& s[i] == 36
    &&& s[i + 1] == 117
    &&& e < s.len()
    &&& e > i + 2
    &&& forall|k: int| i + 2 <= k < e ==> is_hex_byte(#[trigger] s[k])
    &&& !escape_digits_safe(s.subrange(i + 2, e))
}

/// The prefixes under which the demangler reads a name as legacy-mangled.
pub open spec fn has_legacy_prefix(s: Seq<u8>) -> bool {
    ||| (s.len() >= 3 && s[0] == 95 && s[1] == 90 && s[2] == 78)
    ||| (s.len() >= 2 && s[0] == 90 && s[1] == 78)
    ||| (s.len() >= 4 && s[0] == 95 && s[1] == 95 && s[2] == 90 && s[3] == 78)
}

/// The names kept away from the demangler: legacy-shaped ASCII names that
/// could put a colon or a multi-byte character where the hash-trimming
/// step slices.  Every name on which the demangler's trimming would slice
/// wrongly satisfies this; some harmless names with exotic escapes do too.
pub open spec fn spec_demangle_hazard(s: Seq<u8>) -> bool {
    &&& has_legacy_prefix(s)
    &&& forall|k: int| 0 <= k < s.len() ==> #[trigger] s[k] < 128
    &&& ((exists|k: int| 0 <= k < s.len() && #[trigger] s[k] == 58) || exists|i: int|
        suspicious_escape_at(s, i))
}

proof fn lemma_strip_zero_digits_skip(s: Seq<u8>, j: int)
    requires
        0 <= j <= s.len(),
        forall|k: int| 0 <= k < j ==> s[k] == 48,
        j < s.len() ==> s[j] != 48,
    ensures
        strip_zero_digits(s) == s.skip(j),
    decreases j,
{
    if j == 0 {
        assert(s.skip(0) =~= s);
    } else {
        assert(s[0] == 48);
        lemma_strip_zero_digits_skip(s.drop_first(), j - 1);
        assert(s.drop_first().skip(j - 1) =~= s.skip(j));
    }
}

/// Whether the digits of one escape are safe, executably.
fn escape_digits_safe_exec(v: &Vec<u8>, from: usize, to: usize) -> (r: bool)
    requires
        from <= to <= v@.len(),
        forall|k: int| from <= k < to ==> is_hex_byte(#[trigger] v@[k]),
    ensures
        r == escape_digits_safe(v@.subrange(from as int, to as int)),
{
    let ghost d = v@.subrange(from as int, to as int);
    let mut z: usize = from;
    while z < to && v[z] == 48
        invariant
            from <= z <= to <= v@.len(),
            forall|k: int| from <= k < z ==> v@[k] == 48,
        decreases to - z,
    {
        z = z + 1;
    }
    proof {
        assert forall|k: int| 0 <= k < z - from implies d[k] == 48 by {
            assert(d[k] == v@[k + from]);
        }
        if z < to {
            assert(d[z - from] == v@[z as int]);
        }
        lemma_strip_zero_digits_skip(d, z - from);
        assert(strip_zero_digits(d) =~= v@.subrange(z as int, to as int));
    }
    let remaining = to - z;
    if remaining <= 1 {
        return true;
    }
    if remaining == 2 {
        let hi = v[z];
        let lo = v[z + 1];
        let hi_val: u8 = if 48 <= hi && hi <= 57 {
            hi - 48
        } else if 97 <= hi && hi <= 102 {
            hi - 87
        } else {
            hi - 55
        };
        let lo_val: u8 = if 48 <= lo && lo <= 57 {
            lo - 48
        } else if 97 <= lo && lo <= 102 {
            lo - 87
        } else {
            lo - 55
        };
        proof {
            assert(strip_zero_digits(d)[0] == v@[z as int]);
            assert(strip_zero_digits(d)[1] == v@[z + 1]);
        }
        return hi_val <= 7 && !(hi_val == 3 && lo_val == 10);
    }
    false
}

/// Whether a name must be kept away from the demangler's trimming step.
pub fn demangle_hazard(v: &Vec<u8>) -> (r: bool)
    ensures
        r == spec_demangle_hazard(v@),
{
    let n = v.len();
    let legacy = (n >= 3 && v[0] == 95 && v[1] == 90 && v[2] == 78) || (n >= 2 && v[0] == 90
        && v[1] == 78) || (n >= 4 && v[0] == 95 && v[1] == 95 && v[2] == 90 && v[3] == 78);
    if !legacy {
        return false;
    }
    let mut ascii = true;
    let mut colon = false;
    let mut k: usize = 0;
    while k < n
        invariant
            0 <= k <= n,
            n == v@.len(),
            ascii == forall|t: int| 0 <= t < k ==> #[trigger] v@[t] < 128,
            colon == exists|t: int| 0 <= t < k && #[trigger] v@[t] == 58,
        decreases n - k,
    {
        let b = v[k];
        if b >= 128 {
            ascii = false;
        }
        if b == 58 {
            colon = true;
        }
        k = k + 1;
    }
    if !ascii {
        return false;
    }
    if colon {
        return true;
    }
    let mut i: usize = 0;
    while i < n
        invariant
            0 <= i <= n,
            n == v@.len(),
            has_legacy_prefix(v@),
            forall|k2: int| 0 <= k2 < n ==> #[trigger] v@[k2] < 128,
            forall|t: int| 0 <= t < i ==> !suspicious_escape_at(v@, t),
        decreases n - i,
    {
        let mut found = false;
        if i < n && i + 1 < n && v[i] == 36 && v[i + 1] == 117 {
            let e = crate::llvm_ir::find_byte(v, 36, i + 2);
            if e < n && e > i + 2 {
                let mut all_hex = true;
                let mut k2: usize = i + 2;
                while k2 < e
                    invariant
                        i + 2 <= k2 <= e <= n,
                        n == v@.len(),
                        all_hex == forall|t: int| i + 2 <= t < k2 ==> is_hex_byte(#[trigger] v@[t]),
                    decreases e - k2,
                {
                    let b = v[k2];
                    if !((48 <= b && b <= 57) || (97 <= b && b <= 102) || (65 <= b && b <= 70)) {
                        all_hex = false;
                    }
                    k2 = k2 + 1;
                }
                if all_hex && !escape_digits_safe_exec(v, i + 2, e) {
                    found = true;
                }
            }
        }
        if found {
            proof {
                assert(suspicious_escape_at(v@, i as int));
            }
            return true;
        }
        proof {
            assert(!suspicious_escape_at(v@, i as int));
        }
        i = i + 1;
    }
    proof {
        if exists|t: int| suspicious_escape_at(v@, t) {
            let t = choose|t: int| suspicious_escape_at(v@, t);
            assert(0 <= t < n);
            assert(false);
        }
    }
    false
}

/// Relies on binfarce's `SymbolName::demangle`: recognizes the legacy and
/// versioned Rust mangling schemes, falls back to returning the name
/// itself unchanged, and depends on the name alone.  Its hash-trimming
/// slices at the byte before the last colon of the demangled text, so
/// names that could put a colon or a multi-byte character there — the
/// hazardous names — are excluded here and handled by [`demangle_name`].
#[verifier::external_body]
pub(crate) fn demangle_bytes(mangled: &Vec<u8>) -> (r: DemangledName)
    requires
        !spec_demangle_hazard(mangled@),
    ensures
        r.complete@ == demangle_parts(mangled@).0,
        r.trimmed@ == demangle_parts(mangled@).1,
        match r.embedded {
            Some(c) => demangle_parts(mangled@).2 == Some(c@),
            None => demangle_parts(mangled@).2 is None,
        },
        r.scheme.code() == demangle_parts(mangled@).3,
{
    let text = String::from_utf8_lossy(mangled).into_owned();
    let sn = binfarce::demangle::SymbolName::demangle(&text);
    DemangledName {
        complete: DemangledSymbol::new(sn.complete),
        trimmed: DemangledSymbol::new(sn.trimmed),
        embedded: sn.crate_name.map(CrateName::new),
        scheme: match sn.kind {
            binfarce::demangle::Kind::Legacy => ManglingScheme::Legacy,
            binfarce::demangle::Kind::V0 => ManglingScheme::Versioned,
            binfarce::demangle::Kind::Unknown => ManglingScheme::Unknown,
        },
    }
}

/// The bytes of an ASCII name as characters.
pub open spec fn ascii_chars(s: Seq<u8>) -> Seq<char> {
    Seq::new(s.len(), |i: int| s[i] as char)
}

/// What [`demangle_name`] returns for any name: the demangler's answer,
/// except that a hazardous name is left unrecognized, its own ASCII text
/// serving as both the complete and trimmed form.
pub open spec fn demangle_total(mangled: Seq<u8>) -> (Seq<char>, Seq<char>, Option<Seq<char>>, int) {
    if spec_demangle_hazard(mangled) {
        (ascii_chars(mangled), ascii_chars(mangled), None::<Seq<char>>, 2int)
    } else {
        demangle_parts(mangled)
    }
}

/// A hazardous name is ASCII by definition, rendered character for byte.
fn ascii_fallback(v: &Vec<u8>) -> (r: String)
    requires
        forall|k: int| 0 <= k < v@.len() ==> #[trigger] v@[k] < 128,
    ensures
        r@ == ascii_chars(v@),
{
    let mut s = String::new();
    let mut i: usize = 0;
    while i < v.len()
        invariant
            0 <= i <= v@.len(),
            s@ == ascii_chars(v@).take(i as int),
        decreases v@.len() - i,
    {
        push_char(&mut s, v[i] as char);
        i = i + 1;
        proof {
            assert(s@ =~= ascii_chars(v@).take(i as int));
        }
    }
    proof {
        assert(ascii_chars(v@).take(v@.len() as int) =~= ascii_chars(v@));
    }
    s
}

/// Demangles one name, totally: hazardous names are left unrecognized
/// rather than handed to the demangler's trimming step.
pub fn demangle_name(mangled: &Vec<u8>) -> (r: DemangledName)
    ensures
        r.complete@ == demangle_total(mangled@).0,
        r.trimmed@ == demangle_total(mangled@).1,
        match r.embedded {
            Some(c) => demangle_total(mangled@).2 == Some(c@),
            None => demangle_total(mangled@).2 is None,
        },
        r.scheme.code() == demangle_total(mangled@).3,
{
    if demangle_hazard(mangled) {
        let text = ascii_fallback(mangled);
        let complete = DemangledSymbol::new(text);
        let trimmed = DemangledSymbol::from_str(complete.as_str());
        DemangledName { complete, trimmed, embedded: None, scheme: ManglingScheme::Unknown }
    } else {
        demangle_bytes(mangled)
    }
}

} // verus!
