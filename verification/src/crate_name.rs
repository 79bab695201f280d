//! Attributing a symbol to the compilation unit that produced it.
//!
//! The strongest signal is an exact hit in the dependency symbol index;
//! after that the resolver goes by mangling scheme, parsing the unit name
//! out of the symbol text, corroborating trait-implementation symbols
//! against the index, and otherwise naming the sentinel unknown unit.
//! Attribution never fails; the boolean beside the unit says whether the
//! answer was corroborated or guessed.

use vstd::prelude::*;

use crate::index::{index_lookup, DepsIndex};
use crate::strutil::{char_pos, chars_eq, is_cc_at, chars_subrange, chars_to_string, find_as, find_as_from,
    find_cc, find_cc_from, find_char, is_space_char, space_char, str_to_chars};
use crate::types::{CrateName, ManglingScheme, RawSymbol};

verus! {

/// The sentinel unit named when nothing can be inferred.
pub const UNKNOWN: &'static str = "[Unknown]";

/// The text of the sentinel unknown unit.
pub open spec fn spec_unknown() -> Seq<char> {
    seq!['[', 'U', 'n', 'k', 'n', 'o', 'w', 'n', ']']
}

/// The text of the umbrella standard-library unit.
pub open spec fn spec_std_name() -> Seq<char> {
    seq!['s', 't', 'd']
}

/// Whether to report each standard-library crate separately or fold them
/// all into one umbrella unit.
#[derive(Clone, Copy, Debug, PartialEq, Eq, Structural)]
pub enum StdHandling {
    Split,
    Merged,
}

/// The text with every leading `<` removed.
pub open spec fn strip_leading_lt(s: Seq<char>) -> Seq<char>
    decreases s.len(),
{
    if s.len() > 0 && s[0] == '<' {
        strip_leading_lt(s.drop_first())
    } else {
        s
    }
}

/// The text with every leading `&` removed.
pub open spec fn strip_leading_amp(s: Seq<char>) -> Seq<char>
    decreases s.len(),
{
    if s.len() > 0 && s[0] == '&' {
        strip_leading_amp(s.drop_first())
    } else {
        s
    }
}

/// The maximal run of non-whitespace characters at the end of the text.
pub open spec fn nonspace_suffix(s: Seq<char>) -> Seq<char>
    decreases s.len(),
{
    if s.len() == 0 || is_space_char(s.last()) {
        Seq::empty()
    } else {
        nonspace_suffix(s.drop_last()).push(s.last())
    }
}

/// The text with trailing whitespace removed.
pub open spec fn strip_trailing_space(s: Seq<char>) -> Seq<char>
    decreases s.len(),
{
    if s.len() > 0 && is_space_char(s.last()) {
        strip_trailing_space(s.drop_last())
    } else {
        s
    }
}

/// The last whitespace-separated token of the text, or nothing when the
/// text holds only whitespace.
pub open spec fn last_space_token(s: Seq<char>) -> Seq<char> {
    nonspace_suffix(strip_trailing_space(s))
}

/// The candidate unit name in one symbol path: the segment before the
/// first `::`, with generic decoration stripped.  A symbol without `::`
/// yields nothing; a decorated segment that is decoration only also
/// yields nothing.
pub open spec fn spec_parse_crate_from_sym(s: Seq<char>) -> Seq<char> {
    if find_cc_from(s, 0) < 0 {
        Seq::empty()
    } else {
        let first = s.take(find_cc_from(s, 0));
        if first.len() > 0 && first[0] == '<' {
            last_space_token(strip_leading_amp(strip_leading_lt(first)))
        } else {
            first
        }
    }
}

proof fn lemma_strip_leading_lt_skip(s: Seq<char>, j: int)
    requires
        0 <= j <= s.len(),
        forall|k: int| 0 <= k < j ==> s[k] == '<',
        j < s.len() ==> s[j] != '<',
    ensures
        strip_leading_lt(s) == s.skip(j),
    decreases j,
{
    if j == 0 {
        assert(s.skip(0) =~= s);
    } else {
        assert(s[0] == '<');
        lemma_strip_leading_lt_skip(s.drop_first(), j - 1);
        assert(s.drop_first().skip(j - 1) =~= s.skip(j));
    }
}

proof fn lemma_strip_leading_amp_skip(s: Seq<char>, j: int)
    requires
        0 <= j <= s.len(),
        forall|k: int| 0 <= k < j ==> s[k] == '&',
        j < s.len() ==> s[j] != '&',
    ensures
        strip_leading_amp(s) == s.skip(j),
    decreases j,
{
    if j == 0 {
        assert(s.skip(0) =~= s);
    } else {
        assert(s[0] == '&');
        lemma_strip_leading_amp_skip(s.drop_first(), j - 1);
        assert(s.drop_first().skip(j - 1) =~= s.skip(j));
    }
}

proof fn lemma_strip_trailing_space_take(s: Seq<char>, j: int)
    requires
        0 <= j <= s.len(),
        forall|k: int| j <= k < s.len() ==> is_space_char(#[trigger] s[k]),
        j > 0 ==> !is_space_char(s[j - 1]),
    ensures
        strip_trailing_space(s) == s.take(j),
    decreases s.len() - j,
{
    if j == s.len() {
        assert(s.take(j) =~= s);
    } else {
        assert(is_space_char(s.last()));
        lemma_strip_trailing_space_take(s.drop_last(), j);
        assert(s.drop_last().take(j) =~= s.take(j));
    }
}

proof fn lemma_nonspace_suffix_skip(s: Seq<char>, j: int)
    requires
        0 <= j <= s.len(),
        forall|k: int| j <= k < s.len() ==> !is_space_char(#[trigger] s[k]),
        j > 0 ==> is_space_char(s[j - 1]),
    ensures
        nonspace_suffix(s) == s.skip(j),
    decreases s.len() - j,
{
    if j == s.len() {
        assert(s.skip(j) =~= Seq::<char>::empty());
    } else {
        lemma_nonspace_suffix_skip(s.drop_last(), j);
        assert(s.drop_last().skip(j).push(s.last()) =~= s.skip(j));
    }
}

/// Extracts the candidate unit name from a symbol path, the executable
/// mirror of [`spec_parse_crate_from_sym`].
pub fn parse_crate_from_sym(sym: &str) -> (r: String)
    ensures
        r@ == spec_parse_crate_from_sym(sym@),
{
    let chars = str_to_chars(sym);
    let cc = match find_cc(&chars, 0) {
        Some(p) => {
            proof {
                crate::strutil::lemma_find_cc_is_match(chars@, 0);
            }
            p
        },
        None => {
            let empty: Vec<char> = Vec::new();
            proof {
                assert(empty@ =~= spec_parse_crate_from_sym(sym@));
            }
            return chars_to_string(&empty);
        },
    };
    let first = chars_subrange(&chars, 0, cc);
    if first.len() > 0 && first[0] == '<' {
        let n = first.len();
        let mut lt: usize = 0;
        while lt < n && first[lt] == '<'
            invariant
                0 <= lt <= n,
                n == first@.len(),
                forall|k: int| 0 <= k < lt ==> first@[k] == '<',
            decreases n - lt,
        {
            lt = lt + 1;
        }
        proof {
            lemma_strip_leading_lt_skip(first@, lt as int);
        }
        let mut amp: usize = lt;
        while amp < n && first[amp] == '&'
            invariant
                lt <= amp <= n,
                n == first@.len(),
                forall|k: int| lt <= k < amp ==> first@[k] == '&',
            decreases n - amp,
        {
            amp = amp + 1;
        }
        let ghost delt = first@.skip(lt as int);
        proof {
            assert forall|k: int| 0 <= k < amp - lt implies delt[k] == '&' by {
                assert(delt[k] == first@[k + lt]);
            }
            if amp < n {
                assert(delt[amp - lt] == first@[amp as int]);
            }
            lemma_strip_leading_amp_skip(delt, amp - lt);
            assert(delt.skip(amp - lt) =~= first@.skip(amp as int));
        }
        let stripped = chars_subrange(&first, amp, n);
        let sn = stripped.len();
        let mut e: usize = sn;
        while e > 0 && space_char(stripped[e - 1])
            invariant
                0 <= e <= sn,
                sn == stripped@.len(),
                forall|k: int| e <= k < sn ==> is_space_char(#[trigger] stripped@[k]),
            decreases e,
        {
            e = e - 1;
        }
        proof {
            lemma_strip_trailing_space_take(stripped@, e as int);
        }
        let mut b: usize = e;
        while b > 0 && !space_char(stripped[b - 1])
            invariant
                0 <= b <= e,
                e <= sn,
                sn == stripped@.len(),
                forall|k: int| b <= k < e ==> !is_space_char(#[trigger] stripped@[k]),
            decreases b,
        {
            b = b - 1;
        }
        let ghost trimmed = stripped@.take(e as int);
        proof {
            assert forall|k: int| b <= k < e implies !is_space_char(#[trigger] trimmed[k]) by {
                assert(trimmed[k] == stripped@[k]);
            }
            if b > 0 {
                assert(trimmed[b - 1] == stripped@[b - 1]);
            }
            lemma_nonspace_suffix_skip(trimmed, b as int);
            assert(trimmed.skip(b as int) =~= stripped@.subrange(b as int, e as int));
        }
        let token = chars_subrange(&stripped, b, e);
        chars_to_string(&token)
    } else {
        chars_to_string(&first)
    }
}

/// The attribution a legacy-scheme symbol text yields, together with its
/// exactness: trait-implementation symbols (`<X as Y>::f`) take the type's
/// unit when both sides agree or the index corroborates one of them, and
/// fall back to the type's side, marked inexact, when neither is known.
pub open spec fn spec_parse_sym(
    index: Seq<(Seq<char>, Seq<Seq<char>>)>,
    s: Seq<char>,
) -> (Seq<char>, bool) {
    if find_as_from(s, 0) < 0 {
        (spec_parse_crate_from_sym(s), true)
    } else {
        let p = find_as_from(s, 0);
        let part1 = s.take(p);
        let rest = s.skip(p + 4);
        let part2 = if find_as_from(rest, 0) < 0 {
            rest
        } else {
            rest.take(find_as_from(rest, 0))
        };
        let c1 = spec_parse_crate_from_sym(part1);
        let c2 = spec_parse_crate_from_sym(part2);
        if c1.len() == 0 {
            (c2, true)
        } else if c1 == c2 {
            (c1, true)
        } else {
            match index_lookup(index, s) {
                Some(units) => if units.contains(c1) {
                    (c1, true)
                } else if units.contains(c2) {
                    (c2, true)
                } else {
                    (c1, false)
                },
                None => (c1, false),
            }
        }
    }
}

/// The views of a list of unit names.
pub open spec fn names_view(v: Seq<CrateName>) -> Seq<Seq<char>> {
    v.map_values(|c: CrateName| c@)
}

/// The attribution a versioned-scheme symbol yields when it embeds no
/// unit: the parsed candidate if it is a known unit (marked inexact), the
/// unknown sentinel otherwise.
pub open spec fn spec_parse_sym_v0(
    std_crates: Seq<Seq<char>>,
    dep_crates: Seq<Seq<char>>,
    s: Seq<char>,
) -> (Seq<char>, bool) {
    let name = spec_parse_crate_from_sym(s);
    if std_crates.contains(name) || dep_crates.contains(name) {
        (name, false)
    } else {
        (spec_unknown(), true)
    }
}

/// The unit a symbol resolves to, before standard-library merging: an
/// exact index hit wins; otherwise the mangling scheme decides.
pub open spec fn spec_resolve(
    index: Seq<(Seq<char>, Seq<Seq<char>>)>,
    std_crates: Seq<Seq<char>>,
    dep_crates: Seq<Seq<char>>,
    mangled: Seq<char>,
    trimmed: Seq<char>,
    scheme: ManglingScheme,
    embedded: Option<Seq<char>>,
) -> (Seq<char>, bool) {
    match index_lookup(index, mangled) {
        Some(units) => (units[0], true),
        None => match scheme {
            ManglingScheme::Legacy => spec_parse_sym(index, mangled),
            ManglingScheme::Versioned => match embedded {
                Some(unit) => (unit, true),
                None => spec_parse_sym_v0(std_crates, dep_crates, trimmed),
            },
            ManglingScheme::Unknown => (spec_unknown(), true),
        },
    }
}

/// The final attribution: the resolved unit, folded into the umbrella
/// `std` unit when merging is on and the unit is a standard-library one.
pub open spec fn spec_from_sym(
    index: Seq<(Seq<char>, Seq<Seq<char>>)>,
    std_crates: Seq<Seq<char>>,
    dep_crates: Seq<Seq<char>>,
    handling: StdHandling,
    mangled: Seq<char>,
    trimmed: Seq<char>,
    scheme: ManglingScheme,
    embedded: Option<Seq<char>>,
) -> (Seq<char>, bool) {
    let r = spec_resolve(index, std_crates, dep_crates, mangled, trimmed, scheme, embedded);
    if handling == StdHandling::Merged && std_crates.contains(r.0) {
        (spec_std_name(), r.1)
    } else {
        r
    }
}

/// Attribution is deterministic: the same symbol resolved twice against
/// the same index and unit sets yields the identical unit and exactness.
pub proof fn lemma_resolve_deterministic(
    index1: Seq<(Seq<char>, Seq<Seq<char>>)>,
    index2: Seq<(Seq<char>, Seq<Seq<char>>)>,
    std_crates: Seq<Seq<char>>,
    dep_crates: Seq<Seq<char>>,
    handling: StdHandling,
    mangled: Seq<char>,
    trimmed: Seq<char>,
    scheme: ManglingScheme,
    embedded: Option<Seq<char>>,
)
    requires
        index1 == index2,
    ensures
        spec_from_sym(index1, std_crates, dep_crates, handling, mangled, trimmed, scheme, embedded)
            == spec_from_sym(
            index2,
            std_crates,
            dep_crates,
            handling,
            mangled,
            trimmed,
            scheme,
            embedded,
        ),
{
}

/// The sentinel unknown unit.
pub fn unknown_crate_name() -> (r: CrateName)
    ensures
        r@ == spec_unknown(),
{
    proof {
        reveal_strlit("[Unknown]");
        assert("[Unknown]"@ =~= spec_unknown());
    }
    CrateName::from_str(UNKNOWN)
}

/// Whether a list of unit names holds the given text.
fn contains_name(v: &Vec<CrateName>, name: &Vec<char>) -> (r: bool)
    ensures
        r == names_view(v@).contains(name@),
{
    let mut i: usize = 0;
    while i < v.len()
        invariant
            0 <= i <= v@.len(),
            forall|k: int| 0 <= k < i ==> (#[trigger] v@[k])@ != name@,
        decreases v@.len() - i,
    {
        let cand = str_to_chars(v[i].as_str());
        if chars_eq(&cand, name) {
            proof {
                assert(names_view(v@)[i as int] == name@);
            }
            return true;
        }
        i = i + 1;
    }
    proof {
        if names_view(v@).contains(name@) {
            let k = choose|k: int|
                0 <= k < names_view(v@).len() && names_view(v@)[k] == name@;
            assert(v@[k]@ == name@);
            assert(false);
        }
    }
    false
}

/// The legacy-scheme attribution, the executable mirror of
/// [`spec_parse_sym`].
fn parse_sym(index: &DepsIndex, sym: &str) -> (r: (String, bool))
    requires
        index.wf(),
    ensures
        (r.0@, r.1) == spec_parse_sym(index@, sym@),
{
    let chars = str_to_chars(sym);
    let as_pos = match find_as(&chars, 0) {
        Some(p) => {
            proof {
                crate::strutil::lemma_find_as_is_match(chars@, 0);
            }
            p
        },
        None => {
            let name = parse_crate_from_sym(sym);
            return (name, true);
        },
    };
    let part1 = chars_subrange(&chars, 0, as_pos);
    let n_chars = chars.len();
    let rest = chars_subrange(&chars, as_pos + 4, n_chars);
    let part2 = match find_as(&rest, 0) {
        Some(q) => {
            proof {
                crate::strutil::lemma_find_as_is_match(rest@, 0);
            }
            chars_subrange(&rest, 0, q)
        },
        None => rest,
    };
    let c1 = chars_to_string(&parse_crate_chars(&part1));
    let c2 = chars_to_string(&parse_crate_chars(&part2));
    let c1_chars = str_to_chars(c1.as_str());
    let c2_chars = str_to_chars(c2.as_str());
    if c1_chars.len() == 0 {
        (c2, true)
    } else if chars_eq(&c1_chars, &c2_chars) {
        (c1, true)
    } else {
        match index.get_vec(sym) {
            Some(units) => {
                if contains_name(units, &c1_chars) {
                    proof {
                        assert(index_lookup(index@, sym@).unwrap().contains(c1@)) by {
                            let k = choose|k: int|
                                0 <= k < names_view(units@).len() && names_view(units@)[k]
                                    == c1@;
                            assert(index_lookup(index@, sym@).unwrap()[k] == c1@);
                        }
                    }
                    (c1, true)
                } else if contains_name(units, &c2_chars) {
                    proof {
                        let us = index_lookup(index@, sym@).unwrap();
                        assert(us.contains(c2@)) by {
                            let k = choose|k: int|
                                0 <= k < names_view(units@).len() && names_view(units@)[k]
                                    == c2@;
                            assert(us[k] == c2@);
                        }
                        if us.contains(c1@) {
                            let k = choose|k: int| 0 <= k < us.len() && us[k] == c1@;
                            assert(names_view(units@)[k] == c1@);
                            assert(names_view(units@).contains(c1@));
                        }
                    }
                    (c2, true)
                } else {
                    proof {
                        let us = index_lookup(index@, sym@).unwrap();
                        if us.contains(c1@) {
                            let k = choose|k: int| 0 <= k < us.len() && us[k] == c1@;
                            assert(names_view(units@)[k] == c1@);
                        }
                        if us.contains(c2@) {
                            let k = choose|k: int| 0 <= k < us.len() && us[k] == c2@;
                            assert(names_view(units@)[k] == c2@);
                        }
                    }
                    (c1, false)
                }
            },
            None => (c1, false),
        }
    }
}

/// [`parse_crate_from_sym`] over character buffers.
fn parse_crate_chars(chars: &Vec<char>) -> (r: Vec<char>)
    ensures
        r@ == spec_parse_crate_from_sym(chars@),
{
    let s = chars_to_string(chars);
    let name = parse_crate_from_sym(s.as_str());
    str_to_chars(name.as_str())
}

/// Resolves one symbol to the unit that produced it, never failing: the
/// boolean says whether the unit was corroborated (`true`) or inferred
/// heuristically (`false`).  With `StdHandling::Merged` every
/// standard-library unit is folded into the umbrella `std` unit.
pub fn from_sym(context: &crate::types::BuildContext, std_handling: StdHandling, sym: &RawSymbol)
    -> (r: (CrateName, bool))
    requires
        context.deps_symbols.wf(),
    ensures
        (r.0@, r.1) == spec_from_sym(
            context.deps_symbols@,
            names_view(context.std_crates@),
            names_view(context.dep_crates@),
            std_handling,
            sym.mangled@,
            sym.trimmed@,
            sym.scheme,
            match sym.embedded_unit {
                Some(u) => Some(u@),
                None => None,
            },
        ),
{
    let resolved: (CrateName, bool) = match context.deps_symbols.get_first(sym.mangled.as_str()) {
        Some(unit) => (CrateName::from_str(unit.as_str()), true),
        None => {
            match sym.scheme {
                ManglingScheme::Legacy => {
                    let (name, exact) = parse_sym(&context.deps_symbols, sym.mangled.as_str());
                    (CrateName::new(name), exact)
                },
                ManglingScheme::Versioned => match &sym.embedded_unit {
                    Some(unit) => (CrateName::from_str(unit.as_str()), true),
                    None => {
                        let candidate = parse_crate_from_sym(sym.trimmed.as_str());
                        let cand_chars = str_to_chars(candidate.as_str());
                        if contains_name(&context.std_crates, &cand_chars) || contains_name(
                            &context.dep_crates,
                            &cand_chars,
                        ) {
                            (CrateName::new(candidate), false)
                        } else {
                            (unknown_crate_name(), true)
                        }
                    },
                },
                ManglingScheme::Unknown => (unknown_crate_name(), true),
            }
        },
    };
    match std_handling {
        StdHandling::Merged => {
            let name_chars = str_to_chars(resolved.0.as_str());
            if contains_name(&context.std_crates, &name_chars) {
                proof {
                    reveal_strlit("std");
                    assert("std"@ =~= spec_std_name());
                }
                (CrateName::from_str("std"), resolved.1)
            } else {
                resolved
            }
        },
        StdHandling::Split => resolved,
    }
}


/// The sentinel unit the IR-name heuristic returns.
pub open spec fn spec_unknown_ir() -> Seq<char> {
    seq!['u', 'n', 'k', 'n', 'o', 'w', 'n']
}

/// An ASCII decimal digit.
pub open spec fn is_digit_char(c: char) -> bool {
    '0' as u32 <= c as u32 && c as u32 <= '9' as u32
}

/// An ASCII letter or digit.
pub open spec fn is_alnum_char(c: char) -> bool {
    ||| is_digit_char(c)
    ||| 'a' as u32 <= c as u32 && c as u32 <= 'z' as u32
    ||| 'A' as u32 <= c as u32 && c as u32 <= 'Z' as u32
}

/// An ASCII uppercase letter.
pub open spec fn is_upper_char(c: char) -> bool {
    'A' as u32 <= c as u32 && c as u32 <= 'Z' as u32
}

/// Relating the offset form of the `::` finder to the suffix form.
proof fn lemma_find_cc_skip(s: Seq<char>, base: int, i: int)
    requires
        0 <= base <= s.len(),
        0 <= i,
        base + i <= s.len(),
    ensures
        find_cc_from(s.skip(base), i) == if find_cc_from(s, base + i) < 0 {
            -1int
        } else {
            find_cc_from(s, base + i) - base
        },
    decreases s.len() - base - i,
{
    let t = s.skip(base);
    if i + 2 > t.len() {
    } else {
        assert(is_cc_at(t, i) == is_cc_at(s, base + i)) by {
            assert(t[i] == s[base + i]);
            assert(t[i + 1] == s[base + i + 1]);
        }
        if !is_cc_at(t, i) {
            lemma_find_cc_skip(s, base, i + 1);
        }
    }
}

/// The `::`-separated segments of the text, in order; always at least one
/// segment.
pub open spec fn cc_parts(s: Seq<char>) -> Seq<Seq<char>>
    decreases s.len() via cc_parts_decreases
{
    if find_cc_from(s, 0) < 0 {
        seq![s]
    } else {
        seq![s.take(find_cc_from(s, 0))] + cc_parts(s.skip(find_cc_from(s, 0) + 2))
    }
}

#[via_fn]
proof fn cc_parts_decreases(s: Seq<char>) {
    if find_cc_from(s, 0) >= 0 {
        crate::strutil::lemma_find_cc_is_match(s, 0);
    }
}

/// The views of a list of character buffers.
pub open spec fn char_views(v: Seq<Vec<char>>) -> Seq<Seq<char>> {
    v.map_values(|b: Vec<char>| b@)
}

/// Splits a name into its `::`-separated segments.
fn split_cc(v: &Vec<char>) -> (r: Vec<Vec<char>>)
    ensures
        char_views(r@) == cc_parts(v@),
        r@.len() > 0,
{
    let vlen = v.len();
    let mut parts: Vec<Vec<char>> = Vec::new();
    let mut start: usize = 0;
    proof {
        assert(v@.skip(0) =~= v@);
        assert(char_views(parts@) + cc_parts(v@) =~= cc_parts(v@));
    }
    loop
        invariant_except_break
            0 <= start <= v@.len(),
            vlen == v@.len(),
            char_views(parts@) + cc_parts(v@.skip(start as int)) == cc_parts(v@),
        ensures
            char_views(parts@) == cc_parts(v@),
            parts@.len() > 0,
        decreases v@.len() - start,
    {
        let ghost old_parts = parts@;
        match find_cc(v, start) {
            Some(p) => {
                proof {
                    crate::strutil::lemma_find_cc_is_match(v@, start as int);
                    lemma_find_cc_skip(v@, start as int, 0);
                }
                let piece = chars_subrange(v, start, p);
                parts.push(piece);
                proof {
                    let tail = v@.skip(start as int);
                    assert(tail.take(p - start) =~= v@.subrange(start as int, p as int));
                    assert(tail.skip(p - start + 2) =~= v@.skip(p + 2));
                    assert(char_views(parts@) =~= char_views(old_parts).push(
                        v@.subrange(start as int, p as int),
                    ));
                    assert(char_views(parts@) + cc_parts(v@.skip(p + 2)) =~= char_views(old_parts)
                        + cc_parts(tail));
                    assert(p + 2 <= vlen);
                }
                start = p + 2;
            },
            None => {
                proof {
                    lemma_find_cc_skip(v@, start as int, 0);
                }
                let piece = chars_subrange(v, start, v.len());
                parts.push(piece);
                proof {
                    let tail = v@.skip(start as int);
                    assert(v@.subrange(start as int, v@.len() as int) =~= tail);
                    assert(cc_parts(tail) =~= seq![tail]);
                    assert(char_views(parts@) =~= char_views(old_parts).push(tail));
                    assert(char_views(parts@) =~= char_views(old_parts) + cc_parts(tail));
                }
                break ;
            },
        }
    }
    parts
}

/// A segment that can plausibly be a unit name: nonempty, not starting
/// with decoration or an underscore, not purely numeric, and built from
/// ASCII letters, digits and underscores only.
pub open spec fn plausible_first(p: Seq<char>) -> bool {
    &&& p.len() > 0
    &&& p[0] != '<'
    &&& p[0] != '_'
    &&& !(forall|k: int| 0 <= k < p.len() ==> is_digit_char(#[trigger] p[k]))
    &&& forall|k: int| 0 <= k < p.len() ==> is_alnum_char(#[trigger] p[k]) || p[k] == '_'
}

/// A later segment is taken only when it also does not look like a type
/// name: its first character must not be uppercase.
pub open spec fn part_ok(p: Seq<char>) -> bool {
    plausible_first(p) && !is_upper_char(p[0])
}

/// The first later segment that could be a unit name, or the sentinel.
pub open spec fn scan_parts(parts: Seq<Seq<char>>, i: int) -> Seq<char>
    decreases parts.len() - i when 0 <= i
{
    if i >= parts.len() {
        spec_unknown_ir()
    } else if part_ok(parts[i]) {
        parts[i]
    } else {
        scan_parts(parts, i + 1)
    }
}

/// One of the well-known standard-library unit names in IR text.
pub open spec fn spec_is_std_ir(p: Seq<char>) -> bool {
    ||| p == seq!['c', 'o', 'r', 'e']
    ||| p == seq!['a', 'l', 'l', 'o', 'c']
    ||| p == seq!['s', 't', 'd']
    ||| p == seq!['p', 'r', 'o', 'c', '_', 'm', 'a', 'c', 'r', 'o']
    ||| p == seq!['t', 'e', 's', 't']
}

/// The text the heuristic scans: for `<X as Y>::f` shapes the trait side
/// up to its closing bracket, for other bracketed shapes the text after
/// the first space, the name itself otherwise.
pub open spec fn spec_cleaned(s: Seq<char>) -> Seq<char> {
    if s.len() > 0 && s[0] == '<' {
        if find_as_from(s, 0) >= 0 {
            let after = s.skip(find_as_from(s, 0) + 4);
            if crate::strutil::find_gcc_from(after, 0) >= 0 {
                after.take(crate::strutil::find_gcc_from(after, 0))
            } else if char_pos(after, '>', 0) < after.len() {
                after.take(char_pos(after, '>', 0))
            } else {
                after
            }
        } else if char_pos(s, ' ', 0) < s.len() {
            s.skip(char_pos(s, ' ', 0) + 1)
        } else {
            s
        }
    } else {
        s
    }
}

/// The unit name the IR-name heuristic attributes a function to.
pub open spec fn spec_extract_crate_from_function(s: Seq<char>) -> Seq<char> {
    let parts = cc_parts(spec_cleaned(s));
    let first = parts[0];
    if spec_is_std_ir(first) {
        first
    } else if plausible_first(first) {
        first
    } else {
        scan_parts(parts, 0)
    }
}

/// Whether a segment could plausibly be a unit name, executably.
fn plausible_first_exec(p: &Vec<char>) -> (r: bool)
    ensures
        r == plausible_first(p@),
{
    let n = p.len();
    if n == 0 {
        return false;
    }
    if p[0] == '<' || p[0] == '_' {
        return false;
    }
    let mut all_digits = true;
    let mut all_ident = true;
    let mut k: usize = 0;
    while k < n
        invariant
            0 <= k <= n,
            n == p@.len(),
            all_digits == forall|t: int| 0 <= t < k ==> is_digit_char(#[trigger] p@[t]),
            all_ident == forall|t: int|
                0 <= t < k ==> is_alnum_char(#[trigger] p@[t]) || p@[t] == '_',
        decreases n - k,
    {
        let c = p[k];
        let u = c as u32;
        let digit = '0' as u32 <= u && u <= '9' as u32;
        let alnum = digit || ('a' as u32 <= u && u <= 'z' as u32) || ('A' as u32 <= u && u
            <= 'Z' as u32);
        if !digit {
            all_digits = false;
        }
        if !(alnum || c == '_') {
            all_ident = false;
        }
        k = k + 1;
    }
    !all_digits && all_ident
}

/// Whether a segment is one of the well-known standard-library units.
fn is_std_ir_exec(p: &Vec<char>) -> (r: bool)
    ensures
        r == spec_is_std_ir(p@),
{
    proof {
        reveal_strlit("core");
        reveal_strlit("alloc");
        reveal_strlit("std");
        reveal_strlit("proc_macro");
        reveal_strlit("test");
        assert("core"@ =~= seq!['c', 'o', 'r', 'e']);
        assert("alloc"@ =~= seq!['a', 'l', 'l', 'o', 'c']);
        assert("std"@ =~= seq!['s', 't', 'd']);
        assert("proc_macro"@ =~= seq!['p', 'r', 'o', 'c', '_', 'm', 'a', 'c', 'r', 'o']);
        assert("test"@ =~= seq!['t', 'e', 's', 't']);
    }
    let core_chars = str_to_chars("core");
    let alloc_chars = str_to_chars("alloc");
    let std_chars = str_to_chars("std");
    let pm_chars = str_to_chars("proc_macro");
    let test_chars = str_to_chars("test");
    chars_eq(p, &core_chars) || chars_eq(p, &alloc_chars) || chars_eq(p, &std_chars) || chars_eq(
        p,
        &pm_chars,
    ) || chars_eq(p, &test_chars)
}

/// Extracts a unit name from the demangled name of an IR function: the
/// first path segment when it is plausible, else the first later segment
/// that is, else the sentinel `unknown`.
pub fn extract_crate_from_function(func_name: &crate::types::LlvmFunctionName) -> (r: String)
    ensures
        r@ == spec_extract_crate_from_function(func_name@),
{
    let chars = str_to_chars(func_name.as_str());
    let n = chars.len();
    let cleaned: Vec<char> = if n > 0 && chars[0] == '<' {
        match find_as(&chars, 0) {
            Some(p) => {
                proof {
                    crate::strutil::lemma_find_as_is_match(chars@, 0);
                }
                let after = chars_subrange(&chars, p + 4, n);
                match crate::strutil::find_gcc(&after, 0) {
                    Some(g) => {
                        proof {
                            crate::strutil::lemma_find_gcc_is_match(after@, 0);
                        }
                        chars_subrange(&after, 0, g)
                    },
                    None => {
                        let gt = find_char(&after, '>', 0);
                        if gt < after.len() {
                            chars_subrange(&after, 0, gt)
                        } else {
                            after
                        }
                    },
                }
            },
            None => {
                let sp = find_char(&chars, ' ', 0);
                if sp < n {
                    chars_subrange(&chars, sp + 1, n)
                } else {
                    chars
                }
            },
        }
    } else {
        chars
    };
    proof {
        assert(cleaned@ == spec_cleaned(func_name@));
    }
    let parts = split_cc(&cleaned);
    let ghost pv = char_views(parts@);
    let first = &parts[0];
    proof {
        assert(pv[0] == parts@[0]@);
    }
    if is_std_ir_exec(first) {
        return chars_to_string(first);
    }
    if plausible_first_exec(first) {
        return chars_to_string(first);
    }
    let mut i: usize = 0;
    while i < parts.len()
        invariant
            0 <= i <= parts@.len(),
            pv == char_views(parts@),
            pv == cc_parts(spec_cleaned(func_name@)),
            pv.len() > 0,
            scan_parts(pv, 0) == scan_parts(pv, i as int),
            !spec_is_std_ir(pv[0]),
            !plausible_first(pv[0]),
        decreases parts@.len() - i,
    {
        let p = &parts[i];
        proof {
            assert(pv[i as int] == parts@[i as int]@);
        }
        let ok = if plausible_first_exec(p) {
            let c = p[0];
            let u = c as u32;
            !('A' as u32 <= u && u <= 'Z' as u32)
        } else {
            false
        };
        if ok {
            return chars_to_string(p);
        }
        i = i + 1;
    }
    proof {
        reveal_strlit("unknown");
        assert("unknown"@ =~= spec_unknown_ir());
    }
    let fallback = String::from_str("unknown");
    fallback
}

} // verus!
