//! Counting generic-instantiation bloat in textual IR.
//!
//! An IR dump is scanned line by line: a line starting with `define `
//! opens a function whose mangled name sits between `@` and `(`, a line
//! holding only `}` closes it and records one more copy plus the body
//! lines counted so far, and a line indented by exactly two spaces is a
//! body line.  Functions are keyed by their hash-stripped demangled name,
//! and keys met several times accumulate additively, which makes merging
//! per-file results order-independent.

use vstd::prelude::*;
use vstd::string::StringSliceAdditionalSpecFns;

use crate::demangle::{demangle_name, demangle_total};
use crate::strutil::is_hex_digit_char;
use crate::types::{has_hash_suffix, strip_hash_spec, LlvmFunction, LlvmFunctionName, LlvmIrLines,
    NumberOfCopies};

verus! {

/// Position of the first newline byte at or after `start`, or the length
/// of the data when there is none.
pub open spec fn line_end(data: Seq<u8>, start: int) -> int
    decreases data.len() - start when 0 <= start <= data.len()
{
    if start >= data.len() {
        start
    } else if data[start] == 10 {
        start
    } else {
        line_end(data, start + 1)
    }
}

pub proof fn lemma_line_end_bounds(data: Seq<u8>, start: int)
    requires
        0 <= start <= data.len(),
    ensures
        start <= line_end(data, start) <= data.len(),
    decreases data.len() - start,
{
    if start < data.len() && data[start] != 10 {
        lemma_line_end_bounds(data, start + 1);
    }
}

/// One line's text: the bytes up to the newline, with a single trailing
/// carriage return removed, as `str::lines` yields it.
pub open spec fn strip_cr(line: Seq<u8>) -> Seq<u8> {
    if line.len() > 0 && line[line.len() - 1] == 13 {
        line.drop_last()
    } else {
        line
    }
}

/// The lines of the data, in order: pieces between newline bytes, the
/// final piece kept only when nonempty, carriage returns stripped.
pub open spec fn spec_lines_from(data: Seq<u8>, start: int) -> Seq<Seq<u8>>
    decreases data.len() - start when 0 <= start <= data.len() via spec_lines_from_decreases
{
    if start >= data.len() {
        seq![]
    } else {
        let e = line_end(data, start);
        if e >= data.len() {
            seq![strip_cr(data.subrange(start, data.len() as int))]
        } else {
            seq![strip_cr(data.subrange(start, e))] + spec_lines_from(data, e + 1)
        }
    }
}

#[via_fn]
proof fn spec_lines_from_decreases(data: Seq<u8>, start: int) {
    if 0 <= start <= data.len() {
        lemma_line_end_bounds(data, start);
    }
}

pub open spec fn spec_lines(data: Seq<u8>) -> Seq<Seq<u8>> {
    spec_lines_from(data, 0)
}

/// The views of a vector of byte buffers.
pub open spec fn views_of(v: Seq<Vec<u8>>) -> Seq<Seq<u8>> {
    v.map_values(|b: Vec<u8>| b@)
}

/// Splits data into lines exactly as the spec describes them.
fn split_lines(data: &[u8]) -> (r: Vec<Vec<u8>>)
    ensures
        views_of(r@) == spec_lines(data@),
{
    let n = data.len();
    let mut out: Vec<Vec<u8>> = Vec::new();
    let mut start: usize = 0;
    while start < n
        invariant
            0 <= start <= n,
            n == data@.len(),
            views_of(out@) + spec_lines_from(data@, start as int) == spec_lines(data@),
        decreases n - start,
    {
        proof {
            lemma_line_end_bounds(data@, start as int);
        }
        let mut e: usize = start;
        while e < n && data[e] != 10
            invariant
                start <= e <= n,
                n == data@.len(),
                line_end(data@, start as int) == line_end(data@, e as int),
            decreases n - e,
        {
            e = e + 1;
        }
        let mut line: Vec<u8> = Vec::new();
        let last = if e > start && data[e - 1] == 13 {
            e - 1
        } else {
            e
        };
        let mut i: usize = start;
        while i < last
            invariant
                start <= i <= last <= n,
                n == data@.len(),
                line@ == data@.subrange(start as int, i as int),
            decreases last - i,
        {
            line.push(data[i]);
            i = i + 1;
            proof {
                assert(line@ =~= data@.subrange(start as int, i as int));
            }
        }
        proof {
            assert(line@ =~= strip_cr(data@.subrange(start as int, e as int)));
        }
        let ghost old_out = out@;
        out.push(line);
        proof {
            assert(views_of(out@) =~= views_of(old_out).push(line@));
        }
        if e >= n {
            proof {
                assert(views_of(out@) + spec_lines_from(data@, n as int) =~= views_of(old_out)
                    + spec_lines_from(data@, start as int));
            }
            start = n;
        } else {
            proof {
                assert(views_of(out@) + spec_lines_from(data@, e + 1) =~= views_of(old_out)
                    + spec_lines_from(data@, start as int));
            }
            start = e + 1;
        }
    }
    proof {
        assert(views_of(out@) + spec_lines_from(data@, start as int) =~= views_of(out@));
        assert(views_of(out@) =~= spec_lines(data@));
    }
    out
}


/// The decimal digits and lowercase hex letters, over bytes.
pub open spec fn is_hex_digit_byte(b: u8) -> bool {
    (48 <= b && b <= 57) || (97 <= b && b <= 102)
}

/// Executable mirror of [`is_hex_digit_byte`].
pub fn is_ascii_hexdigit(byte: u8) -> (r: bool)
    ensures
        r == is_hex_digit_byte(byte),
{
    (48 <= byte && byte <= 57) || (97 <= byte && byte <= 102)
}

/// Whether a demangled name still ends in `::h` plus sixteen lowercase
/// hex digits.
pub fn has_hash(name: &str) -> (r: bool)
    ensures
        r == has_hash_suffix(name@),
{
    let chars = crate::strutil::str_to_chars(name);
    let n = chars.len();
    if n < 19 {
        return false;
    }
    if !(chars[n - 19] == ':' && chars[n - 18] == ':' && chars[n - 17] == 'h') {
        return false;
    }
    let mut j: usize = n - 16;
    while j < n
        invariant
            n - 16 <= j <= n,
            n == chars@.len(),
            n >= 19,
            chars@ == name@,
            forall|k: int| n - 16 <= k < j ==> is_hex_digit_char(#[trigger] chars@[k]),
        decreases n - j,
    {
        if !crate::strutil::hex_digit_char(chars[j]) {
            return false;
        }
        j = j + 1;
    }
    true
}

/// Position of the first occurrence of `b` at or after `start`, or the
/// length of the line when there is none.
pub open spec fn byte_pos(line: Seq<u8>, b: u8, start: int) -> int
    decreases line.len() - start when 0 <= start <= line.len()
{
    if start >= line.len() {
        start
    } else if line[start] == b {
        start
    } else {
        byte_pos(line, b, start + 1)
    }
}

pub proof fn lemma_byte_pos_bounds(line: Seq<u8>, b: u8, start: int)
    requires
        0 <= start <= line.len(),
    ensures
        start <= byte_pos(line, b, start) <= line.len(),
    decreases line.len() - start,
{
    if start < line.len() && line[start] != b {
        lemma_byte_pos_bounds(line, b, start + 1);
    }
}

/// Drops every leading double-quote byte.
pub open spec fn trim_lead_quotes(s: Seq<u8>) -> Seq<u8>
    decreases s.len(),
{
    if s.len() > 0 && s[0] == 34 {
        trim_lead_quotes(s.drop_first())
    } else {
        s
    }
}

/// Drops every trailing double-quote byte.
pub open spec fn trim_trail_quotes(s: Seq<u8>) -> Seq<u8>
    decreases s.len(),
{
    if s.len() > 0 && s[s.len() - 1] == 34 {
        trim_trail_quotes(s.drop_last())
    } else {
        s
    }
}

/// The name with every leading and trailing double quote removed.
pub open spec fn trim_quotes(s: Seq<u8>) -> Seq<u8> {
    trim_trail_quotes(trim_lead_quotes(s))
}

proof fn lemma_trim_lead_skip(s: Seq<u8>, j: int)
    requires
        0 <= j <= s.len(),
        forall|k: int| 0 <= k < j ==> s[k] == 34,
        j < s.len() ==> s[j] != 34,
    ensures
        trim_lead_quotes(s) == s.skip(j),
    decreases j,
{
    if j == 0 {
        assert(s.skip(0) =~= s);
    } else {
        assert(s[0] == 34);
        lemma_trim_lead_skip(s.drop_first(), j - 1);
        assert(s.drop_first().skip(j - 1) =~= s.skip(j));
    }
}

proof fn lemma_trim_trail_take(s: Seq<u8>, j: int)
    requires
        0 <= j <= s.len(),
        forall|k: int| j <= k < s.len() ==> s[k] == 34,
        j > 0 ==> s[j - 1] != 34,
    ensures
        trim_trail_quotes(s) == s.take(j),
    decreases s.len() - j,
{
    if j == s.len() {
        assert(s.take(j) =~= s);
    } else {
        assert(s[s.len() - 1] == 34);
        lemma_trim_trail_take(s.drop_last(), j);
        assert(s.drop_last().take(j) =~= s.take(j));
    }
}

/// The mangled name a `define` line carries: the bytes between the first
/// `@` and the next `(`, with surrounding quotes removed; nothing when
/// either marker is missing.
pub open spec fn spec_mangled_of_line(l: Seq<u8>) -> Option<Seq<u8>> {
    let a = byte_pos(l, 64, 0);
    if a >= l.len() {
        None
    } else {
        let p = byte_pos(l, 40, a + 1);
        if p >= l.len() {
            None
        } else {
            Some(trim_quotes(l.subrange(a + 1, p)))
        }
    }
}

/// The key a mangled name is counted under: its demangled, trimmed form
/// with the hash suffix stripped.
pub open spec fn llvm_key(mangled: Seq<u8>) -> Seq<char> {
    strip_hash_spec(demangle_total(mangled).1)
}

/// Position of the first occurrence of `b` at or after `start`.
pub(crate) fn find_byte(line: &Vec<u8>, b: u8, start: usize) -> (r: usize)
    requires
        start <= line@.len(),
    ensures
        r == byte_pos(line@, b, start as int),
        start <= r <= line@.len(),
        r < line@.len() ==> line@[r as int] == b,
{
    proof {
        lemma_byte_pos_bounds(line@, b, start as int);
    }
    let mut i: usize = start;
    while i < line.len() && line[i] != b
        invariant
            start <= i <= line@.len(),
            byte_pos(line@, b, start as int) == byte_pos(line@, b, i as int),
        decreases line@.len() - i,
    {
        i = i + 1;
    }
    i
}

/// Extracts the mangled name from a `define` line.
fn mangled_of_line(line: &Vec<u8>) -> (r: Option<Vec<u8>>)
    ensures
        match r {
            Some(m) => spec_mangled_of_line(line@) == Some(m@),
            None => spec_mangled_of_line(line@) is None,
        },
{
    let a = find_byte(line, 64, 0);
    if a >= line.len() {
        return None;
    }
    let p = find_byte(line, 40, a + 1);
    if p >= line.len() {
        return None;
    }
    let raw = crate::strutil::bytes_subrange(line, a + 1, p);
    let n = raw.len();
    let mut lo: usize = 0;
    while lo < n && raw[lo] == 34
        invariant
            0 <= lo <= n,
            n == raw@.len(),
            forall|k: int| 0 <= k < lo ==> raw@[k] == 34,
        decreases n - lo,
    {
        lo = lo + 1;
    }
    proof {
        lemma_trim_lead_skip(raw@, lo as int);
    }
    let mut hi: usize = n;
    while hi > lo && raw[hi - 1] == 34
        invariant
            lo <= hi <= n,
            n == raw@.len(),
            forall|k: int| hi <= k < n ==> raw@[k] == 34,
        decreases hi,
    {
        hi = hi - 1;
    }
    let ghost lead = raw@.skip(lo as int);
    proof {
        if hi > lo {
            lemma_trim_trail_take(lead, hi - lo);
        } else {
            lemma_trim_trail_take(lead, 0);
        }
        assert(lead.take(hi - lo) =~= raw@.subrange(lo as int, hi as int));
    }
    let out = crate::strutil::bytes_subrange(&raw, lo, hi);
    proof {
        assert(trim_quotes(raw@) == out@);
    }
    Some(out)
}


/// A `define ` line opens a function definition.
pub open spec fn starts_with_define(l: Seq<u8>) -> bool {
    l.len() >= 7 && l[0] == 100 && l[1] == 101 && l[2] == 102 && l[3] == 105 && l[4] == 110
        && l[5] == 101 && l[6] == 32
}

/// A line holding exactly `}` closes the current definition.
pub open spec fn is_close_line(l: Seq<u8>) -> bool {
    l.len() == 1 && l[0] == 125
}

/// A line indented by exactly two spaces counts as one body line.
pub open spec fn is_body_line(l: Seq<u8>) -> bool {
    l.len() >= 2 && l[0] == 32 && l[1] == 32 && !(l.len() >= 3 && l[2] == 32)
}

/// The completed definitions that scanning the lines from position `i`
/// onward emits, given the currently open definition and the running body
/// line count: pairs of the mangled name and the body lines recorded when
/// the definition closed.
pub open spec fn spec_defs(lines: Seq<Seq<u8>>, i: int, cur: Option<Seq<u8>>, count: nat) -> Seq<
    (Seq<u8>, nat),
>
    decreases lines.len() - i when 0 <= i
{
    if i >= lines.len() {
        seq![]
    } else {
        let l = lines[i];
        if starts_with_define(l) {
            spec_defs(lines, i + 1, spec_mangled_of_line(l), count)
        } else if is_close_line(l) {
            match cur {
                Some(m) => seq![(m, count)] + spec_defs(lines, i + 1, None, 0),
                None => spec_defs(lines, i + 1, None, 0),
            }
        } else if is_body_line(l) {
            spec_defs(lines, i + 1, cur, count + 1)
        } else {
            spec_defs(lines, i + 1, cur, count)
        }
    }
}

/// Total body lines and copy count that a run of definitions contributes
/// to one key.
pub open spec fn defs_stats(defs: Seq<(Seq<u8>, nat)>, key: Seq<char>) -> (nat, nat)
    decreases defs.len(),
{
    if defs.len() == 0 {
        (0, 0)
    } else {
        let rest = defs_stats(defs.drop_first(), key);
        if llvm_key(defs[0].0) == key {
            ((defs[0].1 + rest.0) as nat, (1 + rest.1) as nat)
        } else {
            rest
        }
    }
}

/// The per-key totals of one IR dump.
pub open spec fn spec_ir_stats(data: Seq<u8>, key: Seq<char>) -> (nat, nat) {
    defs_stats(spec_defs(spec_lines(data), 0, None, 0), key)
}

/// Componentwise sum of two (lines, copies) pairs.
pub open spec fn add_stats(a: (nat, nat), b: (nat, nat)) -> (nat, nat) {
    ((a.0 + b.0) as nat, (a.1 + b.1) as nat)
}

/// Emitted totals are bounded by the running count plus one line or copy
/// per remaining line.
pub proof fn lemma_defs_stats_bound(
    lines: Seq<Seq<u8>>,
    i: int,
    cur: Option<Seq<u8>>,
    count: nat,
    key: Seq<char>,
)
    requires
        0 <= i <= lines.len(),
    ensures
        defs_stats(spec_defs(lines, i, cur, count), key).0 <= count + lines.len() - i,
        defs_stats(spec_defs(lines, i, cur, count), key).1 <= lines.len() - i,
    decreases lines.len() - i,
{
    if i < lines.len() {
        let l = lines[i];
        if starts_with_define(l) {
            lemma_defs_stats_bound(lines, i + 1, spec_mangled_of_line(l), count, key);
        } else if is_close_line(l) {
            lemma_defs_stats_bound(lines, i + 1, None, 0, key);
            if cur is Some {
                let rest = spec_defs(lines, i + 1, None, 0);
                assert((seq![(cur->Some_0, count)] + rest).drop_first() =~= rest);
            }
        } else if is_body_line(l) {
            lemma_defs_stats_bound(lines, i + 1, cur, count + 1, key);
        } else {
            lemma_defs_stats_bound(lines, i + 1, cur, count, key);
        }
    }
}

/// The view of one map entry: name, total lines, copies.
pub open spec fn entry_view(f: LlvmFunction) -> (Seq<char>, nat, nat) {
    (f.name@, f.lines.0 as nat, f.copies.0 as nat)
}

/// What a sequence of entries says about one key: the first matching
/// entry's totals, or zero when no entry matches.
pub open spec fn stats_in(v: Seq<(Seq<char>, nat, nat)>, key: Seq<char>) -> (nat, nat)
    decreases v.len(),
{
    if v.len() == 0 {
        (0, 0)
    } else if v[0].0 == key {
        (v[0].1, v[0].2)
    } else {
        stats_in(v.drop_first(), key)
    }
}

/// Whether some entry carries the key.
pub open spec fn has_key(v: Seq<(Seq<char>, nat, nat)>, key: Seq<char>) -> bool {
    exists|i: int| 0 <= i < v.len() && (#[trigger] v[i]).0 == key
}

pub proof fn lemma_stats_in_absent(v: Seq<(Seq<char>, nat, nat)>, key: Seq<char>)
    requires
        !has_key(v, key),
    ensures
        stats_in(v, key) == (0nat, 0nat),
    decreases v.len(),
{
    if v.len() > 0 {
        assert(v[0].0 != key);
        assert(!has_key(v.drop_first(), key)) by {
            assert forall|i: int| 0 <= i < v.drop_first().len() implies (#[trigger] v.drop_first()[
                i
            ]).0 != key by {
                assert(v.drop_first()[i] == v[i + 1]);
            }
        }
        lemma_stats_in_absent(v.drop_first(), key);
    }
}

/// Keys are pairwise distinct.
pub open spec fn unique_keys(v: Seq<(Seq<char>, nat, nat)>) -> bool {
    forall|i: int, j: int| 0 <= i < j < v.len() ==> (#[trigger] v[i]).0 != (#[trigger] v[j]).0
}

pub proof fn lemma_stats_in_at(v: Seq<(Seq<char>, nat, nat)>, j: int)
    requires
        unique_keys(v),
        0 <= j < v.len(),
    ensures
        stats_in(v, v[j].0) == (v[j].1, v[j].2),
    decreases v.len(),
{
    if j == 0 {
    } else {
        assert(v[0].0 != v[j].0);
        assert(unique_keys(v.drop_first())) by {
            assert forall|a: int, b: int|
                0 <= a < b < v.drop_first().len() implies (#[trigger] v.drop_first()[a]).0 != (
            #[trigger] v.drop_first()[b]).0 by {
                assert(v.drop_first()[a] == v[a + 1]);
                assert(v.drop_first()[b] == v[b + 1]);
            }
        }
        assert(v.drop_first()[j - 1] == v[j]);
        lemma_stats_in_at(v.drop_first(), j - 1);
    }
}

/// The functions found in IR text, keyed by hash-stripped demangled name,
/// each key held once.
pub struct LlvmFunctionMap {
    items: Vec<LlvmFunction>,
}

impl View for LlvmFunctionMap {
    type V = Seq<(Seq<char>, nat, nat)>;

    closed spec fn view(&self) -> Seq<(Seq<char>, nat, nat)> {
        self.items@.map_values(|f: LlvmFunction| entry_view(f))
    }
}

impl LlvmFunctionMap {
    /// Every key appears at most once.
    pub open spec fn wf(&self) -> bool {
        unique_keys(self@)
    }

    /// The totals recorded under one key.
    pub open spec fn stats(&self, key: Seq<char>) -> (nat, nat) {
        stats_in(self@, key)
    }

    pub fn new() -> (r: Self)
        ensures
            r.wf(),
            r@.len() == 0,
            forall|key: Seq<char>| #[trigger] r.stats(key) == (0nat, 0nat),
    {
        LlvmFunctionMap { items: Vec::new() }
    }

    /// How many distinct functions were recorded.
    pub fn len(&self) -> (r: usize)
        ensures
            r == self@.len(),
    {
        self.items.len()
    }

    /// The recorded functions, in first-seen order.
    pub fn entries(&self) -> (r: &Vec<LlvmFunction>)
        ensures
            r@.map_values(|f: LlvmFunction| entry_view(f)) == self@,
    {
        &self.items
    }

    /// The entry recorded under a name, if any.
    pub fn get(&self, name: &str) -> (r: Option<&LlvmFunction>)
        requires
            self.wf(),
        ensures
            match r {
                Some(f) => f.name@ == name@ && self.stats(name@) == (
                    f.lines.0 as nat,
                    f.copies.0 as nat,
                ),
                None => self.stats(name@) == (0nat, 0nat),
            },
    {
        let key = crate::strutil::str_to_chars(name);
        let mut j: usize = 0;
        while j < self.items.len()
            invariant
                0 <= j <= self.items@.len(),
                key@ == name@,
                unique_keys(self@),
                self@ == self.items@.map_values(|f: LlvmFunction| entry_view(f)),
                forall|k: int| 0 <= k < j ==> (#[trigger] self@[k]).0 != name@,
            decreases self.items@.len() - j,
        {
            let cand = crate::strutil::str_to_chars(self.items[j].name.as_str());
            if crate::strutil::chars_eq(&key, &cand) {
                proof {
                    lemma_stats_in_at(self@, j as int);
                }
                return Some(&self.items[j]);
            }
            j = j + 1;
        }
        proof {
            lemma_stats_in_absent(self@, name@);
        }
        None
    }

    /// Adds `lines` body lines and `copies` copies under the given name.
    fn record(&mut self, name: LlvmFunctionName, lines: usize, copies: usize) -> (r: ())
        requires
            old(self).wf(),
            old(self).stats(name@).0 + lines <= usize::MAX,
            old(self).stats(name@).1 + copies <= usize::MAX,
        ensures
            final(self).wf(),
            final(self).stats(name@) == add_stats(
                old(self).stats(name@),
                (lines as nat, copies as nat),
            ),
            forall|key: Seq<char>|
                key != name@ ==> #[trigger] final(self).stats(key) == old(self).stats(key),
    {
        let ghost old_view = self@;
        let key = crate::strutil::str_to_chars(name.as_str());
        let mut j: usize = 0;
        while j < self.items.len()
            invariant
                0 <= j <= self.items@.len(),
                key@ == name@,
                unique_keys(old_view),
                self@ == old_view,
                self.items@ == old(self).items@,
                old(self).stats(name@).0 + lines <= usize::MAX,
                old(self).stats(name@).1 + copies <= usize::MAX,
                forall|k: int| 0 <= k < j ==> (#[trigger] self@[k]).0 != name@,
            decreases self.items@.len() - j,
        {
            let cand = crate::strutil::str_to_chars(self.items[j].name.as_str());
            if crate::strutil::chars_eq(&key, &cand) {
                proof {
                    lemma_stats_in_at(old_view, j as int);
                }
                let new_lines = self.items[j].lines.value() + lines;
                let new_copies = self.items[j].copies.value() + copies;
                self.items[j].lines = LlvmIrLines::new(new_lines);
                self.items[j].copies = NumberOfCopies::new(new_copies);
                proof {
                    assert(self@ =~= old_view.update(
                        j as int,
                        (name@, new_lines as nat, new_copies as nat),
                    ));
                    assert(unique_keys(self@));
                    lemma_stats_in_at(self@, j as int);
                    assert forall|k: Seq<char>| k != name@ implies #[trigger] stats_in(self@, k)
                        == stats_in(old_view, k) by {
                        if has_key(old_view, k) {
                            let i = choose|i: int|
                                0 <= i < old_view.len() && (#[trigger] old_view[i]).0 == k;
                            lemma_stats_in_at(old_view, i);
                            lemma_stats_in_at(self@, i);
                        } else {
                            lemma_stats_in_absent(old_view, k);
                            assert(!has_key(self@, k)) by {
                                assert forall|i: int|
                                    0 <= i < self@.len() implies (#[trigger] self@[i]).0 != k by {
                                    if i != j {
                                        assert(self@[i] == old_view[i]);
                                    }
                                }
                            }
                            lemma_stats_in_absent(self@, k);
                        }
                    }
                }
                return ;
            }
            j = j + 1;
        }
        proof {
            lemma_stats_in_absent(old_view, name@);
        }
        self.items.push(
            LlvmFunction {
                name,
                lines: LlvmIrLines::new(lines),
                copies: NumberOfCopies::new(copies),
            },
        );
        proof {
            let ghost nv = self@;
            assert(nv =~= old_view.push((name@, lines as nat, copies as nat)));
            assert(unique_keys(nv)) by {
                assert forall|a: int, b: int| 0 <= a < b < nv.len() implies (#[trigger] nv[a]).0
                    != (#[trigger] nv[b]).0 by {
                    if b < nv.len() - 1 {
                        assert(nv[a] == old_view[a] && nv[b] == old_view[b]);
                    } else {
                        assert(nv[a] == old_view[a]);
                    }
                }
            }
            lemma_stats_in_at(nv, nv.len() - 1);
            assert forall|k: Seq<char>| k != name@ implies #[trigger] stats_in(nv, k) == stats_in(
                old_view,
                k,
            ) by {
                if has_key(old_view, k) {
                    let i = choose|i: int|
                        0 <= i < old_view.len() && (#[trigger] old_view[i]).0 == k;
                    lemma_stats_in_at(old_view, i);
                    assert(nv[i] == old_view[i]);
                    lemma_stats_in_at(nv, i);
                } else {
                    lemma_stats_in_absent(old_view, k);
                    assert(!has_key(nv, k)) by {
                        assert forall|i: int| 0 <= i < nv.len() implies (#[trigger] nv[i]).0
                            != k by {
                            if i < nv.len() - 1 {
                                assert(nv[i] == old_view[i]);
                            }
                        }
                    }
                    lemma_stats_in_absent(nv, k);
                }
            }
        }
    }
}


impl LlvmFunction {
    /// Records one more copy of this function and adds its body lines.
    pub fn record_lines(&mut self, lines: usize) -> (r: ())
        requires
            old(self).lines.0 + lines <= usize::MAX,
            old(self).copies.0 + 1 <= usize::MAX,
        ensures
            final(self).name == old(self).name,
            final(self).lines.0 == old(self).lines.0 + lines,
            final(self).copies.0 == old(self).copies.0 + 1,
    {
        self.copies = NumberOfCopies::new(self.copies.value() + 1);
        self.lines = LlvmIrLines::new(self.lines.value() + lines);
    }
}

/// The view of an optional byte buffer.
pub open spec fn opt_bytes_view(o: Option<Vec<u8>>) -> Option<Seq<u8>> {
    match o {
        Some(v) => Some(v@),
        None => None,
    }
}

/// The key a mangled name is counted under, executably: demangle, then
/// strip the hash suffix from the trimmed form.
fn key_of_mangled(m: &Vec<u8>) -> (r: LlvmFunctionName)
    ensures
        r@ == llvm_key(m@),
{
    let dn = demangle_name(m);
    let stripped = dn.trimmed.strip_hash();
    LlvmFunctionName::new(stripped.as_str().to_owned())
}

/// Extracts and normalizes the function name of a `define` line: the
/// mangled name between `@` and `(`, demangled and hash-stripped.
pub fn parse_function_name(line: &str) -> (r: Option<LlvmFunctionName>)
    ensures
        match r {
            Some(f) => spec_mangled_of_line(line.spec_bytes()) matches Some(m) && f@ == llvm_key(
                m,
            ),
            None => spec_mangled_of_line(line.spec_bytes()) is None,
        },
{
    let bytes = line.as_bytes_vec();
    match mangled_of_line(&bytes) {
        Some(m) => Some(key_of_mangled(&m)),
        None => None,
    }
}

fn is_define_line(l: &Vec<u8>) -> (r: bool)
    ensures
        r == starts_with_define(l@),
{
    l.len() >= 7 && l[0] == 100 && l[1] == 101 && l[2] == 102 && l[3] == 105 && l[4] == 110 && l[5]
        == 101 && l[6] == 32
}

/// Scans one IR dump and returns, per hash-stripped demangled function
/// name, the total body lines and the number of copies, exactly as the
/// line-by-line model defines them.
pub fn analyze_llvm_ir_data(ir: &[u8]) -> (r: LlvmFunctionMap)
    ensures
        r.wf(),
        forall|key: Seq<char>| #[trigger] r.stats(key) == spec_ir_stats(ir@, key),
{
    let lines = split_lines(ir);
    let ghost lv = views_of(lines@);
    let mut map = LlvmFunctionMap::new();
    let mut cur: Option<Vec<u8>> = None;
    let mut count: usize = 0;
    let mut i: usize = 0;
    while i < lines.len()
        invariant
            0 <= i <= lines@.len(),
            lv == views_of(lines@),
            lv == spec_lines(ir@),
            map.wf(),
            count <= i,
            forall|key: Seq<char>|
                add_stats(
                    #[trigger] map.stats(key),
                    defs_stats(spec_defs(lv, i as int, opt_bytes_view(cur), count as nat), key),
                ) == defs_stats(spec_defs(lv, 0, None, 0), key),
        decreases lines@.len() - i,
    {
        let line = &lines[i];
        proof {
            assert(lv[i as int] == lines@[i as int]@);
        }
        if is_define_line(line) {
            let parsed = mangled_of_line(line);
            proof {
                assert(spec_defs(lv, i as int, opt_bytes_view(cur), count as nat) == spec_defs(
                    lv,
                    i as int + 1,
                    spec_mangled_of_line(lv[i as int]),
                    count as nat,
                ));
            }
            cur = parsed;
        } else if line.len() == 1 && line[0] == 125 {
            assert(is_close_line(lv[i as int]));
            let prev = cur;
            cur = None;
            match prev {
                Some(m) => {
                    let ghost k = llvm_key(m@);
                    let ghost rest = spec_defs(lv, i as int + 1, None, 0);
                    let ghost tocome = seq![(m@, count as nat)] + rest;
                    proof {
                        assert(spec_defs(lv, i as int, Some(m@), count as nat) == tocome);
                        assert(tocome.drop_first() =~= rest);
                        assert(defs_stats(tocome, k) == ((count + defs_stats(rest, k).0) as nat, (
                        1 + defs_stats(rest, k).1) as nat));
                        lemma_defs_stats_bound(lv, 0, None, 0nat, k);
                        assert(map.stats(k).0 + count <= lv.len());
                        assert(map.stats(k).1 + 1 <= lv.len());
                        assert(lv.len() == lines@.len());
                    }
                    let name = key_of_mangled(&m);
                    let ghost before = map.stats(k);
                    map.record(name, count, 1);
                    proof {
                        assert forall|key: Seq<char>|
                            add_stats(
                                #[trigger] map.stats(key),
                                defs_stats(rest, key),
                            ) == defs_stats(spec_defs(lv, 0, None, 0), key) by {
                            if key == k {
                                assert(map.stats(key) == add_stats(
                                    before,
                                    (count as nat, 1nat),
                                ));
                            } else {
                                assert(defs_stats(tocome, key) == defs_stats(rest, key));
                            }
                        }
                    }
                },
                None => {
                    proof {
                        assert(spec_defs(lv, i as int, opt_bytes_view(None), count as nat)
                            == spec_defs(lv, i as int + 1, None, 0));
                    }
                },
            }
            count = 0;
        } else if line.len() >= 2 && line[0] == 32 && line[1] == 32 && !(line.len() >= 3 && line[2]
            == 32) {
            assert(is_body_line(lv[i as int]));
            proof {
                assert(spec_defs(lv, i as int, opt_bytes_view(cur), count as nat) == spec_defs(
                    lv,
                    i as int + 1,
                    opt_bytes_view(cur),
                    count as nat + 1,
                ));
            }
            count = count + 1;
        } else {
            proof {
                assert(!starts_with_define(lv[i as int]));
                assert(!is_close_line(lv[i as int]));
                assert(!is_body_line(lv[i as int]));
                assert(spec_defs(lv, i as int, opt_bytes_view(cur), count as nat) == spec_defs(
                    lv,
                    i as int + 1,
                    opt_bytes_view(cur),
                    count as nat,
                ));
            }
        }
        i = i + 1;
    }
    proof {
        assert forall|key: Seq<char>| #[trigger] map.stats(key) == spec_ir_stats(ir@, key) by {
            assert(spec_defs(lv, i as int, opt_bytes_view(cur), count as nat) =~= Seq::<(
                Seq<u8>,
                nat,
            )>::empty());
            assert(defs_stats(spec_defs(lv, i as int, opt_bytes_view(cur), count as nat), key)
                == (0nat, 0nat));
        }
    }
    map
}

impl LlvmFunctionMap {
    /// Adds every entry of `other` into this map; totals accumulate
    /// additively per key.
    pub fn merge_from(&mut self, other: &LlvmFunctionMap) -> (r: ())
        requires
            old(self).wf(),
            other.wf(),
            forall|key: Seq<char>|
                (#[trigger] old(self).stats(key)).0 + other.stats(key).0 <= usize::MAX
                    && old(self).stats(key).1 + other.stats(key).1 <= usize::MAX,
        ensures
            final(self).wf(),
            forall|key: Seq<char>|
                #[trigger] final(self).stats(key) == add_stats(
                    old(self).stats(key),
                    other.stats(key),
                ),
    {
        let ghost ov = other@;
        let mut j: usize = 0;
        while j < other.items.len()
            invariant
                0 <= j <= other.items@.len(),
                ov == other@,
                unique_keys(ov),
                self.wf(),
                forall|key: Seq<char>|
                    (#[trigger] old(self).stats(key)).0 + stats_in(ov, key).0 <= usize::MAX
                        && old(self).stats(key).1 + stats_in(ov, key).1 <= usize::MAX,
                forall|key: Seq<char>|
                    #[trigger] self.stats(key) == add_stats(
                        old(self).stats(key),
                        stats_in(ov.take(j as int), key),
                    ),
            decreases other.items@.len() - j,
        {
            let entry = &other.items[j];
            let name = LlvmFunctionName::new(entry.name.as_str().to_owned());
            let add_lines = entry.lines.value();
            let add_copies = entry.copies.value();
            let ghost k = ov[j as int].0;
            proof {
                assert(ov[j as int] == entry_view(other.items@[j as int]));
                assert(name@ == k && add_lines == ov[j as int].1 && add_copies == ov[
                j as int].2);
                lemma_stats_in_at(ov, j as int);
                assert(!has_key(ov.take(j as int), k)) by {
                    assert forall|t: int| 0 <= t < j implies (#[trigger] ov.take(j as int)[t]).0
                        != k by {
                        assert(ov.take(j as int)[t] == ov[t]);
                    }
                }
                lemma_stats_in_absent(ov.take(j as int), k);
                assert(self.stats(k) == old(self).stats(k));
            }
            let ghost before = self.stats(k);
            self.record(name, add_lines, add_copies);
            proof {
                assert forall|key: Seq<char>|
                    #[trigger] self.stats(key) == add_stats(
                        old(self).stats(key),
                        stats_in(ov.take(j as int + 1), key),
                    ) by {
                    let prev = ov.take(j as int);
                    let now = ov.take(j as int + 1);
                    assert(unique_keys(now)) by {
                        assert forall|a: int, b: int| 0 <= a < b < now.len() implies (
                        #[trigger] now[a]).0 != (#[trigger] now[b]).0 by {
                            assert(now[a] == ov[a] && now[b] == ov[b]);
                        }
                    }
                    if key == k {
                        lemma_stats_in_at(now, j as int);
                        lemma_stats_in_absent(prev, k);
                    } else {
                        if has_key(now, key) {
                            let t = choose|t: int|
                                0 <= t < now.len() && (#[trigger] now[t]).0 == key;
                            assert(now[t] == ov[t] && prev[t] == ov[t]);
                            lemma_stats_in_at(now, t);
                            assert(unique_keys(prev)) by {
                                assert forall|a: int, b: int|
                                    0 <= a < b < prev.len() implies (#[trigger] prev[a]).0 != (
                                #[trigger] prev[b]).0 by {
                                    assert(prev[a] == ov[a] && prev[b] == ov[b]);
                                }
                            }
                            lemma_stats_in_at(prev, t);
                        } else {
                            lemma_stats_in_absent(now, key);
                            assert(!has_key(prev, key)) by {
                                assert forall|t: int| 0 <= t < prev.len() implies (
                                #[trigger] prev[t]).0 != key by {
                                    assert(prev[t] == now[t]);
                                }
                            }
                            lemma_stats_in_absent(prev, key);
                        }
                    }
                }
            }
            j = j + 1;
        }
        proof {
            assert(ov.take(j as int) =~= ov);
        }
    }
}

/// The per-key totals of a whole set of IR files: the sum of each file's
/// totals.
pub open spec fn total_ir_stats(files: Seq<Seq<u8>>, key: Seq<char>) -> (nat, nat)
    decreases files.len(),
{
    if files.len() == 0 {
        (0, 0)
    } else {
        add_stats(total_ir_stats(files.drop_last(), key), spec_ir_stats(files.last(), key))
    }
}

proof fn lemma_total_prepend(f: Seq<u8>, files: Seq<Seq<u8>>, key: Seq<char>)
    ensures
        total_ir_stats(seq![f] + files, key) == add_stats(
            spec_ir_stats(f, key),
            total_ir_stats(files, key),
        ),
    decreases files.len(),
{
    if files.len() == 0 {
        assert((seq![f] + files) =~= seq![f]);
        assert(seq![f].drop_last() =~= Seq::<Seq<u8>>::empty());
        assert(total_ir_stats(seq![f].drop_last(), key) == (0nat, 0nat));
        assert(seq![f].last() == f);
        assert(total_ir_stats(files, key) == (0nat, 0nat));
        assert(total_ir_stats(seq![f] + files, key).0 == add_stats(
            spec_ir_stats(f, key),
            total_ir_stats(files, key),
        ).0);
        assert(total_ir_stats(seq![f] + files, key).1 == add_stats(
            spec_ir_stats(f, key),
            total_ir_stats(files, key),
        ).1);
    } else {
        assert((seq![f] + files).drop_last() =~= seq![f] + files.drop_last());
        assert((seq![f] + files).last() == files.last());
        lemma_total_prepend(f, files.drop_last(), key);
        assert(total_ir_stats(seq![f] + files, key).0 == add_stats(
            spec_ir_stats(f, key),
            total_ir_stats(files, key),
        ).0);
        assert(total_ir_stats(seq![f] + files, key).1 == add_stats(
            spec_ir_stats(f, key),
            total_ir_stats(files, key),
        ).1);
    }
}

/// Merge order does not matter: a set of IR files analyzed in reverse
/// order yields the same per-function totals as the original order.
pub proof fn lemma_ir_order_irrelevant(files: Seq<Seq<u8>>, key: Seq<char>)
    ensures
        total_ir_stats(files.reverse(), key) == total_ir_stats(files, key),
    decreases files.len(),
{
    if files.len() > 0 {
        assert(files.reverse() =~= seq![files.last()] + files.drop_last().reverse());
        lemma_total_prepend(files.last(), files.drop_last().reverse(), key);
        lemma_ir_order_irrelevant(files.drop_last(), key);
    }
}

} // verus!
