//! Character-level utilities shared by the parsing and formatting modules.
//!
//! All textual logic in this crate is specified over `Seq<char>` views.
//! Executable code works on `Vec<char>` buffers obtained from `&str` via
//! [`str_to_chars`] and turned back into `String` via [`chars_to_string`].

use vstd::prelude::*;

verus! {

/// The decimal digits and the lowercase hex letters, as the symbol-hash
/// suffix and the LLVM name hash use them.
pub open spec fn is_hex_digit_char(c: char) -> bool {
    ('0' as u32 <= c as u32 && c as u32 <= '9' as u32) || ('a' as u32 <= c as u32 && c as u32
        <= 'f' as u32)
}

/// ASCII whitespace, as the symbol parser understands it.
pub open spec fn is_space_char(c: char) -> bool {
    c == ' ' || c == '\t' || c == '\r' || c == '\n'
}

/// `s` has `::` starting at position `i`.
pub open spec fn is_cc_at(s: Seq<char>, i: int) -> bool {
    0 <= i && i + 2 <= s.len() && s[i] == ':' && s[i + 1] == ':'
}

/// First position at or after `i` where `::` occurs, or -1.
pub open spec fn find_cc_from(s: Seq<char>, i: int) -> int
    recommends
        0 <= i,
    decreases s.len() - i when 0 <= i
{
    if i + 2 > s.len() {
        -1
    } else if is_cc_at(s, i) {
        i
    } else {
        find_cc_from(s, i + 1)
    }
}

/// `s` has the separator ` as ` starting at position `i`.
pub open spec fn is_as_at(s: Seq<char>, i: int) -> bool {
    0 <= i && i + 4 <= s.len() && s[i] == ' ' && s[i + 1] == 'a' && s[i + 2] == 's' && s[i + 3]
        == ' '
}

/// First position at or after `i` where ` as ` occurs, or -1.
pub open spec fn find_as_from(s: Seq<char>, i: int) -> int
    recommends
        0 <= i,
    decreases s.len() - i when 0 <= i
{
    if i + 4 > s.len() {
        -1
    } else if is_as_at(s, i) {
        i
    } else {
        find_as_from(s, i + 1)
    }
}

/// The characters of a string slice, in order.
pub fn str_to_chars(s: &str) -> (r: Vec<char>)
    ensures
        r@ == s@,
{
    let n: usize = s.unicode_len();
    let mut r: Vec<char> = Vec::new();
    let mut i: usize = 0;
    while i < n
        invariant
            0 <= i <= n,
            n == s@.len(),
            r@ == s@.subrange(0, i as int),
        decreases n - i,
    {
        let c = s.get_char(i);
        r.push(c);
        i = i + 1;
        proof {
            assert(r@ =~= s@.subrange(0, i as int));
        }
    }
    proof {
        assert(r@ =~= s@);
    }
    r
}

/// Relies on std's `String::push`: appends the given character to the end
/// of the string.
#[verifier::external_body]
pub(crate) fn push_char(s: &mut String, c: char)
    ensures
        final(s)@ == old(s)@ + seq![c],
{
    s.push(c);
}

/// A `String` holding exactly the given characters.
pub fn chars_to_string(v: &Vec<char>) -> (s: String)
    ensures
        s@ == v@,
{
    let mut s = String::new();
    let mut i: usize = 0;
    while i < v.len()
        invariant
            0 <= i <= v@.len(),
            s@ == v@.subrange(0, i as int),
        decreases v@.len() - i,
    {
        push_char(&mut s, v[i]);
        i = i + 1;
        proof {
            assert(s@ =~= v@.subrange(0, i as int));
        }
    }
    proof {
        assert(s@ =~= v@);
    }
    s
}

/// Whether two character buffers hold the same text.
pub fn chars_eq(a: &Vec<char>, b: &Vec<char>) -> (r: bool)
    ensures
        r == (a@ == b@),
{
    if a.len() != b.len() {
        return false;
    }
    let mut i: usize = 0;
    while i < a.len()
        invariant
            0 <= i <= a@.len(),
            a@.len() == b@.len(),
            forall|j: int| 0 <= j < i ==> a@[j] == b@[j],
        decreases a@.len() - i,
    {
        if a[i] != b[i] {
            return false;
        }
        i = i + 1;
    }
    proof {
        assert(a@ =~= b@);
    }
    true
}

/// Whether two string slices hold the same text.
pub fn str_eq(a: &str, b: &str) -> (r: bool)
    ensures
        r == (a@ == b@),
{
    let va = str_to_chars(a);
    let vb = str_to_chars(b);
    chars_eq(&va, &vb)
}

/// First position at or after `from` where `::` occurs.
pub fn find_cc(v: &Vec<char>, from: usize) -> (r: Option<usize>)
    requires
        from <= v@.len(),
    ensures
        match r {
            Some(p) => from <= p && find_cc_from(v@, from as int) == p as int,
            None => find_cc_from(v@, from as int) == -1,
        },
{
    let n = v.len();
    if n < 2 {
        return None;
    }
    let mut i: usize = from;
    while i <= n - 2
        invariant
            from <= i,
            2 <= n,
            i <= n,
            n == v@.len(),
            find_cc_from(v@, from as int) == find_cc_from(v@, i as int),
        decreases n - i,
    {
        if v[i] == ':' && v[i + 1] == ':' {
            return Some(i);
        }
        i = i + 1;
    }
    None
}

/// First position at or after `from` where ` as ` occurs.
pub fn find_as(v: &Vec<char>, from: usize) -> (r: Option<usize>)
    requires
        from <= v@.len(),
    ensures
        match r {
            Some(p) => from <= p && find_as_from(v@, from as int) == p as int,
            None => find_as_from(v@, from as int) == -1,
        },
{
    let n = v.len();
    if n < 4 {
        return None;
    }
    let mut i: usize = from;
    while i <= n - 4
        invariant
            from <= i,
            4 <= n,
            i <= n,
            n == v@.len(),
            find_as_from(v@, from as int) == find_as_from(v@, i as int),
        decreases n - i,
    {
        if v[i] == ' ' && v[i + 1] == 'a' && v[i + 2] == 's' && v[i + 3] == ' ' {
            return Some(i);
        }
        i = i + 1;
    }
    None
}

/// The subrange `[from, to)` of a character buffer.
pub fn chars_subrange(v: &Vec<char>, from: usize, to: usize) -> (r: Vec<char>)
    requires
        from <= to <= v@.len(),
    ensures
        r@ == v@.subrange(from as int, to as int),
{
    let mut r: Vec<char> = Vec::new();
    let mut i: usize = from;
    while i < to
        invariant
            from <= i <= to <= v@.len(),
            r@ == v@.subrange(from as int, i as int),
        decreases to - i,
    {
        r.push(v[i]);
        i = i + 1;
        proof {
            assert(r@ =~= v@.subrange(from as int, i as int));
        }
    }
    r
}

/// Executable mirror of [`is_hex_digit_char`].
pub fn hex_digit_char(c: char) -> (r: bool)
    ensures
        r == is_hex_digit_char(c),
{
    let u = c as u32;
    ('0' as u32 <= u && u <= '9' as u32) || ('a' as u32 <= u && u <= 'f' as u32)
}

/// Executable mirror of [`is_space_char`].
pub fn space_char(c: char) -> (r: bool)
    ensures
        r == is_space_char(c),
{
    c == ' ' || c == '\t' || c == '\r' || c == '\n'
}


/// The subrange `[from, to)` of a byte buffer.
pub fn bytes_subrange(v: &Vec<u8>, from: usize, to: usize) -> (r: Vec<u8>)
    requires
        from <= to <= v@.len(),
    ensures
        r@ == v@.subrange(from as int, to as int),
{
    let mut r: Vec<u8> = Vec::new();
    let mut i: usize = from;
    while i < to
        invariant
            from <= i <= to <= v@.len(),
            r@ == v@.subrange(from as int, i as int),
        decreases to - i,
    {
        r.push(v[i]);
        i = i + 1;
        proof {
            assert(r@ =~= v@.subrange(from as int, i as int));
        }
    }
    r
}

/// Whether two byte buffers hold the same bytes.
pub fn bytes_eq(a: &Vec<u8>, b: &Vec<u8>) -> (r: bool)
    ensures
        r == (a@ == b@),
{
    if a.len() != b.len() {
        return false;
    }
    let mut i: usize = 0;
    while i < a.len()
        invariant
            0 <= i <= a@.len(),
            a@.len() == b@.len(),
            forall|j: int| 0 <= j < i ==> a@[j] == b@[j],
        decreases a@.len() - i,
    {
        if a[i] != b[i] {
            return false;
        }
        i = i + 1;
    }
    proof {
        assert(a@ =~= b@);
    }
    true
}


/// Position of the first occurrence of `c` at or after `start`, or the
/// length of the text when there is none.
pub open spec fn char_pos(s: Seq<char>, c: char, start: int) -> int
    decreases s.len() - start when 0 <= start <= s.len()
{
    if start >= s.len() {
        start
    } else if s[start] == c {
        start
    } else {
        char_pos(s, c, start + 1)
    }
}

pub proof fn lemma_char_pos_bounds(s: Seq<char>, c: char, start: int)
    requires
        0 <= start <= s.len(),
    ensures
        start <= char_pos(s, c, start) <= s.len(),
    decreases s.len() - start,
{
    if start < s.len() && s[start] != c {
        lemma_char_pos_bounds(s, c, start + 1);
    }
}

/// Position of the first occurrence of `c` at or after `start`.
pub fn find_char(v: &Vec<char>, c: char, start: usize) -> (r: usize)
    requires
        start <= v@.len(),
    ensures
        r == char_pos(v@, c, start as int),
        start <= r <= v@.len(),
        r < v@.len() ==> v@[r as int] == c,
{
    proof {
        lemma_char_pos_bounds(v@, c, start as int);
    }
    let mut i: usize = start;
    while i < v.len() && v[i] != c
        invariant
            start <= i <= v@.len(),
            char_pos(v@, c, start as int) == char_pos(v@, c, i as int),
        decreases v@.len() - i,
    {
        i = i + 1;
    }
    i
}

/// A found occurrence of `::` is a match.
pub proof fn lemma_find_cc_is_match(s: Seq<char>, i: int)
    requires
        0 <= i,
        find_cc_from(s, i) >= 0,
    ensures
        is_cc_at(s, find_cc_from(s, i)),
        find_cc_from(s, i) >= i,
    decreases s.len() - i,
{
    if i + 2 <= s.len() && !is_cc_at(s, i) {
        lemma_find_cc_is_match(s, i + 1);
    }
}

/// A found occurrence of ` as ` is a match.
pub proof fn lemma_find_as_is_match(s: Seq<char>, i: int)
    requires
        0 <= i,
        find_as_from(s, i) >= 0,
    ensures
        is_as_at(s, find_as_from(s, i)),
        find_as_from(s, i) >= i,
    decreases s.len() - i,
{
    if i + 4 <= s.len() && !is_as_at(s, i) {
        lemma_find_as_is_match(s, i + 1);
    }
}

/// `s` has `>::` starting at position `i`.
pub open spec fn is_gcc_at(s: Seq<char>, i: int) -> bool {
    0 <= i && i + 3 <= s.len() && s[i] == '>' && s[i + 1] == ':' && s[i + 2] == ':'
}

/// First position at or after `i` where `>::` occurs, or -1.
pub open spec fn find_gcc_from(s: Seq<char>, i: int) -> int
    recommends
        0 <= i,
    decreases s.len() - i when 0 <= i
{
    if i + 3 > s.len() {
        -1
    } else if is_gcc_at(s, i) {
        i
    } else {
        find_gcc_from(s, i + 1)
    }
}

/// First position at or after `from` where `>::` occurs.
pub fn find_gcc(v: &Vec<char>, from: usize) -> (r: Option<usize>)
    requires
        from <= v@.len(),
    ensures
        match r {
            Some(p) => from <= p && find_gcc_from(v@, from as int) == p as int,
            None => find_gcc_from(v@, from as int) == -1,
        },
{
    let n = v.len();
    if n < 3 {
        return None;
    }
    let mut i: usize = from;
    while i <= n - 3
        invariant
            from <= i,
            3 <= n,
            i <= n,
            n == v@.len(),
            find_gcc_from(v@, from as int) == find_gcc_from(v@, i as int),
        decreases n - i,
    {
        if v[i] == '>' && v[i + 1] == ':' && v[i + 2] == ':' {
            return Some(i);
        }
        i = i + 1;
    }
    None
}


/// A found occurrence of `>::` is a match.
pub proof fn lemma_find_gcc_is_match(s: Seq<char>, i: int)
    requires
        0 <= i,
        find_gcc_from(s, i) >= 0,
    ensures
        is_gcc_at(s, find_gcc_from(s, i)),
        find_gcc_from(s, i) >= i,
    decreases s.len() - i,
{
    if i + 3 <= s.len() && !is_gcc_at(s, i) {
        lemma_find_gcc_is_match(s, i + 1);
    }
}

} // verus!
