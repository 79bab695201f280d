//! Naming rules for toolchain artifacts.
//!
//! Discovering the standard-library directory and walking it belong to
//! the layer around the library; turning one archive file name into its
//! crate name is pure text logic and lives here.

use vstd::prelude::*;

use crate::strutil::{char_pos, chars_subrange, chars_to_string, find_char, str_to_chars};
use crate::types::CrateName;

verus! {

/// Position of the last occurrence of `c`, or -1.
pub open spec fn last_char_pos(s: Seq<char>, c: char) -> int
    decreases s.len(),
{
    if s.len() == 0 {
        -1
    } else if s.last() == c {
        s.len() - 1
    } else {
        last_char_pos(s.drop_last(), c)
    }
}

proof fn lemma_last_char_pos(s: Seq<char>, c: char, j: int)
    requires
        -1 <= j < s.len(),
        j >= 0 ==> s[j] == c,
        forall|k: int| j < k < s.len() ==> s[k] != c,
    ensures
        last_char_pos(s, c) == j,
    decreases s.len(),
{
    if s.len() > 0 {
        if j == s.len() - 1 {
        } else {
            assert(s.last() != c);
            lemma_last_char_pos(s.drop_last(), c, j);
        }
    }
}

/// The crate name an archive file name encodes: the stem up to the last
/// dot, cut at the first dash, with the three-character `lib` prefix
/// removed; nothing is left of a name too short to carry one.
pub open spec fn spec_rlib_to_crate(name: Seq<char>) -> Seq<char> {
    let stem = if last_char_pos(name, '.') >= 0 {
        name.take(last_char_pos(name, '.'))
    } else {
        name
    };
    let cut = if char_pos(stem, '-', 0) < stem.len() {
        stem.take(char_pos(stem, '-', 0))
    } else {
        stem
    };
    if cut.len() >= 3 {
        cut.skip(3)
    } else {
        Seq::empty()
    }
}

/// Reads the crate name out of one archive file name.
pub fn rlib_path_to_cratename(file_name: &str) -> (r: CrateName)
    ensures
        r@ == spec_rlib_to_crate(file_name@),
{
    let chars = str_to_chars(file_name);
    let n = chars.len();
    let mut dot: usize = n;
    while dot > 0 && chars[dot - 1] != '.'
        invariant
            0 <= dot <= n,
            n == chars@.len(),
            forall|k: int| dot <= k < n ==> chars@[k] != '.',
        decreases dot,
    {
        dot = dot - 1;
    }
    let stem = if dot > 0 {
        proof {
            lemma_last_char_pos(chars@, '.', dot - 1);
        }
        chars_subrange(&chars, 0, dot - 1)
    } else {
        proof {
            lemma_last_char_pos(chars@, '.', -1);
        }
        chars
    };
    let dash = find_char(&stem, '-', 0);
    let cut = if dash < stem.len() {
        chars_subrange(&stem, 0, dash)
    } else {
        stem
    };
    if cut.len() >= 3 {
        let tail = chars_subrange(&cut, 3, cut.len());
        proof {
            assert(tail@ =~= spec_rlib_to_crate(file_name@));
        }
        CrateName::new(chars_to_string(&tail))
    } else {
        let empty: Vec<char> = Vec::new();
        proof {
            assert(empty@ =~= spec_rlib_to_crate(file_name@));
        }
        CrateName::new(chars_to_string(&empty))
    }
}


/// The sibling debug-database name of an executable file name: every dash
/// replaced by an underscore, and the extension after the last dot — or
/// the lack of one — replaced by `pdb`.
pub open spec fn spec_pdb_sibling(name: Seq<char>) -> Seq<char> {
    let flat = name.map_values(|c: char| if c == '-' { '_' } else { c });
    let stem = if last_char_pos(flat, '.') >= 0 {
        flat.take(last_char_pos(flat, '.'))
    } else {
        flat
    };
    stem + seq!['.', 'p', 'd', 'b']
}

/// Names the debug database that sits beside an executable.
pub fn pdb_sibling_file_name(file_name: &str) -> (r: String)
    ensures
        r@ == spec_pdb_sibling(file_name@),
{
    let chars = str_to_chars(file_name);
    let mut flat: Vec<char> = Vec::new();
    let mut i: usize = 0;
    while i < chars.len()
        invariant
            0 <= i <= chars@.len(),
            flat@ == chars@.map_values(|c: char| if c == '-' { '_' } else { c }).take(i as int),
        decreases chars@.len() - i,
    {
        let c = chars[i];
        flat.push(if c == '-' { '_' } else { c });
        i = i + 1;
        proof {
            assert(flat@ =~= chars@.map_values(|c: char| if c == '-' { '_' } else { c }).take(
                i as int,
            ));
        }
    }
    proof {
        assert(flat@ =~= chars@.map_values(|c: char| if c == '-' { '_' } else { c }));
    }
    let n = flat.len();
    let mut dot: usize = n;
    while dot > 0 && flat[dot - 1] != '.'
        invariant
            0 <= dot <= n,
            n == flat@.len(),
            forall|k: int| dot <= k < n ==> flat@[k] != '.',
        decreases dot,
    {
        dot = dot - 1;
    }
    let stem = if dot > 0 {
        proof {
            lemma_last_char_pos(flat@, '.', dot - 1);
        }
        chars_subrange(&flat, 0, dot - 1)
    } else {
        proof {
            lemma_last_char_pos(flat@, '.', -1);
        }
        flat
    };
    let mut out = stem;
    out.push('.');
    out.push('p');
    out.push('d');
    out.push('b');
    proof {
        assert(out@ =~= spec_pdb_sibling(file_name@));
    }
    chars_to_string(&out)
}

} // verus!
