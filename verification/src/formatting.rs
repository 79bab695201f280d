//! Rendering of byte counts, size differences, durations and counts as
//! human-readable text.
//!
//! The fractional parts are computed with integer arithmetic: a value is
//! scaled, divided by its unit, and rounded to the nearest representable
//! fraction, ties going to the even quotient.

use vstd::prelude::*;

use crate::strutil::chars_to_string;

verus! {

pub const KIB: u64 = 1024;

pub const MIB: u64 = 1048576;

pub const GIB: u64 = 1073741824;

/// The character for one decimal digit.
pub open spec fn digit_char(d: int) -> char
    recommends
        0 <= d <= 9,
{
    ((d + 48) as u8) as char
}

/// The decimal rendering of a number, most significant digit first, with
/// no leading zeros (`0` itself is rendered as `0`).
pub open spec fn spec_dec(n: nat) -> Seq<char>
    decreases n,
{
    if n < 10 {
        seq![digit_char(n as int)]
    } else {
        spec_dec(n / 10) + seq![digit_char((n % 10) as int)]
    }
}

/// `num / den` rounded to the nearest integer, ties to the even one.
pub open spec fn round_half_even(num: nat, den: nat) -> nat
    recommends
        den > 0,
{
    let q = num / den;
    let r = num % den;
    if 2 * r > den {
        q + 1
    } else if 2 * r == den && q % 2 == 1 {
        q + 1
    } else {
        q
    }
}

/// `n / unit` with two decimal places: the rounded value in hundredths,
/// rendered as `<whole>.<2 digits>`.
pub open spec fn spec_scaled2(n: nat, unit: nat) -> Seq<char>
    recommends
        unit > 0,
{
    let c = round_half_even(n * 100, unit);
    spec_dec(c / 100) + seq!['.', digit_char(((c / 10) % 10) as int), digit_char((c % 10) as int)]
}

/// `n / unit` with one decimal place.
pub open spec fn spec_scaled1(n: nat, unit: nat) -> Seq<char>
    recommends
        unit > 0,
{
    let c = round_half_even(n * 10, unit);
    spec_dec(c / 10) + seq!['.', digit_char((c % 10) as int)]
}

/// What [`format_bytes`] renders: binary units with two decimal places,
/// plain bytes below one kibibyte.
pub open spec fn spec_format_bytes(n: nat) -> Seq<char> {
    if n >= GIB {
        spec_scaled2(n, GIB as nat) + seq![' ', 'G', 'i', 'B']
    } else if n >= MIB {
        spec_scaled2(n, MIB as nat) + seq![' ', 'M', 'i', 'B']
    } else if n >= KIB {
        spec_scaled2(n, KIB as nat) + seq![' ', 'K', 'i', 'B']
    } else {
        spec_dec(n) + seq![' ', 'B']
    }
}

/// What [`format_size`] renders: binary units with one decimal place and
/// no space before the unit, used by the table printer.
pub open spec fn spec_format_size(n: nat) -> Seq<char> {
    if n >= MIB {
        spec_scaled1(n, MIB as nat) + seq!['M', 'i', 'B']
    } else if n >= KIB {
        spec_scaled1(n, KIB as nat) + seq!['K', 'i', 'B']
    } else {
        spec_dec(n) + seq!['B']
    }
}

/// What [`format_size_diff`] renders.
pub open spec fn spec_format_size_diff(diff: int) -> Seq<char> {
    if diff == 0 {
        seq!['n', 'o', ' ', 'c', 'h', 'a', 'n', 'g', 'e']
    } else if diff > 0 {
        seq!['+'] + spec_format_bytes(diff as nat)
    } else {
        seq!['-'] + spec_format_bytes((-diff) as nat)
    }
}

/// What [`format_duration`] renders: seconds with two decimal places,
/// computed from milliseconds.
pub open spec fn spec_format_duration(millis: nat) -> Seq<char> {
    let c = round_half_even(millis, 10);
    spec_dec(c / 100) + seq!['.', digit_char(((c / 10) % 10) as int), digit_char(
        (c % 10) as int,
    ), 's']
}

/// What [`format_count`] renders: the count, a space, and the singular
/// noun, with an `s` appended unless the count is exactly one.
pub open spec fn spec_format_count(count: nat, singular: Seq<char>) -> Seq<char> {
    if count == 1 {
        spec_dec(count) + seq![' '] + singular
    } else {
        spec_dec(count) + seq![' '] + singular + seq!['s']
    }
}

/// The character for one decimal digit.
pub fn digit_to_char(d: u64) -> (c: char)
    requires
        d <= 9,
    ensures
        c == digit_char(d as int),
{
    ((d + 48) as u8) as char
}

/// The decimal digits of `n`, most significant first.
pub fn dec_chars(n: u64) -> (r: Vec<char>)
    ensures
        r@ == spec_dec(n as nat),
{
    let mut low_first: Vec<char> = Vec::new();
    let mut cur: u64 = n;
    loop
        invariant_except_break
            low_first@.len() == 0 ==> cur == n,
            low_first@.len() > 0 ==> cur > 0 && spec_dec(n as nat) == spec_dec(cur as nat)
                + low_first@.reverse(),
        ensures
            spec_dec(n as nat) == low_first@.reverse(),
        decreases cur,
    {
        let ghost old_low = low_first@;
        let ghost old_cur = cur;
        let d = cur % 10;
        low_first.push(digit_to_char(d));
        proof {
            assert(low_first@.reverse() =~= seq![digit_char(d as int)] + old_low.reverse());
        }
        cur = cur / 10;
        if cur == 0 {
            proof {
                assert(spec_dec(old_cur as nat) == seq![digit_char(d as int)]);
                if old_low.len() == 0 {
                    assert(spec_dec(n as nat) =~= low_first@.reverse());
                } else {
                    assert(spec_dec(n as nat) =~= spec_dec(old_cur as nat) + old_low.reverse());
                    assert(spec_dec(n as nat) =~= low_first@.reverse());
                }
            }
            break ;
        }
        proof {
            assert(old_cur >= 10);
            assert(spec_dec(old_cur as nat) == spec_dec((old_cur / 10) as nat) + seq![
                digit_char((old_cur % 10) as int),
            ]);
            if old_low.len() == 0 {
                assert(spec_dec(n as nat) =~= spec_dec(cur as nat) + low_first@.reverse());
            } else {
                assert(spec_dec(n as nat) =~= spec_dec(old_cur as nat) + old_low.reverse());
                assert(spec_dec(n as nat) =~= spec_dec(cur as nat) + low_first@.reverse());
            }
        }
    }
    let mut r: Vec<char> = Vec::new();
    let mut i: usize = low_first.len();
    while i > 0
        invariant
            i <= low_first@.len(),
            r@ == low_first@.reverse().take(low_first@.len() - i),
        decreases i,
    {
        i = i - 1;
        r.push(low_first[i]);
        proof {
            assert(r@ =~= low_first@.reverse().take(low_first@.len() - i));
        }
    }
    proof {
        assert(low_first@.reverse().take(low_first@.len() as int) =~= low_first@.reverse());
    }
    r
}

/// `num / den` rounded to the nearest integer, ties to the even one.
/// The division is exact in 128-bit arithmetic.
fn round_div(num: u128, den: u128) -> (r: u128)
    requires
        den > 0,
        num < u128::MAX,
    ensures
        r == round_half_even(num as nat, den as nat),
        r <= num / den + 1,
{
    let q = num / den;
    let r = num % den;
    if r > den - r {
        q + 1
    } else if r == den - r && q % 2 == 1 {
        q + 1
    } else {
        q
    }
}

/// Pushes `<whole>.<dd>` for `n / unit` rounded to hundredths.
fn push_scaled2(out: &mut Vec<char>, n: u64, unit: u64) -> (r: ())
    requires
        unit >= 1024,
    ensures
        final(out)@ == old(out)@ + spec_scaled2(n as nat, unit as nat),
{
    let scaled = round_div((n as u128) * 100, unit as u128);
    proof {
        let num = (n as int) * 100;
        vstd::arithmetic::div_mod::lemma_div_is_ordered_by_denominator(num, 1024, unit as int);
        vstd::arithmetic::div_mod::lemma_div_is_ordered(
            num,
            0xFFFFFFFFFFFFFFFFint * 100,
            1024,
        );
        assert(scaled <= num / 1024 + 1);
        assert(scaled < u64::MAX);
    }
    let c = scaled as u64;
    let whole = dec_chars(c / 100);
    let mut i: usize = 0;
    while i < whole.len()
        invariant
            i <= whole@.len(),
            out@ == old(out)@ + whole@.take(i as int),
        decreases whole@.len() - i,
    {
        out.push(whole[i]);
        i = i + 1;
        proof {
            assert(old(out)@ + whole@.take(i as int) =~= (old(out)@ + whole@.take(
                i - 1,
            )).push(whole@[i - 1]));
        }
    }
    proof {
        assert(whole@.take(whole@.len() as int) =~= whole@);
    }
    out.push('.');
    out.push(digit_to_char((c / 10) % 10));
    out.push(digit_to_char(c % 10));
    proof {
        assert(out@ =~= old(out)@ + spec_scaled2(n as nat, unit as nat));
    }
}

/// Pushes every character of `tail` onto `out`.
fn push_all(out: &mut Vec<char>, tail: &Vec<char>) -> (r: ())
    ensures
        final(out)@ == old(out)@ + tail@,
{
    let mut i: usize = 0;
    while i < tail.len()
        invariant
            i <= tail@.len(),
            out@ == old(out)@ + tail@.take(i as int),
        decreases tail@.len() - i,
    {
        out.push(tail[i]);
        i = i + 1;
        proof {
            assert(old(out)@ + tail@.take(i as int) =~= (old(out)@ + tail@.take(i - 1)).push(
                tail@[i - 1],
            ));
        }
    }
    proof {
        assert(tail@.take(tail@.len() as int) =~= tail@);
    }
}

/// Format bytes into human-readable binary units (B, KiB, MiB, GiB).
pub fn format_bytes(bytes: u64) -> (r: String)
    ensures
        r@ == spec_format_bytes(bytes as nat),
{
    let mut out: Vec<char> = Vec::new();
    if bytes >= GIB {
        push_scaled2(&mut out, bytes, GIB);
        out.push(' ');
        out.push('G');
        out.push('i');
        out.push('B');
    } else if bytes >= MIB {
        push_scaled2(&mut out, bytes, MIB);
        out.push(' ');
        out.push('M');
        out.push('i');
        out.push('B');
    } else if bytes >= KIB {
        push_scaled2(&mut out, bytes, KIB);
        out.push(' ');
        out.push('K');
        out.push('i');
        out.push('B');
    } else {
        let whole = dec_chars(bytes);
        push_all(&mut out, &whole);
        out.push(' ');
        out.push('B');
    }
    proof {
        assert(out@ =~= spec_format_bytes(bytes as nat));
    }
    chars_to_string(&out)
}

/// Format a size difference in bytes with a sign, or `no change` for zero.
pub fn format_size_diff(diff: i64) -> (r: String)
    ensures
        r@ == spec_format_size_diff(diff as int),
{
    if diff == 0 {
        let mut out: Vec<char> = Vec::new();
        out.push('n');
        out.push('o');
        out.push(' ');
        out.push('c');
        out.push('h');
        out.push('a');
        out.push('n');
        out.push('g');
        out.push('e');
        proof {
            assert(out@ =~= spec_format_size_diff(diff as int));
        }
        chars_to_string(&out)
    } else {
        let abs: u64 = if diff > 0 {
            diff as u64
        } else {
            (-(diff as i128)) as u64
        };
        let body = format_bytes(abs);
        let mut out: Vec<char> = Vec::new();
        if diff > 0 {
            out.push('+');
        } else {
            out.push('-');
        }
        let body_chars = crate::strutil::str_to_chars(body.as_str());
        push_all(&mut out, &body_chars);
        proof {
            assert(out@ =~= spec_format_size_diff(diff as int));
        }
        chars_to_string(&out)
    }
}

/// Format a duration given in milliseconds as seconds with two decimals.
pub fn format_duration(millis: u64) -> (r: String)
    ensures
        r@ == spec_format_duration(millis as nat),
{
    let scaled = round_div(millis as u128, 10);
    proof {
        vstd::arithmetic::div_mod::lemma_div_is_ordered(millis as int, u64::MAX as int, 10);
        assert(scaled <= millis as int / 10 + 1);
        assert(scaled < u64::MAX);
    }
    let c = scaled as u64;
    let mut out: Vec<char> = Vec::new();
    let whole = dec_chars(c / 100);
    push_all(&mut out, &whole);
    out.push('.');
    out.push(digit_to_char((c / 10) % 10));
    out.push(digit_to_char(c % 10));
    out.push('s');
    proof {
        assert(out@ =~= spec_format_duration(millis as nat));
    }
    chars_to_string(&out)
}

/// Format a count with the right singular or plural form of the noun.
pub fn format_count(count: usize, singular: &str) -> (r: String)
    ensures
        r@ == spec_format_count(count as nat, singular@),
{
    let mut out: Vec<char> = Vec::new();
    let whole = dec_chars(count as u64);
    push_all(&mut out, &whole);
    out.push(' ');
    let noun = crate::strutil::str_to_chars(singular);
    push_all(&mut out, &noun);
    if count != 1 {
        out.push('s');
    }
    proof {
        assert(out@ =~= spec_format_count(count as nat, singular@));
    }
    chars_to_string(&out)
}

/// Pushes `<whole>.<d>` for `n / unit` rounded to tenths.
fn push_scaled1(out: &mut Vec<char>, n: u64, unit: u64) -> (r: ())
    requires
        unit >= 1024,
    ensures
        final(out)@ == old(out)@ + spec_scaled1(n as nat, unit as nat),
{
    let scaled = round_div((n as u128) * 10, unit as u128);
    proof {
        let num = (n as int) * 10;
        vstd::arithmetic::div_mod::lemma_div_is_ordered_by_denominator(num, 1024, unit as int);
        vstd::arithmetic::div_mod::lemma_div_is_ordered(num, 0xFFFFFFFFFFFFFFFFint * 10, 1024);
        assert(scaled <= num / 1024 + 1);
        assert(scaled < u64::MAX);
    }
    let c = scaled as u64;
    let whole = dec_chars(c / 10);
    push_all(out, &whole);
    out.push('.');
    out.push(digit_to_char(c % 10));
    proof {
        assert(out@ =~= old(out)@ + spec_scaled1(n as nat, unit as nat));
    }
}

/// Format bytes compactly with one decimal place, as the tables print it.
pub fn format_size(bytes: u64) -> (r: String)
    ensures
        r@ == spec_format_size(bytes as nat),
{
    let mut out: Vec<char> = Vec::new();
    if bytes >= MIB {
        push_scaled1(&mut out, bytes, MIB);
        out.push('M');
        out.push('i');
        out.push('B');
    } else if bytes >= KIB {
        push_scaled1(&mut out, bytes, KIB);
        out.push('K');
        out.push('i');
        out.push('B');
    } else {
        let whole = dec_chars(bytes);
        push_all(&mut out, &whole);
        out.push('B');
    }
    proof {
        assert(out@ =~= spec_format_size(bytes as nat));
    }
    chars_to_string(&out)
}

} // verus!
