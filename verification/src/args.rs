use vstd::prelude::*;

use crate::text::{
    all_digits, chars_of, decimal, find_char, first_index, lemma_decimal_digits, lemma_first_index,
    lemma_parse_decimal, lemma_trim_digits, owned, parse_u32, parse_u32_range, trim, trim_range,
};

verus! {

/// A result whose error text is taken by its characters.
pub open spec fn text_result<T>(r: Result<T, String>) -> Result<T, Seq<char>> {
    match r {
        Ok(v) => Ok(v),
        Err(e) => Err(e@),
    }
}

/// `--bars`: a whole number from 1 to 256.
pub open spec fn bars_spec(s: Seq<char>) -> Result<u32, Seq<char>> {
    match parse_u32(s) {
        None => Err("must be a whole number"@),
        Some(v) => if 1 <= v <= 256 {
            Ok(v)
        } else {
            Err("must be between 1 and 256"@)
        },
    }
}

/// A note division that the grid accepts.
pub open spec fn is_resolution(v: u32) -> bool {
    v == 1 || v == 2 || v == 4 || v == 8 || v == 16 || v == 32 || v == 64
}

/// `--resolution`: one of 1, 2, 4, 8, 16, 32, 64.
pub open spec fn resolution_spec(s: Seq<char>) -> Result<u32, Seq<char>> {
    match parse_u32(s) {
        None => Err("must be a whole number"@),
        Some(v) => if is_resolution(v) {
            Ok(v)
        } else {
            Err("must be one of 1, 2, 4, 8, 16, 32, 64"@)
        },
    }
}

/// `--max-length`: a whole number from 1 to 64.
pub open spec fn max_length_spec(s: Seq<char>) -> Result<u32, Seq<char>> {
    match parse_u32(s) {
        None => Err("must be a whole number"@),
        Some(v) => if 1 <= v <= 64 {
            Ok(v)
        } else {
            Err("must be between 1 and 64"@)
        },
    }
}

/// A time-signature denominator that the grid accepts.
pub open spec fn is_denominator(d: u32) -> bool {
    d == 1 || d == 2 || d == 4 || d == 8 || d == 16 || d == 32
}

/// `--time-sig`: `N/D`, split at the first `/`, each side trimmed and read as a whole
/// number, with `N` from 1 to 32 and `D` one of 1, 2, 4, 8, 16, 32.
pub open spec fn time_sig_spec(s: Seq<char>) -> Result<(u32, u32), Seq<char>> {
    match first_index(s, '/') {
        None => Err("must be in the form N/D, e.g. 4/4"@),
        Some(i) => match parse_u32(trim(s.subrange(0, i))) {
            None => Err("numerator must be a number"@),
            Some(n) => match parse_u32(trim(s.subrange(i + 1, s.len() as int))) {
                None => Err("denominator must be a number"@),
                Some(d) => if !(1 <= n <= 32) {
                    Err("numerator must be between 1 and 32"@)
                } else if !is_denominator(d) {
                    Err("denominator must be 1, 2, 4, 8, 16, or 32"@)
                } else {
                    Ok((n, d))
                },
            },
        },
    }
}

/// Reads `--bars`.
pub fn parse_bars(s: &str) -> (r: Result<u32, String>)
    ensures
        text_result(r) == bars_spec(s@),
        r matches Ok(v) ==> 1 <= v <= 256 && parse_u32(s@) == Some(v),
        parse_u32(s@) matches Some(v) ==> (1 <= v <= 256 ==> r == Ok::<u32, String>(v)),
        parse_u32(s@) is None ==> r is Err,
{
    let v = chars_of(s);
    assert(v@.subrange(0, v@.len() as int) =~= v@);
    match parse_u32_range(&v, 0, v.len()) {
        None => Err(owned("must be a whole number")),
        Some(n) => if 1 <= n && n <= 256 {
            Ok(n)
        } else {
            Err(owned("must be between 1 and 256"))
        },
    }
}

/// Reads `--resolution`.
pub fn parse_resolution(s: &str) -> (r: Result<u32, String>)
    ensures
        text_result(r) == resolution_spec(s@),
        r matches Ok(v) ==> (v == 1 || v == 2 || v == 4 || v == 8 || v == 16 || v == 32 || v == 64)
            && parse_u32(s@) == Some(v),
        parse_u32(s@) matches Some(v) ==> ((v == 1 || v == 2 || v == 4 || v == 8 || v == 16 || v
            == 32 || v == 64) ==> r == Ok::<u32, String>(v)),
        parse_u32(s@) is None ==> r is Err,
{
    let v = chars_of(s);
    assert(v@.subrange(0, v@.len() as int) =~= v@);
    match parse_u32_range(&v, 0, v.len()) {
        None => Err(owned("must be a whole number")),
        Some(n) => if n == 1 || n == 2 || n == 4 || n == 8 || n == 16 || n == 32 || n == 64 {
            Ok(n)
        } else {
            Err(owned("must be one of 1, 2, 4, 8, 16, 32, 64"))
        },
    }
}

/// Reads `--max-length`.
pub fn parse_max_length(s: &str) -> (r: Result<u32, String>)
    ensures
        text_result(r) == max_length_spec(s@),
        r matches Ok(v) ==> 1 <= v <= 64 && parse_u32(s@) == Some(v),
        parse_u32(s@) matches Some(v) ==> (1 <= v <= 64 ==> r == Ok::<u32, String>(v)),
        parse_u32(s@) is None ==> r is Err,
{
    let v = chars_of(s);
    assert(v@.subrange(0, v@.len() as int) =~= v@);
    match parse_u32_range(&v, 0, v.len()) {
        None => Err(owned("must be a whole number")),
        Some(n) => if 1 <= n && n <= 64 {
            Ok(n)
        } else {
            Err(owned("must be between 1 and 64"))
        },
    }
}

/// Reads `--time-sig`.
pub fn parse_time_sig(s: &str) -> (r: Result<(u32, u32), String>)
    ensures
        text_result(r) == time_sig_spec(s@),
        r matches Ok((n, d)) ==> 1 <= n <= 32 && (d == 1 || d == 2 || d == 4 || d == 8 || d == 16
            || d == 32),
        !s@.contains('/') ==> r is Err,
{
    let v = chars_of(s);
    let slash = match find_char(&v, '/') {
        Some(i) => i,
        None => {
            return Err(owned("must be in the form N/D, e.g. 4/4"));
        },
    };
    assert(v@[slash as int] == '/');
    assert(s@.contains('/'));
    let (a0, a1) = trim_range(&v, 0, slash);
    let (b0, b1) = trim_range(&v, slash + 1, v.len());
    let n = match parse_u32_range(&v, a0, a1) {
        Some(n) => n,
        None => {
            return Err(owned("numerator must be a number"));
        },
    };
    let d = match parse_u32_range(&v, b0, b1) {
        Some(d) => d,
        None => {
            return Err(owned("denominator must be a number"));
        },
    };
    if !(1 <= n && n <= 32) {
        return Err(owned("numerator must be between 1 and 32"));
    }
    if !(d == 1 || d == 2 || d == 4 || d == 8 || d == 16 || d == 32) {
        return Err(owned("denominator must be 1, 2, 4, 8, 16, or 32"));
    }
    Ok((n, d))
}

/// `--bars` reads back every count it writes in decimal: 1 to 256 are taken, larger counts
/// are refused as out of range.
pub proof fn lemma_bars_roundtrip(v: u32)
    ensures
        1 <= v <= 256 ==> bars_spec(decimal(v as nat)) == Ok::<u32, Seq<char>>(v),
        v > 256 ==> bars_spec(decimal(v as nat)) == Err::<u32, Seq<char>>(
            "must be between 1 and 256"@,
        ),
        v == 0 ==> bars_spec(decimal(v as nat)) is Err,
{
    lemma_parse_decimal(v);
}

/// `--max-length` reads back 1 to 64 written in decimal and refuses larger lengths.
pub proof fn lemma_max_length_roundtrip(v: u32)
    ensures
        1 <= v <= 64 ==> max_length_spec(decimal(v as nat)) == Ok::<u32, Seq<char>>(v),
        v > 64 ==> max_length_spec(decimal(v as nat)) == Err::<u32, Seq<char>>(
            "must be between 1 and 64"@,
        ),
{
    lemma_parse_decimal(v);
}

/// `--resolution` reads back exactly the powers of two up to 64 written in decimal.
pub proof fn lemma_resolution_roundtrip(v: u32)
    ensures
        resolution_spec(decimal(v as nat)) is Ok <==> (v == 1 || v == 2 || v == 4 || v == 8 || v
            == 16 || v == 32 || v == 64),
        resolution_spec(decimal(v as nat)) matches Ok(w) ==> w == v,
{
    lemma_parse_decimal(v);
}

/// `--time-sig` reads back `N/D` written in decimal for every accepted signature, and also
/// with white space around either number.
pub proof fn lemma_time_sig_roundtrip(n: u32, d: u32)
    requires
        1 <= n <= 32,
        d == 1 || d == 2 || d == 4 || d == 8 || d == 16 || d == 32,
    ensures
        time_sig_spec(decimal(n as nat) + seq!['/'] + decimal(d as nat)) == Ok::<
            (u32, u32),
            Seq<char>,
        >((n, d)),
{
    let a = decimal(n as nat);
    let b = decimal(d as nat);
    let s = a + seq!['/'] + b;
    lemma_decimal_digits(n as nat);
    lemma_decimal_digits(d as nat);
    lemma_parse_decimal(n);
    lemma_parse_decimal(d);
    assert forall|j: int| 0 <= j < a.len() implies s[j] != '/' by {
        assert(s[j] == a[j]);
        assert(crate::text::is_digit(a[j]));
    }
    assert(s[a.len() as int] == '/');
    lemma_first_index(s, '/', a.len() as int);
    assert(s.subrange(0, a.len() as int) =~= a);
    assert(s.subrange(a.len() as int + 1, s.len() as int) =~= b);
    lemma_trim_digits(a);
    lemma_trim_digits(b);
}

} // verus!
