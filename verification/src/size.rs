use vstd::prelude::*;

use crate::text::{decimal, digit_char, push_decimal, push_digit};

verus! {

pub const KB: u64 = 1024;
pub const MB: u64 = 1024 * 1024;
pub const GB: u64 = 1024 * 1024 * 1024;

/// `p / q` rounded to the nearest integer, ties to the even one.
pub open spec fn round_half_even(p: nat, q: nat) -> nat
    recommends
        q > 0,
{
    let f = p / q;
    let r = p % q;
    if 2 * r > q {
        f + 1
    } else if 2 * r < q {
        f
    } else if f % 2 == 1 {
        f + 1
    } else {
        f
    }
}

/// Distance between neighbouring `f64` values near the integer `b` (1 below 2^53).
pub open spec fn f64_spacing(b: nat) -> nat
    decreases b,
{
    if b < 0x20_0000_0000_0000 {
        1
    } else {
        2 * f64_spacing(b / 2)
    }
}

/// The integer that `b as f64` holds: `b` rounded to 53 significant bits, ties to even.
pub open spec fn as_f64(b: nat) -> nat {
    round_half_even(b, f64_spacing(b)) * f64_spacing(b)
}

/// `{:.2}` of `b as f64 / unit as f64`, in hundredths, for a power-of-two `unit`.
pub open spec fn hundredths(b: nat, unit: nat) -> nat {
    round_half_even(as_f64(b) * 100, unit)
}

/// A count of hundredths written with two decimals.
pub open spec fn two_decimals(h: nat) -> Seq<char> {
    decimal(h / 100) + seq!['.', digit_char((h / 10) % 10), digit_char(h % 10)]
}

/// The human-readable size: whole bytes below 1 KB, else two decimals of the largest
/// binary unit that fits.
pub open spec fn format_bytes_spec(b: nat) -> Seq<char> {
    if b >= GB {
        two_decimals(hundredths(b, GB as nat)) + " GB"@
    } else if b >= MB {
        two_decimals(hundredths(b, MB as nat)) + " MB"@
    } else if b >= KB {
        two_decimals(hundredths(b, KB as nat)) + " KB"@
    } else {
        decimal(b) + " B"@
    }
}

fn round_half_even_exec(p: u128, q: u128) -> (r: u128)
    requires
        q > 0,
        p / q < u128::MAX,
    ensures
        r == round_half_even(p as nat, q as nat),
{
    let f = p / q;
    let rem = p % q;
    if rem > q - rem {
        f + 1
    } else if rem < q - rem {
        f
    } else if f % 2 == 1 {
        f + 1
    } else {
        f
    }
}

/// The value of `b as f64`, as an integer.
fn f64_value(b: u64) -> (r: u128)
    ensures
        r == as_f64(b as nat),
        r <= b + 4096,
{
    let mut t = b;
    let mut sp: u64 = 1;
    while t >= 0x20_0000_0000_0000
        invariant
            1 <= sp <= 4096,
            sp == 1 || sp as nat * 0x10_0000_0000_0000 <= b,
            t as nat * sp <= b,
            f64_spacing(b as nat) == sp * f64_spacing(t as nat),
        decreases t,
    {
        assert((2 * sp) as nat * 0x10_0000_0000_0000 <= b && 2 * sp <= 4096) by (nonlinear_arith)
            requires
                t >= 0x20_0000_0000_0000,
                t as nat * sp <= b,
                b <= u64::MAX,
        ;
        assert((t / 2) as nat * (2 * sp) <= t as nat * sp) by (nonlinear_arith);
        let ghost x = f64_spacing((t / 2) as nat);
        assert(f64_spacing(t as nat) == 2 * x);
        assert(sp * (2 * x) == (2 * sp) * x) by (nonlinear_arith);
        t = t / 2;
        sp = sp * 2;
    }
    assert(f64_spacing(t as nat) == 1);
    assert(f64_spacing(b as nat) == sp as nat);
    let q = sp as u128;
    let n = round_half_even_exec(b as u128, q);
    assert(n <= b as nat / sp as nat + 1);
    assert(n * sp <= b + sp) by (nonlinear_arith)
        requires
            n <= b as nat / sp as nat + 1,
            sp >= 1,
    ;
    n * q
}

fn push_two_decimals(out: &mut String, h: u128)
    ensures
        final(out)@ == old(out)@ + two_decimals(h as nat),
{
    push_decimal(out, h / 100);
    out.append(".");
    proof {
        reveal_strlit(".");
    }
    push_digit(out, ((h / 10) % 10) as u64);
    push_digit(out, (h % 10) as u64);
    assert(final(out)@ =~= old(out)@ + two_decimals(h as nat));
}

/// Human-readable file size, as `info` prints it: `"512 B"`, `"1.50 KB"`, `"34.93 MB"`.
pub fn format_bytes(bytes: u64) -> (s: String)
    ensures
        s@ == format_bytes_spec(bytes as nat),
        bytes < 1024 ==> s@ == decimal(bytes as nat) + " B"@,
        1024 <= bytes < 1048576 ==> s@ == two_decimals(hundredths(bytes as nat, 1024)) + " KB"@,
        1048576 <= bytes < 1073741824 ==> s@ == two_decimals(hundredths(bytes as nat, 1048576))
            + " MB"@,
        1073741824 <= bytes ==> s@ == two_decimals(hundredths(bytes as nat, 1073741824)) + " GB"@,
{
    let mut out = String::new();
    if bytes < KB {
        push_decimal(&mut out, bytes as u128);
        out.append(" B");
        return out;
    }
    let unit: u128 = if bytes >= GB {
        GB as u128
    } else if bytes >= MB {
        MB as u128
    } else {
        KB as u128
    };
    let v = f64_value(bytes);
    let h = round_half_even_exec(v * 100, unit);
    push_two_decimals(&mut out, h);
    if bytes >= GB {
        out.append(" GB");
    } else if bytes >= MB {
        out.append(" MB");
    } else {
        out.append(" KB");
    }
    out
}

/// Rounding half to even lands within half a step of the exact quotient, and on an exact
/// half it lands on the even neighbour.
pub proof fn lemma_round_half_even_nearest(p: nat, q: nat)
    requires
        q > 0,
    ensures
        2 * round_half_even(p, q) * q <= 2 * p + q,
        2 * p <= 2 * round_half_even(p, q) * q + q,
        2 * round_half_even(p, q) * q == 2 * p + q || 2 * p == 2 * round_half_even(p, q) * q + q
            ==> round_half_even(p, q) % 2 == 0,
{
    let f = p / q;
    let r = p % q;
    assert(p == f * q + r && 0 <= r < q) by (nonlinear_arith)
        requires
            q > 0,
            f == p / q,
            r == p % q,
    ;
    assert(2 * f * q == 2 * (f * q)) by (nonlinear_arith);
    assert(2 * (f + 1) * q == 2 * (f * q) + 2 * q) by (nonlinear_arith);
    let h = round_half_even(p, q);
    assert(h == f || h == f + 1);
    if h == f {
        assert(2 * r <= q);
    } else {
        assert(2 * r >= q);
    }
}

/// The value of `b as f64` is the nearest double: within half the spacing of doubles
/// around `b`, which is 1 below 2^53, so that smaller counts are held exactly.
pub proof fn lemma_as_f64_nearest(b: nat)
    ensures
        f64_spacing(b) >= 1,
        2 * as_f64(b) <= 2 * b + f64_spacing(b),
        2 * b <= 2 * as_f64(b) + f64_spacing(b),
        b < 0x20_0000_0000_0000 ==> as_f64(b) == b,
    decreases b,
{
    if b >= 0x20_0000_0000_0000 {
        lemma_as_f64_nearest(b / 2);
    }
    let sp = f64_spacing(b);
    lemma_round_half_even_nearest(b, sp);
    assert(2 * round_half_even(b, sp) * sp == 2 * (round_half_even(b, sp) * sp)) by (
    nonlinear_arith);
    if b < 0x20_0000_0000_0000 {
        assert(b / 1 == b && b % 1 == 0) by (nonlinear_arith);
    }
}

/// The size shown in a unit is the exact size in that unit rounded to the nearest
/// hundredth: `100 * b / unit` is within half a hundredth of it, for any byte count that a
/// double holds exactly.
pub proof fn lemma_hundredths_nearest(b: nat, unit: nat)
    requires
        unit > 0,
        b < 0x20_0000_0000_0000,
    ensures
        2 * hundredths(b, unit) * unit <= 200 * b + unit,
        200 * b <= 2 * hundredths(b, unit) * unit + unit,
{
    lemma_as_f64_nearest(b);
    lemma_round_half_even_nearest(b * 100, unit);
}

} // verus!
