//! Human-readable file sizes.
//!
//! A size is shown in bytes below one KiB, else as a fraction of KiB (one
//! decimal place), MiB or GiB (two decimal places). The fraction is the size
//! divided by the unit as a double-precision number, rounded to the shown
//! places with ties going to the even digit; every step is done here in
//! integers, exactly.

use vstd::prelude::*;
use crate::text::{decimal, digit, digit_char, push_char, push_decimal};
use vstd::arithmetic::div_mod::{lemma_div_is_ordered, lemma_fundamental_div_mod};

verus! {

/// Bytes in a KiB.
pub const KB: u64 = 1024;

/// Bytes in a MiB.
pub const MB: u64 = 1048576;

/// Bytes in a GiB.
pub const GB: u64 = 1073741824;

/// Largest integer below which every integer is exactly a double (2^53).
pub const EXACT_LIMIT: u64 = 0x20_0000_0000_0000;

/// `n / d` rounded to the nearest integer, ties to the even one.
pub open spec fn round_half_even(n: nat, d: nat) -> nat {
    let q = n / d;
    let r = n % d;
    if 2 * r > d || (2 * r == d && q % 2 == 1) {
        q + 1
    } else {
        q
    }
}

/// The spacing of doubles around `b`: 1 below 2^53, doubling with every
/// further bit of `b`.
pub open spec fn ulp(b: nat) -> nat
    decreases b,
{
    if b < EXACT_LIMIT {
        1
    } else {
        2 * ulp(b / 2)
    }
}

/// The value of the double nearest to `b` (ties to even), as `b as f64` gives it.
pub open spec fn as_double(b: nat) -> nat {
    round_half_even(b, ulp(b)) * ulp(b)
}

/// The decimal text of `s / 100` with two places.
pub open spec fn two_places(s: nat) -> Seq<char> {
    decimal(s / 100) + seq!['.', digit_char((s % 100) / 10), digit_char(s % 10)]
}

/// The decimal text of `s / 10` with one place.
pub open spec fn one_place(s: nat) -> Seq<char> {
    decimal(s / 10) + seq!['.', digit_char(s % 10)]
}

/// `v / unit` with two decimal places.
pub open spec fn fixed_two(v: nat, unit: nat) -> Seq<char> {
    two_places(round_half_even(v * 100, unit))
}

/// `v / unit` with one decimal place.
pub open spec fn fixed_one(v: nat, unit: nat) -> Seq<char> {
    one_place(round_half_even(v * 10, unit))
}

/// The text shown for a size of `bytes` bytes.
pub open spec fn size_text(bytes: nat) -> Seq<char> {
    if bytes >= GB {
        fixed_two(as_double(bytes), GB as nat) + " GB"@
    } else if bytes >= MB {
        fixed_two(bytes, MB as nat) + " MB"@
    } else if bytes >= KB {
        fixed_one(bytes, KB as nat) + " KB"@
    } else {
        decimal(bytes) + " B"@
    }
}

/// The unit a size is shown in: 0 for B, 1 for KB, 2 for MB, 3 for GB.
pub open spec fn size_unit(bytes: nat) -> nat {
    if bytes >= GB {
        3
    } else if bytes >= MB {
        2
    } else if bytes >= KB {
        1
    } else {
        0
    }
}

/// The number shown for a size, counted in its last shown decimal place
/// (hundredths for MB and GB, tenths for KB, bytes for B).
pub open spec fn size_scaled(bytes: nat) -> nat {
    if bytes >= GB {
        round_half_even(as_double(bytes) * 100, GB as nat)
    } else if bytes >= MB {
        round_half_even(bytes * 100, MB as nat)
    } else if bytes >= KB {
        round_half_even(bytes * 10, KB as nat)
    } else {
        bytes
    }
}

/// The text of the number `scaled` in the unit `unit`.
pub open spec fn unit_text(unit: nat, scaled: nat) -> Seq<char> {
    if unit == 3 {
        two_places(scaled) + " GB"@
    } else if unit == 2 {
        two_places(scaled) + " MB"@
    } else if unit == 1 {
        one_place(scaled) + " KB"@
    } else {
        decimal(scaled) + " B"@
    }
}

/// The text of a size is its shown number in its unit.
pub proof fn lemma_size_text_parts(bytes: nat)
    ensures
        size_text(bytes) == unit_text(size_unit(bytes), size_scaled(bytes)),
{
}

/// Rounding to the nearest multiple is monotone.
pub proof fn lemma_round_half_even_monotone(n1: nat, n2: nat, d: nat)
    requires
        n1 <= n2,
        d > 0,
    ensures
        round_half_even(n1, d) <= round_half_even(n2, d),
        n1 / d <= round_half_even(n1, d) <= n1 / d + 1,
{
    lemma_div_is_ordered(n1 as int, n2 as int, d as int);
    lemma_fundamental_div_mod(n1 as int, d as int);
    lemma_fundamental_div_mod(n2 as int, d as int);
    let q1 = n1 / d;
    let q2 = n2 / d;
    if q1 == q2 {
        assert(d * q1 == d * q2);
        assert(n1 % d <= n2 % d);
    }
}

/// Facts on the spacing of doubles: it is at least 1, `b` lies below `L` steps
/// of it, and beyond the first range `b` lies at least `L / 2` steps up.
proof fn lemma_ulp_bounds(b: nat)
    ensures
        ulp(b) >= 1,
        b < EXACT_LIMIT * ulp(b),
        ulp(b) > 1 ==> EXACT_LIMIT * ulp(b) <= 2 * b,
    decreases b,
{
    if b >= EXACT_LIMIT {
        lemma_ulp_bounds(b / 2);
        let u = ulp(b / 2);
        assert(b < EXACT_LIMIT * (2 * u)) by (nonlinear_arith)
            requires
                b / 2 < EXACT_LIMIT * u,
                b == 2 * (b / 2) + b % 2,
                b % 2 < 2,
        ;
        if u > 1 {
            assert(EXACT_LIMIT * (2 * u) <= 2 * b) by (nonlinear_arith)
                requires
                    EXACT_LIMIT * u <= 2 * (b / 2),
                    b == 2 * (b / 2) + b % 2,
                    b % 2 >= 0,
            ;
        }
    }
}

/// The spacing of doubles grows with the value, by whole factors of two.
proof fn lemma_ulp_monotone(a: nat, b: nat)
    requires
        a <= b,
    ensures
        ulp(a) == ulp(b) || 2 * ulp(a) <= ulp(b),
    decreases b,
{
    if b >= EXACT_LIMIT {
        if a >= EXACT_LIMIT {
            lemma_ulp_monotone(a / 2, b / 2);
        } else {
            lemma_ulp_bounds(b / 2);
        }
    }
}

/// Converting to the nearest double is monotone.
pub proof fn lemma_as_double_monotone(a: nat, b: nat)
    requires
        a <= b,
    ensures
        as_double(a) <= as_double(b),
{
    lemma_ulp_monotone(a, b);
    lemma_ulp_bounds(a);
    lemma_ulp_bounds(b);
    let ua = ulp(a);
    let ub = ulp(b);
    let ra = round_half_even(a, ua);
    let rb = round_half_even(b, ub);
    if ua == ub {
        lemma_round_half_even_monotone(a, b, ua);
        assert(ra * ua <= rb * ua) by (nonlinear_arith)
            requires
                ra <= rb,
        ;
    } else {
        let l = EXACT_LIMIT as nat;
        lemma_round_half_even_monotone(a, a, ua);
        lemma_round_half_even_monotone(b, b, ub);
        lemma_fundamental_div_mod(a as int, ua as int);
        lemma_fundamental_div_mod(b as int, ub as int);
        assert(a / ua < l) by (nonlinear_arith)
            requires
                a < l * ua,
                a == ua * (a / ua) + a % ua,
                a % ua >= 0,
                ua >= 1,
        ;
        assert(ra * ua <= l * ua) by (nonlinear_arith)
            requires
                ra <= a / ua + 1,
                a / ua < l,
                ua >= 1,
        ;
        assert(b / ub >= l / 2) by (nonlinear_arith)
            requires
                l * ub <= 2 * b,
                b == ub * (b / ub) + b % ub,
                b % ub < ub,
                ub >= 1,
                l == 0x20_0000_0000_0000,
        ;
        assert(rb * ub >= l * ua) by (nonlinear_arith)
            requires
                rb >= b / ub,
                b / ub >= l / 2,
                2 * ua <= ub,
                l == 0x20_0000_0000_0000,
        ;
    }
}

/// A larger size is never shown smaller: its unit is at least as large, and
/// in the same unit its shown number is at least as large.
pub proof fn lemma_size_text_monotone(a: nat, b: nat)
    requires
        a <= b,
    ensures
        size_unit(a) <= size_unit(b),
        size_unit(a) == size_unit(b) ==> size_scaled(a) <= size_scaled(b),
{
    if size_unit(a) == size_unit(b) {
        if a >= GB {
            lemma_as_double_monotone(a, b);
            lemma_round_half_even_monotone(as_double(a) * 100, as_double(b) * 100, GB as nat);
        } else if a >= MB {
            lemma_round_half_even_monotone(a * 100, b * 100, MB as nat);
        } else if a >= KB {
            lemma_round_half_even_monotone(a * 10, b * 10, KB as nat);
        }
    }
}

/// `n / d` rounded to the nearest integer, ties to the even one.
fn round_div_half_even(n: u128, d: u128) -> (r: u128)
    requires
        d > 0,
        n < 0x1_0000_0000_0000_0000_0000_0000,
    ensures
        r == round_half_even(n as nat, d as nat),
        r <= n / d + 1,
{
    let q = n / d;
    let m = n % d;
    if m > d - m || (m == d - m && q % 2 == 1) {
        q + 1
    } else {
        q
    }
}

/// The value of `bytes as f64`, computed exactly in integers.
fn double_value(bytes: u64) -> (f: u128)
    ensures
        f == as_double(bytes as nat),
        f <= 0x2_0000_0000_0000_0000,
{
    let mut t: u64 = bytes;
    let mut p: u128 = 1;
    while t >= EXACT_LIMIT
        invariant
            p >= 1,
            p <= bytes || p == 1,
            t == bytes as nat / p as nat,
            ulp(bytes as nat) == p * ulp(t as nat),
        decreases t,
    {
        proof {
            let b: int = bytes as int;
            let pi: int = p as int;
            let ti: int = t as int;
            vstd::arithmetic::div_mod::lemma_div_denominator(b, pi, 2);
            vstd::arithmetic::div_mod::lemma_fundamental_div_mod(b, pi);
            assert(pi * ti <= b);
            assert(pi * 2 <= b) by (nonlinear_arith)
                requires
                    pi * ti <= b,
                    ti >= 2,
                    pi >= 1,
            ;
            let u: int = ulp(t as nat) as int;
            let u2: int = ulp((t / 2) as nat) as int;
            assert(u == 2 * u2);
            assert(pi * u == (pi * 2) * u2) by (nonlinear_arith)
                requires
                    u == 2 * u2,
            ;
        }
        t = t / 2;
        p = p * 2;
    }
    assert(ulp(bytes as nat) == p) by {
        let u: int = ulp(t as nat) as int;
        let pi: int = p as int;
        assert(u == 1);
        assert(pi * u == pi) by (nonlinear_arith)
            requires
                u == 1,
        ;
    }
    let r = round_div_half_even(bytes as u128, p);
    proof {
        let b: int = bytes as int;
        let pi: int = p as int;
        let ri: int = r as int;
        vstd::arithmetic::div_mod::lemma_fundamental_div_mod(b, pi);
        assert(pi * (b / pi) <= b);
        assert(ri * pi <= b + pi) by (nonlinear_arith)
            requires
                ri <= b / pi + 1,
                pi * (b / pi) <= b,
                pi >= 1,
        ;
    }
    r * p
}

/// Appends `v / unit` with two decimal places.
fn push_fixed_two(s: &mut String, v: u128, unit: u128)
    requires
        unit > 0,
        v <= 0x2_0000_0000_0000_0000,
    ensures
        final(s)@ == old(s)@ + fixed_two(v as nat, unit as nat),
{
    let scaled = round_div_half_even(v * 100, unit);
    push_decimal(s, scaled / 100);
    push_char(s, '.');
    let frac = scaled % 100;
    push_char(s, digit((frac / 10) as u8));
    push_char(s, digit((scaled % 10) as u8));
    assert(final(s)@ =~= old(s)@ + fixed_two(v as nat, unit as nat));
}

/// Appends `v / unit` with one decimal place.
fn push_fixed_one(s: &mut String, v: u128, unit: u128)
    requires
        unit > 0,
        v <= 0x2_0000_0000_0000_0000,
    ensures
        final(s)@ == old(s)@ + fixed_one(v as nat, unit as nat),
{
    let scaled = round_div_half_even(v * 10, unit);
    push_decimal(s, scaled / 10);
    push_char(s, '.');
    push_char(s, digit((scaled % 10) as u8));
    assert(final(s)@ =~= old(s)@ + fixed_one(v as nat, unit as nat));
}

/// Formats a byte count for display: "512 B", "1.5 KB", "2.25 MB", "1.00 GB".
pub fn fmt_size(bytes: u64) -> (s: String)
    ensures
        s@ == size_text(bytes as nat),
{
    let mut s = String::new();
    if bytes >= GB {
        let f = double_value(bytes);
        push_fixed_two(&mut s, f, GB as u128);
        s.append(" GB");
    } else if bytes >= MB {
        push_fixed_two(&mut s, bytes as u128, MB as u128);
        s.append(" MB");
    } else if bytes >= KB {
        push_fixed_one(&mut s, bytes as u128, KB as u128);
        s.append(" KB");
    } else {
        push_decimal(&mut s, bytes as u128);
        s.append(" B");
    }
    assert(s@ =~= size_text(bytes as nat));
    s
}

} // verus!
