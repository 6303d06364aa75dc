//! File sizes as the status bar shows them: bytes below 1 KiB, else KiB and
//! MiB with one decimal and GiB with two, in binary units.

use vstd::prelude::*;
use crate::text::{decimal, digit_char, push_decimal, push_str, push_char, digit_to_char};

verus! {

/// `n / d` rounded to the nearest integer, a tie going to the even one.
pub open spec fn round_half_even(n: nat, d: nat) -> nat
    recommends
        d > 0,
{
    let q = n / d;
    let r = n % d;
    if 2 * r > d {
        q + 1
    } else if 2 * r < d {
        q
    } else if q % 2 == 0 {
        q
    } else {
        q + 1
    }
}

/// The spacing of the doubles next to `b`: 1 below 2^53, doubling with
/// each further bit.
pub open spec fn ulp_of(b: nat) -> nat
    decreases b,
{
    if b < 0x20_0000_0000_0000 {
        1
    } else {
        2 * ulp_of(b / 2)
    }
}

/// The double nearest to `b` (a tie going to the even significand), that
/// is the value of `b as f64`.
pub open spec fn nearest_double(b: nat) -> nat {
    round_half_even(b, ulp_of(b)) * ulp_of(b)
}

/// `tenths / 10` written with one decimal, then `unit`.
pub open spec fn one_decimal(tenths: nat, unit: Seq<char>) -> Seq<char> {
    decimal(tenths / 10) + seq!['.', digit_char(tenths % 10)] + unit
}

/// `hundredths / 100` written with two decimals, then `unit`.
pub open spec fn two_decimals(hundredths: nat, unit: Seq<char>) -> Seq<char> {
    decimal(hundredths / 100) + seq!['.', digit_char((hundredths % 100) / 10), digit_char(hundredths % 10)]
        + unit
}

/// The text of a size of `bytes` bytes: `"{bytes} B"` below 1024, else the
/// size in KB, MB (one decimal) or GB (two decimals) of 1024, 1024² and
/// 1024³ bytes. The decimals are those of the quotient of `bytes as f64`,
/// rounded to nearest with ties to even.
pub open spec fn file_size_text(bytes: nat) -> Seq<char> {
    if bytes < 1024 {
        decimal(bytes) + " B"@
    } else if bytes < 1024 * 1024 {
        one_decimal(round_half_even(bytes * 10, 1024), " KB"@)
    } else if bytes < 1024 * 1024 * 1024 {
        one_decimal(round_half_even(bytes * 10, 1024 * 1024), " MB"@)
    } else {
        two_decimals(round_half_even(nearest_double(bytes) * 100, 1024 * 1024 * 1024), " GB"@)
    }
}

proof fn lemma_round_bounds(n: nat, d: nat)
    requires
        d > 0,
    ensures
        round_half_even(n, d) <= n / d + 1,
        round_half_even(n, d) * d <= n + d,
{
    let q = n / d;
    assert(q * d <= n) by (nonlinear_arith)
        requires q == n / d, d > 0;
    assert((q + 1) * d == q * d + d) by (nonlinear_arith);
}

fn round_exec(n: u128, d: u128) -> (r: u128)
    requires
        0 < d < 0x1_0000_0000_0000_0000,
        n < 0x10_0000_0000_0000_0000_0000_0000,
    ensures
        r == round_half_even(n as nat, d as nat),
{
    let q = n / d;
    let rem = n % d;
    proof {
        assert(q * d <= n) by (nonlinear_arith)
            requires q == n / d, d > 0;
        assert(q <= n) by (nonlinear_arith)
            requires q * d <= n, d >= 1;
    }
    if 2 * rem > d {
        q + 1
    } else if 2 * rem < d {
        q
    } else if q % 2 == 0 {
        q
    } else {
        q + 1
    }
}

fn nearest_double_exec(b: u64) -> (r: u128)
    ensures
        r == nearest_double(b as nat),
        r <= b + 0x1000,
{
    let mut u: u128 = 1;
    let mut t: u64 = b;
    while t >= 0x20_0000_0000_0000
        invariant
            u >= 1,
            u * t <= b,
            u * ulp_of(t as nat) == ulp_of(b as nat),
            u <= 0x1000,
        decreases t,
    {
        proof {
            assert(ulp_of(t as nat) == 2 * ulp_of((t / 2) as nat));
            assert(u * ulp_of(t as nat) == (2 * u) * ulp_of((t / 2) as nat)) by (nonlinear_arith)
                requires ulp_of(t as nat) == 2 * ulp_of((t / 2) as nat);
            assert((2 * u) * (t / 2) <= u * t) by (nonlinear_arith);
            assert(u < 0x800) by (nonlinear_arith)
                requires u * t <= b, t >= 0x20_0000_0000_0000, b < 0x1_0000_0000_0000_0000;
        }
        u = 2 * u;
        t = t / 2;
    }
    proof {
        assert(ulp_of(t as nat) == 1);
        let lt = ulp_of(t as nat);
        let lb = ulp_of(b as nat);
        assert(u == lb) by (nonlinear_arith)
            requires u * lt == lb, lt == 1;
    }
    let q = round_exec(b as u128, u);
    proof {
        lemma_round_bounds(b as nat, u as nat);
    }
    q * u
}

/// The size of a file of `bytes` bytes as text (see `file_size_text`).
pub fn format_file_size(bytes: u64) -> (s: String)
    ensures
        s@ == file_size_text(bytes as nat),
{
    let mut s = String::new();
    if bytes < 1024 {
        push_decimal(&mut s, bytes);
        push_str(&mut s, " B");
        return s;
    }
    if bytes < 1024 * 1024 * 1024 {
        let unit: u128 = if bytes < 1024 * 1024 { 1024 } else { 1024 * 1024 };
        let tenths = round_exec((bytes as u128) * 10, unit);
        proof {
            lemma_round_bounds((bytes * 10) as nat, unit as nat);
            assert((bytes * 10) as nat / (unit as nat) <= bytes * 10) by (nonlinear_arith)
                requires unit >= 1;
        }
        let t = tenths as u64;
        push_decimal(&mut s, t / 10);
        push_char(&mut s, '.');
        push_char(&mut s, digit_to_char(t % 10));
        if bytes < 1024 * 1024 {
            push_str(&mut s, " KB");
        } else {
            push_str(&mut s, " MB");
        }
        return s;
    }
    let nd = nearest_double_exec(bytes);
    let h = round_exec(nd * 100, 1024 * 1024 * 1024);
    proof {
        lemma_round_bounds((nd * 100) as nat, 1024 * 1024 * 1024);
        assert((nd * 100) as nat / 0x4000_0000 <= nd * 100) by (nonlinear_arith);
    }
    let h = h as u64;
    push_decimal(&mut s, h / 100);
    push_char(&mut s, '.');
    push_char(&mut s, digit_to_char((h % 100) / 10));
    push_char(&mut s, digit_to_char(h % 10));
    push_str(&mut s, " GB");
    s
}

} // verus!
