//! Human-readable file sizes: bytes, KB, MB and GB with the decimals a
//! 64-bit float prints.

use crate::strings::{decimal, digit_char, push_char, push_decimal};
use vstd::arithmetic::div_mod::*;
use vstd::arithmetic::power2::*;
use vstd::prelude::*;

verus! {

/// `p / q` rounded to the nearest integer, halves to even.
pub open spec fn round_half_even(p: nat, q: nat) -> nat {
    let f = p / q;
    let r = p % q;
    if 2 * r > q || (2 * r == q && f % 2 == 1) {
        f + 1
    } else {
        f
    }
}

/// How many low bits of `n` a 64-bit float (53-bit significand) drops.
pub open spec fn f64_shift(n: nat) -> nat
    decreases n,
{
    if n < 0x20_0000_0000_0000 {
        0
    } else {
        1 + f64_shift(n / 2)
    }
}

/// The integer `n` converted to a 64-bit float: rounded to 53 significant
/// bits, halves to even.
pub open spec fn f64_value(n: nat) -> nat {
    round_half_even(n, pow2(f64_shift(n))) * pow2(f64_shift(n))
}

/// `m / 10` written with exactly one decimal.
pub open spec fn one_decimal(m: nat) -> Seq<char> {
    decimal(m / 10) + seq!['.', digit_char(m % 10)]
}

/// `m / 100` written with exactly two decimals.
pub open spec fn two_decimals(m: nat) -> Seq<char> {
    decimal(m / 100) + seq!['.', digit_char((m / 10) % 10), digit_char(m % 10)]
}

/// The size label: "Pasta" for a directory; whole bytes below 1 KiB; KiB and
/// MiB with one decimal; GiB with two decimals.
pub open spec fn size_label(bytes: u64, is_dir: bool) -> Seq<char> {
    if is_dir {
        "Pasta"@
    } else if bytes < 1024 {
        decimal(bytes as nat) + " B"@
    } else if bytes < 1048576 {
        one_decimal(round_half_even((bytes * 10) as nat, 1024)) + " KB"@
    } else if bytes < 1073741824 {
        one_decimal(round_half_even((bytes * 10) as nat, 1048576)) + " MB"@
    } else {
        two_decimals(round_half_even(f64_value(bytes as nat) * 100, 1073741824)) + " GB"@
    }
}

/// Computes `round_half_even(p, q)`.
fn round_half_even_exec(p: u128, q: u128) -> (r: u128)
    requires
        q > 0,
        p / q < u128::MAX,
    ensures
        r == round_half_even(p as nat, q as nat),
{
    let f = p / q;
    let rem = p % q;
    proof {
        lemma_mod_bound(p as int, q as int);
    }
    if rem > q - rem || (rem == q - rem && f % 2 == 1) {
        f + 1
    } else {
        f
    }
}

/// Computes `f64_value(n)`.
fn f64_value_exec(n: u64) -> (v: u128)
    ensures
        v == f64_value(n as nat),
        v <= 0x1_0000_0000_0000_1000,
{
    let mut m: u128 = n as u128;
    let mut p: u128 = 1;
    let ghost mut s: nat = 0;
    proof {
        lemma2_to64();
        lemma_div_basics(n as int);
    }
    while m >= 0x20_0000_0000_0000
        invariant
            f64_shift(n as nat) == s + f64_shift(m as nat),
            p == pow2(s),
            m == (n as nat) / (p as nat),
            p >= 1,
            p * 0x20_0000_0000_0000 <= 2 * (n as nat) || s == 0,
            s <= 64,
        decreases m,
    {
        proof {
            lemma_div_denominator(n as int, p as int, 2);
            lemma_pow2_unfold(s + 1);
            lemma_fundamental_div_mod(n as int, p as int);
            assert(p * 0x20_0000_0000_0000 <= (n as nat)) by (nonlinear_arith)
                requires
                    m >= 0x20_0000_0000_0000,
                    n == p * m + (n as int) % (p as int),
                    (n as int) % (p as int) >= 0,
                    p >= 1,
            ;
            assert(p <= 0x800) by (nonlinear_arith)
                requires
                    p * 0x20_0000_0000_0000 <= (n as nat),
                    n < 0x1_0000_0000_0000_0000,
            ;
            if s >= 12 {
                lemma_pow2_strictly_increases(11, s);
                lemma2_to64();
            }
        }
        m = m / 2;
        p = p * 2;
        proof {
            s = s + 1;
        }
    }
    let q = n as u128 / p;
    proof {
        lemma_fundamental_div_mod(n as int, p as int);
        assert(q < u128::MAX);
    }
    let r = round_half_even_exec(n as u128, p);
    proof {
        lemma_fundamental_div_mod(n as int, p as int);
        assert(r * p <= (n as nat) + p) by (nonlinear_arith)
            requires
                r <= q + 1,
                n == p * q + (n as int) % (p as int),
                (n as int) % (p as int) >= 0,
                p >= 1,
        ;
        assert(p <= 0x1000) by (nonlinear_arith)
            requires
                p * 0x20_0000_0000_0000 <= 2 * (n as nat) || p == 1,
                n < 0x1_0000_0000_0000_0000,
        ;
    }
    r * p
}

/// Appends `one_decimal(m)` to `s`.
fn push_one_decimal(s: &mut String, m: u128)
    ensures
        final(s)@ == old(s)@ + one_decimal(m as nat),
{
    push_decimal(s, m / 10);
    push_char(s, '.');
    push_char(s, (48u8 + (m % 10) as u8) as char);
    assert(final(s)@ =~= old(s)@ + one_decimal(m as nat));
}

/// Appends `two_decimals(m)` to `s`.
fn push_two_decimals(s: &mut String, m: u128)
    ensures
        final(s)@ == old(s)@ + two_decimals(m as nat),
{
    push_decimal(s, m / 100);
    push_char(s, '.');
    push_char(s, (48u8 + ((m / 10) % 10) as u8) as char);
    push_char(s, (48u8 + (m % 10) as u8) as char);
    assert(final(s)@ =~= old(s)@ + two_decimals(m as nat));
}

/// The label of a file or directory size, as the directory report shows it.
pub fn format_size(bytes: u64, is_dir: bool) -> (label: String)
    ensures
        label@ == size_label(bytes, is_dir),
{
    if is_dir {
        return String::from_str("Pasta");
    }
    let mut s = String::new();
    if bytes < 1024 {
        push_decimal(&mut s, bytes as u128);
        s.append(" B");
    } else if bytes < 1048576 {
        let m = round_half_even_exec(bytes as u128 * 10, 1024);
        push_one_decimal(&mut s, m);
        s.append(" KB");
    } else if bytes < 1073741824 {
        let m = round_half_even_exec(bytes as u128 * 10, 1048576);
        push_one_decimal(&mut s, m);
        s.append(" MB");
    } else {
        let v = f64_value_exec(bytes);
        let m = round_half_even_exec(v * 100, 1073741824);
        push_two_decimals(&mut s, m);
        s.append(" GB");
    }
    s
}

} // verus!
