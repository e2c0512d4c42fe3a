//! Human-readable byte sizes: `B` below 1 KiB, then `KB` with one decimal,
//! `MB` and `GB` with two. The decimals are those of the binary floating-point
//! quotient, printed with round-half-to-even as Rust's `{:.N}` does; here they
//! are computed exactly in integers.

use crate::text::{decimal, push_char, push_decimal, push_padded2, zero_padded};
use vstd::prelude::*;

verus! {

/// `num / den` rounded to the nearest integer, ties to the even one.
pub open spec fn round_half_even(num: nat, den: nat) -> nat {
    let q = num / den;
    let r = num % den;
    if 2 * r > den || (2 * r == den && q % 2 == 1) {
        q + 1
    } else {
        q
    }
}

/// The spacing of 64-bit floats around `b`: 1 below 2^53, doubling with
/// each further binary digit of `b`.
pub open spec fn f64_unit(b: nat) -> nat
    decreases b,
{
    if b < 0x20_0000_0000_0000 {
        1
    } else {
        2 * f64_unit(b / 2)
    }
}

/// The value of `b as f64`: `b` rounded to the nearest float, ties to even.
pub open spec fn f64_rounded(b: nat) -> nat {
    round_half_even(b, f64_unit(b)) * f64_unit(b)
}

/// `q / 10` with one decimal.
pub open spec fn one_decimal(q: nat) -> Seq<char> {
    decimal(q / 10) + seq!['.'] + decimal(q % 10)
}

/// `q / 100` with two decimals.
pub open spec fn two_decimals(q: nat) -> Seq<char> {
    decimal(q / 100) + seq!['.'] + zero_padded(q % 100, 2)
}

/// The label `fsize` gives a byte count `b`.
pub open spec fn size_label(b: nat) -> Seq<char> {
    if b < 1024 {
        decimal(b) + seq![' ', 'B']
    } else if b < 1048576 {
        one_decimal(round_half_even(b * 10, 1024)) + seq![' ', 'K', 'B']
    } else if b < 1073741824 {
        two_decimals(round_half_even(b * 100, 1048576)) + seq![' ', 'M', 'B']
    } else {
        two_decimals(round_half_even(f64_rounded(b) * 100, 1073741824)) + seq![' ', 'G', 'B']
    }
}

/// Every size has a label: none is empty.
pub proof fn lemma_size_label_nonempty(b: nat)
    ensures
        size_label(b).len() > 0,
{
}

/// The unit a label uses: 0 for `B`, 1 for `KB`, 2 for `MB`, 3 for `GB`.
pub open spec fn size_unit(b: nat) -> nat {
    if b < 1024 {
        0
    } else if b < 1048576 {
        1
    } else if b < 1073741824 {
        2
    } else {
        3
    }
}

/// The suffix of unit `u`.
pub open spec fn unit_suffix(u: nat) -> Seq<char> {
    if u == 0 {
        seq![' ', 'B']
    } else if u == 1 {
        seq![' ', 'K', 'B']
    } else if u == 2 {
        seq![' ', 'M', 'B']
    } else {
        seq![' ', 'G', 'B']
    }
}

/// Larger sizes never take smaller units, and each label ends with its
/// unit.
pub proof fn lemma_size_units(a: nat, b: nat)
    ensures
        a <= b ==> size_unit(a) <= size_unit(b),
        size_label(b).len() > unit_suffix(size_unit(b)).len(),
        size_label(b).subrange(
            size_label(b).len() - unit_suffix(size_unit(b)).len(),
            size_label(b).len() as int,
        ) == unit_suffix(size_unit(b)),
{
    let l = size_label(b);
    let u = unit_suffix(size_unit(b));
    if b < 1024 {
        assert(decimal(b).len() > 0) by {
            reveal_with_fuel(decimal, 2);
        }
    }
    assert(decimal(b).len() >= 0);
    assert(l.subrange(l.len() - u.len(), l.len() as int) =~= u);
}

fn round_div(num: u128, den: u128) -> (q: u128)
    requires
        0 < den < 0x1_0000_0000_0000_0000_0000_0000,
        num < 0x1_0000_0000_0000_0000_0000_0000,
    ensures
        q == round_half_even(num as nat, den as nat),
        q <= num / den + 1,
{
    let q = num / den;
    let r = num % den;
    if 2 * r > den || (2 * r == den && q % 2 == 1) {
        q + 1
    } else {
        q
    }
}

proof fn lemma_f64_unit_step(t: nat)
    requires
        t >= 0x20_0000_0000_0000,
    ensures
        f64_unit(t) == 2 * f64_unit(t / 2),
{
}

/// `b as f64`, exactly, as an integer.
fn f64_value(b: u64) -> (v: u128)
    ensures
        v == f64_rounded(b as nat),
        v <= 0x1_0000_0000_0000_0800,
{
    let mut unit: u128 = 1;
    let mut t: u64 = b;
    while t >= 0x20_0000_0000_0000
        invariant
            f64_unit(b as nat) == unit * f64_unit(t as nat),
            1 <= unit <= 0x1000,
            unit * t <= b,
        decreases t,
    {
        proof {
            lemma_f64_unit_step(t as nat);
            let ft2 = f64_unit((t / 2) as nat);
            assert(unit * (2 * ft2) == (2 * unit) * ft2) by (nonlinear_arith);
            assert((2 * unit) * (t / 2) <= unit * t) by (nonlinear_arith)
                requires
                    unit >= 1,
            ;
            assert(unit < 0x800) by (nonlinear_arith)
                requires
                    unit * t <= b,
                    t >= 0x20_0000_0000_0000,
                    b < 0x1_0000_0000_0000_0000,
            ;
        }
        t = t / 2;
        unit = unit * 2;
    }
    assert(f64_unit(t as nat) == 1);
    assert(f64_unit(b as nat) == unit) by (nonlinear_arith)
        requires
            f64_unit(b as nat) == unit * f64_unit(t as nat),
            f64_unit(t as nat) == 1,
    ;
    let q = round_div(b as u128, unit);
    proof {
        let fl = (b as u128) / unit;
        vstd::arithmetic::div_mod::lemma_fundamental_div_mod(b as int, unit as int);
        assert(fl * unit <= b);
        assert(q * unit <= fl * unit + unit) by (nonlinear_arith)
            requires
                q <= fl + 1,
                unit >= 1,
        ;
        assert(q * unit == f64_rounded(b as nat));
    }
    q * unit
}

/// Formats a byte count as a human-readable size.
pub fn fsize(b: u64) -> (label: String)
    ensures
        label@ == size_label(b as nat),
{
    let mut s = String::new();
    if b < 1024 {
        push_decimal(&mut s, b as u128);
        push_char(&mut s, ' ');
        push_char(&mut s, 'B');
    } else if b < 1048576 {
        let q = round_div(b as u128 * 10, 1024);
        push_decimal(&mut s, q / 10);
        push_char(&mut s, '.');
        push_decimal(&mut s, q % 10);
        push_char(&mut s, ' ');
        push_char(&mut s, 'K');
        push_char(&mut s, 'B');
    } else if b < 1073741824 {
        let q = round_div(b as u128 * 100, 1048576);
        push_decimal(&mut s, q / 100);
        push_char(&mut s, '.');
        push_padded2(&mut s, q % 100);
        push_char(&mut s, ' ');
        push_char(&mut s, 'M');
        push_char(&mut s, 'B');
    } else {
        let v = f64_value(b);
        let q = round_div(v * 100, 1073741824);
        push_decimal(&mut s, q / 100);
        push_char(&mut s, '.');
        push_padded2(&mut s, q % 100);
        push_char(&mut s, ' ');
        push_char(&mut s, 'G');
        push_char(&mut s, 'B');
    }
    proof {
        assert(s@ =~= size_label(b as nat));
    }
    s
}

} // verus!
