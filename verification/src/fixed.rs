//! Millisecond text with two decimals, exactly as a binary64 float
//! `micros / 1000.0` prints with two fraction digits: the microsecond
//! count is first rounded to the nearest binary64 value, the quotient by
//! 1000 is rounded to the nearest binary64 value, and that value is
//! rounded to hundredths, ties to even at each step.

use vstd::prelude::*;
use crate::text::{dec_text, digit_char, digit_str, push_dec};

verus! {

/// `2^k`.
pub open spec fn pow2n(k: nat) -> nat
    decreases k,
{
    if k == 0 {
        1
    } else {
        2 * pow2n((k - 1) as nat)
    }
}

/// `a / b` rounded to the nearest integer, ties to the even one.
pub open spec fn round_half_even(a: nat, b: nat) -> nat {
    let q = a / b;
    let r = a % b;
    if 2 * r > b || (2 * r == b && q % 2 == 1) {
        q + 1
    } else {
        q
    }
}

/// Smallest binary64 significand: `2^52`.
pub open spec fn sig_low() -> nat {
    4503599627370496
}

/// `m` rounded to the nearest binary64 value: exact below `2^53`, to a
/// multiple of two below `2^54`, to a multiple of four above (the function
/// is used below `2^55`).
pub open spec fn binary64_of(m: nat) -> nat {
    if m < 2 * sig_low() {
        m
    } else if m < 4 * sig_low() {
        round_half_even(m, 2) * 2
    } else {
        round_half_even(m, 4) * 4
    }
}

/// The binary exponent shift `k` that brings `m / 1000` into the
/// significand range: the first `k` from `k0` on with
/// `m * 2^k >= 2^52 * 1000` (at most 62).
pub open spec fn scale_exp(m: nat, k: nat) -> nat
    decreases 62 - k,
{
    if k >= 62 || m * pow2n(k) >= sig_low() * 1000 {
        k
    } else {
        scale_exp(m, k + 1)
    }
}

/// Hundredths of `micros / 1000.0` as printed with two fraction digits.
pub open spec fn ms_hundredths(micros: nat) -> nat {
    let m = binary64_of(micros);
    if m == 0 {
        0
    } else {
        let k = scale_exp(m, 0);
        let significand = round_half_even(m * pow2n(k), 1000);
        round_half_even(significand * 100, pow2n(k))
    }
}

/// Fixed-point text with two fraction digits of `h` hundredths.
pub open spec fn fixed2_text(h: nat) -> Seq<char> {
    dec_text(h / 100) + seq!['.', digit_char((h / 10) % 10), digit_char(h % 10)]
}

/// Round half to even of `a / b` on machine integers.
fn round_half_even_u64(a: u64, b: u64) -> (r: u64)
    requires
        b > 0,
        b < 0x8000_0000_0000_0000,
        a < 0xffff_ffff_ffff_fff0,
    ensures
        r == round_half_even(a as nat, b as nat),
{
    let q = a / b;
    let rem = a % b;
    if 2 * rem > b || (2 * rem == b && q % 2 == 1) {
        q + 1
    } else {
        q
    }
}

proof fn lemma_pow2n_pos(k: nat)
    ensures
        pow2n(k) >= 1,
    decreases k,
{
    if k > 0 {
        lemma_pow2n_pos((k - 1) as nat);
    }
}

proof fn lemma_pow2n_62()
    ensures
        pow2n(62) == 0x4000_0000_0000_0000,
{
    reveal_with_fuel(pow2n, 63);
}

proof fn lemma_pow2n_mono(j: nat, k: nat)
    requires
        j <= k,
    ensures
        pow2n(j) <= pow2n(k),
    decreases k,
{
    if j < k {
        lemma_pow2n_mono(j, (k - 1) as nat);
        lemma_pow2n_pos((k - 1) as nat);
    }
}

/// The hundredths that `micros / 1000.0` prints with, for any count of
/// microseconds below `2^55`.
pub fn ms_hundredths_of(micros: u64) -> (h: u64)
    requires
        micros < 0x80_0000_0000_0000,
    ensures
        h == ms_hundredths(micros as nat),
{
    let m: u64 = if micros < 0x20_0000_0000_0000 {
        micros
    } else if micros < 0x40_0000_0000_0000 {
        round_half_even_u64(micros, 2) * 2
    } else {
        round_half_even_u64(micros, 4) * 4
    };
    assert(m == binary64_of(micros as nat));
    if m == 0 {
        return 0;
    }
    let low: u64 = 4503599627370496000;
    let mut k: u64 = 0;
    let mut p: u64 = 1;
    let mut n: u64 = m;
    proof {
        assert(pow2n(0) == 1);
    }
    while n < low && k < 62
        invariant
            1 <= m <= 0x80_0000_0000_0000,
            k <= 62,
            p == pow2n(k as nat),
            n == m * p,
            n < 2 * low,
            scale_exp(m as nat, 0) == scale_exp(m as nat, k as nat),
            low == sig_low() * 1000,
            1 <= p <= 0x4000_0000_0000_0000,
        decreases 62 - k,
    {
        proof {
            assert(pow2n((k + 1) as nat) == 2 * pow2n(k as nat));
            lemma_pow2n_mono((k + 1) as nat, 62);
            lemma_pow2n_62();
        }
        n = n * 2;
        p = p * 2;
        k = k + 1;
        assert(n == m * p) by (nonlinear_arith)
            requires
                n == 2 * (m * (p / 2)),
                p % 2 == 0;
    }
    proof {
        assert(scale_exp(m as nat, k as nat) == k);
    }
    let significand = round_half_even_u64(n, 1000);
    assert(significand <= n / 1000 + 1);
    assert(significand < 0x20_0000_0000_0001);
    let h = round_half_even_u64(significand * 100, p);
    h
}

/// Appends the two-decimal text of `h` hundredths.
pub fn push_fixed2(out: &mut String, h: u64)
    ensures
        final(out)@ == old(out)@ + fixed2_text(h as nat),
{
    let ghost start = out@;
    push_dec(out, h / 100);
    proof {
        reveal_strlit(".");
    }
    out.append(".");
    out.append(digit_str(((h / 10) % 10) as u8));
    out.append(digit_str((h % 10) as u8));
    assert(out@ =~= start + fixed2_text(h as nat));
}


/// Rounding to the nearest multiple is off by at most half the divisor.
proof fn lemma_round_half_even_bound(a: nat, b: nat)
    requires
        b > 0,
    ensures
        2 * (round_half_even(a, b) * b - a) <= b,
        2 * (a - round_half_even(a, b) * b) <= b,
{
    let q = a / b;
    let r = a % b;
    assert(a == q * b + r && 0 <= r < b) by (nonlinear_arith)
        requires
            b > 0,
            q == a / b,
            r == a % b,
    ;
    if 2 * r > b || (2 * r == b && q % 2 == 1) {
        assert((q + 1) * b == q * b + b) by (nonlinear_arith);
    }
}

/// The scaling exponent brings `m * 2^k` to at least `2^52 * 1000`.
proof fn lemma_scale_exp(m: nat, k0: nat)
    requires
        1 <= m,
        k0 <= 62,
        m * pow2n(62) >= sig_low() * 1000,
    ensures
        k0 <= scale_exp(m, k0) <= 62,
        m * pow2n(scale_exp(m, k0)) >= sig_low() * 1000,
    decreases 62 - k0,
{
    if k0 < 62 && m * pow2n(k0) < sig_low() * 1000 {
        lemma_scale_exp(m, k0 + 1);
    } else if k0 >= 62 {
        assert(k0 == 62);
    }
}

/// The printed hundredths of milliseconds are within half a hundredth of
/// the exact value: for fewer than `2^53` microseconds `m`, the printed
/// `h` hundredths satisfy `|10 h - m| <= 5`.
pub proof fn law_ms_hundredths_close(m: nat)
    requires
        m < 2 * sig_low(),
    ensures
        -5 <= 10 * ms_hundredths(m) - m <= 5,
{
    if m > 0 {
        lemma_pow2n_62();
        assert(m * pow2n(62) >= sig_low() * 1000) by (nonlinear_arith)
            requires
                m >= 1,
                pow2n(62) == 0x4000_0000_0000_0000,
                sig_low() == 4503599627370496,
        ;
        lemma_scale_exp(m, 0);
        let k = scale_exp(m, 0);
        let p = pow2n(k);
        lemma_pow2n_pos(k);
        let n = m * p;
        let sig = round_half_even(n, 1000);
        let h = round_half_even(sig * 100, p);
        lemma_round_half_even_bound(n, 1000);
        lemma_round_half_even_bound(sig * 100, p);
        assert(p > 500) by (nonlinear_arith)
            requires
                m * p >= 4503599627370496 * 1000,
                m < 2 * 4503599627370496,
        ;
        assert(-5 <= 10 * h - m <= 5) by (nonlinear_arith)
            requires
                2 * (sig * 1000 - n) <= 1000,
                2 * (n - sig * 1000) <= 1000,
                2 * (h * p - sig * 100) <= p,
                2 * (sig * 100 - h * p) <= p,
                n == m * p,
                p > 500,
        {
            assert(20 * (h * p) - 20 * (sig * 100) <= 10 * p);
            assert(20 * (sig * 100) - 20 * (h * p) <= 10 * p);
            assert(2 * (sig * 1000) - 2 * n <= 1000);
            assert(2 * n - 2 * (sig * 1000) <= 1000);
            assert(20 * (h * p) - 2 * n <= 10 * p + 1000);
            assert(2 * n - 20 * (h * p) <= 10 * p + 1000);
            assert((20 * h - 2 * m) * p <= 10 * p + 1000);
            assert((2 * m - 20 * h) * p <= 10 * p + 1000);
        }
        assert(ms_hundredths(m) == h);
    }
}

/// A count of microseconds that is a whole number of hundredths of a
/// millisecond (below `2^53`) prints exactly.
pub proof fn law_ms_hundredths_exact(m: nat)
    requires
        m < 2 * sig_low(),
        m % 10 == 0,
    ensures
        ms_hundredths(m) == m / 10,
{
    law_ms_hundredths_close(m);
}
} // verus!
