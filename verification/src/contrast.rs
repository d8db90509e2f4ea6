//! Contrast rescue for faint ink: a guarded linear stretch of the gray levels.

use vstd::prelude::*;

verus! {

// ---------------------------------------------------------------------------
// Gray-level statistics

/// How many entries of `s` are at most `v`.
pub open spec fn count_le(s: Seq<u8>, v: int) -> nat
    decreases s.len(),
{
    if s.len() == 0 {
        0
    } else {
        count_le(s.drop_last(), v) + if s.last() <= v {
            1nat
        } else {
            0nat
        }
    }
}

/// How many entries of `s` equal `v`.
pub open spec fn count_eq(s: Seq<u8>, v: int) -> nat
    decreases s.len(),
{
    if s.len() == 0 {
        0
    } else {
        count_eq(s.drop_last(), v) + if s.last() == v {
            1nat
        } else {
            0nat
        }
    }
}

/// The least gray level `v >= from` (at most 255) with at least `target`
/// pixels at or below it; 255 when there is none.
pub open spec fn level_from(s: Seq<u8>, target: int, from: int) -> u8
    decreases 256 - from,
{
    if from >= 255 {
        255
    } else if count_le(s, from) >= target {
        from as u8
    } else {
        level_from(s, target, from + 1)
    }
}

/// How many pixels the level for the fraction `num / den` of `n` pixels
/// must cover: that fraction rounded down, and at least one pixel.
pub open spec fn level_target(n: nat, num: nat, den: nat) -> int {
    let t = (n * num / den) as int;
    if t < 1 {
        1
    } else {
        t
    }
}

/// The least gray level at or below which lies the fraction `num / den` of
/// the pixels (and at least one pixel); 255 when there is none.
pub open spec fn percentile_level(s: Seq<u8>, num: nat, den: nat) -> u8 {
    level_from(s, level_target(s.len(), num, den), 0)
}

// ---------------------------------------------------------------------------
// f32 arithmetic on the values that occur here

pub open spec fn two_pow(e: nat) -> nat
    decreases e,
{
    if e == 0 {
        1
    } else {
        2 * two_pow((e - 1) as nat)
    }
}

/// `num / den` rounded to the nearest integer, ties to even (IEEE rounding).
pub open spec fn round_even(num: nat, den: nat) -> nat {
    let q = num / den;
    let r = num % den;
    if 2 * r > den || (2 * r == den && q % 2 == 1) {
        q + 1
    } else {
        q
    }
}

/// The exponent `e <= 23` at which `255 * 2^e / d` has a 24-bit integer part.
pub open spec fn scale_exp(d: nat, e: nat) -> nat
    decreases e,
{
    if e == 0 || 255 * two_pow(e) < d * two_pow(24) {
        e
    } else {
        scale_exp(d, (e - 1) as nat)
    }
}

/// The smallest `s` with `t < 2^(24 + s)`: how many low bits of `t` an f32
/// cannot hold.
pub open spec fn shift24(t: nat, s: nat) -> nat
    decreases 64 - s,
{
    if s >= 64 || t < two_pow(24) * two_pow(s) {
        s
    } else {
        shift24(t, s + 1)
    }
}

/// The integer `t` rounded to 24 significant bits, ties to even.
pub open spec fn round24(t: nat) -> nat {
    let s = shift24(t, 0);
    round_even(t, two_pow(s)) * two_pow(s)
}

/// Gray level `v` after stretching `[lo, hi]` to `[0, 255]` in f32: the f32
/// nearest to `255 / (hi - lo)` is `m / 2^e`, the f32 product with `v - lo`
/// is `round24((v - lo) * m) / 2^e`, which is rounded half away from zero and
/// clamped to `0..=255`.
pub open spec fn stretched(v: u8, lo: u8, hi: u8) -> u8 {
    if v <= lo {
        0
    } else {
        let d = (hi - lo) as nat;
        let e = scale_exp(d, 23);
        let m = round_even(255 * two_pow(e), d);
        let t = round24(((v - lo) as nat) * m);
        let r = (2 * t + two_pow(e)) / two_pow(e + 1);
        if r > 255 {
            255
        } else {
            r as u8
        }
    }
}

/// What contrast rescue makes of the gray levels `s`: when the darkest 2% are
/// lighter than `dark_ink_max` and the 98% level lies above the 2% level, the
/// range between them is stretched to `[0, 255]`; otherwise `s` is kept.
pub open spec fn rescued(s: Seq<u8>, dark_ink_max: u8) -> Seq<u8> {
    let lo = percentile_level(s, 1, 50);
    let hi = percentile_level(s, 49, 50);
    if lo <= dark_ink_max || hi <= lo {
        s
    } else {
        Seq::new(s.len(), |i: int| stretched(s[i], lo, hi))
    }
}

// ---------------------------------------------------------------------------
// Lemmas

proof fn lemma_count_le_step(s: Seq<u8>, v: int)
    ensures
        count_le(s, v) == count_le(s, v - 1) + count_eq(s, v),
        count_le(s, v) <= s.len(),
        count_eq(s, v) <= s.len(),
    decreases s.len(),
{
    if s.len() > 0 {
        lemma_count_le_step(s.drop_last(), v);
    }
}

proof fn lemma_count_le_ends(s: Seq<u8>)
    ensures
        count_le(s, -1) == 0,
        count_le(s, 255) == s.len(),
    decreases s.len(),
{
    if s.len() > 0 {
        lemma_count_le_ends(s.drop_last());
    }
}

proof fn lemma_two_pow_values()
    ensures
        two_pow(16) == 65536,
        two_pow(23) == 8388608,
        two_pow(24) == 16777216,
{
    reveal_with_fuel(two_pow, 25);
}

// ---------------------------------------------------------------------------
// Executable parts

/// The count of every gray level.
fn histogram(img: &[u8]) -> (hist: Vec<u64>)
    ensures
        hist@.len() == 256,
        forall|v: int| 0 <= v < 256 ==> #[trigger] hist@[v] == count_eq(img@, v),
{
    let mut hist: Vec<u64> = Vec::new();
    while hist.len() < 256
        invariant
            hist@.len() <= 256,
            forall|v: int| 0 <= v < hist@.len() ==> #[trigger] hist@[v] == 0,
        decreases 256 - hist@.len(),
    {
        hist.push(0);
    }
    let mut i: usize = 0;
    while i < img.len()
        invariant
            i <= img@.len(),
            hist@.len() == 256,
            forall|v: int| 0 <= v < 256 ==> #[trigger] hist@[v] == count_eq(img@.take(i as int), v),
        decreases img@.len() - i,
    {
        let v = img[i] as usize;
        proof {
            lemma_count_le_step(img@.take(i as int), v as int);
            assert(img@.take(i as int + 1).drop_last() =~= img@.take(i as int));
        }
        let c = hist[v];
        hist.set(v, c + 1);
        proof {
            assert forall|u: int| 0 <= u < 256 implies #[trigger] hist@[u] == count_eq(
                img@.take(i as int + 1),
                u,
            ) by {
                assert(img@.take(i as int + 1).last() == img@[i as int]);
            }
        }
        i = i + 1;
    }
    assert(img@.take(img@.len() as int) =~= img@);
    hist
}

/// The least gray level with at least `total * num / den` pixels (and at
/// least one pixel) at or below it; 255 when there is none.
fn percentile(hist: &Vec<u64>, total: u64, num: u64, den: u64, Ghost(s): Ghost<Seq<u8>>) -> (r: u8)
    requires
        hist@.len() == 256,
        forall|v: int| 0 <= v < 256 ==> #[trigger] hist@[v] == count_eq(s, v),
        total == s.len(),
        0 < den,
        num <= den,
    ensures
        r == level_from(s, level_target(s.len(), num as nat, den as nat), 0),
{
    let ghost nn = num as int;
    let ghost tt = total as int;
    let ghost dd = den as int;
    assert(nn * tt <= u128::MAX && (nn * tt) / dd <= tt) by (nonlinear_arith)
        requires
            0 <= nn <= dd,
            dd <= u64::MAX,
            0 < dd,
            0 <= tt <= u64::MAX,
    ;
    let prod: u128 = num as u128 * total as u128;
    let frac: u64 = (prod / den as u128) as u64;
    assert(frac == (nn * tt) / dd);
    assert(frac as int == (s.len() * (num as nat) / (den as nat)) as int);
    let target: u64 = if frac < 1 {
        1
    } else {
        frac
    };
    assert(target as int == level_target(s.len(), num as nat, den as nat));
    let mut cum: u64 = 0;
    let mut v: usize = 0;
    proof {
        lemma_count_le_ends(s);
    }
    while v < 255
        invariant
            v <= 255,
            target as int == level_target(s.len(), num as nat, den as nat),
            hist@.len() == 256,
            forall|u: int| 0 <= u < 256 ==> #[trigger] hist@[u] == count_eq(s, u),
            total == s.len(),
            cum == count_le(s, v - 1),
            level_from(s, target as int, 0) == level_from(s, target as int, v as int),
        decreases 255 - v,
    {
        proof {
            lemma_count_le_step(s, v as int);
        }
        cum = cum + hist[v];
        if cum >= target {
            assert(cum == count_le(s, v as int));
            assert(level_from(s, target as int, v as int) == v as u8);
            return v as u8;
        }
        v = v + 1;
    }
    255
}

/// `num / den` rounded to the nearest integer, ties to even.
fn round_even_exec(num: u64, den: u64) -> (r: u64)
    requires
        0 < den < u64::MAX / 2,
        num < u64::MAX / 2,
    ensures
        r == round_even(num as nat, den as nat),
        r <= num / den + 1,
{
    let q = num / den;
    let rem = num % den;
    if 2 * rem > den || (2 * rem == den && q % 2 == 1) {
        q + 1
    } else {
        q
    }
}

/// The integer `t` rounded to 24 significant bits, ties to even.
fn round24_exec(t: u64) -> (r: u64)
    requires
        t < 0x1_0000_0000,
    ensures
        r == round24(t as nat),
        r <= t + 65536,
{
    proof {
        lemma_two_pow_values();
    }
    let mut s: u64 = 0;
    let mut q: u64 = 1;
    while t >= 16777216 * q
        invariant
            t < 0x1_0000_0000,
            s <= 16,
            q == two_pow(s as nat),
            1 <= q <= 65536,
            shift24(t as nat, s as nat) == shift24(t as nat, 0),
            two_pow(24) == 16777216,
            two_pow(16) == 65536,
        decreases 16 - s,
    {
        assert(s < 16) by {
            if s == 16 {
                assert(q == 65536);
            }
        }
        assert(two_pow((s + 1) as nat) == 2 * two_pow(s as nat));
        s = s + 1;
        q = q * 2;
        proof {
            lemma_two_pow_mono(s as nat, 16);
        }
    }
    assert(shift24(t as nat, s as nat) == s);
    let r = round_even_exec(t, q);
    assert(r * q <= t + q) by (nonlinear_arith)
        requires
            r <= t / q + 1,
            q >= 1,
    ;
    r * q
}

proof fn lemma_two_pow_mono(a: nat, b: nat)
    requires
        a <= b,
    ensures
        two_pow(a) <= two_pow(b),
    decreases b,
{
    if a < b {
        lemma_two_pow_mono(a, (b - 1) as nat);
    }
}

/// Gray level `v` after the f32 stretch of `[lo, hi]` to `[0, 255]`.
fn stretch_level(v: u8, lo: u8, hi: u8) -> (r: u8)
    requires
        lo < hi,
    ensures
        r == stretched(v, lo, hi),
{
    if v <= lo {
        return 0;
    }
    proof {
        lemma_two_pow_values();
    }
    let d = (hi - lo) as u64;
    let mut e: u64 = 23;
    let mut p: u64 = 8388608;
    while e > 0 && 255 * p >= d * 16777216
        invariant
            1 <= d <= 255,
            e <= 23,
            p == two_pow(e as nat),
            1 <= p <= 8388608,
            scale_exp(d as nat, e as nat) == scale_exp(d as nat, 23),
            two_pow(24) == 16777216,
        decreases e,
    {
        assert(two_pow(e as nat) == 2 * two_pow((e - 1) as nat));
        e = e - 1;
        p = p / 2;
        proof {
            lemma_two_pow_mono(e as nat, 23);
            lemma_two_pow_pos(e as nat);
            lemma_two_pow_values();
        }
    }
    assert(scale_exp(d as nat, e as nat) == e);
    assert(255 * p < d * 16777216);
    let n255 = 255 * p;
    let m = round_even_exec(n255, d);
    assert(n255 / d < 16777216) by (nonlinear_arith)
        requires
            n255 < d * 16777216,
            1 <= d,
    ;
    let x = (v - lo) as u64;
    assert(x * m <= 255 * 16777216) by (nonlinear_arith)
        requires
            x <= 255,
            m <= 16777216,
    ;
    let t = round24_exec(x * m);
    assert(two_pow((e + 1) as nat) == 2 * two_pow(e as nat));
    let r = (2 * t + p) / (2 * p);
    if r > 255 {
        255
    } else {
        r as u8
    }
}

proof fn lemma_two_pow_pos(e: nat)
    ensures
        two_pow(e) >= 1,
    decreases e,
{
    if e > 0 {
        lemma_two_pow_pos((e - 1) as nat);
    }
}

/// Normal eID ink is dark on white and is left alone. A faint, low-contrast
/// input would have no dark pixels and trace to nothing, so when the darkest
/// 2% of the pixels is still lighter than `dark_ink_max`, the range between
/// the 2% and 98% levels is stretched linearly to `[0, 255]` (in f32, as the
/// levels are rounded there).
pub fn rescue_contrast(img: &mut [u8], dark_ink_max: u8)
    ensures
        final(img)@ == rescued(old(img)@, dark_ink_max),
        count_le(old(img)@, dark_ink_max as int) >= 1 && count_le(old(img)@, dark_ink_max as int)
            >= old(img)@.len() / 50 ==> final(img)@ == old(img)@,
{
    proof {
        if count_le(img@, dark_ink_max as int) >= 1 && count_le(img@, dark_ink_max as int)
            >= img@.len() / 50 {
            lemma_dark_ink_untouched(img@, dark_ink_max);
        }
    }
    let ghost s = img@;
    let hist = histogram(img);
    let total = img.len() as u64;
    let lo = percentile(&hist, total, 1, 50, Ghost(s));
    if lo <= dark_ink_max {
        return;
    }
    let hi = percentile(&hist, total, 49, 50, Ghost(s));
    if hi <= lo {
        return;
    }
    let mut i: usize = 0;
    while i < img.len()
        invariant
            img@.len() == s.len(),
            lo < hi,
            i <= img@.len(),
            forall|k: int| 0 <= k < i ==> #[trigger] img@[k] == stretched(s[k], lo, hi),
            forall|k: int| i <= k < img@.len() ==> #[trigger] img@[k] == s[k],
        decreases img@.len() - i,
    {
        let v = img[i];
        img[i] = stretch_level(v, lo, hi);
        i = i + 1;
    }
    assert(img@ =~= rescued(s, dark_ink_max));
}

// ---------------------------------------------------------------------------
// The stretch maps the 2% level to black and the 98% level to white

proof fn lemma_scale_exp_bounds(d: nat, e: nat)
    requires
        1 <= d <= 255,
        16 <= e <= 23,
        e == 23 || 255 * two_pow(e + 1) >= d * two_pow(24),
    ensures
        16 <= scale_exp(d, e) <= e,
        255 * two_pow(scale_exp(d, e)) < d * two_pow(24),
        255 * two_pow(scale_exp(d, e)) * 2 >= d * two_pow(24),
    decreases e,
{
    lemma_two_pow_values();
    assert(two_pow(e + 1) == 2 * two_pow(e));
    if 255 * two_pow(e) < d * two_pow(24) {
        if e == 23 {
            assert(255 * two_pow(23) * 2 >= d * two_pow(24));
        }
    } else {
        if e == 16 {
            assert(255 * two_pow(16) < d * two_pow(24));
        }
        assert(two_pow(e) == 2 * two_pow((e - 1) as nat));
        lemma_scale_exp_bounds(d, (e - 1) as nat);
    }
}

proof fn lemma_round_even_close(n: nat, q: nat)
    requires
        q >= 1,
    ensures
        n - q <= 2 * (round_even(n, q) * q) - n <= n + q,
        2 * n - q <= 2 * (round_even(n, q) * q) <= 2 * n + q,
{
    let qq = n / q;
    let rr = n % q;
    assert(n == qq * q + rr && 0 <= rr < q) by (nonlinear_arith)
        requires
            qq == n / q,
            rr == n % q,
            q >= 1,
    ;
    if 2 * rr > q || (2 * rr == q && qq % 2 == 1) {
        assert((qq + 1) * q == qq * q + q) by (nonlinear_arith);
    } else {
    }
}

proof fn lemma_shift24_small(t: nat, s: nat)
    requires
        t < 0x1_0000_0000,
        s <= 8,
    ensures
        shift24(t, s) <= 8,
    decreases 8 - s,
{
    lemma_two_pow_values();
    if s < 8 && !(t < two_pow(24) * two_pow(s)) {
        lemma_shift24_small(t, s + 1);
    } else if s == 8 {
        reveal_with_fuel(two_pow, 9);
        assert(two_pow(8) == 256);
        assert(two_pow(24) * two_pow(8) == 0x1_0000_0000);
    }
}

proof fn lemma_round24_close(t: nat)
    requires
        t < 0x1_0000_0000,
    ensures
        2 * t - 256 <= 2 * round24(t) <= 2 * t + 256,
{
    let s = shift24(t, 0);
    lemma_shift24_small(t, 0);
    lemma_two_pow_mono(s, 8);
    lemma_two_pow_pos(s);
    reveal_with_fuel(two_pow, 9);
    lemma_round_even_close(t, two_pow(s));
}

/// The stretch sends the 2% level (and anything darker) to black and the
/// 98% level to white.
pub proof fn lemma_stretch_ends(lo: u8, hi: u8, v: u8)
    requires
        lo < hi,
    ensures
        v <= lo ==> stretched(v, lo, hi) == 0,
        stretched(hi, lo, hi) == 255,
{
    let d = (hi - lo) as nat;
    lemma_two_pow_values();
    lemma_scale_exp_bounds(d, 23);
    let e = scale_exp(d, 23);
    let p = two_pow(e);
    lemma_two_pow_mono(16, e);
    assert(two_pow((e + 1) as nat) == 2 * p);
    let m = round_even(255 * p, d);
    lemma_round_even_close(255 * p, d);
    let t0 = d * m;
    assert(2 * t0 <= 510 * p + d && 510 * p - d <= 2 * t0) by (nonlinear_arith)
        requires
            2 * 255 * p - d <= 2 * (m * d) <= 2 * 255 * p + d,
            t0 == d * m,
    ;
    assert(t0 < 0x1_0000_0000) by (nonlinear_arith)
        requires
            2 * t0 <= 510 * p + d,
            255 * p < d * 16777216,
            d <= 255,
    ;
    lemma_round24_close(t0);
    let t = round24(t0);
    assert((2 * t + p) / (2 * p) == 255) by (nonlinear_arith)
        requires
            2 * t0 - 256 <= 2 * t <= 2 * t0 + 256,
            2 * t0 <= 510 * p + d,
            510 * p - d <= 2 * t0,
            d <= 255,
            p >= 65536,
    ;
}


/// The stretch is linear up to rounding: a level `v` between the 2% level
/// `lo` and the 98% level `hi` goes to a nearest integer of
/// `255 * (v - lo) / (hi - lo)`, and every level from `hi` up goes to white.
pub proof fn lemma_stretch_linear(lo: u8, hi: u8, v: u8)
    requires
        lo < hi,
    ensures
        lo <= v <= hi ==> 510 * (v - lo) - (hi - lo) <= 2 * stretched(v, lo, hi) * (hi - lo) <= 510
            * (v - lo) + (hi - lo),
        v >= hi ==> stretched(v, lo, hi) == 255,
{
    if v <= lo {
        assert(stretched(v, lo, hi) == 0);
        let z = stretched(v, lo, hi) as int;
        assert(z == 0);
        assert(2 * z * (hi - lo) == 0) by (nonlinear_arith)
            requires
                z == 0,
        ;
        return;
    }
    let d = (hi - lo) as nat;
    let k = (v - lo) as nat;
    lemma_two_pow_values();
    lemma_scale_exp_bounds(d, 23);
    let e = scale_exp(d, 23);
    let p = two_pow(e);
    lemma_two_pow_mono(16, e);
    assert(two_pow((e + 1) as nat) == 2 * p);
    let m = round_even(255 * p, d);
    lemma_round_even_close(255 * p, d);
    assert(510 * p - d <= 2 * (m * d) <= 510 * p + d);
    assert(m <= 16777216) by (nonlinear_arith)
        requires
            2 * (m * d) <= 510 * p + d,
            255 * p < d * 16777216,
            1 <= d,
    ;
    let t0 = k * m;
    assert(t0 < 0x1_0000_0000) by (nonlinear_arith)
        requires
            t0 == k * m,
            k <= 255,
            m <= 16777216,
    ;
    lemma_round24_close(t0);
    let t = round24(t0);
    let r = (2 * t + p) / (2 * p);
    assert(2 * p * r <= 2 * t + p < 2 * p * r + 2 * p) by (nonlinear_arith)
        requires
            r == (2 * t + p) / (2 * p),
            p >= 1,
    ;
    assert((k + 256) * d < p) by (nonlinear_arith)
        requires
            255 * p * 2 >= d * 16777216,
            k <= 255,
            1 <= d,
    ;
    assert(2 * r * d <= 510 * k + d) by (nonlinear_arith)
        requires
            2 * p * r <= 2 * t + p,
            2 * t <= 2 * t0 + 256,
            t0 == k * m,
            2 * (m * d) <= 510 * p + d,
            (k + 256) * d < p,
            p >= 1,
            d >= 1,
    ;
    assert(2 * r * d >= 510 * k - d) by (nonlinear_arith)
        requires
            2 * t + p < 2 * p * r + 2 * p,
            2 * t0 - 256 <= 2 * t,
            t0 == k * m,
            510 * p - d <= 2 * (m * d),
            (k + 256) * d < p,
            p >= 1,
            d >= 1,
    ;
    if k <= d {
        assert(r <= 255) by (nonlinear_arith)
            requires
                2 * r * d <= 510 * k + d,
                k <= d,
                d >= 1,
        ;
    } else {
        assert(r > 255) by (nonlinear_arith)
            requires
                2 * r * d >= 510 * k - d,
                k >= d + 1,
                1 <= d <= 255,
        ;
    }
    assert(stretched(v, lo, hi) == if r > 255 {
        255u8
    } else {
        r as u8
    });
    if k <= d {
        let sv = stretched(v, lo, hi) as int;
        assert(sv == r);
        assert(2 * sv * (hi - lo) == 2 * r * d);
    }
    if v == hi {
        lemma_stretch_ends(lo, hi, v);
    }
}

// ---------------------------------------------------------------------------
// The guard: dark ink is left alone, faint ink is stretched

proof fn lemma_count_le_mono(s: Seq<u8>, a: int, b: int)
    requires
        a <= b,
    ensures
        count_le(s, a) <= count_le(s, b),
    decreases s.len(),
{
    if s.len() > 0 {
        lemma_count_le_mono(s.drop_last(), a, b);
    }
}

proof fn lemma_count_le_below_min(s: Seq<u8>, m: int, v: int)
    requires
        v < m,
        forall|i: int| 0 <= i < s.len() ==> s[i] >= m,
    ensures
        count_le(s, v) == 0,
    decreases s.len(),
{
    if s.len() > 0 {
        assert(s.last() == s[s.len() - 1]);
        lemma_count_le_below_min(s.drop_last(), m, v);
    }
}

proof fn lemma_count_le_has(s: Seq<u8>, i: int)
    requires
        0 <= i < s.len(),
    ensures
        count_le(s, s[i] as int) >= 1,
    decreases s.len(),
{
    if i < s.len() - 1 {
        assert(s.drop_last()[i] == s[i]);
        lemma_count_le_has(s.drop_last(), i);
    }
}

/// The level search stops at or before any level that covers the target.
proof fn lemma_level_from_le(s: Seq<u8>, t: int, from: int, v: int)
    requires
        0 <= from <= v <= 255,
        count_le(s, v) >= t,
    ensures
        level_from(s, t, from) <= v,
    decreases 256 - from,
{
    if from < 255 && count_le(s, from) < t {
        lemma_level_from_le(s, t, from + 1, v);
    }
}

proof fn lemma_level_from_ge(s: Seq<u8>, t: int, from: int)
    requires
        0 <= from <= 255,
    ensures
        level_from(s, t, from) >= from,
    decreases 256 - from,
{
    if from < 255 && count_le(s, from) < t {
        lemma_level_from_ge(s, t, from + 1);
    }
}

/// The level search passes every level that does not cover the target.
proof fn lemma_level_from_gt(s: Seq<u8>, t: int, from: int, u: int)
    requires
        0 <= from <= u < 255,
        count_le(s, u) < t,
    ensures
        level_from(s, t, from) > u,
    decreases 256 - from,
{
    lemma_count_le_mono(s, from, u);
    if from < u {
        lemma_level_from_gt(s, t, from + 1, u);
    } else {
        lemma_level_from_ge(s, t, from + 1);
    }
}

/// Dark ink is left untouched: when at least one pixel, and at least the
/// darkest 2% of the pixels (rounded down), are at or below `dark_ink_max`,
/// the rescue keeps every gray level.
pub proof fn lemma_dark_ink_untouched(s: Seq<u8>, dark_ink_max: u8)
    requires
        count_le(s, dark_ink_max as int) >= 1,
        count_le(s, dark_ink_max as int) >= s.len() / 50,
    ensures
        rescued(s, dark_ink_max) == s,
{
    assert(s.len() * 1nat / 50nat == s.len() / 50);
    lemma_level_from_le(s, level_target(s.len(), 1, 50), 0, dark_ink_max as int);
}

/// Faint ink is stretched: when every pixel is at least `m`, `m` is lighter
/// than `dark_ink_max`, at least 2% of the pixels (rounded down) lie at `m`
/// and more than 2% lie above it (fewer than 98% at `m`), then the pixels at
/// the darkest level `m` become black, so the image changes.
pub proof fn lemma_faint_ink_stretched(s: Seq<u8>, dark_ink_max: u8, m: u8, i0: int)
    requires
        0 <= i0 < s.len(),
        s[i0] == m,
        forall|i: int| 0 <= i < s.len() ==> s[i] >= m,
        m > dark_ink_max,
        count_le(s, m as int) >= s.len() / 50,
        count_le(s, m as int) < s.len() * 49 / 50,
    ensures
        forall|i: int| 0 <= i < s.len() && s[i] == m ==> #[trigger] rescued(s, dark_ink_max)[i] == 0,
        rescued(s, dark_ink_max) != s,
{
    let n = s.len();
    assert(n * 1nat / 50nat == n / 50);
    assert(n * 49nat / 50nat == n * 49 / 50);
    let t1 = level_target(n, 1, 50);
    let t2 = level_target(n, 49, 50);
    lemma_count_le_has(s, i0);
    lemma_count_le_below_min(s, m as int, m - 1);
    lemma_level_from_le(s, t1, 0, m as int);
    lemma_level_from_gt(s, t1, 0, m - 1);
    let lo = percentile_level(s, 1, 50);
    assert(lo == m);
    lemma_count_le_ends(s);
    assert(m < 255);
    lemma_level_from_gt(s, t2, 0, m as int);
    let hi = percentile_level(s, 49, 50);
    assert(hi > lo);
    assert(rescued(s, dark_ink_max)[i0] == 0);
}

} // verus!
