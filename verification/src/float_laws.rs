//! What the bits of numbers stand for, and what order and conversion make of it.
use vstd::prelude::*;

use crate::executor::exact::finite64;
use crate::float::{
    int_to_f64, is_whole64, lemma_top_bit, lemma_two_add, lemma_two_mono, lemma_two_values, order32,
    order64, saturated, significand, top_bit, trunc_mag, two, widen32, INF32, INF64, SIGN32, SIGN64,
};

verus! {

/// What the bits of a double without a sign stand for, in units of the smallest one.
pub open spec fn units_above(m: int) -> int {
    let e = m / 0x10_0000_0000_0000;
    let f = m % 0x10_0000_0000_0000;
    if e <= 0 {
        f
    } else {
        (0x10_0000_0000_0000 + f) * two((e - 1) as nat)
    }
}

/// What a finite double stands for, in units of the smallest one above zero.
pub open spec fn units(b: u64) -> int {
    if b < SIGN64 {
        units_above(b as int)
    } else {
        -units_above(b as int - SIGN64 as int)
    }
}

/// One, in units of the smallest double above zero.
pub open spec fn one() -> int {
    two(1074) as int
}

/// What a finite single stands for, in units of the smallest single above zero.
pub open spec fn units32(b: u32) -> int {
    let m = b as int % SIGN32 as int;
    let e = m / 0x80_0000;
    let f = m % 0x80_0000;
    let mag = if e == 0 {
        f
    } else {
        (0x80_0000 + f) * two((e - 1) as nat)
    };
    if b < SIGN32 {
        mag
    } else {
        -mag
    }
}

proof fn lemma_units_grow(x: int, y: int)
    requires
        0 <= x < y < INF64,
    ensures
        0 <= units_above(x) < units_above(y),
{
    let p = 0x10_0000_0000_0000int;
    let (ex, fx, ey, fy) = (x / p, x % p, y / p, y % p);
    assert(ex <= ey && (ex == ey ==> fx < fy));
    if ey > 0 {
        lemma_two_mono(0, (ey - 1) as nat);
        let wy = two((ey - 1) as nat) as int;
        if ex == ey {
            assert((p + fx) * wy < (p + fy) * wy && 0 <= (p + fx) * wy) by (nonlinear_arith)
                requires
                    0 <= p + fx < p + fy,
                    0 < wy,
            ;
        } else if ex > 0 {
            let wx = two((ex - 1) as nat) as int;
            lemma_two_mono(0, (ex - 1) as nat);
            lemma_two_mono(ex as nat, (ey - 1) as nat);
            assert(two(ex as nat) == 2 * wx);
            assert((p + fx) * wx < 2 * p * wx && 0 <= (p + fx) * wx) by (nonlinear_arith)
                requires
                    0 <= p + fx < 2 * p,
                    0 < wx,
            ;
            assert(2 * p * wx <= (p + fy) * wy) by (nonlinear_arith)
                requires
                    p <= p + fy,
                    0 < 2 * wx <= wy,
                    0 < p,
            ;
        } else {
            assert(p <= (p + fy) * wy) by (nonlinear_arith)
                requires
                    0 < p <= p + fy,
                    1 <= wy,
            ;
        }
    }
}

/// Finite doubles are in the order of what they stand for, between the two infinities.
pub proof fn law_order_doubles(a: u64, b: u64)
    requires
        finite64(a),
        finite64(b),
    ensures
        order64(a, b) < 0 <==> units(a) < units(b),
        order64(a, b) == 0 <==> units(a) == units(b),
        order64(a, b) > 0 <==> units(a) > units(b),
        order64(a, INF64) < 0,
        order64((INF64 + SIGN64) as u64, a) < 0,
{
    let s = SIGN64 as int;
    let (x, y) = (
        if a < SIGN64 {
            a as int
        } else {
            a as int - s
        },
        if b < SIGN64 {
            b as int
        } else {
            b as int - s
        },
    );
    assert(0 <= x < INF64 && 0 <= y < INF64);
    assert(units_above(0) == 0);
    if x < y {
        lemma_units_grow(x, y);
    }
    if y < x {
        lemma_units_grow(y, x);
    }
    if 0 < x {
        lemma_units_grow(0, x);
    }
    if 0 < y {
        lemma_units_grow(0, y);
    }
}

/// Finite singles of one sign are in the order of their bits.
proof fn lemma_singles_grow(x: u32, y: u32)
    requires
        0 <= x < y < INF32,
    ensures
        0 <= units32(x) < units32(y),
{
    let p = 0x80_0000int;
    let (ex, fx, ey, fy) = (x as int / p, x as int % p, y as int / p, y as int % p);
    assert(ex <= ey && (ex == ey ==> fx < fy));
    if ey > 0 {
        lemma_two_mono(0, (ey - 1) as nat);
        let wy = two((ey - 1) as nat) as int;
        assert(units32(y) == (p + fy) * wy);
        if ex == ey {
            assert(units32(x) == (p + fx) * wy);
            assert((p + fx) * wy < (p + fy) * wy && 0 <= (p + fx) * wy) by (nonlinear_arith)
                requires
                    0 <= p + fx < p + fy,
                    0 < wy,
            ;
        } else if ex > 0 {
            let wx = two((ex - 1) as nat) as int;
            assert(units32(x) == (p + fx) * wx);
            lemma_two_mono(0, (ex - 1) as nat);
            lemma_two_mono(ex as nat, (ey - 1) as nat);
            assert(two(ex as nat) == 2 * wx);
            assert((p + fx) * wx < 2 * p * wx && 0 <= (p + fx) * wx) by (nonlinear_arith)
                requires
                    0 <= p + fx < 2 * p,
                    0 < wx,
            ;
            assert(2 * p * wx <= (p + fy) * wy) by (nonlinear_arith)
                requires
                    p <= p + fy,
                    0 < 2 * wx <= wy,
                    0 < p,
            ;
        } else {
            assert(p <= (p + fy) * wy) by (nonlinear_arith)
                requires
                    0 < p <= p + fy,
                    1 <= wy,
            ;
        }
    }
}

/// Finite singles are in the order of what they stand for.
pub proof fn law_order_singles(a: u32, b: u32)
    requires
        (a as int) % (SIGN32 as int) < INF32,
        (b as int) % (SIGN32 as int) < INF32,
    ensures
        order32(a, b) < 0 <==> units32(a) < units32(b),
        order32(a, b) == 0 <==> units32(a) == units32(b),
        order32(a, b) > 0 <==> units32(a) > units32(b),
{
    let (x, y) = (
        if a < SIGN32 {
            a
        } else {
            (a - SIGN32) as u32
        },
        if b < SIGN32 {
            b
        } else {
            (b - SIGN32) as u32
        },
    );
    assert(units32(0) == 0);
    assert(units32(a) == if a < SIGN32 { units32(x) } else { -units32(x) });
    assert(units32(b) == if b < SIGN32 { units32(y) } else { -units32(y) });
    if x < y {
        lemma_singles_grow(x, y);
    }
    if y < x {
        lemma_singles_grow(y, x);
    }
    if 0 < x {
        lemma_singles_grow(0, x);
    }
    if 0 < y {
        lemma_singles_grow(0, y);
    }
}

/// The double of a significand of 53 bits and an exponent stands for their product.
proof fn lemma_units_made(sig: int, e: int)
    requires
        0x10_0000_0000_0000 <= sig <= 0x20_0000_0000_0000,
        0 <= e < 2045,
    ensures
        units_above(e * 0x10_0000_0000_0000 + sig) == sig * two(e as nat),
        e * 0x10_0000_0000_0000 + sig < INF64,
{
    let p = 0x10_0000_0000_0000int;
    let m = e * p + sig;
    if sig == 2 * p {
        assert(m == (e + 2) * p + 0);
        assert(m / p == e + 2 && m % p == 0);
        assert(two((e + 1) as nat) == 2 * two(e as nat));
        assert(p * two((e + 1) as nat) == 2 * p * two(e as nat)) by (nonlinear_arith)
            requires
                two((e + 1) as nat) == 2 * two(e as nat),
        ;
    } else {
        assert(m == (e + 1) * p + (sig - p));
        assert(m / p == e + 1 && m % p == sig - p);
    }
}

proof fn lemma_top_bit_is(n: nat, k: nat)
    requires
        two(k) <= n < two(k + 1),
    ensures
        top_bit(n) == k,
{
    lemma_two_mono(0, k);
    lemma_top_bit(n);
    let t = top_bit(n);
    assert(two(t + 1) == 2 * two(t));
    if t < k {
        lemma_two_mono(t + 1, k);
    } else if k < t {
        lemma_two_mono(k + 1, t);
    }
}

/// An integer of up to 53 bits becomes the double that stands for it.
pub proof fn law_integer_kept(n: int)
    requires
        -0x20_0000_0000_0000 <= n <= 0x20_0000_0000_0000,
    ensures
        finite64(int_to_f64(n)),
        units(int_to_f64(n)) == n * one(),
{
    lemma_two_values();
    if n == 0 {
        assert(0 * one() == 0);
    } else {
        let mag = (if n < 0 {
            -n
        } else {
            n
        }) as nat;
        let k = top_bit(mag);
        lemma_top_bit(mag);
        if k > 53 {
            lemma_two_mono(54, k);
            assert(two(54) == 2 * two(53));
        }
        let e = (k + 1022) as int;
        if k <= 52 {
            let u = two((52 - k) as nat) as int;
            lemma_two_mono(0, (52 - k) as nat);
            lemma_two_add(k, (52 - k) as nat);
            let low = two(k) as int;
            assert(low * u <= mag * u && mag * u < 2 * (low * u)) by (nonlinear_arith)
                requires
                    low <= mag < 2 * low,
                    0 < u,
            ;
            lemma_two_add((52 - k) as nat, (k + 1022) as nat);
            lemma_units_made(mag * u, e);
            assert((mag * u) * two(e as nat) == mag * (u * two(e as nat))) by (nonlinear_arith);
        } else {
            assert(mag == two(53));
            assert(two(1) == 2) by {
                reveal_with_fuel(two, 2);
            }
            assert(significand(mag) == 0x10_0000_0000_0000);
            lemma_two_add(1, 0);
            lemma_units_made(0x10_0000_0000_0000, e);
            lemma_two_add(52, 1075);
            lemma_two_add(53, 1074);
            assert(52 + 1075 == 53 + 1074);
            assert(0x10_0000_0000_0000 * two(1075) == mag * one());
        }
        let v = units_above(e * 0x10_0000_0000_0000 + significand(mag));
        assert(v == mag * one());
        assert((-mag) * one() == -(mag * one())) by (nonlinear_arith);
    }
}

/// A longer integer becomes a double that is away from it by no more than half of the
/// place that its last bit has.
pub proof fn law_integer_rounded(n: int, j: nat)
    requires
        0 < j <= 11,
        two(52 + j) <= (if n < 0 {
            -n
        } else {
            n
        }) < two(53 + j),
        -0x8000_0000_0000_0000 <= n <= 0x8000_0000_0000_0000,
    ensures
        finite64(int_to_f64(n)),
        -(two(j) * one()) <= 2 * (units(int_to_f64(n)) - n * one()) <= two(j) * one(),
{
    let mag = (if n < 0 {
        -n
    } else {
        n
    }) as nat;
    lemma_two_values();
    assert(52 + j + 1 == 53 + j);
    lemma_top_bit_is(mag, 52 + j);
    lemma_two_mono(0, j);
    let unit = two(j) as int;
    let q = mag as int / unit;
    let r = mag as int % unit;
    lemma_two_add(52, j);
    lemma_two_add(53, j);
    assert(mag == unit * q + r && 0 <= r < unit) by (nonlinear_arith)
        requires
            q == mag as int / unit,
            r == mag as int % unit,
            unit > 0,
    ;
    let p = 0x10_0000_0000_0000int;
    assert(p <= q < 2 * p) by (nonlinear_arith)
        requires
            mag == unit * q + r,
            0 <= r < unit,
            p * unit <= mag < (2 * p) * unit,
    ;
    let sig = significand(mag) as int;
    assert(sig == q || sig == q + 1);
    let e = (52 + j + 1022) as int;
    lemma_units_made(sig, e);
    lemma_two_add(j, 1074);
    assert(e == j + 1074);
    let o = one();
    assert(sig * two(e as nat) == (sig * unit) * o) by (nonlinear_arith)
        requires
            two(e as nat) == unit * o,
    ;
    lemma_two_mono(0, 1074);
    if sig == q {
        assert(2 * r <= unit);
        assert(sig * unit == mag - r) by (nonlinear_arith)
            requires
                mag == unit * q + r,
                sig == q,
        ;
    } else {
        assert(2 * r >= unit);
        assert(sig * unit == mag - r + unit) by (nonlinear_arith)
            requires
                mag == unit * q + r,
                sig == q + 1,
        ;
    }
    let off = sig * unit - mag;
    assert((sig * unit) * o - mag * o == off * o) by (nonlinear_arith)
        requires
            off == sig * unit - mag,
    ;
    assert(-(unit * o) <= 2 * (off * o) <= unit * o) by (nonlinear_arith)
        requires
            -unit <= 2 * off <= unit,
            0 < o,
    ;
    assert((-mag) * o == -(mag * o)) by (nonlinear_arith);
}

/// A finite single becomes the double that stands for the same number.
pub proof fn law_single_kept(b: u32)
    requires
        (b as int) % (SIGN32 as int) < INF32,
    ensures
        finite64(widen32(b)),
        units(widen32(b)) == units32(b) * two(925),
{
    let m = b as int % SIGN32 as int;
    let e = m / 0x80_0000;
    let f = m % 0x80_0000;
    assert((b as int / 0x80_0000) % 256 == e);
    assert(b as int % 0x80_0000 == f);
    lemma_two_values();
    let c = two(925) as int;
    if e > 0 {
        let w = two((e - 1) as nat) as int;
        let sig = 0x10_0000_0000_0000 + f * 0x2000_0000;
        lemma_units_made(sig, e + 895);
        lemma_two_add((e - 1) as nat, 29);
        lemma_two_add((e - 1) as nat, 896);
        lemma_two_add(29, 896);
        assert(two((e + 895) as nat) == w * two(896));
        assert(sig * (w * two(896)) == ((0x80_0000 + f) * w) * c) by (nonlinear_arith)
            requires
                sig == (0x80_0000 + f) * 0x2000_0000,
                c == 0x2000_0000 * two(896),
        ;
        assert((-((0x80_0000 + f) * w)) * c == -(((0x80_0000 + f) * w) * c)) by (nonlinear_arith);
    } else if f == 0 {
        assert(0 * c == 0);
        assert(units_above(0) == 0);
    } else {
        let k = top_bit(f as nat);
        lemma_top_bit(f as nat);
        if k > 22 {
            lemma_two_mono(23, k);
        }
        let u = two((52 - k) as nat) as int;
        let low = two(k) as int;
        lemma_two_mono(0, (52 - k) as nat);
        lemma_two_add(k, (52 - k) as nat);
        assert(low * u <= f * u && f * u < 2 * (low * u)) by (nonlinear_arith)
            requires
                low <= f < 2 * low,
                0 < u,
        ;
        lemma_units_made(f * u, (k + 873) as int);
        lemma_two_add((52 - k) as nat, (k + 873) as nat);
        assert((f * u) * two((k + 873) as nat) == f * (u * two((k + 873) as nat)))
            by (nonlinear_arith);
        assert((-f) * c == -(f * c)) by (nonlinear_arith);
    }
}

/// The whole part of a double.
proof fn lemma_whole_part(m: int)
    requires
        0 <= m < INF64,
    ensures
        trunc_mag(m as u64) * one() <= units_above(m) < (trunc_mag(m as u64) + 1) * one(),
        m / 0x10_0000_0000_0000 > 1075 ==> trunc_mag(m as u64) * one() == units_above(m),
{
    let p = 0x10_0000_0000_0000int;
    let (e, f) = (m / p, m % p);
    let s = p + f;
    let o = one();
    lemma_two_values();
    lemma_two_mono(0, 1074);
    if e < 1023 {
        assert(0 * o == 0 && 1 * o == o);
        if e == 0 {
            lemma_two_mono(52, 1074);
        } else {
            let w = two((e - 1) as nat) as int;
            lemma_two_mono((e - 1) as nat, 1021);
            lemma_two_mono(0, (e - 1) as nat);
            lemma_two_add(53, 1021);
            assert(0 <= s * w < (2 * p) * two(1021)) by (nonlinear_arith)
                requires
                    0 <= s < 2 * p,
                    0 < w <= two(1021),
            ;
        }
    } else if e <= 1075 {
        let w = two((e - 1) as nat) as int;
        let d = two((1075 - e) as nat) as int;
        lemma_two_mono(0, (e - 1) as nat);
        lemma_two_mono(0, (1075 - e) as nat);
        lemma_two_add((1075 - e) as nat, (e - 1) as nat);
        let t = s / d;
        assert(t * d <= s && s < (t + 1) * d && t >= 0) by (nonlinear_arith)
            requires
                t == s / d,
                0 < d,
                0 <= s,
        ;
        assert(t * o <= s * w && s * w < (t + 1) * o) by (nonlinear_arith)
            requires
                t * d <= s < (t + 1) * d,
                o == d * w,
                0 < w,
        ;
    } else {
        let g = two((e - 1075) as nat) as int;
        lemma_two_add((e - 1075) as nat, 1074);
        assert(s * (g * o) == (s * g) * o) by (nonlinear_arith);
        assert(0 <= s * g) by (nonlinear_arith)
            requires
                0 <= s,
                0 <= g,
        ;
        let t = s * g;
        assert((t + 1) * o == t * o + o) by (nonlinear_arith);
    }
}

/// A double becomes the integer next to it toward zero, or the bound that is passed.
pub proof fn law_toward_zero(b: u64, lo: int, hi: int)
    requires
        finite64(b),
        lo <= 0 <= hi,
    ensures
        ({
            let r = saturated(b, lo, hi);
            &&& lo <= r <= hi
            &&& b < SIGN64 ==> r * one() <= units(b) && (units(b) < (r + 1) * one() || r == hi)
            &&& b >= SIGN64 ==> units(b) <= r * one() && ((r - 1) * one() < units(b) || r == lo)
        }),
{
    let s = SIGN64 as int;
    let m = if b < SIGN64 {
        b as int
    } else {
        b as int - s
    };
    lemma_whole_part(m);
    assert(trunc_mag(b) == trunc_mag(m as u64)) by {
        assert((b as int / 0x10_0000_0000_0000) % 2048 == (m / 0x10_0000_0000_0000) % 2048);
        assert(b as int % 0x10_0000_0000_0000 == m % 0x10_0000_0000_0000);
    }
    let t = trunc_mag(b) as int;
    let o = one();
    lemma_two_mono(0, 1074);
    assert(hi < t ==> hi * o <= t * o) by (nonlinear_arith)
        requires
            o > 0,
    ;
    assert(-lo < t ==> (-lo) * o <= t * o) by (nonlinear_arith)
        requires
            o > 0,
    ;
    assert((-lo) * o == -(lo * o)) by (nonlinear_arith);
    assert((-t) * o == -(t * o)) by (nonlinear_arith);
    assert((-t - 1) * o == -((t + 1) * o)) by (nonlinear_arith);
}

/// Whether a double stands for an integer of 64 bits, or for the one above.
pub open spec fn stands_whole(b: u64, n: int) -> bool {
    -0x8000_0000_0000_0000 <= n <= 0x8000_0000_0000_0000 && units(b) == n * one()
}

/// A double is whole where it stands for an integer of up to 64 bits.
pub proof fn law_whole(b: u64)
    requires
        finite64(b),
    ensures
        is_whole64(b) <==> exists|n: int| #[trigger] stands_whole(b, n),
        is_whole64(b) ==> stands_whole(
            b,
            saturated(b, -0x8000_0000_0000_0000, 0x8000_0000_0000_0000),
        ),
{
    let s = SIGN64 as int;
    let p = 0x10_0000_0000_0000int;
    let m = if b < SIGN64 {
        b as int
    } else {
        b as int - s
    };
    assert((b as int / p) % 2048 == m / p);
    assert(b as int % p == m % p);
    assert(b as int % s == m);
    assert(trunc_mag(b) == trunc_mag(m as u64));
    lemma_whole_part(m);
    let (e, f) = (m / p, m % p);
    let sig = p + f;
    let t = trunc_mag(b) as int;
    let o = one();
    lemma_two_values();
    lemma_two_mono(0, 1074);
    assert((-t) * o == -(t * o)) by (nonlinear_arith);
    if e >= 1023 && e <= 1075 {
        let w = two((e - 1) as nat) as int;
        let d = two((1075 - e) as nat) as int;
        let c = two((e - 1023) as nat) as int;
        lemma_two_mono(0, (e - 1) as nat);
        lemma_two_mono(0, (1075 - e) as nat);
        lemma_two_add((1075 - e) as nat, (e - 1) as nat);
        lemma_two_add((1075 - e) as nat, (e - 1023) as nat);
        assert(p == d * c);
        assert(f % d == sig % d) by (nonlinear_arith)
            requires
                sig == d * c + f,
                d > 0,
        {
            vstd::arithmetic::div_mod::lemma_mod_multiples_vanish(c, f, d);
        }
        assert(sig == d * t + sig % d) by (nonlinear_arith)
            requires
                t == sig / d,
                d > 0,
        ;
        assert(0 <= t <= sig) by (nonlinear_arith)
            requires
                t == sig / d,
                d >= 1,
                sig >= 0,
        ;
        if is_whole64(b) {
            assert(sig * w == t * o) by (nonlinear_arith)
                requires
                    sig == d * t,
                    o == d * w,
            ;
        }
        if exists|n: int| #[trigger] stands_whole(b, n) {
            let n = choose|n: int| #[trigger] stands_whole(b, n);
            let a = if b < SIGN64 {
                n
            } else {
                -n
            };
            assert((-n) * o == -(n * o)) by (nonlinear_arith);
            assert(sig * w == a * o);
            assert(sig == a * d) by (nonlinear_arith)
                requires
                    sig * w == a * o,
                    o == d * w,
                    w > 0,
            ;
            assert(sig % d == 0) by (nonlinear_arith)
                requires
                    sig == a * d,
                    d > 0,
            {
                vstd::arithmetic::div_mod::lemma_mod_multiples_basic(a, d);
            }
        }
    } else if e > 1075 {
        let g = two((e - 1075) as nat) as int;
        assert(t == sig * g) by {
            lemma_two_mono(0, (e - 1075) as nat);
            assert(sig * g >= 0) by (nonlinear_arith)
                requires
                    sig >= 0,
                    g >= 0,
            ;
        }
        assert(two(11) == 2048 && two(10) == 1024 && two(12) == 4096) by {
            reveal_with_fuel(two, 13);
        }
        if e < 1086 {
            lemma_two_mono((e - 1075) as nat, 10);
            assert(t <= 2 * p * 1024) by (nonlinear_arith)
                requires
                    t == sig * g,
                    0 <= sig <= 2 * p,
                    0 <= g <= 1024,
            ;
        } else if e > 1086 {
            lemma_two_mono(12, (e - 1075) as nat);
            assert(t >= p * 4096) by (nonlinear_arith)
                requires
                    t == sig * g,
                    p <= sig,
                    4096 <= g,
                    p > 0,
            ;
        } else {
            assert(t == sig * 2048) by (nonlinear_arith)
                requires
                    t == sig * g,
                    g == 2048,
            ;
        }
        if exists|n: int| #[trigger] stands_whole(b, n) {
            let n = choose|n: int| #[trigger] stands_whole(b, n);
            let a = if b < SIGN64 {
                n
            } else {
                -n
            };
            assert((-n) * o == -(n * o)) by (nonlinear_arith);
            assert(t == a) by (nonlinear_arith)
                requires
                    t * o == a * o,
                    o > 0,
            ;
        }
    } else {
        assert(t == 0);
        assert(units_above(0) == 0);
        assert(0 * o == 0 && 1 * o == o);
        if m > 0 {
            lemma_units_grow(0, m);
        }
        if exists|n: int| #[trigger] stands_whole(b, n) {
            let n = choose|n: int| #[trigger] stands_whole(b, n);
            assert(n == 0) by (nonlinear_arith)
                requires
                    -o < n * o < o,
                    o > 0,
            ;
        }
    }
    if is_whole64(b) {
        assert(units_above(m) == t * o);
        assert(0 <= t <= 0x8000_0000_0000_0000);
        assert(stands_whole(b, saturated(b, -0x8000_0000_0000_0000, 0x8000_0000_0000_0000)));
    }
}

} // verus!
