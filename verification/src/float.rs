//! IEEE 754 numbers as bit patterns: order, widening and integer conversion.
//!
//! The library never computes with floating-point numbers. It stores them as
//! bits, compares them by integer arithmetic on the bits, and converts them
//! exactly; arithmetic on them is left to the caller.
use vstd::prelude::*;

verus! {

/// A single precision number, by its bits.
#[derive(Debug, Clone, Copy, PartialEq, Eq, Hash, Structural)]
pub struct F32 {
    pub bits: u32,
}

/// A double precision number, by its bits.
#[derive(Debug, Clone, Copy, PartialEq, Eq, Hash, Structural)]
pub struct F64 {
    pub bits: u64,
}

impl DeepView for F32 {
    type V = u32;

    open spec fn deep_view(&self) -> u32 {
        self.bits
    }
}

impl DeepView for F64 {
    type V = u64;

    open spec fn deep_view(&self) -> u64 {
        self.bits
    }
}

/// The sign bit of a double.
pub const SIGN64: u64 = 0x8000_0000_0000_0000;

/// The bits of positive infinity, double precision.
pub const INF64: u64 = 0x7ff0_0000_0000_0000;

/// The sign bit of a single.
pub const SIGN32: u32 = 0x8000_0000;

/// The bits of positive infinity, single precision.
pub const INF32: u32 = 0x7f80_0000;

/// Whether the bits are those of a NaN (double precision).
pub open spec fn is_nan64(b: u64) -> bool {
    (b as int) % (SIGN64 as int) > INF64 as int
}

/// Whether the bits are those of a NaN (single precision).
pub open spec fn is_nan32(b: u32) -> bool {
    (b as int) % (SIGN32 as int) > INF32 as int
}

/// The position of a double on the number line: the magnitude bits, negated
/// under a sign bit. Both zeros stand at 0.
pub open spec fn key64(b: u64) -> int {
    if b < SIGN64 {
        b as int
    } else {
        SIGN64 as int - b as int
    }
}

/// The position of a single on the number line.
pub open spec fn key32(b: u32) -> int {
    if b < SIGN32 {
        b as int
    } else {
        SIGN32 as int - b as int
    }
}

/// The sign of an integer: -1, 0 or 1.
pub open spec fn sign(d: int) -> int {
    if d < 0 {
        -1
    } else if d > 0 {
        1
    } else {
        0
    }
}

/// The order of two doubles as -1, 0 or 1; a NaN orders equal to everything.
pub open spec fn order64(a: u64, b: u64) -> int {
    if is_nan64(a) || is_nan64(b) {
        0
    } else {
        sign(key64(a) - key64(b))
    }
}

/// The order of two singles as -1, 0 or 1; a NaN orders equal to everything.
pub open spec fn order32(a: u32, b: u32) -> int {
    if is_nan32(a) || is_nan32(b) {
        0
    } else {
        sign(key32(a) - key32(b))
    }
}

/// Tests for a NaN.
pub fn f64_is_nan(x: F64) -> (r: bool)
    ensures
        r == is_nan64(x.bits),
{
    x.bits % SIGN64 > INF64
}

/// Orders two doubles.
pub fn f64_order(x: F64, y: F64) -> (r: i8)
    ensures
        r == order64(x.bits, y.bits),
{
    if x.bits % SIGN64 > INF64 || y.bits % SIGN64 > INF64 {
        0
    } else {
        let xneg = x.bits >= SIGN64;
        let yneg = y.bits >= SIGN64;
        let xm: u64 = x.bits % SIGN64;
        let ym: u64 = y.bits % SIGN64;
        if xneg == yneg {
            if xm == ym {
                0
            } else if (xm < ym) != xneg {
                -1
            } else {
                1
            }
        } else if xm == 0 && ym == 0 {
            0
        } else if xneg {
            -1
        } else {
            1
        }
    }
}

/// Orders two singles.
pub fn f32_order(x: F32, y: F32) -> (r: i8)
    ensures
        r == order32(x.bits, y.bits),
{
    if x.bits % SIGN32 > INF32 || y.bits % SIGN32 > INF32 {
        0
    } else {
        let xneg = x.bits >= SIGN32;
        let yneg = y.bits >= SIGN32;
        let xm: u32 = x.bits % SIGN32;
        let ym: u32 = y.bits % SIGN32;
        if xneg == yneg {
            if xm == ym {
                0
            } else if (xm < ym) != xneg {
                -1
            } else {
                1
            }
        } else if xm == 0 && ym == 0 {
            0
        } else if xneg {
            -1
        } else {
            1
        }
    }
}

/// Two to the power `k`.
pub open spec fn two(k: nat) -> nat
    decreases k,
{
    if k == 0 {
        1
    } else {
        2 * two((k - 1) as nat)
    }
}

/// The position of the highest set bit of a positive number.
pub open spec fn top_bit(n: nat) -> nat
    decreases n,
{
    if n < 2 {
        0
    } else {
        1 + top_bit(n / 2)
    }
}

/// Powers of two grow with the exponent and are positive.
pub proof fn lemma_two_mono(a: nat, b: nat)
    requires
        a <= b,
    ensures
        0 < two(a) <= two(b),
    decreases b,
{
    if a < b {
        lemma_two_mono(a, (b - 1) as nat);
    } else if a > 0 {
        lemma_two_mono((a - 1) as nat, (a - 1) as nat);
    }
}

/// A product of two powers of two is the power of the sum.
pub proof fn lemma_two_add(a: nat, b: nat)
    ensures
        two(a + b) == two(a) * two(b),
    decreases b,
{
    if b > 0 {
        lemma_two_add(a, (b - 1) as nat);
        assert(two(a + b) == 2 * two((a + b - 1) as nat));
        assert(two(a) * two(b) == 2 * (two(a) * two((b - 1) as nat))) by (nonlinear_arith)
            requires
                two(b) == 2 * two((b - 1) as nat),
        ;
    } else {
        assert(two(0) == 1);
    }
}

/// The highest set bit brackets the number between two powers of two.
pub proof fn lemma_top_bit(n: nat)
    requires
        n > 0,
    ensures
        two(top_bit(n)) <= n < 2 * two(top_bit(n)),
    decreases n,
{
    if n >= 2 {
        lemma_top_bit(n / 2);
    }
}

/// The values of the powers of two that the formats use.
pub proof fn lemma_two_values()
    ensures
        two(10) == 1024,
        two(22) == 0x40_0000,
        two(23) == 0x80_0000,
        two(29) == 0x2000_0000,
        two(52) == 0x10_0000_0000_0000,
        two(53) == 0x20_0000_0000_0000,
        two(63) == 0x8000_0000_0000_0000,
        two(64) == 0x1_0000_0000_0000_0000,
{
    reveal_with_fuel(two, 65);
}

/// The bits of the double nearest to `n`, ties to even, for `|n| <= 2^63`.
pub open spec fn int_to_f64(n: int) -> u64 {
    if n == 0 {
        0
    } else {
        let mag = (if n < 0 { -n } else { n }) as nat;
        let k = top_bit(mag);
        (if n < 0 { SIGN64 as int } else { 0 } + (k + 1022) * 0x10_0000_0000_0000
            + significand(mag)) as u64
    }
}

/// The 53-bit significand of a positive number: the number itself shifted to
/// 53 bits, rounded to nearest with ties to even where bits fall off.
pub open spec fn significand(mag: nat) -> nat {
    let k = top_bit(mag);
    if k <= 52 {
        mag * two((52 - k) as nat)
    } else {
        let unit = two((k - 52) as nat);
        let q = mag / unit;
        let r = mag % unit;
        if 2 * r > unit || (2 * r == unit && q % 2 == 1) {
            q + 1
        } else {
            q
        }
    }
}

/// The bits of the double equal to the single with bits `b`.
pub open spec fn widen32(b: u32) -> u64 {
    let s = if b < SIGN32 { 0int } else { SIGN64 as int };
    let e = (b as int / 0x80_0000) % 256;
    let m = b as int % 0x80_0000;
    if e == 255 {
        if m == 0 {
            (s + INF64) as u64
        } else {
            (s + INF64 + 0x8_0000_0000_0000 + (m % 0x40_0000) * 0x2000_0000) as u64
        }
    } else if e > 0 {
        (s + (e + 896) * 0x10_0000_0000_0000 + m * 0x2000_0000) as u64
    } else if m == 0 {
        s as u64
    } else {
        let k = top_bit(m as nat);
        (s + (k + 873) * 0x10_0000_0000_0000 + m * two((52 - k) as nat)) as u64
    }
}

/// The integral part of a double, rounded toward zero: the significand times
/// a power of two, with the bits below one dropped.
pub open spec fn trunc_mag(b: u64) -> nat {
    let e = (b as int / 0x10_0000_0000_0000) % 2048;
    let m = 0x10_0000_0000_0000 + b as int % 0x10_0000_0000_0000;
    if e < 1023 {
        0
    } else if e <= 1075 {
        (m / (two((1075 - e) as nat) as int)) as nat
    } else {
        (m * two((e - 1075) as nat)) as nat
    }
}

/// The integer nearest to a double toward zero, held within `lo` and `hi`;
/// a NaN gives 0.
pub open spec fn saturated(b: u64, lo: int, hi: int) -> int {
    if is_nan64(b) {
        0
    } else {
        let t = if b < SIGN64 {
            trunc_mag(b) as int
        } else {
            -(trunc_mag(b) as int)
        };
        if t < lo {
            lo
        } else if t > hi {
            hi
        } else {
            t
        }
    }
}

/// Two to the power `k`.
fn power_of_two(k: u64) -> (r: u128)
    requires
        k <= 64,
    ensures
        r == two(k as nat),
        0 < r <= 0x1_0000_0000_0000_0000,
{
    let mut r: u128 = 1;
    let mut i: u64 = 0;
    assert(two(0) == 1);
    while i < k
        invariant
            i <= k <= 64,
            r == two(i as nat),
            0 < r <= 0x1_0000_0000_0000_0000,
        decreases k - i,
    {
        proof {
            lemma_two_mono((i + 1) as nat, 64);
            lemma_two_values();
            assert(two((i + 1) as nat) == 2 * two(i as nat));
        }
        r = r * 2;
        i += 1;
    }
    r
}

/// Rounds a double toward zero and holds it within 64-bit bounds `lo` and
/// `hi`; a NaN gives 0.
pub fn f64_saturate(x: F64, lo: i64, hi: i64) -> (r: i64)
    requires
        lo <= 0 <= hi,
    ensures
        r == saturated(x.bits, lo as int, hi as int),
{
    if f64_is_nan(x) {
        return 0;
    }
    let e: u64 = (x.bits / 0x10_0000_0000_0000) % 2048;
    let m: u64 = 0x10_0000_0000_0000 + x.bits % 0x10_0000_0000_0000;
    let mag: u128 = if e < 1023 {
        0
    } else if e <= 1075 {
        let p = power_of_two(1075 - e);
        m as u128 / p
    } else if e <= 1087 {
        let p = power_of_two(e - 1075);
        proof {
            lemma_two_values();
            lemma_two_mono((e - 1075) as nat, 12);
            assert(two(12) == 4096) by {
                reveal_with_fuel(two, 13);
            }
            assert(m * p <= 0x20_0000_0000_0000 * 4096) by (nonlinear_arith)
                requires
                    m <= 0x20_0000_0000_0000,
                    p <= 4096,
            ;
        }
        m as u128 * p
    } else {
        proof {
            lemma_two_values();
            lemma_two_mono(13, (e - 1075) as nat);
            assert(two(13) == 8192) by {
                reveal_with_fuel(two, 14);
            }
            assert(m * two((e - 1075) as nat) >= 0x10_0000_0000_0000 * 8192) by (nonlinear_arith)
                requires
                    m >= 0x10_0000_0000_0000,
                    two((e - 1075) as nat) >= 8192,
            ;
        }
        0x1_0000_0000_0000_0000
    };
    proof {
        if e <= 1075 && e >= 1023 {
            let p = two((1075 - e) as nat);
            lemma_two_mono(0, (1075 - e) as nat);
            assert(m as int / p as int <= m) by (nonlinear_arith)
                requires
                    p >= 1,
                    m >= 0,
            ;
        }
        assert(mag == trunc_mag(x.bits) || (mag == 0x1_0000_0000_0000_0000 && trunc_mag(x.bits)
            > 0x1_0000_0000_0000_0000));
    }
    if x.bits < SIGN64 {
        if mag > hi as u128 {
            hi
        } else {
            mag as i64
        }
    } else {
        let floor: u128 = (-(lo as i128)) as u128;
        if mag > floor {
            lo
        } else {
            (-(mag as i128)) as i64
        }
    }
}

/// Whether a double is an integer, and one that lies between -2^63 and 2^63.
pub open spec fn is_whole64(b: u64) -> bool {
    let e = (b as int / 0x10_0000_0000_0000) % 2048;
    let f = b as int % 0x10_0000_0000_0000;
    if e < 1023 {
        b as int % SIGN64 as int == 0
    } else if e <= 1075 {
        f % (two((1075 - e) as nat) as int) == 0
    } else {
        e < 1086 || (e == 1086 && f == 0)
    }
}

/// Tests whether a double is an integer between -2^63 and 2^63.
pub fn f64_is_whole(x: F64) -> (r: bool)
    ensures
        r == is_whole64(x.bits),
{
    let e: u64 = (x.bits / 0x10_0000_0000_0000) % 2048;
    let f: u64 = x.bits % 0x10_0000_0000_0000;
    if e < 1023 {
        x.bits % SIGN64 == 0
    } else if e <= 1075 {
        let p = power_of_two(1075 - e);
        f as u128 % p == 0
    } else {
        e < 1086 || (e == 1086 && f == 0)
    }
}

/// Widening keeps the order of two singles, and turns no number into a NaN.
pub proof fn lemma_widen_keeps_order(a: u32, b: u32)
    requires
        !is_nan32(a),
        !is_nan32(b),
    ensures
        !is_nan64(widen32(a)),
        !is_nan64(widen32(b)),
        order64(widen32(a), widen32(b)) == order32(a, b),
{
    let x = (a as int % 0x8000_0000) as u32;
    let y = (b as int % 0x8000_0000) as u32;
    lemma_widen_sign(a);
    lemma_widen_sign(b);
    lemma_widen_mono(x, y);
    lemma_widen_mono(y, x);
    lemma_order_by_magnitude(a, b, widen32(x), widen32(y), widen32(a), widen32(b));
}

/// Doubles that carry the signs of two singles, and magnitudes in the order
/// of theirs, are in the order of the singles.
proof fn lemma_order_by_magnitude(a: u32, b: u32, wx: u64, wy: u64, wa: u64, wb: u64)
    requires
        !is_nan32(a),
        !is_nan32(b),
        wx <= INF64,
        wy <= INF64,
        wa == wx + (if a < SIGN32 { 0int } else { SIGN64 as int }),
        wb == wy + (if b < SIGN32 { 0int } else { SIGN64 as int }),
        wx == 0 <==> a as int % 0x8000_0000 == 0,
        wy == 0 <==> b as int % 0x8000_0000 == 0,
        a as int % 0x8000_0000 < b as int % 0x8000_0000 ==> wx < wy,
        b as int % 0x8000_0000 < a as int % 0x8000_0000 ==> wy < wx,
        a as int % 0x8000_0000 == b as int % 0x8000_0000 ==> wx == wy,
    ensures
        !is_nan64(wa),
        !is_nan64(wb),
        order64(wa, wb) == order32(a, b),
{
}

/// The sign bit of a single passes to its double unchanged.
proof fn lemma_widen_sign(a: u32)
    requires
        !is_nan32(a),
    ensures
        ({
            let m = (a as int % 0x8000_0000) as u32;
            &&& widen32(m) <= INF64
            &&& widen32(a) == widen32(m) + (if a < SIGN32 { 0int } else { SIGN64 as int })
            &&& (widen32(m) == 0 <==> m == 0)
        }),
{
    let m = a as int % 0x80_0000;
    let w = (a as int % 0x8000_0000) as u32;
    assert(w as int / 0x80_0000 % 256 == a as int / 0x80_0000 % 256);
    assert(w as int % 0x80_0000 == m);
    if (a as int / 0x80_0000) % 256 == 0 && m > 0 {
        lemma_subnormal(m as nat);
    }
}

/// A positive single below the normal range widens to a double of the
/// normal range, within the bounds given by its highest bit.
proof fn lemma_subnormal(m: nat)
    requires
        0 < m < 0x80_0000,
    ensures
        top_bit(m) <= 22,
        0x10_0000_0000_0000 <= m * two((52 - top_bit(m)) as nat) < 0x20_0000_0000_0000,
{
    let k = top_bit(m);
    lemma_top_bit(m);
    lemma_two_values();
    if k > 22 {
        lemma_two_mono(23, k);
    }
    lemma_two_add(k, (52 - k) as nat);
    lemma_two_mono(0, (52 - k) as nat);
    assert(two(k) * two((52 - k) as nat) <= m * two((52 - k) as nat)) by (nonlinear_arith)
        requires
            two(k) <= m,
    ;
    assert(m * two((52 - k) as nat) < 2 * (two(k) * two((52 - k) as nat))) by (nonlinear_arith)
        requires
            m < 2 * two(k),
            0 < two((52 - k) as nat),
    ;
}

/// Widening is strictly monotone on the singles without a sign bit.
proof fn lemma_widen_mono(x: u32, y: u32)
    requires
        x < y <= INF32 || x >= y,
    ensures
        x < y ==> widen32(x) < widen32(y),
{
    if x < y {
        let mx = x as int % 0x80_0000;
        let my = y as int % 0x80_0000;
        let ex = x as int / 0x80_0000;
        let ey = y as int / 0x80_0000;
        assert(ex <= ey);
        assert(ex == ey ==> mx < my);
        if ex == 0 && mx > 0 {
            lemma_subnormal(mx as nat);
        }
        if ey == 0 && my > 0 {
            lemma_subnormal(my as nat);
        }
        if ex == 0 && ey == 0 && mx > 0 {
            let kx = top_bit(mx as nat);
            let ky = top_bit(my as nat);
            lemma_top_bit(mx as nat);
            lemma_top_bit(my as nat);
            if kx > ky {
                lemma_two_mono(ky + 1, kx);
            }
            if kx == ky {
                lemma_two_mono(0, (52 - kx) as nat);
                assert(mx * two((52 - kx) as nat) < my * two((52 - kx) as nat))
                    by (nonlinear_arith)
                    requires
                        mx < my,
                        0 < two((52 - kx) as nat),
                ;
            }
        }
    }
}

/// Shifts a positive number left until bit 52 is its highest bit. Returns
/// the shifted number and the highest bit of the argument.
fn normalize(n: u64) -> (r: (u64, u64))
    requires
        0 < n < 0x20_0000_0000_0000,
    ensures
        r.1 == top_bit(n as nat),
        r.1 <= 52,
        r.0 == n * two((52 - r.1) as nat),
        0x10_0000_0000_0000 <= r.0 < 0x20_0000_0000_0000,
{
    let mut x: u64 = n;
    let mut k: u64 = 52;
    proof {
        lemma_two_values();
        lemma_top_bit(n as nat);
        if top_bit(n as nat) > 52 {
            lemma_two_mono(53, top_bit(n as nat));
        }
        assert(two(0) == 1);
        assert(n * two(0) == n) by (nonlinear_arith)
            requires
                two(0) == 1,
        ;
    }
    while x < 0x10_0000_0000_0000
        invariant
            k <= 52,
            0 < n,
            0 < x < 0x20_0000_0000_0000,
            x == n * two((52 - k) as nat),
            top_bit(n as nat) <= k,
        decreases k,
    {
        proof {
            lemma_top_bit(n as nat);
            lemma_two_values();
            lemma_two_add(top_bit(n as nat), (52 - k) as nat);
            assert(two(top_bit(n as nat)) * two((52 - k) as nat) <= n * two((52 - k) as nat))
                by (nonlinear_arith)
                requires
                    two(top_bit(n as nat)) <= n,
            ;
            if top_bit(n as nat) == k {
                assert(false);
            }
            assert(two((52 - (k - 1)) as nat) == 2 * two((52 - k) as nat));
            assert(n * (2 * two((52 - k) as nat)) == 2 * (n * two((52 - k) as nat)))
                by (nonlinear_arith);
        }
        x = x * 2;
        k = k - 1;
    }
    proof {
        lemma_top_bit(n as nat);
        lemma_two_values();
        let t = top_bit(n as nat);
        if t < k {
            lemma_two_mono(t + 1, k as nat);
            lemma_two_add(k as nat, (52 - k) as nat);
            assert(n < two(k as nat));
            lemma_two_mono(0, (52 - k) as nat);
            assert(n * two((52 - k) as nat) < two(k as nat) * two((52 - k) as nat))
                by (nonlinear_arith)
                requires
                    n < two(k as nat),
                    0 < two((52 - k) as nat),
            ;
            assert(false);
        }
    }
    (x, k)
}

/// Widens a single to a double, exactly.
pub fn f32_widen(x: F32) -> (r: F64)
    ensures
        r.bits == widen32(x.bits),
{
    let s: u64 = if x.bits < SIGN32 {
        0
    } else {
        SIGN64
    };
    let e: u64 = ((x.bits / 0x80_0000) % 256) as u64;
    let m: u64 = (x.bits % 0x80_0000) as u64;
    if e == 255 {
        if m == 0 {
            F64 { bits: s + INF64 }
        } else {
            F64 { bits: s + INF64 + 0x8_0000_0000_0000 + (m % 0x40_0000) * 0x2000_0000 }
        }
    } else if e > 0 {
        F64 { bits: s + (e + 896) * 0x10_0000_0000_0000 + m * 0x2000_0000 }
    } else if m == 0 {
        F64 { bits: s }
    } else {
        let (y, k) = normalize(m);
        proof {
            lemma_top_bit(m as nat);
            lemma_two_values();
            if k > 22 {
                lemma_two_mono(23, k as nat);
            }
        }
        F64 { bits: s + (k + 873) * 0x10_0000_0000_0000 + y }
    }
}

/// The significand and highest bit of a number of at least 54 bits.
fn round_large(mag: u64) -> (r: (u64, u64))
    requires
        mag >= 0x20_0000_0000_0000,
    ensures
        r.0 == significand(mag as nat),
        r.1 == top_bit(mag as nat),
        53 <= r.1 <= 63,
        r.0 <= 0x20_0000_0000_0000,
{
    let mut unit: u64 = 1;
    let mut q: u64 = mag;
    let mut k: u64 = 52;
    proof {
        lemma_two_values();
        assert(two(0) == 1);
        assert(mag as int / 1 == mag) by (nonlinear_arith);
    }
    while q >= 0x20_0000_0000_0000
        invariant
            52 <= k <= 63,
            unit == two((k - 52) as nat),
            0 < unit <= 0x1000,
            q == mag as int / unit as int,
            q >= 0x10_0000_0000_0000,
            k < 63 || q < 0x20_0000_0000_0000,
            mag < 0x1_0000_0000_0000_0000,
            mag >= 0x20_0000_0000_0000,
            k > 52 || q == mag,
        decreases q,
    {
        proof {
            lemma_two_values();
            let u = unit as int;
            assert((mag as int / u) / 2 == mag as int / (u * 2)) by (nonlinear_arith)
                requires
                    u > 0,
                    mag as int >= 0,
            ;
            assert(two((k + 1 - 52) as nat) == 2 * two((k - 52) as nat));
            lemma_two_mono((k + 1 - 52) as nat, 11);
            assert(two(11) == 2 * two(10));
            if k == 62 {
                assert(two(11) == 2048);
                assert(mag as int / 2048 < 0x20_0000_0000_0000) by (nonlinear_arith)
                    requires
                        (mag as int) < 0x1_0000_0000_0000_0000,
                ;
            }
        }
        unit = unit * 2;
        q = q / 2;
        k = k + 1;
    }
    proof {
        let u = unit as int;
        let t = k as nat;
        lemma_two_values();
        lemma_two_add(52, (k - 52) as nat);
        assert(two(t) == 0x10_0000_0000_0000 * u) by (nonlinear_arith)
            requires
                two(t) == two(52) * two((k - 52) as nat),
                two(52) == 0x10_0000_0000_0000,
                two((k - 52) as nat) == u,
        ;
        assert(two(t) <= mag < 2 * two(t)) by (nonlinear_arith)
            requires
                two(t) == 0x10_0000_0000_0000 * u,
                q == mag as int / u,
                u > 0,
                0x10_0000_0000_0000 <= q < 0x20_0000_0000_0000,
        ;
        lemma_top_bit(mag as nat);
        let w = top_bit(mag as nat);
        if w < t {
            lemma_two_mono(w + 1, t);
        }
        if t < w {
            lemma_two_mono(t + 1, w);
        }
    }
    let r: u64 = mag % unit;
    if 2 * r > unit || (2 * r == unit && q % 2 == 1) {
        (q + 1, k)
    } else {
        (q, k)
    }
}

/// The double nearest to an integer, ties to even.
pub fn i64_widen(n: i64) -> (r: F64)
    ensures
        r.bits == int_to_f64(n as int),
{
    if n == 0 {
        return F64 { bits: 0 };
    }
    let mag: u64 = if n == i64::MIN {
        9223372036854775808u64
    } else if n < 0 {
        (-n) as u64
    } else {
        n as u64
    };
    let s: u64 = if n < 0 {
        SIGN64
    } else {
        0
    };
    let (y, k) = if mag < 0x20_0000_0000_0000 {
        normalize(mag)
    } else {
        round_large(mag)
    };
    F64 { bits: s + (k + 1022) * 0x10_0000_0000_0000 + y }
}

/// The exponent of a positive integer below 2^53 leaves room for a division by
/// 2^53.
pub proof fn lemma_positive_int_bits(k: int)
    requires
        0 < k < 0x20_0000_0000_0000,
    ensures
        53 * 0x10_0000_0000_0000 <= int_to_f64(k) < INF64,
{
    let mag = k as nat;
    let t = top_bit(mag);
    lemma_top_bit(mag);
    lemma_two_values();
    if t > 52 {
        lemma_two_mono(53, t);
    }
    lemma_two_add(t, (52 - t) as nat);
    lemma_two_mono(0, (52 - t) as nat);
    let u = two((52 - t) as nat);
    assert(0 <= mag * u < 2 * (two(t) * u)) by (nonlinear_arith)
        requires
            mag < 2 * two(t),
            u > 0,
    ;
}

} // verus!
