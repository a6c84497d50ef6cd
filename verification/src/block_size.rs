//! The block size for a file's signature: the multiple of eight nearest to the square root of the
//! file's size, as double-precision arithmetic rounds it.

use vstd::arithmetic::div_mod::{
    lemma_div_denominator, lemma_div_is_ordered, lemma_div_pos_is_pos, lemma_fundamental_div_mod,
    lemma_mod_bound,
};
use vstd::arithmetic::power2::{
    lemma2_to64, lemma2_to64_rest, lemma_pow2_adds, lemma_pow2_pos, lemma_pow2_strictly_increases,
    lemma_pow2_unfold, pow2,
};
use vstd::prelude::*;

verus! {

/// One more than the largest number that a double's fifty-three bits can count up to.
pub const DOUBLE_RANGE: u128 = 0x20_0000_0000_0000;

/// How far apart the doubles around `n` are: the smallest power of two that brings `n` down to
/// fifty-three bits.
pub open spec fn double_spacing(n: nat) -> nat
    decreases n,
{
    if n < DOUBLE_RANGE {
        1
    } else {
        2 * double_spacing(n / 2)
    }
}

/// The double nearest to `n`; of two that are equally near, the even one.
pub open spec fn nearest_double(n: nat) -> nat {
    let spacing = double_spacing(n);
    let below = n / spacing;
    let rest = n % spacing;
    if 2 * rest > spacing || (2 * rest == spacing && below % 2 == 1) {
        (below + 1) * spacing
    } else {
        below * spacing
    }
}

/// The position of the highest bit of `m`.
pub open spec fn highest_bit(m: nat) -> nat
    decreases m,
{
    if m <= 1 {
        0
    } else {
        1 + highest_bit(m / 2)
    }
}

/// The double nearest to the square root of `x` is at least `m`, an odd multiple of four. This
/// starts halfway between `m` and the double below it, which is `pow2(highest_bit(m))` parts of
/// `DOUBLE_RANGE` short of `m`. Of these multiples only four is a power of two, where the doubles
/// below are closer together, and the root of no whole number comes so near to four from below.
pub open spec fn root_reaches(x: nat, m: nat) -> bool
    recommends
        m % 8 == 4,
{
    let halfway = m * DOUBLE_RANGE - pow2(highest_bit(m));
    x * (DOUBLE_RANGE * DOUBLE_RANGE) >= halfway * halfway
}

/// An eighth of the root of `x` rounds to `q`; a half rounds up.
pub open spec fn root_rounds_to(x: nat, q: nat) -> bool {
    &&& q == 0 || root_reaches(x, (8 * q - 4) as nat)
    &&& !root_reaches(x, 8 * q + 4)
}

/// The eighth of the root of `x`, rounded.
pub open spec fn rounded_eighth(x: nat) -> nat {
    choose|q: nat| root_rounds_to(x, q)
}

/// The block size for a file of `file_size` bytes.
pub open spec fn ideal_block_size(file_size: u64) -> u32 {
    let size = 8 * rounded_eighth(nearest_double(file_size as nat));
    if size <= u32::MAX {
        size as u32
    } else {
        u32::MAX
    }
}

proof fn lemma_highest_bit(m: nat)
    requires
        m >= 1,
    ensures
        pow2(highest_bit(m)) <= m < 2 * pow2(highest_bit(m)),
    decreases m,
{
    lemma2_to64();
    if m > 1 {
        lemma_highest_bit(m / 2);
        lemma_pow2_unfold(highest_bit(m));
    }
}

proof fn lemma_highest_bit_unique(m: nat, e: nat)
    requires
        pow2(e) <= m < 2 * pow2(e),
    ensures
        highest_bit(m) == e,
    decreases m,
{
    lemma2_to64();
    lemma_pow2_pos(e);
    if e == 0 {
        assert(m == 1);
    } else {
        lemma_pow2_unfold(e);
        lemma_pow2_pos((e - 1) as nat);
        lemma_highest_bit_unique(m / 2, (e - 1) as nat);
    }
}

/// A power of two below 2^52 divides 2^52.
proof fn lemma_power_divides(e: nat) -> (k: nat)
    requires
        pow2(e) <= 0x10_0000_0000_0000,
    ensures
        pow2(e) * k == 0x10_0000_0000_0000,
{
    lemma2_to64_rest();
    if e > 52 {
        lemma_pow2_strictly_increases(52, e);
    }
    lemma_pow2_adds(e, (52 - e) as nat);
    pow2((52 - e) as nat)
}

/// `root_reaches` in smaller numbers: either `x` is at least the square of `m`, or it falls short
/// by less than rounding makes up for.
proof fn lemma_root_reaches(x: nat, m: nat)
    requires
        1 <= m < 0x4_0000_0000,
    ensures
        root_reaches(x, m) <==> (x >= m * m || m * pow2(highest_bit(m)) > (m * m - x)
            * 0x10_0000_0000_0000),
{
    let t = pow2(highest_bit(m)) as int;
    let b = DOUBLE_RANGE as int;
    let h = 0x10_0000_0000_0000int;
    lemma_highest_bit(m);
    lemma_pow2_pos(highest_bit(m));
    let k = lemma_power_divides(highest_bit(m));
    let g = m * m - x;
    let d = m * t - g * h;
    assert((m * b - t) * (m * b - t) == (m * m) * (b * b) - 2 * b * (m * t) + t * t)
        by (nonlinear_arith);
    assert(x * (b * b) == (m * m) * (b * b) - g * (b * b)) by (nonlinear_arith)
        requires
            g == m * m - x,
    ;
    assert(g * (b * b) == 2 * b * (g * h)) by (nonlinear_arith)
        requires
            b == 2 * h,
    ;
    assert(2 * b * d == 2 * b * (m * t) - 2 * b * (g * h)) by (nonlinear_arith)
        requires
            d == m * t - g * h,
    ;
    assert(root_reaches(x, m) <==> 2 * b * d >= t * t);
    if d > 0 {
        assert(d == t * (m - g * k)) by (nonlinear_arith)
            requires
                d == m * t - g * h,
                t * k == h,
        ;
        assert(m - g * k >= 1) by (nonlinear_arith)
            requires
                d == t * (m - g * k),
                d > 0,
                t > 0,
        ;
        assert(d >= t) by (nonlinear_arith)
            requires
                d == t * (m - g * k),
                m - g * k >= 1,
                t > 0,
        ;
        assert(2 * b * d >= t * t) by (nonlinear_arith)
            requires
                d >= t,
                t > 0,
                t <= 2 * b,
        ;
    } else {
        assert(2 * b * d < t * t) by (nonlinear_arith)
            requires
                d <= 0,
                t > 0,
                b > 0,
        ;
    }
    if x >= m * m {
        assert(d > 0) by (nonlinear_arith)
            requires
                d == m * t - g * h,
                g <= 0,
                m >= 1,
                t >= 1,
                h > 0,
        ;
    }
}

/// A root that reaches a number reaches every smaller one.
proof fn lemma_root_reaches_below(x: nat, m: nat, larger: nat)
    requires
        1 <= m <= larger < 0x4_0000_0000,
        root_reaches(x, larger),
    ensures
        root_reaches(x, m),
{
    let b = DOUBLE_RANGE as int;
    lemma_highest_bit(m);
    lemma_highest_bit(larger);
    lemma_pow2_pos(highest_bit(m));
    let low = m * b - pow2(highest_bit(m));
    let high = larger * b - pow2(highest_bit(larger));
    if m < larger {
        assert(0 <= low <= high) by (nonlinear_arith)
            requires
                low == m * b - pow2(highest_bit(m)),
                high == larger * b - pow2(highest_bit(larger)),
                pow2(highest_bit(m)) <= m,
                pow2(highest_bit(larger)) <= larger,
                pow2(highest_bit(m)) >= 0,
                1 <= m,
                m + 1 <= larger,
                larger <= b,
        ;
        assert(low * low <= high * high) by (nonlinear_arith)
            requires
                0 <= low <= high,
        ;
    }
}

/// The root of a 64-bit size stays far below 2^33.
proof fn lemma_root_bounded(x: nat, m: nat)
    requires
        x <= 0x1_0000_0000_0000_0000,
        m >= 0x2_0000_0000,
    ensures
        !root_reaches(x, m),
{
    let b = DOUBLE_RANGE as int;
    let t = pow2(highest_bit(m)) as int;
    lemma_highest_bit(m);
    let halfway = m * b - t;
    assert(halfway >= 0x1_8000_0000 * b) by (nonlinear_arith)
        requires
            halfway == m * b - t,
            t <= m,
            m >= 0x2_0000_0000,
            b == 0x20_0000_0000_0000,
    ;
    assert(halfway * halfway >= (0x1_8000_0000 * b) * (0x1_8000_0000 * b)) by (nonlinear_arith)
        requires
            halfway >= 0x1_8000_0000 * b,
            b > 0,
    ;
    assert((0x1_8000_0000 * b) * (0x1_8000_0000 * b) > x * (b * b)) by (nonlinear_arith)
        requires
            x <= 0x1_0000_0000_0000_0000,
            b == 0x20_0000_0000_0000,
    ;
}

/// There is but one number that the eighth of a root rounds to.
proof fn lemma_rounding_unique(x: nat, q: nat, other: nat)
    requires
        root_rounds_to(x, q),
        root_rounds_to(x, other),
        x <= 0x1_0000_0000_0000_0000,
    ensures
        q == other,
{
    if q >= 0x4000_0001 {
        lemma_root_bounded(x, (8 * q - 4) as nat);
    }
    if other >= 0x4000_0001 {
        lemma_root_bounded(x, (8 * other - 4) as nat);
    }
    if q < other {
        lemma_root_reaches_below(x, 8 * q + 4, (8 * other - 4) as nat);
    } else if other < q {
        lemma_root_reaches_below(x, 8 * other + 4, (8 * q - 4) as nat);
    }
}

proof fn lemma_double_spacing(n: nat)
    ensures
        double_spacing(n) >= 1,
        n < double_spacing(n) * DOUBLE_RANGE,
        n >= DOUBLE_RANGE ==> 2 * n >= double_spacing(n) * DOUBLE_RANGE,
    decreases n,
{
    if n >= DOUBLE_RANGE {
        lemma_double_spacing(n / 2);
    }
}

proof fn lemma_double_spacing_bounded(n: nat, k: nat)
    requires
        n < DOUBLE_RANGE * pow2(k),
    ensures
        double_spacing(n) <= pow2(k),
    decreases k,
{
    lemma2_to64();
    lemma_pow2_pos(k);
    if n >= DOUBLE_RANGE {
        assert(k > 0);
        lemma_pow2_unfold(k);
        lemma_double_spacing_bounded(n / 2, (k - 1) as nat);
    }
}

/// The double nearest to `n`, as a whole number.
fn round_to_double(n: u64) -> (nearest: u128)
    ensures
        nearest == nearest_double(n as nat),
        nearest <= 0x1_0000_0000_0000_0000,
        n >= 16 ==> nearest >= 16,
        n < DOUBLE_RANGE ==> nearest == n,
{
    let mut spacing: u128 = 1;
    let mut below: u128 = n as u128;
    proof {
        lemma_double_spacing(n as nat);
        assert(1 * double_spacing(n as nat) == double_spacing(n as nat));
        assert(n as nat / 1 == n);
    }
    while below >= DOUBLE_RANGE
        invariant
            spacing >= 1,
            below == n as nat / spacing as nat,
            double_spacing(n as nat) == spacing * double_spacing(below as nat),
            spacing * below <= n,
        decreases below,
    {
        proof {
            assert(n as nat / (2 * spacing) as nat == (n as nat / spacing as nat) / 2) by {
                lemma_div_denominator(n as int, spacing as int, 2);
            }
            assert(spacing * 2 <= n) by (nonlinear_arith)
                requires
                    spacing * below <= n,
                    below >= 2,
                    spacing >= 1,
            ;
            assert(2 * spacing * (below / 2) <= n) by (nonlinear_arith)
                requires
                    spacing * below <= n,
            ;
            assert(double_spacing(n as nat) == (2 * spacing) * double_spacing((below / 2) as nat))
                by (nonlinear_arith)
                requires
                    double_spacing(n as nat) == spacing * double_spacing(below as nat),
                    double_spacing(below as nat) == 2 * double_spacing((below / 2) as nat),
            ;
        }
        spacing = 2 * spacing;
        below = below / 2;
    }
    let rest: u128 = n as u128 % spacing;
    proof {
        assert(double_spacing(below as nat) == 1);
        assert(spacing * 1 == spacing);
        assert(double_spacing(n as nat) == spacing);
        lemma_fundamental_div_mod(n as int, spacing as int);
        lemma2_to64();
        lemma_double_spacing_bounded(n as nat, 11);
        lemma_double_spacing(n as nat);
        assert((below + 1) * spacing <= 0x1_0000_0000_0000_0000) by (nonlinear_arith)
            requires
                below + 1 <= DOUBLE_RANGE,
                spacing <= 2048,
                DOUBLE_RANGE == 0x20_0000_0000_0000,
        ;
        assert(below * spacing <= (below + 1) * spacing) by (nonlinear_arith);
        if n >= DOUBLE_RANGE {
            assert(below >= 16) by (nonlinear_arith)
                requires
                    2 * n >= spacing * DOUBLE_RANGE,
                    n == spacing * below + rest,
                    rest < spacing,
                    spacing >= 1,
                    DOUBLE_RANGE == 0x20_0000_0000_0000,
            ;
            assert(below * spacing >= 16) by (nonlinear_arith)
                requires
                    below >= 16,
                    spacing >= 1,
            ;
        } else {
            assert(spacing == 1);
            assert(below * 1 == n);
        }
    }
    if 2 * rest > spacing || (2 * rest == spacing && below % 2 == 1) {
        (below + 1) * spacing
    } else {
        below * spacing
    }
}

/// Whether the double nearest to the square root of `x` is at least `m`.
fn root_is_at_least(x: u128, m: u64) -> (reaches: bool)
    requires
        1 <= m < 0x4_0000_0000,
        x <= 0x1_0000_0000_0000_0000,
    ensures
        reaches == root_reaches(x as nat, m as nat),
{
    let wide: u128 = m as u128;
    proof {
        lemma_root_reaches(x as nat, m as nat);
        assert(wide * wide < 0x10_0000_0000_0000_0000) by (nonlinear_arith)
            requires
                wide < 0x4_0000_0000,
        ;
    }
    let square: u128 = wide * wide;
    if x >= square {
        return true;
    }
    let mut top: u128 = 1;
    let ghost mut e: nat = 0;
    proof {
        lemma2_to64();
    }
    while 2 * top <= wide
        invariant
            top == pow2(e),
            top <= wide < 0x4_0000_0000,
        decreases wide - top,
    {
        proof {
            lemma_pow2_unfold(e + 1);
            lemma_pow2_pos(e);
            e = e + 1;
        }
        top = 2 * top;
    }
    proof {
        lemma_highest_bit_unique(m as nat, e);
        assert(wide * top < 0x10_0000_0000_0000_0000) by (nonlinear_arith)
            requires
                wide < 0x4_0000_0000,
                top <= wide,
        ;
    }
    wide * top > (square - x) * 0x10_0000_0000_0000
}

/// The ideal block size for the signature of a file of `file_size` bytes: the square root of the
/// size, rounded to a multiple of eight. Files of less than sixteen bytes have none and get zero.
pub fn get_ideal_block_size(file_size: u64) -> (size: u32)
    ensures
        size == ideal_block_size(file_size),
        size == 0 <==> file_size < 16,
{
    let x: u128 = round_to_double(file_size);
    let mut low: u64 = 0;
    let mut high: u64 = 0x4000_0001;
    proof {
        lemma_root_bounded(x as nat, (8 * high - 4) as nat);
    }
    while high - low > 1
        invariant
            low < high <= 0x4000_0001,
            x <= 0x1_0000_0000_0000_0000,
            low == 0 || root_reaches(x as nat, (8 * low - 4) as nat),
            !root_reaches(x as nat, (8 * high - 4) as nat),
        decreases high - low,
    {
        let middle: u64 = low + (high - low) / 2;
        if root_is_at_least(x, 8 * middle - 4) {
            low = middle;
        } else {
            high = middle;
        }
    }
    proof {
        assert(root_rounds_to(x as nat, low as nat));
        lemma_rounding_unique(x as nat, low as nat, rounded_eighth(x as nat));
        lemma_root_reaches(x as nat, 4);
        reveal_with_fuel(highest_bit, 3);
        lemma2_to64();
        if low > 0 {
            lemma_root_reaches_below(x as nat, 4, (8 * low - 4) as nat);
        }
    }
    if low < 0x2000_0000 {
        8 * low as u32
    } else {
        u32::MAX
    }
}

proof fn lemma_rounding_exists(x: nat, high: nat)
    requires
        high >= 1,
        !root_reaches(x, (8 * high - 4) as nat),
    ensures
        root_rounds_to(x, rounded_eighth(x)),
    decreases high,
{
    let q = (high - 1) as nat;
    if q == 0 || root_reaches(x, (8 * q - 4) as nat) {
        assert(root_rounds_to(x, q));
    } else {
        lemma_rounding_exists(x, q);
    }
}

proof fn lemma_spacing_steps(a: nat, b: nat)
    requires
        a <= b,
    ensures
        double_spacing(b) == double_spacing(a) || double_spacing(b) >= 2 * double_spacing(a),
    decreases b,
{
    lemma_double_spacing(b);
    if b >= DOUBLE_RANGE {
        lemma_double_spacing(b / 2);
        if a >= DOUBLE_RANGE {
            lemma_spacing_steps(a / 2, b / 2);
        }
    }
}

proof fn lemma_nearest_double_bounds(n: nat)
    ensures
        n < DOUBLE_RANGE ==> nearest_double(n) == n,
        n / double_spacing(n) < DOUBLE_RANGE,
        n >= DOUBLE_RANGE ==> 2 * (n / double_spacing(n)) >= DOUBLE_RANGE,
        (n / double_spacing(n)) * double_spacing(n) <= nearest_double(n),
        nearest_double(n) <= (n / double_spacing(n) + 1) * double_spacing(n),
{
    let s = double_spacing(n) as int;
    let q = n as int / s;
    let r = n as int % s;
    lemma_double_spacing(n);
    lemma_fundamental_div_mod(n as int, s);
    lemma_mod_bound(n as int, s);
    assert(q < DOUBLE_RANGE) by (nonlinear_arith)
        requires
            n < s * DOUBLE_RANGE,
            n == s * q + r,
            r >= 0,
            s >= 1,
    ;
    assert(q * s <= (q + 1) * s) by (nonlinear_arith)
        requires
            s >= 1,
    ;
    if n >= DOUBLE_RANGE {
        assert(2 * q >= DOUBLE_RANGE) by (nonlinear_arith)
            requires
                2 * n >= s * DOUBLE_RANGE,
                n == s * q + r,
                r < s,
                s >= 1,
                DOUBLE_RANGE == 0x20_0000_0000_0000,
        ;
    } else {
        assert(s == 1);
        assert(1 * q == q);
    }
}

proof fn lemma_nearest_double_monotone(a: nat, b: nat)
    requires
        a <= b,
    ensures
        nearest_double(a) <= nearest_double(b),
{
    let s = double_spacing(a) as int;
    let t = double_spacing(b) as int;
    let p = a as int / s;
    let q = b as int / t;
    lemma_double_spacing(a);
    lemma_double_spacing(b);
    lemma_spacing_steps(a, b);
    lemma_nearest_double_bounds(a);
    lemma_nearest_double_bounds(b);
    if s == t {
        lemma_fundamental_div_mod(a as int, s);
        lemma_fundamental_div_mod(b as int, s);
        lemma_div_is_ordered(a as int, b as int, s);
        if p < q {
            assert((p + 1) * s <= q * s) by (nonlinear_arith)
                requires
                    p + 1 <= q,
                    s >= 1,
            ;
        } else {
            assert(p == q);
        }
    } else {
        if b < DOUBLE_RANGE {
            assert(s == 1 && t == 1);
        }
        assert((p + 1) * s <= q * t) by (nonlinear_arith)
            requires
                p + 1 <= DOUBLE_RANGE,
                DOUBLE_RANGE <= 2 * q,
                2 * s <= t,
                s >= 1,
        ;
    }
}

proof fn lemma_nearest_double_fits(n: u64)
    ensures
        nearest_double(n as nat) <= 0x1_0000_0000_0000_0000,
{
    let s = double_spacing(n as nat) as int;
    let q = n as int / s;
    lemma2_to64();
    lemma_double_spacing(n as nat);
    lemma_double_spacing_bounded(n as nat, 11);
    lemma_nearest_double_bounds(n as nat);
    lemma_div_pos_is_pos(n as int, s);
    assert((q + 1) * s <= 0x1_0000_0000_0000_0000) by (nonlinear_arith)
        requires
            0 <= q,
            q + 1 <= 0x20_0000_0000_0000,
            0 <= s <= 2048,
    ;
}

/// The number of eighths that the block size of a file is made of, before the limit of 32 bits.
proof fn lemma_eighths(file_size: u64) -> (q: nat)
    ensures
        root_rounds_to(nearest_double(file_size as nat), q),
        q == rounded_eighth(nearest_double(file_size as nat)),
        q <= 0x4000_0000,
{
    let x = nearest_double(file_size as nat);
    lemma_nearest_double_fits(file_size);
    lemma_root_bounded(x, (8 * 0x4000_0001 - 4) as nat);
    lemma_rounding_exists(x, 0x4000_0001);
    let q = rounded_eighth(x);
    if q > 0x4000_0000 {
        lemma_root_bounded(x, (8 * q - 4) as nat);
    }
    q
}

/// A block size is a multiple of eight, unless it is the largest that fits.
pub proof fn law_block_size_is_multiple_of_eight(file_size: u64)
    ensures
        ideal_block_size(file_size) % 8 == 0 || ideal_block_size(file_size) == u32::MAX,
{
    lemma_eighths(file_size);
}

/// A larger file never gets smaller blocks.
pub proof fn law_block_size_is_monotone(smaller: u64, larger: u64)
    requires
        smaller <= larger,
    ensures
        ideal_block_size(smaller) <= ideal_block_size(larger),
{
    let x = nearest_double(smaller as nat);
    let y = nearest_double(larger as nat);
    lemma_nearest_double_monotone(smaller as nat, larger as nat);
    let p = lemma_eighths(smaller);
    let q = lemma_eighths(larger);
    if p > q {
        let m = (8 * p - 4) as nat;
        assert(root_reaches(y, m)) by (nonlinear_arith)
            requires
                root_reaches(x, m),
                x <= y,
        ;
        lemma_root_reaches_below(y, 8 * q + 4, m);
    }
}

/// For all but huge files rounding plays no part: the block size is the multiple of eight nearest to
/// the square root of the file's size. At the limit the root falls short of 2^26 + 4 by less than
/// a double can tell.
pub proof fn law_block_size_is_nearest_to_root(file_size: u64)
    requires
        file_size < 0x10_0000_2000_000f,
    ensures
        ({
            let size = ideal_block_size(file_size) as int;
            &&& size >= 8 ==> (size - 4) * (size - 4) <= file_size
            &&& file_size < (size + 4) * (size + 4)
        }),
{
    let n = file_size as nat;
    let q = lemma_eighths(file_size);
    lemma_nearest_double_bounds(n);
    let m = 8 * q + 4;
    lemma_root_reaches(n, m);
    if q > 0 {
        let below = (8 * q - 4) as nat;
        lemma_root_reaches(n, below);
        lemma_highest_bit(below);
        let t = pow2(highest_bit(below));
        let g = below * below - n;
        if g > 0 {
            let square = below * below;
            assert(below * t <= square) by (nonlinear_arith)
                requires
                    t <= below,
                    square == below * below,
            ;
            if below <= 0x400_0000 {
                assert(square <= 0x10_0000_0000_0000) by (nonlinear_arith)
                    requires
                        below <= 0x400_0000,
                        square == below * below,
                ;
            } else {
                assert(square >= 0x10_0000_2000_0010) by (nonlinear_arith)
                    requires
                        below >= 0x400_0004,
                        square == below * below,
                ;
            }
            assert(false);
        }
        assert(below < 0x400_0004) by (nonlinear_arith)
            requires
                below * below <= n,
                n < 0x10_0000_2000_000f,
        ;
    }
}

/// For files of any size the block size is within rounding of the multiple of eight nearest to the
/// square root of the size, as far as 32 bits can hold it.
pub proof fn law_block_size_is_near_root(file_size: u64)
    ensures
        ({
            let size = ideal_block_size(file_size) as int;
            &&& 8 <= size < u32::MAX ==> (size - 4) * (size - 4) <= file_size + 0x4400
            &&& size < u32::MAX ==> file_size < (size + 4) * (size + 4) + 0x800
            &&& size == u32::MAX ==> (size - 3) * (size - 3) <= file_size + 0x4400
        }),
{
    let n = file_size as nat;
    let x = nearest_double(n);
    let q = lemma_eighths(file_size);
    lemma_nearest_double_is_near(file_size);
    let m = 8 * q + 4;
    assert(x < m * m) by {
        lemma_root_reaches(x, m);
    }
    if q > 0 {
        let below = (8 * q - 4) as nat;
        lemma_root_reaches(x, below);
        lemma_highest_bit(below);
        let t = pow2(highest_bit(below));
        let square = below * below;
        assert(square < 0x4_0000_0000_0000_0000) by (nonlinear_arith)
            requires
                below < 0x2_0000_0000,
                square == below * below,
        ;
        assert(below * t <= square) by (nonlinear_arith)
            requires
                t <= below,
                square == below * below,
        ;
        assert(square <= x + 0x4000);
        if q >= 0x2000_0000 {
            assert(0xffff_fffc * 0xffff_fffc <= square) by (nonlinear_arith)
                requires
                    below >= 0xffff_fffc,
                    square == below * below,
            ;
        }
    }
}

proof fn lemma_nearest_double_is_near(n: u64)
    ensures
        nearest_double(n as nat) <= n + 0x400,
        n <= nearest_double(n as nat) + 0x400,
{
    let s = double_spacing(n as nat) as int;
    let q = n as int / s;
    let r = n as int % s;
    lemma2_to64();
    lemma_double_spacing(n as nat);
    lemma_double_spacing_bounded(n as nat, 11);
    lemma_fundamental_div_mod(n as int, s);
    lemma_mod_bound(n as int, s);
    assert(q * s == s * q) by (nonlinear_arith);
    assert((q + 1) * s == s * q + s) by (nonlinear_arith);
}

/// The double nearest to a whole number: the number itself below 2^53, and above that a multiple of
/// the power of two that leaves fifty-three bits of it. It is off by half of that at most, and where
/// by half of that, it is an even multiple.
pub proof fn law_nearest_double(n: nat) -> (k: nat)
    ensures
        n < 0x20_0000_0000_0000 ==> nearest_double(n) == n,
        n >= 0x20_0000_0000_0000 ==> {
            let spacing = pow2(k);
            &&& 0x10_0000_0000_0000 * spacing <= n < 0x20_0000_0000_0000 * spacing
            &&& nearest_double(n) % spacing == 0
            &&& 2 * (nearest_double(n) - n) <= spacing
            &&& 2 * (n - nearest_double(n)) <= spacing
            &&& 2 * (nearest_double(n) - n) == spacing || 2 * (n - nearest_double(n)) == spacing
                ==> (nearest_double(n) / spacing) % 2 == 0
        },
{
    let s = double_spacing(n) as int;
    let q = n as int / s;
    let r = n as int % s;
    let k = lemma_double_spacing_is_power(n);
    lemma_double_spacing(n);
    lemma_fundamental_div_mod(n as int, s);
    lemma_mod_bound(n as int, s);
    lemma_nearest_double_bounds(n);
    assert(q * s == s * q) by (nonlinear_arith);
    assert((q + 1) * s == s * q + s) by (nonlinear_arith);
    lemma_multiple(q, s);
    lemma_multiple(q + 1, s);
    k
}

proof fn lemma_multiple(q: int, s: int)
    requires
        s > 0,
    ensures
        (q * s) % s == 0,
        (q * s) / s == q,
{
    assert((q * s) % s == 0) by (nonlinear_arith)
        requires
            s > 0,
    ;
    assert((q * s) / s == q) by (nonlinear_arith)
        requires
            s > 0,
    ;
}

proof fn lemma_double_spacing_is_power(n: nat) -> (k: nat)
    ensures
        double_spacing(n) == pow2(k),
    decreases n,
{
    lemma2_to64();
    if n < DOUBLE_RANGE {
        0
    } else {
        let k = lemma_double_spacing_is_power(n / 2);
        lemma_pow2_unfold(k + 1);
        k + 1
    }
}

/// The block size is the multiple of eight whose neighbourhood the double nearest to the square root
/// falls into: not below four less, which is reached half a double's distance early, and below four
/// more. Distances are in parts of 2^53, where half a distance around a number is the power of
/// two of its highest bit.
pub proof fn law_block_size_rounds_as_doubles_do(file_size: u64, low: nat, high: nat)
    requires
        ideal_block_size(file_size) < u32::MAX,
        ideal_block_size(file_size) >= 8 ==> pow2(low) <= ideal_block_size(file_size) - 4 < 2
            * pow2(low),
        pow2(high) <= ideal_block_size(file_size) + 4 < 2 * pow2(high),
    ensures
        ({
            let size = ideal_block_size(file_size) as int;
            let unit = 0x20_0000_0000_0000int;
            let x = nearest_double(file_size as nat) as int * (unit * unit);
            let start = (size - 4) * unit - pow2(low);
            let end = (size + 4) * unit - pow2(high);
            &&& size % 8 == 0
            &&& size >= 8 ==> start * start <= x
            &&& x < end * end
        }),
{
    let q = lemma_eighths(file_size);
    assert(ideal_block_size(file_size) == 8 * q);
    lemma_highest_bit_unique(8 * q + 4, high);
    if q > 0 {
        lemma_highest_bit_unique((8 * q - 4) as nat, low);
    }
}

} // verus!
