//! What a boolean costs: logarithms to the nearest 1/256 of a bit.
use crate::bool_encoder;
use vstd::arithmetic::power::{
    lemma_pow0, lemma_pow1, lemma_pow_adds, lemma_pow_multiplies,
    lemma_pow_positive, pow,
};
use vstd::arithmetic::power2::{
    lemma2_to64, lemma_pow2, lemma_pow2_adds, lemma_pow2_pos, lemma_pow2_strictly_increases,
    lemma_pow2_unfold, pow2,
};
use vstd::prelude::*;

verus! {

/// The square of a number between one and two, or half of it where it is two
/// or more; 31 bits after the point, the rest cut off.
pub open spec fn squared(y: int) -> int {
    if y * y >= 0x8000_0000_0000_0000 {
        y * y / 0x1_0000_0000
    } else {
        y * y / 0x8000_0000
    }
}

/// `y`, squared `n` times.
pub open spec fn squared_times(y: int, n: nat) -> int
    decreases n,
{
    if n == 0 {
        y
    } else {
        squared_times(squared(y), (n - 1) as nat)
    }
}

/// `p` is `y / 2^31` times `2^log`, and less than `e` units of the last place
/// above it.
pub open spec fn brackets(p: int, y: int, log: nat, e: int) -> bool {
    y * pow2(log) <= p * 0x8000_0000 && p * 0x8000_0000 < (y + e) * pow2(log)
}

/// What cutting off may have cost after `n` squarings.
pub open spec fn slack(n: nat) -> int
    decreases n,
{
    if n == 0 {
        1
    } else {
        5 * slack((n - 1) as nat) + 1
    }
}

pub proof fn lemma_slack_bound(n: nat)
    requires
        n <= 9,
    ensures
        1 <= slack(n) <= 0x100_0000,
{
    reveal_with_fuel(slack, 10);
}

pub proof fn lemma_square_bound(y: int)
    requires
        0x8000_0000 <= y < 0x1_0000_0000,
    ensures
        y * y < 0x1_0000_0000_0000_0000,
        0x8000_0000 <= squared(y) < 0x1_0000_0000,
{
    assert(0x8000_0000 * 0x8000_0000 <= y * y < 0x1_0000_0000 * 0x1_0000_0000) by (nonlinear_arith)
        requires
            0x8000_0000 <= y < 0x1_0000_0000,
    ;
}

proof fn lemma_squared_bracket(p: int, y: int, w: int, e: int, unit: int, z: int)
    requires
        p >= 0,
        0x8000_0000 <= y < 0x1_0000_0000,
        w >= 1,
        1 <= e <= 0x8000_0000,
        y * w <= p * 0x8000_0000 < (y + e) * w,
        unit == 0x8000_0000 || unit == 0x1_0000_0000,
        z * unit <= y * y < (z + 1) * unit,
    ensures
        z * unit * (w * w) <= p * p * 0x8000_0000 * 0x8000_0000,
        p * p * 0x8000_0000 * 0x8000_0000 < (z + 5 * e + 1) * unit * (w * w),
{
    let q = p * 0x8000_0000;
    assert(q * q == p * p * 0x8000_0000 * 0x8000_0000) by (nonlinear_arith)
        requires
            q == p * 0x8000_0000,
    ;
    assert((y * w) * (y * w) <= q * q && q * q < ((y + e) * w) * ((y + e) * w)) by (nonlinear_arith)
        requires
            0 <= y * w <= q < (y + e) * w,
    {
    }
    assert((y * w) * (y * w) == (y * y) * (w * w)) by (nonlinear_arith);
    assert(((y + e) * w) * ((y + e) * w) == ((y + e) * (y + e)) * (w * w)) by (nonlinear_arith);
    assert((y + e) * (y + e) <= (z + 5 * e + 1) * unit) by {
        assert((y + e) * (y + e) == y * y + (2 * y + e) * e) by (nonlinear_arith);
        assert((2 * y + e) * e <= 5 * unit * e) by (nonlinear_arith)
            requires
                0 <= 2 * y + e <= 5 * unit,
                e >= 0,
        ;
        assert((z + 5 * e + 1) * unit == (z + 1) * unit + 5 * unit * e) by (nonlinear_arith);
    }
    let big = w * w;
    assert(big >= 1) by (nonlinear_arith)
        requires
            w >= 1,
            big == w * w,
    ;
    assert(z * unit * big <= (y * y) * big) by (nonlinear_arith)
        requires
            z * unit <= y * y,
            big >= 0,
    ;
    assert(((y + e) * (y + e)) * big <= (z + 5 * e + 1) * unit * big) by (nonlinear_arith)
        requires
            (y + e) * (y + e) <= (z + 5 * e + 1) * unit,
            big >= 0,
    ;
}

/// One squaring of a bracketed number.
pub proof fn lemma_square_step(p: int, y: int, log: nat, e: int)
    requires
        p >= 0,
        0x8000_0000 <= y < 0x1_0000_0000,
        1 <= e <= 0x8000_0000,
        brackets(p, y, log, e),
    ensures
        y * y >= 0x8000_0000_0000_0000 ==> brackets(p * p, squared(y), 2 * log + 1, 5 * e + 1),
        y * y < 0x8000_0000_0000_0000 ==> brackets(p * p, squared(y), 2 * log, 5 * e + 1),
{
    let w = pow2(log) as int;
    let z = squared(y);
    lemma_pow2_pos(log);
    lemma_pow2_adds(log, log);
    lemma_pow2_unfold(2 * log + 1);
    let big = w * w;
    assert(pow2(2 * log) == big);
    let k = p * p;
    let above = z + 5 * e + 1;
    if y * y >= 0x8000_0000_0000_0000 {
        lemma_squared_bracket(p, y, w, e, 0x1_0000_0000, z);
        assert(pow2(2 * log + 1) == 2 * big);
        assert(z * 0x1_0000_0000 * big == (z * (2 * big)) * 0x8000_0000) by (nonlinear_arith);
        assert(above * 0x1_0000_0000 * big == (above * (2 * big)) * 0x8000_0000)
            by (nonlinear_arith);
    } else {
        lemma_squared_bracket(p, y, w, e, 0x8000_0000, z);
        assert(z * 0x8000_0000 * big == (z * big) * 0x8000_0000) by (nonlinear_arith);
        assert(above * 0x8000_0000 * big == (above * big) * 0x8000_0000) by (nonlinear_arith);
    }
}

/// The next power to bracket.
pub proof fn lemma_power_step(x: int, n: nat)
    ensures
        pow(x, pow2(n + 1)) == pow(x, pow2(n)) * pow(x, pow2(n)),
{
    lemma_pow2_unfold(n + 1);
    lemma_pow_adds(x, pow2(n), pow2(n));
}

/// No logarithm in question comes near a whole number of 1/512 from below.
spec fn clear(t: int) -> bool {
    squared_times(t * 0x100_0000, 9) <= 0xff00_0000
}

spec fn all_clear(t: int, n: nat) -> bool
    decreases n,
{
    n == 0 || (clear(t) && all_clear(t + 1, (n - 1) as nat))
}

proof fn lemma_clear_from_128()
    by (nonlinear_arith)
    ensures
        all_clear(128, 8),
{
    reveal_with_fuel(all_clear, 9);
    reveal_with_fuel(squared_times, 10);
}

proof fn lemma_clear_from_136()
    by (nonlinear_arith)
    ensures
        all_clear(136, 8),
{
    reveal_with_fuel(all_clear, 9);
    reveal_with_fuel(squared_times, 10);
}

proof fn lemma_clear_from_144()
    by (nonlinear_arith)
    ensures
        all_clear(144, 8),
{
    reveal_with_fuel(all_clear, 9);
    reveal_with_fuel(squared_times, 10);
}

proof fn lemma_clear_from_152()
    by (nonlinear_arith)
    ensures
        all_clear(152, 8),
{
    reveal_with_fuel(all_clear, 9);
    reveal_with_fuel(squared_times, 10);
}

proof fn lemma_clear_from_160()
    by (nonlinear_arith)
    ensures
        all_clear(160, 8),
{
    reveal_with_fuel(all_clear, 9);
    reveal_with_fuel(squared_times, 10);
}

proof fn lemma_clear_from_168()
    by (nonlinear_arith)
    ensures
        all_clear(168, 8),
{
    reveal_with_fuel(all_clear, 9);
    reveal_with_fuel(squared_times, 10);
}

proof fn lemma_clear_from_176()
    by (nonlinear_arith)
    ensures
        all_clear(176, 8),
{
    reveal_with_fuel(all_clear, 9);
    reveal_with_fuel(squared_times, 10);
}

proof fn lemma_clear_from_184()
    by (nonlinear_arith)
    ensures
        all_clear(184, 8),
{
    reveal_with_fuel(all_clear, 9);
    reveal_with_fuel(squared_times, 10);
}

proof fn lemma_clear_from_192()
    by (nonlinear_arith)
    ensures
        all_clear(192, 8),
{
    reveal_with_fuel(all_clear, 9);
    reveal_with_fuel(squared_times, 10);
}

proof fn lemma_clear_from_200()
    by (nonlinear_arith)
    ensures
        all_clear(200, 8),
{
    reveal_with_fuel(all_clear, 9);
    reveal_with_fuel(squared_times, 10);
}

proof fn lemma_clear_from_208()
    by (nonlinear_arith)
    ensures
        all_clear(208, 8),
{
    reveal_with_fuel(all_clear, 9);
    reveal_with_fuel(squared_times, 10);
}

proof fn lemma_clear_from_216()
    by (nonlinear_arith)
    ensures
        all_clear(216, 8),
{
    reveal_with_fuel(all_clear, 9);
    reveal_with_fuel(squared_times, 10);
}

proof fn lemma_clear_from_224()
    by (nonlinear_arith)
    ensures
        all_clear(224, 8),
{
    reveal_with_fuel(all_clear, 9);
    reveal_with_fuel(squared_times, 10);
}

proof fn lemma_clear_from_232()
    by (nonlinear_arith)
    ensures
        all_clear(232, 8),
{
    reveal_with_fuel(all_clear, 9);
    reveal_with_fuel(squared_times, 10);
}

proof fn lemma_clear_from_240()
    by (nonlinear_arith)
    ensures
        all_clear(240, 8),
{
    reveal_with_fuel(all_clear, 9);
    reveal_with_fuel(squared_times, 10);
}

proof fn lemma_clear_from_248()
    by (nonlinear_arith)
    ensures
        all_clear(248, 8),
{
    reveal_with_fuel(all_clear, 9);
    reveal_with_fuel(squared_times, 10);
}

/// Whatever is left between 1 and 2 of a number up to 256, its 512th power
/// keeps away from the next power of two.
pub proof fn lemma_clear(y: int)
    requires
        0x8000_0000 <= y < 0x1_0000_0000,
        y % 0x100_0000 == 0,
    ensures
        squared_times(y, 9) <= 0xff00_0000,
{
    let t = y / 0x100_0000;
    assert(128 <= t < 256 && y == t * 0x100_0000);
    reveal_with_fuel(all_clear, 9);
    lemma_clear_from_128();
    lemma_clear_from_136();
    lemma_clear_from_144();
    lemma_clear_from_152();
    lemma_clear_from_160();
    lemma_clear_from_168();
    lemma_clear_from_176();
    lemma_clear_from_184();
    lemma_clear_from_192();
    lemma_clear_from_200();
    lemma_clear_from_208();
    lemma_clear_from_216();
    lemma_clear_from_224();
    lemma_clear_from_232();
    lemma_clear_from_240();
    lemma_clear_from_248();
    assert(clear(t));
}

/// With the mantissa clear of two, the logarithm is exact.
pub proof fn lemma_whole_log(p: int, y: int, log: nat, e: int)
    requires
        brackets(p, y, log, e),
        0x8000_0000 <= y,
        y + e <= 0x1_0000_0000,
    ensures
        pow2(log) <= p,
        p < pow2(log + 1),
{
    let w = pow2(log) as int;
    lemma_pow2_unfold(log + 1);
    assert(0x8000_0000 * w <= y * w) by (nonlinear_arith)
        requires
            0x8000_0000 <= y,
            w >= 0,
    ;
    assert((y + e) * w <= 0x1_0000_0000 * w) by (nonlinear_arith)
        requires
            y + e <= 0x1_0000_0000,
            w >= 0,
    ;
}

/// Half of what a logarithm in 1/512 lacks of 4096 is the nearest cost.
pub proof fn lemma_half_is_nearest(x: int, log: nat)
    requires
        1 <= x <= 256,
        pow2(log) <= pow(x, 512) < pow2(log + 1),
    ensures
        log <= 4096,
        bool_encoder::nearest_cost(x, (4096 - log) / 2),
{
    let p = pow(x, 512);
    assert(p <= pow2(4096)) by {
        lemma_power_monotone(x, 256, 512);
        lemma2_to64();
        lemma_pow2(8);
        lemma_pow_multiplies(2, 8, 512);
        lemma_pow2(4096);
    }
    if log > 4096 {
        lemma_pow2_strictly_increases(4096, log);
    }
    let c = (4096 - log) / 2;
    let m = pow2((2 * c) as nat) as int;
    lemma_pow2_pos((2 * c) as nat);
    lemma_pow2_adds((2 * c) as nat, log);
    lemma_pow2_adds((2 * c) as nat, log + 1);
    lemma_pow2_unfold(4096);
    lemma_pow2_unfold(4097);
    assert(m * pow2(log) <= m * p && m * p < m * pow2(log + 1)) by (nonlinear_arith)
        requires
            m >= 1,
            pow2(log) <= p < pow2(log + 1),
    ;
    assert(2 * m * p == 2 * (m * p)) by (nonlinear_arith);
}

proof fn lemma_power_monotone(a: int, b: int, n: nat)
    requires
        0 <= a <= b,
    ensures
        0 <= pow(a, n) <= pow(b, n),
    decreases n,
{
    if n == 0 {
        lemma_pow0(a);
        lemma_pow0(b);
    } else {
        let m = (n - 1) as nat;
        lemma_power_monotone(a, b, m);
        lemma_pow1(a);
        lemma_pow1(b);
        lemma_pow_adds(a, 1, m);
        lemma_pow_adds(b, 1, m);
        let u = pow(a, m);
        let v = pow(b, m);
        assert(0 <= a * u <= b * v) by (nonlinear_arith)
            requires
                0 <= a <= b,
                0 <= u <= v,
        ;
    }
}

/// Twice a square is no square.
proof fn lemma_no_root(u: int, v: int)
    requires
        u >= 0,
        v >= 0,
        2 * (u * u) == v * v,
    ensures
        u == 0,
    decreases u,
{
    if u > 0 {
        let h = v / 2;
        if v % 2 == 1 {
            assert(v * v == 4 * (h * h + h) + 1) by (nonlinear_arith)
                requires
                    v == 2 * h + 1,
            ;
            assert(false);
        }
        assert(v == 2 * h);
        assert(v * v == 4 * (h * h)) by (nonlinear_arith)
            requires
                v == 2 * h,
        ;
        assert(u * u == 2 * (h * h));
        assert(h < u) by (nonlinear_arith)
            requires
                u * u == 2 * (h * h),
                u > 0,
                h >= 0,
        ;
        lemma_no_root(h, u);
        assert(u * u > 0) by (nonlinear_arith)
            requires
                u > 0,
        ;
        assert(h * h == 0);
    }
}

/// No cost lies halfway between two numbers.
proof fn lemma_no_tie(x: int, c: nat)
    requires
        x >= 1,
    ensures
        2 * pow2(2 * c) * pow(x, 512) != pow2(4096),
{
    let a = pow2(c) as int;
    let b = pow(x, 256);
    lemma_pow2_pos(c);
    lemma_pow_positive(x, 256);
    lemma_pow2_adds(c, c);
    lemma_pow_adds(x, 256, 256);
    lemma_pow2_adds(2048, 2048);
    let u = a * b;
    assert(u > 0) by (nonlinear_arith)
        requires
            u == a * b,
            a > 0,
            b > 0,
    ;
    assert(2 * (a * a) * (b * b) == 2 * (u * u)) by (nonlinear_arith)
        requires
            u == a * b,
    ;
    if 2 * (u * u) == pow2(2048) * pow2(2048) {
        lemma_no_root(u, pow2(2048) as int);
    }
}

/// The likelier an event, the less it costs; and an event has one cost only.
pub proof fn law_cost_is_monotone(a: int, b: int, c: nat, d: nat)
    requires
        1 <= a <= b,
        bool_encoder::nearest_cost(a, c as int),
        bool_encoder::nearest_cost(b, d as int),
    ensures
        c >= d,
        a == b ==> c == d,
{
    lemma_cost_order(a, b, c, d);
    if a == b {
        lemma_cost_order(b, a, d, c);
    }
}

/// A likelier event does not cost more.
proof fn lemma_cost_order(a: int, b: int, c: nat, d: nat)
    requires
        1 <= a <= b,
        bool_encoder::nearest_cost(a, c as int),
        bool_encoder::nearest_cost(b, d as int),
    ensures
        c >= d,
{
    if c < d {
        let m = pow2(2 * c) as int;
        let n = pow2(2 * d) as int;
        let p = pow(a, 512);
        let q = pow(b, 512);
        lemma_power_monotone(a, b, 512);
        lemma_pow_positive(a, 512);
        lemma_pow2_pos(2 * c);
        assert(n >= 4 * m) by {
            lemma_pow2_unfold(2 * c + 1);
            lemma_pow2_unfold(2 * c + 2);
            if 2 * c + 2 < 2 * d {
                lemma_pow2_strictly_increases(2 * c + 2, 2 * d);
            }
        }
        assert(n * q >= 4 * (m * p)) by (nonlinear_arith)
            requires
                n >= 4 * m,
                q >= p,
                m >= 1,
                p >= 1,
        ;
        assert(2 * m * p == 2 * (m * p)) by (nonlinear_arith);
        lemma_no_tie(a, c);
    }
}

} // verus!
