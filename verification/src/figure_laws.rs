//! What the figures are worth: how near each is to the exact one, and how it is
//! rounded for the payload.

use vstd::arithmetic::div_mod::{
    lemma_fundamental_div_mod, lemma_fundamental_div_mod_converse, lemma_mod_bound,
};
use vstd::arithmetic::power2::{lemma_pow2_adds, lemma_pow2_pos, pow2};
use vstd::prelude::*;

use crate::double::{
    as_i64, binade, double_of, is_whole, lemma_binade, lemma_double_cancel, lemma_double_worth,
    lemma_even_quotient, lemma_exact, lemma_sizes, lemma_whole, lemma_whole_back,
    lemma_whole_quotient, lemma_worth_zero, one, product, quotient, rounded, whole, worth, Double,
    DIGITS_END,
};
use crate::measure_laws::lemma_bytes;
use crate::render::{number_1dp, JsonNumber};
use crate::units::{megabytes, nearest, nearest_even, share};

verus! {

/// How far apart two numbers are.
pub open spec fn apart(a: int, b: int) -> int {
    if a < b {
        b - a
    } else {
        a - b
    }
}

/// A double is as near to the exact number as its 53 digits allow: off by half a
/// unit at most, or by one part in 2^53.
pub proof fn law_a_double_is_near(n: int, d: int)
    requires
        0 <= n,
        0 < d,
        double_of(false, n, d) is Finite,
    ensures
        double_of(false, n, d) matches Double::Finite { negative, digits, power } && !negative && ({
            let off = apart(digits * pow2(power as nat) * d, n);
            2 * off <= d || 0x20_0000_0000_0000 * off <= n
        }),
{
    lemma_double_worth(n, d);
    lemma_sizes();
    let k = binade(n, d);
    let p = pow2(k) as int;
    lemma_pow2_pos(k);
    let step = d * p;
    assert(step > 0) by (nonlinear_arith)
        requires
            d > 0,
            p > 0,
            step == d * p,
    ;
    lemma_fundamental_div_mod(n, step);
    lemma_mod_bound(n, step);
    let (q, r) = (n / step, n % step);
    let near = nearest_even(n, step);
    assert(step * (q + 1) == step * q + step) by (nonlinear_arith);
    assert(2 * apart(step * near, n) <= step);
    if let Double::Finite { negative, digits, power } = double_of(false, n, d) {
        let w = digits * pow2(power as nat);
        assert(w == near * p);
        assert((near * p) * d == (d * p) * near) by (nonlinear_arith);
        if k == 0 {
            assert(d * p == d) by (nonlinear_arith)
                requires
                    p == 1,
            ;
        } else {
            lemma_binade(n, d);
            lemma_pow2_adds(52, k);
            lemma_pow2_adds(52, 1);
            let c = pow2(52) as int;
            assert(c == 0x10_0000_0000_0000);
            assert(d * (c * p) == c * step) by (nonlinear_arith)
                requires
                    step == d * p,
            ;
            let off = apart(w * d, n);
            assert(w * d == step * near);
            assert(0x20_0000_0000_0000 * off <= n);
        }
    }
}

/// The tenths in a number of the payload.
pub open spec fn tenths_in(n: JsonNumber) -> int {
    match n {
        JsonNumber::Whole(units) => 10 * units,
        JsonNumber::Tenths(tenths) => tenths as int,
    }
}

/// So many tenths over ten are a whole number only where they are.
proof fn lemma_tenths(t: int)
    requires
        0 <= t < DIGITS_END,
    ensures
        quotient(whole(t), whole(10)) is Finite,
        is_whole(quotient(whole(t), whole(10))) <==> t % 10 == 0,
        t % 10 == 0 ==> as_i64(quotient(whole(t), whole(10))) == t / 10,
{
    let u = one();
    lemma_pow2_pos(1074);
    lemma_sizes();
    lemma_pow2_adds(53, 1021);
    lemma_pow2_pos(1021);
    lemma_whole_quotient(t, 10);
    let value = double_of(false, t * u, 10);
    lemma_whole(t);
    assert(0 <= t * u) by (nonlinear_arith)
        requires
            t >= 0,
            u > 0,
    ;
    if t % 10 == 0 {
        let c = t / 10;
        assert(t * u == (c * u) * 10) by (nonlinear_arith)
            requires
                t == 10 * c,
        ;
        assert(0 <= c * u) by (nonlinear_arith)
            requires
                c >= 0,
                u > 0,
        ;
        lemma_even_quotient(false, c * u, 10);
        lemma_whole(c);
        lemma_whole_back(c);
        vstd::arithmetic::div_mod::lemma_mod_multiples_basic(c, u);
    } else {
        assert(t * u < DIGITS_END * u) by (nonlinear_arith)
            requires
                t < DIGITS_END,
                u > 0,
        ;
        lemma_finite_below(t * u, 10);
        law_a_double_is_near(t * u, 10);
        if let Double::Finite { negative, digits, power } = value {
            let w = digits * pow2(power as nat);
            assert(w == worth(digits as int, power as int));
            if w % u == 0 {
                lemma_fundamental_div_mod(w, u);
                let c = w / u;
                let off = apart(10 * c, t);
                assert(off >= 1);
                assert(apart(w * 10, t * u) == off * u) by (nonlinear_arith)
                    requires
                        w == u * c,
                        u > 0,
                        off == apart(10 * c, t),
                ;
                assert(off * u >= u) by (nonlinear_arith)
                    requires
                        off >= 1,
                        u > 0,
                ;
                assert(u >= DIGITS_END) by (nonlinear_arith)
                    requires
                        u == DIGITS_END * pow2(1021),
                        pow2(1021) >= 1,
                ;
                assert(false);
            }
        }
    }
}

/// What is no more than a whole number of double precision is finite.
proof fn lemma_finite_below(n: int, d: int)
    requires
        0 <= n < DIGITS_END * one(),
        0 < d,
    ensures
        double_of(false, n, d) is Finite,
{
    lemma_pow2_pos(1074);
    lemma_sizes();
    let k = binade(n, d);
    lemma_binade(n, d);
    if k > 1075 {
        lemma_pow2_adds(53, 1074);
        if 52 + k > 1127 {
            vstd::arithmetic::power2::lemma_pow2_strictly_increases(1127, (52 + k) as nat);
        }
        let p = pow2((52 + k) as nat) as int;
        assert(n >= p) by (nonlinear_arith)
            requires
                n >= d * p,
                d >= 1,
                p >= 0,
        ;
        assert(false);
    }
}

/// A figure goes into the payload as the number of tenths nearest to it, and as a
/// whole number where those are whole. Past what ten times the figure loses as a
/// double, the rounding is exact.
pub proof fn law_a_figure_is_rounded_to_the_nearest_tenth(x: Double)
    requires
        x matches Double::Finite { negative, digits, power } && !negative && 100 * (digits * pow2(
            power as nat,
        )) < 0x20_0000_0000_0000 * pow2(1074),
    ensures
        x matches Double::Finite { negative, digits, power } && ({
            let units = digits * pow2(power as nat);
            let t = tenths_in(number_1dp(x));
            &&& 0x20_0000_0000_0000 * (2 * apart(t * pow2(1074), 10 * units))
                <= 0x20_0000_0000_0000 * pow2(1074) + 20 * units
            &&& number_1dp(x) is Whole <==> t % 10 == 0
            &&& 0 <= t
        }),
{
    let u = one();
    lemma_pow2_pos(1074);
    lemma_sizes();
    if let Double::Finite { negative, digits, power } = x {
        let units = digits * pow2(power as nat);
        lemma_worth_zero(digits as int, power as int);
        let n = units * 10;
        lemma_finite_below(n, 1);
        law_a_double_is_near(n, 1);
        if let Double::Finite { negative: s, digits: m, power: p } = double_of(false, n, 1) {
            let w = m * pow2(p as nat);
            assert(w * 1 == w);
            lemma_worth_zero(m as int, p as int);
            let t = nearest(w, u);
            let r = 2 * w + u;
            lemma_fundamental_div_mod(r, 2 * u);
            lemma_mod_bound(r, 2 * u);
            let rest = r % (2 * u);
            assert((2 * u) * t == 2 * (t * u)) by (nonlinear_arith);
            assert(2 * (t * u) == 2 * w + u - rest);
            assert(2 * apart(t * u, w) <= u);
            assert(0 <= t) by (nonlinear_arith)
                requires
                    2 * (t * u) == 2 * w + u - rest,
                    rest < 2 * u,
                    w >= 0,
                    u > 0,
            ;
            assert(w <= 2 * n);
            assert(t < DIGITS_END) by (nonlinear_arith)
                requires
                    2 * (t * u) <= 2 * w + u,
                    w <= 2 * n,
                    10 * n < DIGITS_END * u,
                    u > 0,
                    n >= 0,
                    DIGITS_END == 0x20_0000_0000_0000,
            ;
            lemma_whole(t);
            assert(rounded(product(x, 10)) == whole(t));
            lemma_tenths(t);
            lemma_whole_back(t);
            assert(tenths_in(number_1dp(x)) == t);
            assert(DIGITS_END * apart(w, n) <= n);
            assert(apart(t * u, 10 * units) <= apart(t * u, w) + apart(w, n));
        }
    }
}

/// A whole figure is itself in the payload.
pub proof fn law_a_whole_figure_is_kept(n: int)
    requires
        0 <= n,
        100 * n < 0x20_0000_0000_0000,
    ensures
        number_1dp(whole(n)) == JsonNumber::Whole(n as i64),
{
    let u = one();
    lemma_pow2_pos(1074);
    lemma_whole(n);
    if let Double::Finite { negative, digits, power } = whole(n) {
        let units = digits * pow2(power as nat);
        assert(units == n * u);
        assert(100 * (n * u) < DIGITS_END * u) by (nonlinear_arith)
            requires
                100 * n < DIGITS_END,
                u > 0,
        ;
        law_a_figure_is_rounded_to_the_nearest_tenth(whole(n));
        let t = tenths_in(number_1dp(whole(n)));
        let off = apart(t, 10 * n);
        assert(apart(t * u, 10 * units) == off * u) by (nonlinear_arith)
            requires
                units == n * u,
                u > 0,
                off == apart(t, 10 * n),
        ;
        assert(off == 0) by (nonlinear_arith)
            requires
                off >= 0,
                DIGITS_END * (2 * (off * u)) <= DIGITS_END * u + 20 * (n * u),
                100 * n < DIGITS_END,
                u > 0,
                DIGITS_END == 0x20_0000_0000_0000,
        ;
    }
}

/// RAM goes into the payload as the number of tenths of a megabyte nearest to its
/// bytes, a half upwards.
pub proof fn law_ram_is_rounded_to_the_nearest_tenth(bytes: int)
    requires
        0 <= bytes,
        100 * bytes < 0x20_0000_0000_0000,
    ensures
        tenths_in(number_1dp(megabytes(bytes))) == (20 * bytes + 1_048_576) / 2_097_152,
        number_1dp(megabytes(bytes)) is Whole <==> ((20 * bytes + 1_048_576) / 2_097_152) % 10 == 0,
{
    let u = one();
    lemma_pow2_pos(1074);
    lemma_sizes();
    lemma_bytes(bytes);
    let g = pow2(1054) as int;
    lemma_pow2_pos(1054);
    lemma_pow2_adds(20, 1054);
    vstd::arithmetic::power2::lemma2_to64();
    assert(u == 1_048_576 * g);
    let n = (10 * bytes) * g;
    assert((bytes * g) * 10 == n) by (nonlinear_arith)
        requires
            n == (10 * bytes) * g,
    ;
    lemma_pow2_adds(53, 1054);
    assert(0 <= n < DIGITS_END * g) by (nonlinear_arith)
        requires
            n == (10 * bytes) * g,
            0 <= 10 * bytes < DIGITS_END,
            g > 0,
    ;
    vstd::arithmetic::div_mod::lemma_mod_multiples_basic(10 * bytes, g);
    lemma_exact(false, n, 1054);
    let t = (20 * bytes + 1_048_576) / 2_097_152;
    assert(nearest(n, u) == t) by {
        let r = (20 * bytes + 1_048_576) % 2_097_152;
        assert(2 * n + u == t * (2 * u) + r * g) by (nonlinear_arith)
            requires
                n == (10 * bytes) * g,
                u == 1_048_576 * g,
                20 * bytes + 1_048_576 == 2_097_152 * t + r,
        ;
        assert(0 <= r * g < 2 * u) by (nonlinear_arith)
            requires
                0 <= r < 2_097_152,
                u == 1_048_576 * g,
                g > 0,
        ;
        lemma_fundamental_div_mod_converse(2 * n + u, 2 * u, t, r * g);
    }
    lemma_tenths(t);
    lemma_whole(t);
    lemma_whole_back(t);
    assert(rounded(product(megabytes(bytes), 10)) == whole(t));
}

/// A share of the machine's memory goes into the payload as the number of tenths
/// of a percent nearest to it: exactly so up to two terabytes, and past that up to
/// one part in 2^41 of a tenth.
pub proof fn law_a_share_is_rounded_to_the_nearest_tenth(part: int, total: int)
    requires
        0 <= part <= total,
        0 < total,
        100 * total < 0x20_0000_0000_0000,
    ensures
        ({
            let t = tenths_in(number_1dp(share(megabytes(part), megabytes(total))));
            &&& 0 <= t <= 1000
            &&& 0x200_0000_0000 * (2 * apart(t * total, 1000 * part)) <= total * 0x200_0000_0001
            &&& total < 0x200_0000_0000 ==> 2 * apart(t * total, 1000 * part) <= total
            &&& number_1dp(share(megabytes(part), megabytes(total))) is Whole <==> t % 10 == 0
        }),
{
    let u = one();
    lemma_pow2_pos(1074);
    lemma_sizes();
    lemma_pow2_adds(53, 1021);
    lemma_pow2_pos(1021);
    assert(u >= DIGITS_END) by (nonlinear_arith)
        requires
            u == DIGITS_END * pow2(1021),
            pow2(1021) >= 1,
    ;
    let (a, b) = (part, total);
    let x = share(megabytes(a), megabytes(b));
    lemma_share(a, b);
    let n = (100 * a) * u;
    assert(0 <= n <= (100 * b) * u && (100 * b) * u < DIGITS_END * u) by (nonlinear_arith)
        requires
            n == (100 * a) * u,
            0 <= a <= b,
            100 * b < DIGITS_END,
            u > 0,
    ;
    lemma_finite_below(n, b);
    law_a_double_is_near(n, b);
    if let Double::Finite { negative, digits, power } = x {
        let units = digits * pow2(power as nat);
        lemma_worth_zero(digits as int, power as int);
        let e = apart(units * b, n);
        assert(DIGITS_END * e <= 100 * b * u) by (nonlinear_arith)
            requires
                2 * e <= b || DIGITS_END * e <= n,
                n <= (100 * b) * u,
                u >= DIGITS_END,
                b > 0,
                DIGITS_END == 0x20_0000_0000_0000,
        ;
        assert(units <= 101 * u) by (nonlinear_arith)
            requires
                units * b <= n + e,
                n <= (100 * b) * u,
                DIGITS_END * e <= 100 * b * u,
                b > 0,
                u > 0,
                DIGITS_END == 0x20_0000_0000_0000,
        ;
        assert(100 * units < DIGITS_END * u);
        law_a_figure_is_rounded_to_the_nearest_tenth(x);
        let t = tenths_in(number_1dp(x));
        let f = apart(t * u, 10 * units);
        let off = apart(t * b, 1000 * a);
        lemma_off(t, a, b, u, units, e, f, off);
        let z = off * u;
        assert(DIGITS_END * (2 * z) <= (b * u) * (DIGITS_END + 4020)) by (nonlinear_arith)
            requires
                z <= f * b + 10 * e,
                DIGITS_END * (2 * f) <= DIGITS_END * u + 20 * units,
                units <= 101 * u,
                DIGITS_END * e <= 100 * b * u,
                b > 0,
                u > 0,
                DIGITS_END == 0x20_0000_0000_0000,
        ;
        assert(DIGITS_END * (2 * off) <= b * (DIGITS_END + 4020)) by (nonlinear_arith)
            requires
                DIGITS_END * (2 * (off * u)) <= (b * u) * (DIGITS_END + 4020),
                u > 0,
        ;
        assert(0x200_0000_0000 * (2 * off) <= b * 0x200_0000_0001);
        assert(t <= 1000) by (nonlinear_arith)
            requires
                off == apart(t * b, 1000 * a),
                0 <= a <= b,
                b > 0,
                0x200_0000_0000 * (2 * off) <= b * 0x200_0000_0001,
        ;
    }
}

proof fn lemma_off(t: int, a: int, b: int, u: int, units: int, e: int, f: int, off: int)
    requires
        b > 0,
        u > 0,
        e == apart(units * b, (100 * a) * u),
        f == apart(t * u, 10 * units),
        off == apart(t * b, 1000 * a),
    ensures
        off * u <= f * b + 10 * e,
{
    let x = (t * b) * u;
    let y = (1000 * a) * u;
    let z = (10 * units) * b;
    assert(off * u == apart(x, y)) by (nonlinear_arith)
        requires
            off == apart(t * b, 1000 * a),
            x == (t * b) * u,
            y == (1000 * a) * u,
            u > 0,
    ;
    assert(f * b == apart(x, z)) by (nonlinear_arith)
        requires
            f == apart(t * u, 10 * units),
            x == (t * b) * u,
            z == (10 * units) * b,
            b > 0,
    ;
    assert(10 * e == apart(z, y)) by (nonlinear_arith)
        requires
            e == apart(units * b, (100 * a) * u),
            y == (1000 * a) * u,
            z == (10 * units) * b,
    ;
}

/// The share of two sizes is that of their bytes.
pub(crate) proof fn lemma_share(a: int, b: int)
    requires
        0 <= a,
        100 * a < DIGITS_END,
        0 < b < DIGITS_END,
    ensures
        share(megabytes(a), megabytes(b)) == double_of(false, (100 * a) * one(), b),
{
    crate::disk::lemma_megabytes(a);
    lemma_bytes(b);
    lemma_sizes();
    let g = pow2(1054) as int;
    let u = one();
    lemma_pow2_pos(1054);
    lemma_pow2_pos(1074);
    lemma_pow2_adds(53, 1054);
    let n = (100 * a) * g;
    assert(0 <= n < DIGITS_END * g) by (nonlinear_arith)
        requires
            n == (100 * a) * g,
            0 <= 100 * a < DIGITS_END,
            g > 0,
    ;
    vstd::arithmetic::div_mod::lemma_mod_multiples_basic(100 * a, g);
    lemma_exact(false, n, 1054);
    assert(b * g > 0) by (nonlinear_arith)
        requires
            b > 0,
            g > 0,
    ;
    assert(n * u == ((100 * a) * u) * g) by (nonlinear_arith)
        requires
            n == (100 * a) * g,
    ;
    assert(0 <= (100 * a) * u) by (nonlinear_arith)
        requires
            a >= 0,
            u > 0,
    ;
    if let Double::Finite { negative, digits, power } = megabytes(b) {
        lemma_worth_zero(digits as int, power as int);
    }
    lemma_double_cancel(false, (100 * a) * u, b, g);
}

} // verus!
