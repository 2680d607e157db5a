//! Binary numbers of double precision, over whole numbers alone.
//!
//! A finite double is a whole number of units of 2^-1074, the smallest step there
//! is. Every operation gives the double nearest to the exact result, a tie going
//! to the even one.

use vstd::arithmetic::div_mod::{
    lemma_div_denominator, lemma_div_multiples_vanish, lemma_fundamental_div_mod,
    lemma_fundamental_div_mod_converse, lemma_mod_bound, lemma_truncate_middle,
};
use vstd::arithmetic::power::{lemma_pow0, lemma_pow1, lemma_pow_adds, lemma_pow_positive, pow};
use vstd::arithmetic::power2::{
    lemma2_to64, lemma_pow2_adds, lemma_pow2_pos, lemma_pow2_unfold, pow2,
};
use vstd::prelude::*;
use vstd::string::*;

use crate::big::Big;
use crate::text::{digit_char, digits, number_text};
use crate::units::{held_i64, nearest, nearest_even, padded_left, point_text};

verus! {

/// A number of double precision.
#[derive(Debug, Clone, Copy, PartialEq, Eq, Structural)]
pub enum Double {
    NotANumber,
    Infinite { negative: bool },
    /// `digits` times two to the `power`, in units of 2^-1074.
    Finite { negative: bool, digits: u64, power: u16 },
}

/// The units of 2^-1074 in one.
pub open spec fn one() -> int {
    pow2(1074) as int
}

/// Two to the 53rd: what the digits of a double stay below.
pub const DIGITS_END: u64 = 0x20_0000_0000_0000;

/// The highest power a finite double has.
pub const MAX_POWER: u16 = 2045;

/// What digits and a power are worth, in units.
pub open spec fn worth(digits: int, power: int) -> int {
    digits * pow2(power as nat)
}

/// How often `d` has to be doubled for `n / d` to fit the digits of a double.
pub open spec fn binade(n: int, d: int) -> nat
    decreases n - d,
{
    if d <= 0 || n < d * DIGITS_END {
        0
    } else {
        1 + binade(n, 2 * d)
    }
}

/// Digits and a power as a double, infinite where the power is too high.
pub open spec fn double_held(negative: bool, digits: int, power: int) -> Double {
    if power > MAX_POWER {
        Double::Infinite { negative }
    } else {
        Double::Finite { negative, digits: digits as u64, power: power as u16 }
    }
}

/// The double nearest to `n / d` units, a tie going to the even digits.
pub open spec fn double_of(negative: bool, n: int, d: int) -> Double {
    let power = binade(n, d) as int;
    let near = nearest_even(n, d * pow2(power as nat));
    if near == DIGITS_END {
        double_held(negative, near / 2, power + 1)
    } else {
        double_held(negative, near, power)
    }
}

/// Nothing, with a sign.
pub open spec fn zero(negative: bool) -> Double {
    Double::Finite { negative, digits: 0, power: 0 }
}

/// The double of a whole number.
pub open spec fn whole(n: int) -> Double {
    double_of(n < 0, if n < 0 {
        -n
    } else {
        n
    } * one(), 1)
}

/// What digits and a power are worth, with their sign.
pub open spec fn signed(negative: bool, digits: int, power: int) -> int {
    if negative {
        -worth(digits, power)
    } else {
        worth(digits, power)
    }
}

/// `n` without its sign.
pub open spec fn magnitude(n: int) -> int {
    if n < 0 {
        -n
    } else {
        n
    }
}

/// The sum of two doubles.
pub open spec fn sum(a: Double, b: Double) -> Double {
    match (a, b) {
        (
            Double::Finite { negative: s, digits: m, power: p },
            Double::Finite { negative: t, digits: n, power: q },
        ) => {
            let exact = signed(s, m as int, p as int) + signed(t, n as int, q as int);
            double_of(
                if exact == 0 {
                    s && t
                } else {
                    exact < 0
                },
                magnitude(exact),
                1,
            )
        },
        (Double::Infinite { negative: s }, Double::Infinite { negative: t }) => if s == t {
            a
        } else {
            Double::NotANumber
        },
        (Double::NotANumber, _) => Double::NotANumber,
        (_, Double::NotANumber) => Double::NotANumber,
        (Double::Infinite { negative }, _) => a,
        (_, Double::Infinite { negative }) => b,
    }
}

/// A double times a positive whole number.
pub open spec fn product(a: Double, factor: int) -> Double {
    match a {
        Double::Finite { negative, digits, power } => double_of(
            negative,
            worth(digits as int, power as int) * factor,
            1,
        ),
        _ => a,
    }
}

/// One double over another.
pub open spec fn quotient(a: Double, b: Double) -> Double {
    match (a, b) {
        (
            Double::Finite { negative: s, digits: m, power: p },
            Double::Finite { negative: t, digits: n, power: q },
        ) => if n > 0 {
            double_of(s != t, worth(m as int, p as int) * one(), worth(n as int, q as int))
        } else if m > 0 {
            Double::Infinite { negative: s != t }
        } else {
            Double::NotANumber
        },
        (
            Double::Infinite { negative: s },
            Double::Finite { negative: t, digits, power },
        ) => Double::Infinite { negative: s != t },
        (
            Double::Finite { negative: s, digits, power },
            Double::Infinite { negative: t },
        ) => zero(s != t),
        _ => Double::NotANumber,
    }
}

/// Whether `a` is below `b`; nothing is below or above what is no number.
pub open spec fn less_than(a: Double, b: Double) -> bool {
    match (a, b) {
        (
            Double::Finite { negative: s, digits: m, power: p },
            Double::Finite { negative: t, digits: n, power: q },
        ) => signed(s, m as int, p as int) < signed(t, n as int, q as int),
        (Double::NotANumber, _) => false,
        (_, Double::NotANumber) => false,
        (Double::Infinite { negative: s }, Double::Infinite { negative: t }) => s && !t,
        (Double::Infinite { negative }, _) => negative,
        (_, Double::Infinite { negative }) => !negative,
    }
}

/// `n` held within the range of a `u64`.
pub open spec fn held_u64(n: int) -> int {
    if n < 0 {
        0
    } else if n > u64::MAX {
        u64::MAX as int
    } else {
        n
    }
}

/// A double as a `u64`: towards zero, held within range, nothing for what is no
/// number.
pub open spec fn as_u64(a: Double) -> u64 {
    match a {
        Double::NotANumber => 0,
        Double::Infinite { negative } => if negative {
            0
        } else {
            u64::MAX
        },
        Double::Finite { negative, digits, power } => if negative {
            0
        } else {
            held_u64(worth(digits as int, power as int) / one()) as u64
        },
    }
}

/// A double as the nearest `i64`, a half away from zero, held within range,
/// nothing for what is no number.
pub open spec fn as_i64(a: Double) -> i64 {
    match a {
        Double::NotANumber => 0,
        Double::Infinite { negative } => if negative {
            i64::MIN
        } else {
            i64::MAX
        },
        Double::Finite { negative, digits, power } => {
            let n = nearest(worth(digits as int, power as int), one());
            held_i64(
                if negative {
                    -n
                } else {
                    n
                },
            ) as i64
        },
    }
}

/// A double to the nearest whole number, a half away from zero.
pub open spec fn rounded(a: Double) -> Double {
    match a {
        Double::Finite { negative, digits, power } => double_of(
            negative,
            nearest(worth(digits as int, power as int), one()) * one(),
            1,
        ),
        _ => a,
    }
}

/// Whether a double is a whole number.
pub open spec fn is_whole(a: Double) -> bool {
    match a {
        Double::Finite { negative, digits, power } => worth(digits as int, power as int) % one()
            == 0,
        _ => false,
    }
}

/// A double with so many decimals, `scale` being ten to their number: a half to
/// the even one.
pub open spec fn fixed_text(a: Double, scale: int, places: int) -> Seq<char> {
    match a {
        Double::NotANumber => "NaN"@,
        Double::Infinite { negative } => if negative {
            "-inf"@
        } else {
            "inf"@
        },
        Double::Finite { negative, digits, power } => {
            let text = point_text(
                nearest_even(worth(digits as int, power as int) * scale, one()),
                scale,
                places,
            );
            if negative {
                seq!['-'] + text
            } else {
                text
            }
        },
    }
}

/// The product of two doubles.
pub open spec fn multiplied(a: Double, b: Double) -> Double {
    match (a, b) {
        (
            Double::Finite { negative: s, digits: m, power: p },
            Double::Finite { negative: t, digits: n, power: q },
        ) => double_of(
            s != t,
            worth(m as int, p as int) * worth(n as int, q as int),
            one(),
        ),
        (Double::NotANumber, _) => Double::NotANumber,
        (_, Double::NotANumber) => Double::NotANumber,
        (
            Double::Infinite { negative: s },
            Double::Infinite { negative: t },
        ) => Double::Infinite { negative: s != t },
        (
            Double::Infinite { negative: s },
            Double::Finite { negative: t, digits, power },
        ) => if digits > 0 {
            Double::Infinite { negative: s != t }
        } else {
            Double::NotANumber
        },
        (
            Double::Finite { negative: s, digits, power },
            Double::Infinite { negative: t },
        ) => if digits > 0 {
            Double::Infinite { negative: s != t }
        } else {
            Double::NotANumber
        },
    }
}

// ---- rounding --------------------------------------------------------------------------

/// Doubling the divisor often enough is worth its power.
proof fn lemma_binade_step(n: int, d: int, k: nat)
    requires
        d > 0,
        binade(n, d) == k + binade(n, d * pow2(k)),
        n >= d * pow2(k) * DIGITS_END,
    ensures
        binade(n, d) == k + 1 + binade(n, d * pow2(k + 1)),
        d * pow2(k + 1) == 2 * (d * pow2(k)),
        d * pow2(k) > 0,
{
    lemma_pow2_unfold(k + 1);
    lemma_pow2_pos(k);
    let p = pow2(k) as int;
    assert(d * (2 * p) == 2 * (d * p)) by (nonlinear_arith);
    assert(d * p > 0) by (nonlinear_arith)
        requires
            d > 0,
            p > 0,
    ;
}

/// The powers of two that the digits of a double are held against.
pub(crate) proof fn lemma_sizes()
    ensures
        pow2(0) == 1,
        pow2(1) == 2,
        pow2(53) == DIGITS_END,
        pow2(64) == 0x1_0000_0000_0000_0000,
        pow2(100) == 0x10_0000_0000_0000_0000_0000_0000,
{
    lemma2_to64();
    lemma_pow2_adds(32, 21);
    lemma_pow2_adds(32, 4);
    lemma_pow2_adds(64, 36);
}

/// How far apart a number and its divisor are, told by the binade.
pub(crate) proof fn lemma_binade(n: int, d: int)
    requires
        d > 0,
        n >= 0,
    ensures
        n < d * pow2((53 + binade(n, d)) as nat),
        binade(n, d) > 0 ==> n >= d * pow2((52 + binade(n, d)) as nat),
    decreases n - d,
{
    lemma_sizes();
    if n >= d * DIGITS_END {
        lemma_binade(n, 2 * d);
        let k = binade(n, 2 * d);
        lemma_pow2_unfold((53 + k + 1) as nat);
        lemma_pow2_unfold((52 + k + 1) as nat);
        let p = pow2((53 + k) as nat) as int;
        let q = pow2((52 + k) as nat) as int;
        assert((2 * d) * p == d * (2 * p)) by (nonlinear_arith);
        assert((2 * d) * q == d * (2 * q)) by (nonlinear_arith);
    }
}

/// A number far above its divisor has a high binade.
pub(crate) proof fn lemma_binade_high(n: int, d: int, j: nat)
    requires
        d > 0,
        n >= d * pow2(53 + j),
    ensures
        binade(n, d) > j,
{
    lemma_pow2_pos(53 + j);
    let p = pow2(53 + j) as int;
    assert(n >= 0) by (nonlinear_arith)
        requires
            n >= d * p,
            d > 0,
            p > 0,
    ;
    lemma_binade(n, d);
    let k = binade(n, d);
    if k <= j {
        if k < j {
            vstd::arithmetic::power2::lemma_pow2_strictly_increases(53 + k, 53 + j);
        }
        let q = pow2(53 + k) as int;
        assert(d * q <= d * p) by (nonlinear_arith)
            requires
                d > 0,
                q <= p,
        ;
    }
}

/// Nothing is the double nothing.
pub(crate) proof fn lemma_double_of_zero(negative: bool, d: int)
    requires
        d > 0,
    ensures
        double_of(negative, 0, d) == zero(negative),
{
    lemma_sizes();
    assert(binade(0, d) == 0);
    assert(d * pow2(0) == d);
    vstd::arithmetic::div_mod::lemma_basic_div(0, d);
    vstd::arithmetic::div_mod::lemma_small_mod(0, d as nat);
}

/// What is less than half the smallest step is the double nothing.
pub(crate) proof fn lemma_double_of_tiny(negative: bool, n: int, d: int)
    requires
        0 <= 2 * n < d,
    ensures
        double_of(negative, n, d) == zero(negative),
{
    lemma_sizes();
    assert(n < d * DIGITS_END) by (nonlinear_arith)
        requires
            0 <= 2 * n < d,
    ;
    assert(d * pow2(0) == d);
    vstd::arithmetic::div_mod::lemma_basic_div(n, d);
    vstd::arithmetic::div_mod::lemma_small_mod(n as nat, d as nat);
}

/// What is past the largest double is infinite.
pub(crate) proof fn lemma_double_of_huge(negative: bool, n: int, d: int)
    requires
        d > 0,
        n >= d * pow2(2098),
    ensures
        double_of(negative, n, d) == (Double::Infinite { negative }),
{
    lemma_binade_high(n, d, 2045);
}

/// A whole number of units whose digits fit is a double as it is.
pub(crate) proof fn lemma_exact(negative: bool, n: int, grain: nat)
    requires
        0 <= n < pow2(53 + grain),
        n % (pow2(grain) as int) == 0,
        grain <= MAX_POWER,
    ensures
        double_of(negative, n, 1) matches Double::Finite { negative: s, digits, power } && s
            == negative && worth(digits as int, power as int) == n && power <= grain && digits
            < DIGITS_END,
{
    lemma_sizes();
    lemma_binade(n, 1);
    let k = binade(n, 1);
    if k > grain {
        if 52 + k > 53 + grain {
            vstd::arithmetic::power2::lemma_pow2_strictly_increases(53 + grain, 52 + k);
        }
    }
    let g = pow2(grain) as int;
    let p = pow2(k) as int;
    let c = pow2((grain - k) as nat) as int;
    lemma_pow2_pos(k);
    lemma_pow2_adds(k, (grain - k) as nat);
    lemma_pow2_pos(grain);
    lemma_fundamental_div_mod(n, g);
    let m = (n / g) * c;
    assert(n == m * p) by (nonlinear_arith)
        requires
            n == g * (n / g) + 0,
            g == p * c,
            m == (n / g) * c,
    ;
    lemma_fundamental_div_mod_converse(n, p, m, 0);
    lemma_pow2_adds(k, 53);
    assert(0 <= m < DIGITS_END) by (nonlinear_arith)
        requires
            0 <= m * p < p * DIGITS_END,
            p > 0,
    ;
    assert(1 * p == p);
}

/// The double of a whole number is that number where it fits, and no less than
/// half of it where it does not.
pub(crate) proof fn lemma_whole(n: int)
    requires
        0 <= n,
    ensures
        n < DIGITS_END ==> (whole(n) matches Double::Finite { negative, digits, power }
            && !negative && worth(digits as int, power as int) == n * one()),
        n >= DIGITS_END ==> match whole(n) {
            Double::Finite { negative, digits, power } => !negative && 2 * worth(
                digits as int,
                power as int,
            ) >= n * one(),
            Double::Infinite { negative } => !negative,
            Double::NotANumber => false,
        },
{
    let u = n * one();
    lemma_pow2_pos(1074);
    lemma_sizes();
    assert(u >= 0) by (nonlinear_arith)
        requires
            u == n * one(),
            n >= 0,
            one() > 0,
    ;
    if n < DIGITS_END {
        lemma_pow2_adds(53, 1074);
        assert(u < DIGITS_END * one()) by (nonlinear_arith)
            requires
                u == n * one(),
                n < DIGITS_END,
                one() > 0,
        ;
        lemma_fundamental_div_mod_converse(u, one(), n, 0);
        lemma_exact(false, u, 1074);
    } else {
        lemma_binade(u, 1);
        let k = binade(u, 1);
        let p = pow2(k) as int;
        lemma_pow2_pos(k);
        lemma_pow2_adds(53, k);
        let near = nearest_even(u, 1 * p);
        lemma_fundamental_div_mod(u, p);
        assert(near >= u / p);
        assert(u % p < p);
        vstd::arithmetic::div_mod::lemma_div_pos_is_pos(u, p);
        if u / p == 0 {
            assert(u < p) by (nonlinear_arith)
                requires
                    u == p * (u / p) + u % p,
                    u / p == 0,
                    u % p < p,
            ;
            if k > 0 {
                vstd::arithmetic::power2::lemma_pow2_strictly_increases(k, 52 + k);
            } else {
                assert(u >= 1) by (nonlinear_arith)
                    requires
                        u == n * one(),
                        n >= 1,
                        one() >= 1,
                ;
            }
        }
        assert(2 * (near * p) >= u) by (nonlinear_arith)
            requires
                near >= u / p,
                u / p >= 1,
                u == p * (u / p) + u % p,
                u % p < p,
                p > 0,
        ;
        assert(near <= DIGITS_END) by {
            assert(u / p < DIGITS_END) by (nonlinear_arith)
                requires
                    u < DIGITS_END * p,
                    u == p * (u / p) + u % p,
                    u % p >= 0,
                    p > 0,
            ;
        }
        if near == DIGITS_END {
            lemma_pow2_unfold((k + 1) as nat);
            assert((near / 2) * (2 * p) == near * p) by (nonlinear_arith)
                requires
                    near == 2 * (near / 2),
            ;
        }
    }
}

/// The double nearest to `n / d` units.
pub fn nearest_double(negative: bool, n: &Big, d: &Big) -> (r: Double)
    requires
        d@ > 0,
        n@ >= 0,
    ensures
        r == double_of(negative, n@, d@),
{
    let mut base = d.scaled(1, 0);
    let mut top = d.shifted(53);
    let mut power: u16 = 0;
    proof {
        lemma_sizes();
        assert(d@ * pow2(0) == d@);
    }
    while !n.less(&top)
        invariant
            d@ > 0,
            power <= 2046,
            base@ == d@ * pow2(power as nat),
            base@ > 0,
            top@ == base@ * DIGITS_END,
            binade(n@, d@) == power + binade(n@, base@),
        decreases 2046 - power,
    {
        if power == 2046 {
            return Double::Infinite { negative };
        }
        proof {
            lemma_binade_step(n@, d@, power as nat);
            assert(2 * (base@ * DIGITS_END) == (2 * base@) * DIGITS_END) by (nonlinear_arith);
        }
        base = base.doubled();
        top = top.doubled();
        power += 1;
    }
    let (q, half_up) = divide(n, &base);
    let near: u64 = if half_up {
        q + 1
    } else {
        q
    };
    if near == DIGITS_END {
        if power + 1 > MAX_POWER {
            Double::Infinite { negative }
        } else {
            Double::Finite { negative, digits: near / 2, power: power + 1 }
        }
    } else if power > MAX_POWER {
        Double::Infinite { negative }
    } else {
        Double::Finite { negative, digits: near, power }
    }
}

/// A quotient that fits the digits of a double, and whether it is nearer to the
/// next one.
fn divide(n: &Big, base: &Big) -> (r: (u64, bool))
    requires
        base@ > 0,
        0 <= n@ < base@ * DIGITS_END,
    ensures
        r.0 < DIGITS_END,
        nearest_even(n@, base@) == r.0 + if r.1 {
            1int
        } else {
            0
        },
{
    let mut multiples: Vec<Big> = Vec::new();
    multiples.push(base.scaled(1, 0));
    proof {
        lemma_sizes();
        assert(base@ * pow2(0) == base@);
    }
    let mut i: usize = 1;
    while i < 53
        invariant
            1 <= i <= 53,
            multiples@.len() == i,
            forall|j: int| 0 <= j < i ==> (#[trigger] multiples@[j])@ == base@ * pow2(j as nat),
        decreases 53 - i,
    {
        let next = multiples[i - 1].doubled();
        proof {
            lemma_pow2_unfold(i as nat);
            let p = pow2((i - 1) as nat) as int;
            assert(2 * (base@ * p) == base@ * (2 * p)) by (nonlinear_arith);
            assert(multiples@[i - 1]@ == base@ * p);
        }
        multiples.push(next);
        i += 1;
    }
    let mut rest = n.scaled(1, 0);
    let mut q: u64 = 0;
    let mut weight: u64 = DIGITS_END;
    while i > 0
        invariant
            i <= 53,
            base@ > 0,
            multiples@.len() == 53,
            forall|j: int| 0 <= j < 53 ==> (#[trigger] multiples@[j])@ == base@ * pow2(j as nat),
            weight == pow2(i as nat),
            weight <= DIGITS_END,
            n@ == q * base@ + rest@,
            0 <= rest@ < base@ * weight,
            n@ < base@ * DIGITS_END,
            q < DIGITS_END,
        decreases i,
    {
        i -= 1;
        proof {
            lemma_pow2_unfold((i + 1) as nat);
            assert(multiples@[i as int]@ == base@ * pow2(i as nat));
        }
        let ghost half = pow2(i as nat) as int;
        weight = weight / 2;
        proof {
            assert(base@ * (2 * half) == base@ * half + base@ * half) by (nonlinear_arith);
        }
        if !rest.less(&multiples[i]) {
            rest = rest.minus(&multiples[i]);
            proof {
                assert((q + half) * base@ == q * base@ + base@ * half) by (nonlinear_arith);
                assert(q + half < DIGITS_END) by (nonlinear_arith)
                    requires
                        (q + half) * base@ <= n@,
                        n@ < base@ * DIGITS_END,
                        base@ > 0,
                ;
            }
            q = q + weight;
        }
    }
    proof {
        assert(base@ * 1 == base@);
        lemma_fundamental_div_mod_converse(n@, base@, q as int, rest@);
    }
    let twice = rest.doubled();
    let up = base.less(&twice) || (!twice.less(base) && q % 2 == 1);
    (q, up)
}

/// A common factor changes no double.
pub(crate) proof fn lemma_double_cancel(negative: bool, n: int, d: int, f: int)
    requires
        n >= 0,
        d > 0,
        f > 0,
    ensures
        double_of(negative, n * f, d * f) == double_of(negative, n, d),
{
    lemma_binade_cancel(n, d, f);
    let k = binade(n, d);
    let p = pow2(k) as int;
    lemma_pow2_pos(k);
    assert(d * p > 0 && (d * f) * p == (d * p) * f) by (nonlinear_arith)
        requires
            d > 0,
            p > 0,
    ;
    lemma_cancel(n, d * p, f);
    let r = n % (d * p);
    lemma_rest(r, d * p, f);
    lemma_mod_bound(n, d * p);
    assert((d * p) * f > 0) by (nonlinear_arith)
        requires
            d * p > 0,
            f > 0,
    ;
    assert(2 * (r * f) < (d * p) * f <==> 2 * r < d * p) by (nonlinear_arith)
        requires
            f > 0,
    ;
    assert(2 * (r * f) == (d * p) * f <==> 2 * r == d * p) by (nonlinear_arith)
        requires
            f > 0,
    ;
}

proof fn lemma_binade_cancel(n: int, d: int, f: int)
    requires
        n >= 0,
        d > 0,
        f > 0,
    ensures
        binade(n * f, d * f) == binade(n, d),
    decreases n - d,
{
    assert(n * f < (d * f) * DIGITS_END <==> n < d * DIGITS_END) by (nonlinear_arith)
        requires
            f > 0,
    ;
    assert(d * f > 0) by (nonlinear_arith)
        requires
            d > 0,
            f > 0,
    ;
    if n >= d * DIGITS_END {
        lemma_binade_cancel(n, 2 * d, f);
        assert((2 * d) * f == 2 * (d * f)) by (nonlinear_arith);
    }
}

/// A quotient that comes out even is the double of it.
pub(crate) proof fn lemma_even_quotient(negative: bool, c: int, d: int)
    requires
        c >= 0,
        d > 0,
    ensures
        double_of(negative, c * d, d) == double_of(negative, c, 1),
{
    lemma_double_cancel(negative, c, 1, d);
    assert(1 * d == d);
}

/// Whole numbers that fit divide as whole numbers do.
pub(crate) proof fn lemma_whole_quotient(n: int, d: int)
    requires
        0 <= n < DIGITS_END,
        0 < d < DIGITS_END,
    ensures
        quotient(whole(n), whole(d)) == double_of(false, n * one(), d),
{
    lemma_whole(n);
    lemma_whole(d);
    lemma_pow2_pos(1074);
    let u = one();
    if let Double::Finite { negative, digits, power } = whole(d) {
        lemma_worth_zero(digits as int, power as int);
        assert(d * u > 0) by (nonlinear_arith)
            requires
                d > 0,
                u > 0,
        ;
    }
    assert(n * u >= 0) by (nonlinear_arith)
        requires
            n >= 0,
            u > 0,
    ;
    lemma_double_cancel(false, n * u, d, u);
}

/// A whole number that fits comes back out.
pub(crate) proof fn lemma_whole_back(n: int)
    requires
        0 <= n < DIGITS_END,
    ensures
        as_i64(whole(n)) == n,
        as_u64(whole(n)) == n,
{
    lemma_whole(n);
    lemma_pow2_pos(1074);
    let u = one();
    lemma_fundamental_div_mod_converse(n * u, u, n, 0);
    assert(n * u >= 0) by (nonlinear_arith)
        requires
            n >= 0,
            u > 0,
    ;
    lemma_nearest_parts(n * u, u);
}

/// Whether two doubles are numbers not below nothing, the first not above the
/// second.
pub open spec fn no_more(a: Double, b: Double) -> bool {
    match (a, b) {
        (
            Double::Finite { negative: false, digits: m, power: p },
            Double::Finite { negative: false, digits: n, power: q },
        ) => worth(m as int, p as int) <= worth(n as int, q as int),
        _ => false,
    }
}

proof fn lemma_nearest_even_grows(a: int, b: int, d: int)
    requires
        0 <= a <= b,
        d > 0,
    ensures
        0 <= nearest_even(a, d) <= nearest_even(b, d),
{
    vstd::arithmetic::div_mod::lemma_div_is_ordered(a, b, d);
    vstd::arithmetic::div_mod::lemma_div_pos_is_pos(a, d);
    lemma_fundamental_div_mod(a, d);
    lemma_fundamental_div_mod(b, d);
    lemma_mod_bound(a, d);
    lemma_mod_bound(b, d);
}

/// What the nearest double is worth, before the digits carry over.
pub(crate) proof fn lemma_double_worth(n: int, d: int)
    requires
        0 <= n,
        0 < d,
        double_of(false, n, d) is Finite,
    ensures
        double_of(false, n, d) matches Double::Finite { negative, digits, power } && !negative
            && worth(digits as int, power as int) == nearest_even(n, d * pow2(binade(n, d)))
            * pow2(binade(n, d)),
        0 <= nearest_even(n, d * pow2(binade(n, d))) <= DIGITS_END,
        binade(n, d) > 0 ==> nearest_even(n, d * pow2(binade(n, d))) >= DIGITS_END / 2,
{
    let k = binade(n, d);
    let p = pow2(k) as int;
    lemma_binade(n, d);
    lemma_sizes();
    lemma_pow2_pos(k);
    lemma_pow2_adds(53, k);
    lemma_pow2_unfold(53);
    lemma_pow2_adds(52, k);
    let e = d * p;
    assert(e > 0) by (nonlinear_arith)
        requires
            e == d * p,
            d > 0,
            p > 0,
    ;
    lemma_fundamental_div_mod(n, e);
    lemma_mod_bound(n, e);
    vstd::arithmetic::div_mod::lemma_div_pos_is_pos(n, e);
    let q = n / e;
    assert(d * (DIGITS_END * p) == DIGITS_END * e) by (nonlinear_arith)
        requires
            e == d * p,
    ;
    assert(q < DIGITS_END) by (nonlinear_arith)
        requires
            n < DIGITS_END * e,
            n == e * q + n % e,
            n % e >= 0,
            e > 0,
    ;
    if k > 0 {
        let h = pow2(52) as int;
        assert(d * (h * p) == h * e) by (nonlinear_arith)
            requires
                e == d * p,
        ;
        assert(q >= h) by (nonlinear_arith)
            requires
                n >= h * e,
                n == e * q + n % e,
                n % e < e,
                e > 0,
        ;
    }
    let near = nearest_even(n, e);
    if near == DIGITS_END {
        lemma_pow2_unfold(k + 1);
        assert((near / 2) * (2 * p) == near * p) by (nonlinear_arith)
            requires
                near == 2 * (near / 2),
        ;
    }
}

/// Rounding keeps the order.
pub(crate) proof fn lemma_monotone(a: int, b: int, d: int)
    requires
        0 <= a <= b,
        0 < d,
        double_of(false, b, d) is Finite,
    ensures
        no_more(double_of(false, a, d), double_of(false, b, d)),
{
    let (j, k) = (binade(a, d), binade(b, d));
    lemma_binade(a, d);
    lemma_binade(b, d);
    lemma_sizes();
    lemma_double_worth(b, d);
    if j > k {
        let (x, y) = (pow2((52 + j) as nat) as int, pow2((53 + k) as nat) as int);
        if 52 + j > 53 + k {
            vstd::arithmetic::power2::lemma_pow2_strictly_increases(
                (53 + k) as nat,
                (52 + j) as nat,
            );
        }
        assert(d * x >= d * y) by (nonlinear_arith)
            requires
                d > 0,
                x >= y,
        ;
        assert(false);
    }
    let (p, q) = (pow2(j) as int, pow2(k) as int);
    lemma_pow2_pos(j);
    lemma_pow2_pos(k);
    assert(d * p > 0 && d * q > 0) by (nonlinear_arith)
        requires
            d > 0,
            p > 0,
            q > 0,
    ;
    let m = nearest_even(a, d * p);
    let n = nearest_even(b, d * q);
    if j == k {
        lemma_nearest_even_grows(a, b, d * p);
        lemma_double_worth_of_smaller(a, b, d);
        assert(m * p <= n * p) by (nonlinear_arith)
            requires
                m <= n,
                p > 0,
        ;
    } else {
        lemma_double_worth_of_smaller(a, b, d);
        lemma_pow2_unfold(j + 1);
        if j + 1 < k {
            vstd::arithmetic::power2::lemma_pow2_strictly_increases(j + 1, k);
        }
        assert(m * p <= n * q) by (nonlinear_arith)
            requires
                0 <= m <= 0x20_0000_0000_0000,
                n >= 0x10_0000_0000_0000,
                2 * p <= q,
                p > 0,
        ;
    }
}

/// What is no larger than a finite double is finite.
proof fn lemma_double_worth_of_smaller(a: int, b: int, d: int)
    requires
        0 <= a <= b,
        0 < d,
        binade(a, d) <= binade(b, d),
        double_of(false, b, d) is Finite,
    ensures
        double_of(false, a, d) is Finite,
        double_of(false, a, d) matches Double::Finite { negative, digits, power } && !negative
            && worth(digits as int, power as int) == nearest_even(a, d * pow2(binade(a, d)))
            * pow2(binade(a, d)),
        0 <= nearest_even(a, d * pow2(binade(a, d))) <= DIGITS_END,
{
    let (j, k) = (binade(a, d), binade(b, d));
    lemma_pow2_pos(k);
    let q = pow2(k) as int;
    assert(d * q > 0) by (nonlinear_arith)
        requires
            d > 0,
            q > 0,
    ;
    if j == k {
        lemma_nearest_even_grows(a, b, d * q);
        lemma_double_worth(b, d);
    }
    assert(double_of(false, a, d) is Finite);
    lemma_double_worth(a, d);
}

// ---- operations ------------------------------------------------------------------------------

/// What digits and a power are worth, in units.
fn big_worth(digits: u64, power: u16) -> (r: Big)
    ensures
        r@ == worth(digits as int, power as int),
        r@ >= 0,
{
    let r = Big::small(digits).shifted(power as u32);
    proof {
        r.lemma_natural();
    }
    r
}

fn big_one() -> (r: Big)
    ensures
        r@ == one(),
        r@ > 0,
{
    proof {
        lemma_pow2_pos(1074);
        assert(1 * pow2(1074) == pow2(1074));
    }
    Big::small(1).shifted(1074)
}

pub(crate) proof fn lemma_worth_zero(digits: int, power: int)
    requires
        digits >= 0,
    ensures
        worth(digits, power) >= 0,
        worth(digits, power) == 0 <==> digits == 0,
{
    let p = pow2(power as nat) as int;
    lemma_pow2_pos(power as nat);
    assert(digits * p >= 0 && (digits * p == 0 <==> digits == 0)) by (nonlinear_arith)
        requires
            digits >= 0,
            p > 0,
    ;
}

impl Double {
    /// The double nothing.
    pub fn nothing() -> (r: Double)
        ensures
            r == zero(false),
    {
        Double::Finite { negative: false, digits: 0, power: 0 }
    }

    /// The double nearest to a whole number.
    pub fn from_whole(n: u64) -> (r: Double)
        ensures
            r == whole(n as int),
    {
        Double::from_wide(n as u128)
    }

    /// The double nearest to a whole number of up to 128 bits.
    pub fn from_wide(n: u128) -> (r: Double)
        ensures
            r == whole(n as int),
    {
        let units = Big::wide(n).shifted(1074);
        proof {
            units.lemma_natural();
        }
        nearest_double(false, &units, &Big::small(1))
    }

    /// Two doubles together.
    pub fn plus(self, other: Double) -> (r: Double)
        ensures
            r == sum(self, other),
    {
        match (self, other) {
            (
                Double::Finite { negative: s, digits: m, power: p },
                Double::Finite { negative: t, digits: n, power: q },
            ) => {
                let a = big_worth(m, p);
                let b = big_worth(n, q);
                let unit = Big::small(1);
                if s == t {
                    proof {
                        lemma_worth_zero(m as int, p as int);
                        lemma_worth_zero(n as int, q as int);
                    }
                    nearest_double(s, &a.plus(&b), &unit)
                } else if a.less(&b) {
                    nearest_double(t, &b.minus(&a), &unit)
                } else if b.less(&a) {
                    nearest_double(s, &a.minus(&b), &unit)
                } else {
                    nearest_double(false, &Big::small(0), &unit)
                }
            },
            (Double::Infinite { negative: s }, Double::Infinite { negative: t }) => if s == t {
                self
            } else {
                Double::NotANumber
            },
            (Double::NotANumber, _) => Double::NotANumber,
            (_, Double::NotANumber) => Double::NotANumber,
            (Double::Infinite { negative }, _) => self,
            (_, Double::Infinite { negative }) => other,
        }
    }

    /// A double times a positive whole number.
    pub fn times(self, factor: u32) -> (r: Double)
        requires
            factor > 0,
        ensures
            r == product(self, factor as int),
    {
        match self {
            Double::Finite { negative, digits, power } => {
                let units = big_worth(digits, power).scaled(factor, 0);
                proof {
                    units.lemma_natural();
                }
                nearest_double(negative, &units, &Big::small(1))
            },
            _ => self,
        }
    }

    /// One double over another.
    pub fn over(self, other: Double) -> (r: Double)
        ensures
            r == quotient(self, other),
    {
        match (self, other) {
            (
                Double::Finite { negative: s, digits: m, power: p },
                Double::Finite { negative: t, digits: n, power: q },
            ) => {
                if n > 0 {
                    let a = big_worth(m, p).shifted(1074);
                    let b = big_worth(n, q);
                    proof {
                        a.lemma_natural();
                        lemma_worth_zero(n as int, q as int);
                    }
                    nearest_double(s != t, &a, &b)
                } else if m > 0 {
                    Double::Infinite { negative: s != t }
                } else {
                    Double::NotANumber
                }
            },
            (
                Double::Infinite { negative: s },
                Double::Finite { negative: t, digits, power },
            ) => Double::Infinite { negative: s != t },
            (
                Double::Finite { negative: s, digits, power },
                Double::Infinite { negative: t },
            ) => Double::Finite { negative: s != t, digits: 0, power: 0 },
            _ => Double::NotANumber,
        }
    }

    /// Whether this double is below the other.
    pub fn below(self, other: Double) -> (r: bool)
        ensures
            r == less_than(self, other),
    {
        match (self, other) {
            (
                Double::Finite { negative: s, digits: m, power: p },
                Double::Finite { negative: t, digits: n, power: q },
            ) => {
                proof {
                    lemma_worth_zero(m as int, p as int);
                    lemma_worth_zero(n as int, q as int);
                }
                let a = big_worth(m, p);
                let b = big_worth(n, q);
                if s && t {
                    b.less(&a)
                } else if s {
                    !(m == 0 && n == 0)
                } else if t {
                    false
                } else {
                    a.less(&b)
                }
            },
            (Double::NotANumber, _) => false,
            (_, Double::NotANumber) => false,
            (Double::Infinite { negative: s }, Double::Infinite { negative: t }) => s && !t,
            (Double::Infinite { negative }, _) => negative,
            (_, Double::Infinite { negative }) => !negative,
        }
    }

    /// Towards zero, as a `u64`.
    pub fn to_u64(self) -> (r: u64)
        ensures
            r == as_u64(self),
    {
        match self {
            Double::NotANumber => 0,
            Double::Infinite { negative } => if negative {
                0
            } else {
                u64::MAX
            },
            Double::Finite { negative, digits, power } => if negative {
                0
            } else {
                let (q, rest) = parts(digits, power, 1);
                proof {
                    q.lemma_natural();
                    assert(worth(digits as int, power as int) * 1 == worth(
                        digits as int,
                        power as int,
                    ));
                }
                q.held()
            },
        }
    }

    /// To the nearest, as an `i64`.
    pub fn to_i64(self) -> (r: i64)
        ensures
            r == as_i64(self),
    {
        match self {
            Double::NotANumber => 0,
            Double::Infinite { negative } => if negative {
                i64::MIN
            } else {
                i64::MAX
            },
            Double::Finite { negative, digits, power } => {
                let near = near_whole(digits, power, 1);
                proof {
                    near.lemma_natural();
                    assert(worth(digits as int, power as int) * 1 == worth(
                        digits as int,
                        power as int,
                    ));
                }
                let n: u64 = near.held();
                if negative {
                    if n > i64::MAX as u64 {
                        i64::MIN
                    } else {
                        -(n as i64)
                    }
                } else if n > i64::MAX as u64 {
                    i64::MAX
                } else {
                    n as i64
                }
            },
        }
    }

    /// To the nearest whole number.
    pub fn nearest_whole(self) -> (r: Double)
        ensures
            r == rounded(self),
    {
        match self {
            Double::Finite { negative, digits, power } => {
                let near = near_whole(digits, power, 1);
                let units = near.shifted(1074);
                proof {
                    units.lemma_natural();
                    assert(worth(digits as int, power as int) * 1 == worth(
                        digits as int,
                        power as int,
                    ));
                }
                nearest_double(negative, &units, &Big::small(1))
            },
            _ => self,
        }
    }

    /// Whether the double is a whole number.
    pub fn is_integral(self) -> (r: bool)
        ensures
            r == is_whole(self),
    {
        match self {
            Double::Finite { negative, digits, power } => {
                let (q, rest) = parts(digits, power, 1);
                proof {
                    assert(worth(digits as int, power as int) * 1 == worth(
                        digits as int,
                        power as int,
                    ));
                }
                rest == Rest::Nothing
            },
            _ => false,
        }
    }

    /// Two doubles multiplied.
    pub fn multiply(self, other: Double) -> (r: Double)
        ensures
            r == multiplied(self, other),
    {
        match (self, other) {
            (
                Double::Finite { negative: s, digits: m, power: p },
                Double::Finite { negative: t, digits: n, power: q },
            ) => {
                proof {
                    assert(0 <= m * n <= 0xffff_ffff_ffff_ffff * 0xffff_ffff_ffff_ffff)
                        by (nonlinear_arith)
                        requires
                            0 <= m <= 0xffff_ffff_ffff_ffff,
                            0 <= n <= 0xffff_ffff_ffff_ffff,
                    ;
                }
                let units = Big::wide(m as u128 * n as u128).shifted(p as u32 + q as u32);
                proof {
                    units.lemma_natural();
                    lemma_pow2_adds(p as nat, q as nat);
                    let (x, y) = (pow2(p as nat) as int, pow2(q as nat) as int);
                    assert((m * n) * (x * y) == (m * x) * (n * y)) by (nonlinear_arith);
                }
                nearest_double(s != t, &units, &big_one())
            },
            (Double::NotANumber, _) => Double::NotANumber,
            (_, Double::NotANumber) => Double::NotANumber,
            (
                Double::Infinite { negative: s },
                Double::Infinite { negative: t },
            ) => Double::Infinite { negative: s != t },
            (
                Double::Infinite { negative: s },
                Double::Finite { negative: t, digits, power },
            ) => if digits > 0 {
                Double::Infinite { negative: s != t }
            } else {
                Double::NotANumber
            },
            (
                Double::Finite { negative: s, digits, power },
                Double::Infinite { negative: t },
            ) => if digits > 0 {
                Double::Infinite { negative: s != t }
            } else {
                Double::NotANumber
            },
        }
    }

    /// The double with one decimal.
    pub fn text_1dp(self) -> (r: String)
        ensures
            r@ == fixed_text(self, 10, 1),
    {
        self.text_fixed(10, 1)
    }

    /// The double with two decimals.
    pub fn text_2dp(self) -> (r: String)
        ensures
            r@ == fixed_text(self, 100, 2),
    {
        self.text_fixed(100, 2)
    }

    fn text_fixed(self, scale: u32, places: usize) -> (r: String)
        requires
            0 < scale <= 100,
        ensures
            r@ == fixed_text(self, scale as int, places as int),
    {
        match self {
            Double::NotANumber => "NaN".to_owned(),
            Double::Infinite { negative } => if negative {
                "-inf".to_owned()
            } else {
                "inf".to_owned()
            },
            Double::Finite { negative, digits, power } => {
                let parts_of = near_even(digits, power, scale);
                let text = big_point_text(&parts_of, scale, places);
                if negative {
                    let mut r = String::new();
                    r.push('-');
                    r.append(text.as_str());
                    assert(r@ =~= seq!['-'] + text@);
                    r
                } else {
                    text
                }
            },
        }
    }

    /// Whether the double is a number, and no infinite one.
    pub fn is_finite(self) -> (r: bool)
        ensures
            r == (self is Finite),
    {
        match self {
            Double::Finite { negative, digits, power } => true,
            _ => false,
        }
    }
}

// ---- whole parts --------------------------------------------------------------------------

/// What is left over by a division, against a half.
#[derive(Clone, Copy, PartialEq, Eq, Structural)]
enum Rest {
    Nothing,
    BelowHalf,
    Half,
    AboveHalf,
}

spec fn rest_of(r: int, d: int) -> Rest {
    if r == 0 {
        Rest::Nothing
    } else if 2 * r < d {
        Rest::BelowHalf
    } else if 2 * r == d {
        Rest::Half
    } else {
        Rest::AboveHalf
    }
}

/// A common factor changes no quotient.
pub(crate) proof fn lemma_cancel(n: int, d: int, p: int)
    requires
        d > 0,
        p > 0,
        n >= 0,
    ensures
        (n * p) / (d * p) == n / d,
        (n * p) % (d * p) == (n % d) * p,
{
    assert(n * p == p * n && d * p == p * d && (n % d) * p == p * (n % d)) by (nonlinear_arith);
    lemma_truncate_middle(n, p, d);
    lemma_div_denominator(p * n, p, d);
    lemma_div_multiples_vanish(n, p);
}

/// The whole part of so many ones times `factor`, and what is left over.
fn parts(digits: u64, power: u16, factor: u32) -> (r: (Big, Rest))
    requires
        0 < factor <= 1000,
    ensures
        r.0@ == worth(digits as int, power as int) * factor / one(),
        r.1 == rest_of(worth(digits as int, power as int) * factor % one(), one()),
{
    assert(digits as int * factor as int <= 1000 * 0xffff_ffff_ffff_ffff) by (nonlinear_arith)
        requires
            0 <= digits <= 0xffff_ffff_ffff_ffff,
            0 < factor <= 1000,
    ;
    let n: u128 = digits as u128 * factor as u128;
    let ghost w = worth(digits as int, power as int) * factor;
    proof {
        lemma_pow2_pos(1074);
        lemma_pow2_pos(power as nat);
        let p = pow2(power as nat) as int;
        assert(w == n * p) by (nonlinear_arith)
            requires
                w == digits * p * factor,
                n == digits * factor,
        ;
    }
    if power >= 1074 {
        let q = Big::wide(n).shifted((power - 1074) as u32);
        proof {
            let s = (power - 1074) as nat;
            lemma_pow2_adds(1074, s);
            let a = one();
            let b = pow2(s) as int;
            assert(n * (a * b) == (n * b) * a + 0) by (nonlinear_arith);
            lemma_fundamental_div_mod_converse(w, a, n * b, 0);
        }
        return (q, Rest::Nothing);
    }
    let shift: u16 = 1074 - power;
    proof {
        lemma_pow2_adds(shift as nat, power as nat);
        lemma_pow2_pos(shift as nat);
        lemma_cancel(n as int, pow2(shift as nat) as int, pow2(power as nat) as int);
    }
    let ghost d = pow2(shift as nat) as int;
    let ghost p = pow2(power as nat) as int;
    if shift >= 100 {
        proof {
            lemma_sizes();
            if shift > 100 {
                vstd::arithmetic::power2::lemma_pow2_strictly_increases(100, shift as nat);
            }
            assert(2 * n < d);
            vstd::arithmetic::div_mod::lemma_basic_div(n as int, d);
            vstd::arithmetic::div_mod::lemma_small_mod(n as nat, d as nat);
            lemma_rest(n as int, d, p);
        }
        return (
            Big::small(0),
            if n == 0 {
                Rest::Nothing
            } else {
                Rest::BelowHalf
            },
        );
    }
    let mut divisor: u128 = 1;
    let mut i: u16 = 0;
    proof {
        lemma_sizes();
        vstd::arithmetic::power2::lemma_pow2_strictly_increases(shift as nat, 100);
    }
    while i < shift
        invariant
            i <= shift < 100,
            divisor == pow2(i as nat),
            divisor <= pow2(shift as nat),
            pow2(shift as nat) <= pow2(100),
            pow2(100) == 0x10_0000_0000_0000_0000_0000_0000,
        decreases shift - i,
    {
        proof {
            lemma_pow2_unfold((i + 1) as nat);
            if i + 1 < shift {
                vstd::arithmetic::power2::lemma_pow2_strictly_increases(
                    (i + 1) as nat,
                    shift as nat,
                );
            }
        }
        divisor = divisor * 2;
        i += 1;
    }
    let q: u128 = n / divisor;
    let r: u128 = n % divisor;
    proof {
        lemma_rest(r as int, d, p);
    }
    let rest = if r == 0 {
        Rest::Nothing
    } else if r < divisor - r {
        Rest::BelowHalf
    } else if r == divisor - r {
        Rest::Half
    } else {
        Rest::AboveHalf
    };
    (Big::wide(q), rest)
}

proof fn lemma_rest(r: int, d: int, p: int)
    requires
        0 <= r,
        0 < d,
        0 < p,
    ensures
        rest_of(r * p, d * p) == rest_of(r, d),
{
    assert(r * p == 0 <==> r == 0) by (nonlinear_arith)
        requires
            0 <= r,
            0 < p,
    ;
    assert(2 * (r * p) < d * p <==> 2 * r < d) by (nonlinear_arith)
        requires
            0 < p,
    ;
    assert(2 * (r * p) == d * p <==> 2 * r == d) by (nonlinear_arith)
        requires
            0 < p,
    ;
}

proof fn lemma_nearest_parts(n: int, d: int)
    requires
        n >= 0,
        d > 0,
    ensures
        nearest(n, d) == n / d + if 2 * (n % d) >= d {
            1int
        } else {
            0
        },
{
    let q = n / d;
    let r = n % d;
    lemma_fundamental_div_mod(n, d);
    if 2 * r >= d {
        assert(2 * n + d == (q + 1) * (2 * d) + (2 * r - d)) by (nonlinear_arith)
            requires
                n == d * q + r,
        ;
        lemma_fundamental_div_mod_converse(2 * n + d, 2 * d, q + 1, 2 * r - d);
    } else {
        assert(2 * n + d == q * (2 * d) + (2 * r + d)) by (nonlinear_arith)
            requires
                n == d * q + r,
        ;
        lemma_fundamental_div_mod_converse(2 * n + d, 2 * d, q, 2 * r + d);
    }
}

/// So many ones times `factor`, to the nearest whole number, a half up.
fn near_whole(digits: u64, power: u16, factor: u32) -> (r: Big)
    requires
        0 < factor <= 1000,
    ensures
        r@ == nearest(worth(digits as int, power as int) * factor, one()),
{
    let (q, rest) = parts(digits, power, factor);
    proof {
        lemma_pow2_pos(1074);
        lemma_worth_zero(digits as int, power as int);
        let w = worth(digits as int, power as int) * factor;
        assert(w >= 0) by (nonlinear_arith)
            requires
                w == worth(digits as int, power as int) * factor,
                worth(digits as int, power as int) >= 0,
                factor > 0,
        ;
        lemma_nearest_parts(w, one());
        q.lemma_natural();
    }
    if rest == Rest::Half || rest == Rest::AboveHalf {
        q.scaled(1, 1)
    } else {
        q
    }
}

/// So many ones times `factor`, to the nearest whole number, a half to the even
/// one.
fn near_even(digits: u64, power: u16, factor: u32) -> (r: Big)
    requires
        0 < factor <= 1000,
    ensures
        r@ == nearest_even(worth(digits as int, power as int) * factor, one()),
{
    let (q, rest) = parts(digits, power, factor);
    proof {
        lemma_pow2_pos(1074);
        lemma_mod_bound(
            worth(digits as int, power as int) * factor,
            one(),
        );
    }
    let (half, bit) = q.divided(2);
    if rest == Rest::AboveHalf || (rest == Rest::Half && bit == 1) {
        q.scaled(1, 1)
    } else {
        q
    }
}

/// A number in decimal.
pub fn big_text(n: &Big) -> (r: String)
    ensures
        r@ == digits(n@),
    decreases n@,
{
    proof {
        n.lemma_natural();
    }
    let (q, d) = n.divided(10);
    if q.is_zero() {
        let mut r = String::new();
        let c: u8 = 48 + d as u8;
        r.push(c as char);
        assert(r@ =~= seq![digit_char(n@)]);
        r
    } else {
        let mut r = big_text(&q);
        let c: u8 = 48 + d as u8;
        r.push(c as char);
        r
    }
}

/// A number of tenths, hundredths or so on with its point.
fn big_point_text(n: &Big, scale: u32, places: usize) -> (r: String)
    requires
        scale > 0,
    ensures
        r@ == point_text(n@, scale as int, places as int),
{
    let (q, rest) = n.divided(scale);
    let mut r = big_text(&q);
    r.push('.');
    let padded = padded_left(number_text(rest as u128).as_str(), places, '0');
    r.append(padded.as_str());
    assert(r@ =~= point_text(n@, scale as int, places as int));
    r
}

// ---- the shortest decimal -----------------------------------------------------------------

/// Whether so many thousandths read back as the double.
pub open spec fn reads_back(a: Double, thousandths: int) -> bool {
    double_of(false, thousandths * one(), 1000) == a
}

/// The thousandths in a double, cut off after the digit worth ten to the `place`
/// of them.
pub open spec fn cut(a: Double, place: nat) -> int {
    match a {
        Double::Finite { negative, digits, power } => (worth(digits as int, power as int) * 1000
            / one()) / pow(10, place) * pow(10, place),
        _ => 0,
    }
}

/// Whether a double lies nearer to so many thousandths than to so many more.
pub open spec fn nearer(a: Double, low: int, high: int) -> bool {
    match a {
        Double::Finite { negative, digits, power } => 2000 * worth(digits as int, power as int) < (
        low + high) * one(),
        _ => true,
    }
}

/// The thousandths that spell a double with the fewest digits, looking at the
/// place worth ten to the `place` of them and then at the lower ones: the two
/// neighbours there, the nearer one where both read back.
pub open spec fn shortest(a: Double, place: nat) -> int
    decreases place,
{
    let low = cut(a, place);
    let high = low + pow(10, place);
    if reads_back(a, low) && (nearer(a, low, high) || !reads_back(a, high)) {
        low
    } else if reads_back(a, high) {
        high
    } else if place == 0 {
        low
    } else {
        shortest(a, (place - 1) as nat)
    }
}

impl Double {
    /// The thousandths that spell this double with the fewest digits, from the
    /// place worth ten to the `place` of them down.
    pub fn shortest_thousandths(self, place: u32) -> (r: Big)
        ensures
            r@ == shortest(self, place as nat),
        decreases place,
    {
        let step = ten_to(place);
        let low = self.cut_off(place);
        let high = low.plus(&step);
        let low_back = self.is_spelt(&low);
        let high_back = self.is_spelt(&high);
        if low_back && (!high_back || self.is_nearer(&low, &high)) {
            low
        } else if high_back {
            high
        } else if place == 0 {
            low
        } else {
            self.shortest_thousandths(place - 1)
        }
    }

    fn is_spelt(self, thousandths: &Big) -> (r: bool)
        ensures
            r == reads_back(self, thousandths@),
    {
        let units = thousandths.shifted(1074);
        proof {
            units.lemma_natural();
        }
        nearest_double(false, &units, &Big::small(1000)) == self
    }

    fn is_nearer(self, low: &Big, high: &Big) -> (r: bool)
        ensures
            r == nearer(self, low@, high@),
    {
        match self {
            Double::Finite { negative, digits, power } => {
                let twice = big_worth(digits, power).scaled(2000, 0);
                twice.less(&low.plus(high).shifted(1074))
            },
            _ => true,
        }
    }

    fn cut_off(self, place: u32) -> (r: Big)
        ensures
            r@ == cut(self, place as nat),
    {
        match self {
            Double::Finite { negative, digits, power } => {
                let (t, rest) = parts(digits, power, 1000);
                let mut q = t.scaled(1, 0);
                let mut i: u32 = 0;
                proof {
                    lemma_pow0(10);
                    t.lemma_natural();
                }
                while i < place
                    invariant
                        i <= place,
                        t@ >= 0,
                        q@ == t@ / pow(10, i as nat),
                    decreases place - i,
                {
                    let (next, digit) = q.divided(10);
                    proof {
                        lemma_pow1(10);
                        lemma_pow_adds(10, i as nat, 1);
                        lemma_pow_positive(10, i as nat);
                        lemma_div_denominator(t@, pow(10, i as nat), 10);
                    }
                    q = next;
                    i += 1;
                }
                let mut back = q.scaled(1, 0);
                let mut j: u32 = 0;
                while j < place
                    invariant
                        j <= place,
                        back@ == q@ * pow(10, j as nat),
                    decreases place - j,
                {
                    proof {
                        lemma_pow1(10);
                        lemma_pow_adds(10, j as nat, 1);
                        let p = pow(10, j as nat);
                        assert((q@ * p) * 10 == q@ * (p * 10)) by (nonlinear_arith);
                    }
                    back = back.scaled(10, 0);
                    j += 1;
                }
                back
            },
            _ => Big::small(0),
        }
    }
}

fn ten_to(place: u32) -> (r: Big)
    ensures
        r@ == pow(10, place as nat),
{
    let mut r = Big::small(1);
    let mut i: u32 = 0;
    proof {
        lemma_pow0(10);
    }
    while i < place
        invariant
            i <= place,
            r@ == pow(10, i as nat),
        decreases place - i,
    {
        proof {
            lemma_pow1(10);
            lemma_pow_adds(10, i as nat, 1);
        }
        r = r.scaled(10, 0);
        i += 1;
    }
    r
}

} // verus!
