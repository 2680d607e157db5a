//! What holds of the numbers everything is figured in.

use vstd::arithmetic::div_mod::{
    lemma_fundamental_div_mod, lemma_fundamental_div_mod_converse, lemma_mod_bound,
};
use vstd::arithmetic::power::{lemma_pow_adds, lemma_pow_positive, pow};
use vstd::arithmetic::power2::{lemma_pow2_adds, lemma_pow2_pos, pow2};
use vstd::prelude::*;
use vstd::string::*;

use crate::cell_laws::{lemma_decimals, lemma_near};
use crate::double::{
    as_i64, as_u64, binade, cut, double_of, fixed_text, is_whole, lemma_binade, lemma_binade_high,
    lemma_double_of_zero, lemma_even_quotient, lemma_exact, lemma_sizes, lemma_worth_zero,
    less_than, multiplied, one, product, quotient, reads_back, shortest, sum, whole, worth, zero,
    Double, DIGITS_END,
};
use crate::figure_laws::apart;
use crate::text::digits;
use crate::units::nearest;

verus! {

/// What a whole number is worth, with its sign.
proof fn lemma_signed_whole(n: int)
    requires
        -DIGITS_END < n < DIGITS_END,
    ensures
        whole(n) matches Double::Finite { negative, digits, power } && negative == (n < 0) && worth(
            digits as int,
            power as int,
        ) == if n < 0 {
            (-n) * one()
        } else {
            n * one()
        },
{
    lemma_sizes();
    lemma_pow2_pos(1074);
    lemma_pow2_adds(53, 1074);
    let u = one();
    let m = if n < 0 {
        -n
    } else {
        n
    };
    assert(0 <= m * u < DIGITS_END * u) by (nonlinear_arith)
        requires
            0 <= m < DIGITS_END,
            u > 0,
    ;
    vstd::arithmetic::div_mod::lemma_mod_multiples_basic(m, u);
    lemma_exact(n < 0, m * u, 1074);
}

/// Whole numbers of up to 53 binary digits are exact: each is itself, they are
/// ordered as they are, and a sum, a product or a quotient that is one comes out
/// as that number.
pub proof fn law_whole_numbers_are_exact(a: int, b: int, factor: int)
    requires
        -0x20_0000_0000_0000 < a < 0x20_0000_0000_0000,
        -0x20_0000_0000_0000 < b < 0x20_0000_0000_0000,
        0 < factor,
    ensures
        whole(a) matches Double::Finite { negative, digits, power } && negative == (a < 0) && (
        digits * pow2(power as nat) == if a < 0 {
            (-a) * pow2(1074)
        } else {
            a * pow2(1074)
        }),
        less_than(whole(a), whole(b)) <==> a < b,
        -0x20_0000_0000_0000 < a + b < 0x20_0000_0000_0000 ==> sum(whole(a), whole(b)) == whole(
            a + b,
        ),
        -0x20_0000_0000_0000 < a * factor < 0x20_0000_0000_0000 ==> product(whole(a), factor)
            == whole(a * factor),
        a >= 0 && 0 < b && a * b < 0x20_0000_0000_0000 ==> multiplied(whole(a), whole(b)) == whole(
            a * b,
        ) && quotient(whole(a * b), whole(b)) == whole(a),
{
    let u = one();
    lemma_pow2_pos(1074);
    lemma_signed_whole(a);
    lemma_signed_whole(b);
    assert(a * u < b * u <==> a < b) by (nonlinear_arith)
        requires
            u > 0,
    ;
    assert((-a) * u == -(a * u) && (-b) * u == -(b * u)) by (nonlinear_arith);
    assert(a * u + b * u == (a + b) * u) by (nonlinear_arith);
    assert((a + b) * u == 0 <==> a + b == 0) by (nonlinear_arith)
        requires
            u > 0,
    ;
    assert((a + b) * u < 0 <==> a + b < 0) by (nonlinear_arith)
        requires
            u > 0,
    ;
    assert((-(a + b)) * u == -((a + b) * u)) by (nonlinear_arith);
    assert((a * u) * factor == (a * factor) * u) by (nonlinear_arith);
    assert(((-a) * u) * factor == (-(a * factor)) * u) by (nonlinear_arith);
    assert(a * factor < 0 <==> a < 0) by (nonlinear_arith)
        requires
            factor > 0,
    ;
    if a >= 0 && 0 < b && a * b < DIGITS_END {
        assert(0 <= a * b) by (nonlinear_arith)
            requires
                a >= 0,
                b > 0,
        ;
        lemma_signed_whole(a * b);
        assert((a * u) * (b * u) == ((a * b) * u) * u) by (nonlinear_arith);
        assert(((a * b) * u) * u == (a * u) * (b * u)) by (nonlinear_arith);
        assert(0 <= a * u && 0 < b * u && 0 <= (a * b) * u) by (nonlinear_arith)
            requires
                a >= 0,
                b > 0,
                u > 0,
                a * b >= 0,
        ;
        lemma_even_quotient(false, (a * b) * u, u);
        lemma_even_quotient(false, a * u, b * u);
        if let Double::Finite { negative, digits, power } = whole(b) {
            lemma_worth_zero(digits as int, power as int);
        }
    }
}

/// Every operation on finite numbers gives the double nearest to the exact result.
pub proof fn law_every_operation_is_exact_but_for_rounding(a: Double, b: Double, factor: int)
    requires
        a is Finite,
        b is Finite,
    ensures
        (a, b) matches (
            Double::Finite { negative: s, digits: m, power: p },
            Double::Finite { negative: t, digits: n, power: q },
        ) && ({
            let (x, y) = (m * pow2(p as nat), n * pow2(q as nat));
            let exact = (if s {
                -x
            } else {
                x
            }) + (if t {
                -y
            } else {
                y
            });
            &&& exact > 0 ==> sum(a, b) == double_of(false, exact, 1)
            &&& exact < 0 ==> sum(a, b) == double_of(true, -exact, 1)
            &&& exact == 0 ==> sum(a, b) == zero(s && t)
            &&& product(a, factor) == double_of(s, x * factor, 1)
            &&& multiplied(a, b) == double_of(s != t, x * y, pow2(1074) as int)
            &&& n > 0 ==> quotient(a, b) == double_of(s != t, x * pow2(1074), y)
        }),
{
    lemma_double_of_zero(false, 1);
    lemma_double_of_zero(true, 1);
}

/// A number half way between two doubles goes to the one with even digits.
pub proof fn law_a_tie_goes_to_the_even_double(m: int, k: nat)
    requires
        0x10_0000_0000_0000 <= m < 0x1f_ffff_ffff_ffff,
        1 <= k <= 2045,
    ensures
        double_of(false, (2 * m + 1) * pow2((k - 1) as nat), 1) == (Double::Finite {
            negative: false,
            digits: (if m % 2 == 0 {
                m
            } else {
                m + 1
            }) as u64,
            power: k as u16,
        }),
{
    let h = pow2((k - 1) as nat) as int;
    let p = pow2(k) as int;
    let n = (2 * m + 1) * h;
    lemma_pow2_pos((k - 1) as nat);
    lemma_pow2_adds(1, (k - 1) as nat);
    lemma_sizes();
    assert(p == 2 * h);
    lemma_pow2_adds(53, k);
    lemma_pow2_adds(53, (k - 1) as nat);
    lemma_pow2_adds(52, 1);
    assert(n < pow2(53 + k) && n >= pow2((53 + k - 1) as nat)) by (nonlinear_arith)
        requires
            n == (2 * m + 1) * h,
            h > 0,
            0x10_0000_0000_0000 <= m < 0x1f_ffff_ffff_ffff,
            pow2(53 + k) == 0x20_0000_0000_0000 * (2 * h),
            pow2((53 + k - 1) as nat) == 0x20_0000_0000_0000 * h,
    ;
    lemma_binade(n, 1);
    lemma_binade_high(n, 1, (k - 1) as nat);
    let b = binade(n, 1);
    if b > k {
        if 52 + b > 53 + k {
            vstd::arithmetic::power2::lemma_pow2_strictly_increases(53 + k, (52 + b) as nat);
        }
        assert(false);
    }
    assert(n == m * p + h) by (nonlinear_arith)
        requires
            n == (2 * m + 1) * h,
            p == 2 * h,
    ;
    lemma_fundamental_div_mod_converse(n, p, m, h);
    assert(1 * p == p);
}

/// Sums and products do not depend on the order, and what is no number makes no
/// number.
pub proof fn law_sums_do_not_depend_on_the_order(a: Double, b: Double)
    ensures
        sum(a, b) == sum(b, a),
        multiplied(a, b) == multiplied(b, a),
        sum(Double::NotANumber, a) is NotANumber,
        multiplied(Double::NotANumber, a) is NotANumber,
        quotient(Double::NotANumber, a) is NotANumber,
        quotient(a, Double::NotANumber) is NotANumber,
        !less_than(a, Double::NotANumber),
        !less_than(Double::NotANumber, a),
{
    if let (
        Double::Finite { negative: s, digits: m, power: p },
        Double::Finite { negative: t, digits: n, power: q },
    ) = (a, b) {
        let (x, y) = (worth(m as int, p as int), worth(n as int, q as int));
        assert(x * y == y * x) by (nonlinear_arith);
    }
}

/// Numbers are in order: none is below itself, of two that differ in worth one is
/// below the other, and what is below a second is below whatever that is below.
pub proof fn law_numbers_are_in_order(a: Double, b: Double, c: Double)
    ensures
        !less_than(a, a),
        less_than(a, b) ==> !less_than(b, a),
        less_than(a, b) && less_than(b, c) ==> less_than(a, c),
        less_than(Double::Infinite { negative: true }, Double::Infinite { negative: false }),
        a is Finite ==> less_than(a, Double::Infinite { negative: false }) && less_than(
            Double::Infinite { negative: true },
            a,
        ),
{
}

/// As a whole number a double is cut off towards nothing, or rounded to the nearest,
/// a half away from it; what is out of range is held within, and what is no
/// number is nothing.
pub proof fn law_a_double_as_a_whole_number(x: Double)
    ensures
        x matches Double::Finite { negative, digits, power } ==> ({
            let units = digits * pow2(power as nat);
            let step = pow2(1074) as int;
            let held = units < 0x20_0000_0000_0000 * step;
            &&& negative ==> as_u64(x) == 0
            &&& !negative && held ==> as_u64(x) * step <= units < (as_u64(x) + 1) * step
            &&& !negative && held ==> -step < 2 * (units - as_i64(x) * step) < step || 2 * (as_i64(x)
                * step - units) == step
            &&& negative && held ==> -step < 2 * (-units - as_i64(x) * step) < step || 2 * (-units
                - as_i64(x) * step) == step
            &&& is_whole(x) <==> exists|n: int| units == #[trigger] (n * step)
        }),
        as_u64(Double::NotANumber) == 0,
        as_i64(Double::NotANumber) == 0,
        as_u64(Double::Infinite { negative: false }) == u64::MAX,
        as_u64(Double::Infinite { negative: true }) == 0,
        as_i64(Double::Infinite { negative: false }) == i64::MAX,
        as_i64(Double::Infinite { negative: true }) == i64::MIN,
{
    if let Double::Finite { negative, digits, power } = x {
        let w = digits * pow2(power as nat);
        let u = one();
        lemma_pow2_pos(1074);
        lemma_worth_zero(digits as int, power as int);
        lemma_fundamental_div_mod(w, u);
        lemma_mod_bound(w, u);
        let q = w / u;
        assert(u * q == q * u && (q + 1) * u == q * u + u) by (nonlinear_arith);
        let t = nearest(w, u);
        let r = (2 * w + u) % (2 * u);
        lemma_fundamental_div_mod(2 * w + u, 2 * u);
        lemma_mod_bound(2 * w + u, 2 * u);
        assert((2 * u) * t == 2 * (t * u)) by (nonlinear_arith);
        assert((-t) * u == -(t * u)) by (nonlinear_arith);
        if w < DIGITS_END * u {
            assert(0 <= q < DIGITS_END) by (nonlinear_arith)
                requires
                    q * u <= w < DIGITS_END * u,
                    w < q * u + u,
                    0 <= w,
                    u > 0,
            ;
            assert(0 <= t <= DIGITS_END) by (nonlinear_arith)
                requires
                    2 * w + u == 2 * (t * u) + r,
                    0 <= r < 2 * u,
                    0 <= w < DIGITS_END * u,
                    u > 0,
            ;
        }
        if w % u == 0 {
            assert(w == q * u);
        }
        if exists|n: int| w == #[trigger] (n * u) {
            let n = choose|n: int| w == #[trigger] (n * u);
            vstd::arithmetic::div_mod::lemma_mod_multiples_basic(n, u);
        }
    }
}

/// A double is written with one decimal or two as the nearest that has so many, a
/// half to the even one; below nothing with a sign in front.
pub proof fn law_decimals_are_the_nearest(x: Double, t: int, h: int)
    requires
        x matches Double::Finite { negative, digits, power } && ({
            let units = digits * pow2(power as nat);
            let step = pow2(1074) as int;
            &&& 2 * apart(t * step, 10 * units) < step || (2 * apart(t * step, 10 * units) == step
                && t % 2 == 0)
            &&& 2 * apart(h * step, 100 * units) < step || (2 * apart(h * step, 100 * units) == step
                && h % 2 == 0)
        }),
    ensures
        x matches Double::Finite { negative, digits: m, power } && ({
            let sign = if negative {
                seq!['-']
            } else {
                seq![]
            };
            &&& fixed_text(x, 10, 1) == sign + (digits(t / 10) + seq![
                '.',
                ('0' as int + t % 10) as char,
            ])
            &&& fixed_text(x, 100, 2) == sign + (digits(h / 100) + seq![
                '.',
                ('0' as int + h % 100 / 10) as char,
                ('0' as int + h % 10) as char,
            ])
        }),
        fixed_text(Double::NotANumber, 10, 1) == "NaN"@,
        fixed_text(Double::Infinite { negative: false }, 10, 1) == "inf"@,
        fixed_text(Double::Infinite { negative: true }, 10, 1) == "-inf"@,
{
    if let Double::Finite { negative, digits: m, power } = x {
        let w = m * pow2(power as nat);
        let u = one();
        lemma_pow2_pos(1074);
        lemma_worth_zero(m as int, power as int);
        lemma_near(10 * w, u, t);
        lemma_near(100 * w, u, h);
        assert(t >= 0) by (nonlinear_arith)
            requires
                2 * apart(t * u, 10 * w) <= u,
                w >= 0,
                u > 0,
        ;
        assert(h >= 0) by (nonlinear_arith)
            requires
                2 * apart(h * u, 100 * w) <= u,
                w >= 0,
                u > 0,
        ;
        lemma_decimals(t);
        lemma_decimals(h);
        let (one_place, two_places) = (
            digits(t / 10) + seq!['.', ('0' as int + t % 10) as char],
            digits(h / 100) + seq![
                '.',
                ('0' as int + h % 100 / 10) as char,
                ('0' as int + h % 10) as char,
            ],
        );
        assert(Seq::<char>::empty() + one_place =~= one_place);
        assert(Seq::<char>::empty() + two_places =~= two_places);
    }
}

/// The shortest spelling reads back as the double wherever a spelling next to it
/// does, and ends in as many zeros as one that does.
pub proof fn law_the_shortest_spelling_reads_back(a: Double, place: nat, k: nat)
    requires
        k <= place,
        double_of(false, cut(a, k) * one(), 1000) == a || double_of(
            false,
            (cut(a, k) + pow(10, k)) * one(),
            1000,
        ) == a,
    ensures
        double_of(false, shortest(a, place) * one(), 1000) == a,
        shortest(a, place) % pow(10, k) == 0,
    decreases place,
{
    lemma_pow_positive(10, place);
    lemma_pow_positive(10, k);
    let low = cut(a, place);
    let high = low + pow(10, place);
    if reads_back(a, low) || reads_back(a, high) {
        lemma_cut(a, place);
        lemma_pow_adds(10, (place - k) as nat, k);
        let (c, d) = (pow(10, (place - k) as nat), pow(10, k));
        let e = low / pow(10, place);
        assert(low == (e * c) * d && high == ((e + 1) * c) * d) by (nonlinear_arith)
            requires
                low == e * (c * d),
                high == low + c * d,
        ;
        vstd::arithmetic::div_mod::lemma_mod_multiples_basic(e * c, d);
        vstd::arithmetic::div_mod::lemma_mod_multiples_basic((e + 1) * c, d);
    } else {
        assert(k < place);
        law_the_shortest_spelling_reads_back(a, (place - 1) as nat, k);
    }
}

proof fn lemma_cut(a: Double, place: nat)
    ensures
        cut(a, place) == cut(a, place) / pow(10, place) * pow(10, place),
{
    lemma_pow_positive(10, place);
    let d = pow(10, place);
    if let Double::Finite { negative, digits, power } = a {
        let q = (worth(digits as int, power as int) * 1000 / one()) / d;
        vstd::arithmetic::div_mod::lemma_div_multiples_vanish(q, d);
        assert(d * q == q * d) by (nonlinear_arith);
    } else {
        assert(0int / d == 0) by (nonlinear_arith)
            requires
                d > 0,
        ;
    }
}

} // verus!
