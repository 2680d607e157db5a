//! What a cell shows of the figure it is given.

use vstd::arithmetic::power2::{lemma_pow2_adds, lemma_pow2_pos, pow2};
use vstd::prelude::*;
use vstd::string::*;

use crate::battery::{Battery, State};
use crate::config::RamDisplay;
use crate::disk::DiskView;
use crate::double::{
    as_i64, double_of, fixed_text, lemma_cancel, lemma_even_quotient, lemma_exact, lemma_monotone,
    lemma_sizes, lemma_whole, lemma_worth_zero, less_than, one, quotient, whole, worth, zero,
    Double, DIGITS_END,
};
use crate::figure_laws::{apart, law_a_double_is_near, lemma_share};
use crate::icons::{
    gauge_of, led_cell, level, naming, nerd_battery, ramp_step, under, IconSet, Metric,
};
use crate::measure_laws::lemma_bytes;
use crate::render::{
    battery_text, battery_texts, cell_list, cpu_code, cpu_text, drive_texts, painted, ram_text,
    row_text,
};
use crate::text::{digit_char, digits, join};
use crate::units::{
    megabytes, nearest, nearest_even, pad_left, padded_digits, percent, point_text, share,
    small_size, wide_size, Percent,
};

verus! {

// ---- bounds ---------------------------------------------------------------------------------------

proof fn lemma_below(x: Double, n: int)
    requires
        x matches Double::Finite { negative, digits, power } && !negative,
        0 <= n < DIGITS_END,
    ensures
        x matches Double::Finite { negative, digits, power } && (less_than(x, whole(n)) <==> digits
            * pow2(power as nat) < n * pow2(1074)),
{
    lemma_whole(n);
}

/// The gauge fills in four steps: from 34, from 67 and from 90 percent on.
pub proof fn law_the_gauge_fills_in_four_steps(x: Double)
    requires
        x matches Double::Finite { negative, digits, power } && !negative,
    ensures
        x matches Double::Finite { negative, digits, power } && ({
            let units = digits * pow2(power as nat);
            let step = pow2(1074) as int;
            let glyph = gauge_of(Percent { value: x });
            &&& glyph == '░' <==> units < 34 * step
            &&& glyph == '▒' <==> 34 * step <= units < 67 * step
            &&& glyph == '▓' <==> 67 * step <= units < 90 * step
            &&& glyph == '█' <==> 90 * step <= units
        }),
{
    lemma_below(x, 34);
    lemma_below(x, 67);
    lemma_below(x, 90);
    lemma_pow2_pos(1074);
}

/// The battery picture fills in five steps: from 15, 40, 65 and 90 percent on.
pub proof fn law_the_battery_fills_in_five_steps(x: Double)
    requires
        x matches Double::Finite { negative, digits, power } && !negative,
    ensures
        x matches Double::Finite { negative, digits, power } && ({
            let units = digits * pow2(power as nat);
            let step = pow2(1074) as int;
            let glyph = nerd_battery(Percent { value: x });
            &&& glyph == '\u{f244}' <==> units < 15 * step
            &&& glyph == '\u{f243}' <==> 15 * step <= units < 40 * step
            &&& glyph == '\u{f242}' <==> 40 * step <= units < 65 * step
            &&& glyph == '\u{f241}' <==> 65 * step <= units < 90 * step
            &&& glyph == '\u{f240}' <==> 90 * step <= units
        }),
{
    lemma_below(x, 15);
    lemma_below(x, 40);
    lemma_below(x, 65);
    lemma_below(x, 90);
    lemma_pow2_pos(1074);
}

/// A ramp gives the first glyph whose bound is above the reading, and its last
/// where none is.
pub proof fn law_a_ramp_gives_the_first_bound_above(
    ramp: Seq<(u64, char)>,
    reading: Percent,
    k: int,
)
    requires
        0 <= k < ramp.len(),
        forall|j: int| 0 <= j < k ==> !under(reading, (#[trigger] ramp[j]).0 as int),
        under(reading, ramp[k].0 as int) || k == ramp.len() - 1,
    ensures
        ramp_step(ramp, reading) == ramp[k].1,
    decreases k,
{
    if k > 0 {
        let rest = ramp.drop_first();
        assert(!under(reading, ramp[0].0 as int));
        assert forall|j: int| 0 <= j < k - 1 implies !under(
            reading,
            (#[trigger] rest[j]).0 as int,
        ) by {
            assert(!under(reading, ramp[j + 1].0 as int));
        }
        law_a_ramp_gives_the_first_bound_above(rest, reading, k - 1);
    }
}

/// A load is painted green below 40 percent, yellow below 80 and red from there;
/// without colour nothing is.
pub proof fn law_a_load_is_painted_by_its_level(x: Double, s: Seq<char>)
    requires
        x matches Double::Finite { negative, digits, power } && !negative,
    ensures
        x matches Double::Finite { negative, digits, power } && ({
            let units = digits * pow2(power as nat);
            let step = pow2(1074) as int;
            let code = cpu_code(Percent { value: x });
            &&& units < 40 * step ==> code == "32"@
            &&& 40 * step <= units < 80 * step ==> code == "33"@
            &&& 80 * step <= units ==> code == "31"@
        }),
        forall|code: Seq<char>| #[trigger] painted(false, code, s) == s,
        forall|code: Seq<char>| #[trigger]
            painted(true, code, s) == seq!['\x1b', '['] + code + seq!['m'] + s + seq![
                '\x1b',
                '[',
                '0',
                'm',
            ],
{
    lemma_below(x, 40);
    lemma_below(x, 80);
    lemma_pow2_pos(1074);
    reveal_strlit("\x1b[");
    reveal_strlit("m");
    reveal_strlit("\x1b[0m");
    assert("\x1b["@ =~= seq!['\x1b', '[']);
    assert("m"@ =~= seq!['m']);
    assert("\x1b[0m"@ =~= seq!['\x1b', '[', '0', 'm']);
}

// ---- figures ----------------------------------------------------------------------------------------

pub(crate) proof fn lemma_near(n: int, d: int, t: int)
    requires
        0 <= n,
        0 < d,
        2 * apart(t * d, n) < d || (2 * apart(t * d, n) == d && t % 2 == 0),
    ensures
        nearest_even(n, d) == t,
{
    let (q, r) = (n / d, n % d);
    vstd::arithmetic::div_mod::lemma_fundamental_div_mod(n, d);
    vstd::arithmetic::div_mod::lemma_mod_bound(n, d);
    assert(d * q == q * d) by (nonlinear_arith);
    assert(t == q || t == q + 1) by (nonlinear_arith)
        requires
            n == q * d + r,
            0 <= r < d,
            2 * apart(t * d, n) <= d,
            d > 0,
    ;
    assert((q + 1) * d == q * d + d) by (nonlinear_arith);
}

proof fn lemma_near_parts(n: int, d: int, g: int)
    requires
        0 <= n,
        0 < d,
        0 < g,
    ensures
        nearest(n * g, d * g) == (2 * n + d) / (2 * d),
        nearest_even(n * g, d * g) == nearest_even(n, d),
{
    assert(n * g >= 0) by (nonlinear_arith)
        requires
            n >= 0,
            g > 0,
    ;
    assert(2 * (n * g) + d * g == (2 * n + d) * g) by (nonlinear_arith);
    assert(2 * (d * g) == (2 * d) * g) by (nonlinear_arith);
    lemma_cancel(2 * n + d, 2 * d, g);
    lemma_cancel(n, d, g);
    let r = n % d;
    assert(2 * (r * g) < d * g <==> 2 * r < d) by (nonlinear_arith)
        requires
            g > 0,
    ;
    assert(2 * (r * g) == d * g <==> 2 * r == d) by (nonlinear_arith)
        requires
            g > 0,
    ;
}

/// What is shown of `n / d`, where a double holds exactly that.
proof fn lemma_shown(x: Double, n: int, d: int, g: nat)
    requires
        0 <= n,
        0 < d,
        d * pow2(g) == pow2(1074),
        x matches Double::Finite { negative, digits, power } && !negative && worth(
            digits as int,
            power as int,
        ) == n * pow2(g),
    ensures
        n < DIGITS_END ==> as_i64(x) == (2 * n + d) / (2 * d),
        fixed_text(x, 10, 1) == point_text(nearest_even(10 * n, d), 10, 1),
        fixed_text(x, 100, 2) == point_text(nearest_even(100 * n, d), 100, 2),
        forall|k: int| 0 <= k < DIGITS_END ==> (less_than(x, #[trigger] whole(k)) <==> n < k * d),
{
    let u = one();
    let p = pow2(g) as int;
    lemma_pow2_pos(g);
    lemma_near_parts(n, d, p);
    lemma_near_parts(10 * n, d, p);
    lemma_near_parts(100 * n, d, p);
    assert((n * p) * 10 == (10 * n) * p) by (nonlinear_arith);
    assert((n * p) * 100 == (100 * n) * p) by (nonlinear_arith);
    let q = (2 * n + d) / (2 * d);
    assert(0 <= q <= n + 1) by {
        vstd::arithmetic::div_mod::lemma_fundamental_div_mod(2 * n + d, 2 * d);
        vstd::arithmetic::div_mod::lemma_mod_bound(2 * n + d, 2 * d);
        let r = (2 * n + d) % (2 * d);
        assert(0 <= q <= n + 1) by (nonlinear_arith)
            requires
                2 * n + d == (2 * d) * q + r,
                0 <= r < 2 * d,
                n >= 0,
                d >= 1,
        ;
    }
    assert forall|k: int| 0 <= k < DIGITS_END implies (less_than(x, #[trigger] whole(k)) <==> n < k
        * d) by {
        lemma_whole(k);
        assert(k * (d * p) == (k * d) * p) by (nonlinear_arith);
        assert(n * p < (k * d) * p <==> n < k * d) by (nonlinear_arith)
            requires
                p > 0,
        ;
    }
}

/// The figure of so many bytes, over a power of two of megabytes.
proof fn lemma_over(bytes: int, k: nat)
    requires
        0 <= bytes < DIGITS_END,
        k == 10 || k == 20,
    ensures
        quotient(megabytes(bytes), whole(pow2(k) as int)) matches Double::Finite {
            negative,
            digits,
            power,
        } && !negative && worth(digits as int, power as int) == bytes * pow2((1054 - k) as nat),
{
    lemma_bytes(bytes);
    lemma_sizes();
    vstd::arithmetic::power2::lemma2_to64();
    let u = one();
    let s = pow2(k) as int;
    let g = (1054 - k) as nat;
    let p = pow2(g) as int;
    lemma_pow2_pos(1074);
    lemma_pow2_pos(k);
    lemma_pow2_pos(g);
    lemma_pow2_adds(k, g);
    lemma_whole(s);
    let n = bytes * p;
    assert((bytes * (s * p)) * u == n * (s * u)) by (nonlinear_arith)
        requires
            n == bytes * p,
    ;
    assert(0 < s * u && 0 <= n) by (nonlinear_arith)
        requires
            s > 0,
            u > 0,
            p > 0,
            bytes >= 0,
            n == bytes * p,
    ;
    if let Double::Finite { negative, digits, power } = whole(s) {
        lemma_worth_zero(digits as int, power as int);
    }
    lemma_even_quotient(false, n, s * u);
    lemma_pow2_adds(53, g);
    assert(n < DIGITS_END * p) by (nonlinear_arith)
        requires
            n == bytes * p,
            bytes < DIGITS_END,
            p > 0,
    ;
    vstd::arithmetic::div_mod::lemma_mod_multiples_basic(bytes, p);
    lemma_exact(false, n, g);
}

proof fn lemma_one_digit(d: int)
    requires
        0 <= d < 10,
    ensures
        digits(d) == seq![digit_char(d)],
        padded_digits(d, 1) == seq![digit_char(d)],
{
}

proof fn lemma_two_digits(r: int)
    requires
        0 <= r < 100,
    ensures
        padded_digits(r, 2) == seq![digit_char(r / 10), digit_char(r % 10)],
{
    let want = seq![digit_char(r / 10), digit_char(r % 10)];
    if r < 10 {
        lemma_one_digit(r);
        assert(r / 10 == 0 && r % 10 == r);
        assert(digit_char(0) == '0');
        assert(seq!['0'] + digits(r) =~= want);
        assert(pad_left(want, 2, '0') == want);
        assert(pad_left(digits(r), 2, '0') == pad_left(seq!['0'] + digits(r), 2, '0'));
    } else {
        lemma_one_digit(r / 10);
        assert(digits(r) == digits(r / 10).push(digit_char(r % 10)));
        assert(digits(r) =~= want);
        assert(pad_left(digits(r), 2, '0') == digits(r));
    }
}

pub(crate) proof fn lemma_decimals(t: int)
    requires
        0 <= t,
    ensures
        point_text(t, 10, 1) == digits(t / 10) + seq!['.', digit_char(t % 10)],
        point_text(t, 100, 2) == digits(t / 100) + seq![
            '.',
            digit_char(t % 100 / 10),
            digit_char(t % 10),
        ],
{
    lemma_one_digit(t % 10);
    let (a, b) = (digits(t / 10), digits(t / 100));
    assert(a + seq!['.'] + seq![digit_char(t % 10)] =~= a + seq!['.', digit_char(t % 10)]);
    let r = t % 100;
    lemma_two_digits(r);
    assert(r % 10 == t % 10);
    let two = seq![digit_char(r / 10), digit_char(t % 10)];
    assert(b + seq!['.'] + two =~= b + seq!['.', digit_char(r / 10), digit_char(t % 10)]);
}

/// The report shows RAM below a gigabyte in whole megabytes, the nearest, and from
/// there in gigabytes with two decimals, the nearest.
pub proof fn law_the_report_shows_the_nearest_size(bytes: int, t: int)
    requires
        0 <= bytes < 0x20_0000_0000_0000,
        2 * apart(t * 1_073_741_824, 100 * bytes) < 1_073_741_824 || (2 * apart(
            t * 1_073_741_824,
            100 * bytes,
        ) == 1_073_741_824 && t % 2 == 0),
    ensures
        bytes < 1_073_741_824 ==> wide_size(megabytes(bytes)) == digits(
            (2 * bytes + 1_048_576) / 2_097_152,
        ) + " MB"@,
        bytes >= 1_073_741_824 ==> wide_size(megabytes(bytes)) == digits(t / 100) + seq![
            '.',
            ('0' as int + t % 100 / 10) as char,
            ('0' as int + t % 10) as char,
        ] + " GB"@,
{
    lemma_units();
    lemma_bytes(bytes);
    lemma_shown(megabytes(bytes), bytes, 1_048_576, 1054);
    lemma_over(bytes, 10);
    lemma_shown(quotient(megabytes(bytes), whole(1024)), bytes, 1_073_741_824, 1044);
    lemma_near(100 * bytes, 1_073_741_824, t);
    if bytes >= 1_073_741_824 {
        lemma_decimals(t);
    }
}

proof fn lemma_units()
    ensures
        pow2(10) == 1024,
        pow2(20) == 1_048_576,
        1_048_576 * pow2(1054) == pow2(1074),
        1_073_741_824 * pow2(1044) == pow2(1074),
        1_099_511_627_776 * pow2(1034) == pow2(1074),
{
    vstd::arithmetic::power2::lemma2_to64();
    lemma_pow2_adds(20, 1054);
    lemma_pow2_adds(30, 1044);
    lemma_pow2_adds(40, 1034);
    lemma_pow2_adds(20, 20);
}

/// A narrow cell shows a size in the largest unit it fills, megabytes, gigabytes or
/// terabytes: the nearest number of them, with one decimal below ten.
pub proof fn law_a_cell_shows_the_nearest_size(bytes: int, t: int, unit: int)
    requires
        0 <= bytes < 0x20_0000_0000_0000,
        unit == if bytes < 1_099_511_627_776 {
            1_073_741_824int
        } else {
            1_099_511_627_776int
        },
        2 * apart(t * unit, 10 * bytes) < unit || (2 * apart(t * unit, 10 * bytes) == unit && t % 2
            == 0),
    ensures
        bytes < 1_073_741_824 ==> small_size(megabytes(bytes)) == digits(
            (2 * bytes + 1_048_576) / 2_097_152,
        ) + "M"@,
        bytes >= 1_073_741_824 ==> small_size(megabytes(bytes)) == (if bytes < 10 * unit {
            digits(t / 10) + seq!['.', ('0' as int + t % 10) as char]
        } else {
            digits((2 * bytes + unit) / (2 * unit))
        }) + if unit == 1_073_741_824 {
            "G"@
        } else {
            "T"@
        },
{
    lemma_units();
    lemma_bytes(bytes);
    lemma_shown(megabytes(bytes), bytes, 1_048_576, 1054);
    lemma_over(bytes, 10);
    lemma_shown(quotient(megabytes(bytes), whole(1024)), bytes, 1_073_741_824, 1044);
    lemma_over(bytes, 20);
    lemma_shown(quotient(megabytes(bytes), whole(1_048_576)), bytes, 1_099_511_627_776, 1034);
    lemma_near(10 * bytes, unit, t);
    if bytes >= 1_073_741_824 {
        lemma_decimals(t);
    }
    assert(whole(1024) == whole(1024) && whole(1_048_576) == whole(1_048_576) && whole(10) == whole(
        10,
    ));
}

/// A reading is shown as the whole percent nearest to it, a half upwards; behind
/// the gauge in the tier that has one.
pub proof fn law_a_level_is_the_nearest_percent(set: IconSet, x: Double)
    requires
        x matches Double::Finite { negative, digits, power } && !negative && digits * pow2(
            power as nat,
        ) < 0x20_0000_0000_0000 * pow2(1074),
    ensures
        x matches Double::Finite { negative, digits: m, power } && level(set, Percent { value: x })
            == (if set == IconSet::Unicode {
            seq![gauge_of(Percent { value: x })]
        } else {
            seq![]
        }) + digits((2 * (m * pow2(power as nat)) + pow2(1074)) / (2 * pow2(1074) as int)) + seq!['%'],
{
    reveal_strlit("%");
    assert("%"@ =~= seq!['%']);
    let u = one();
    lemma_pow2_pos(1074);
    if let Double::Finite { negative, digits, power } = x {
        let w = worth(digits as int, power as int);
        lemma_worth_zero(digits as int, power as int);
        lemma_nearest_held(w);
    }
}

proof fn lemma_nearest_held(w: int)
    requires
        0 <= w < DIGITS_END * one(),
    ensures
        0 <= (2 * w + one()) / (2 * one()) <= DIGITS_END,
{
    let u = one();
    lemma_pow2_pos(1074);
    let q = (2 * w + u) / (2 * u);
    let r = (2 * w + u) % (2 * u);
    vstd::arithmetic::div_mod::lemma_fundamental_div_mod(2 * w + u, 2 * u);
    vstd::arithmetic::div_mod::lemma_mod_bound(2 * w + u, 2 * u);
    assert(0 <= q <= DIGITS_END) by (nonlinear_arith)
        requires
            2 * w + u == (2 * u) * q + r,
            0 <= r < 2 * u,
            0 <= w < DIGITS_END * u,
            u > 0,
    ;
}

/// The share of one size in another, in whole percent: the nearest, a half upwards.
pub proof fn law_a_share_is_the_nearest_percent(part: int, total: int)
    requires
        0 <= part <= total,
        0 < total < 0x2000_0000_0000,
    ensures
        as_i64(share(megabytes(part), megabytes(total))) == (200 * part + total) / (2 * total),
        share(megabytes(part), megabytes(total)) matches Double::Finite {
            negative,
            digits,
            power,
        } && !negative && digits * pow2(power as nat) <= 100 * pow2(1074),
{
    let (a, b) = (part, total);
    let u = one();
    lemma_pow2_pos(1074);
    lemma_sizes();
    lemma_pow2_adds(53, 1021);
    lemma_pow2_pos(1021);
    assert(u >= DIGITS_END) by (nonlinear_arith)
        requires
            u == DIGITS_END * pow2(1021),
            pow2(1021) >= 1,
    ;
    lemma_share(a, b);
    let n = (100 * a) * u;
    assert(0 <= n <= (100 * u) * b) by (nonlinear_arith)
        requires
            n == (100 * a) * u,
            0 <= a <= b,
            u > 0,
    ;
    lemma_even_quotient(false, 100 * u, b);
    lemma_whole(100);
    lemma_monotone(n, (100 * u) * b, b);
    law_a_double_is_near(n, b);
    let x = double_of(false, n, b);
    if let Double::Finite { negative, digits, power } = x {
        let w = digits * pow2(power as nat);
        lemma_worth_zero(digits as int, power as int);
        let p = (200 * a + b) / (2 * b);
        let r = (200 * a + b) % (2 * b);
        vstd::arithmetic::div_mod::lemma_fundamental_div_mod(200 * a + b, 2 * b);
        vstd::arithmetic::div_mod::lemma_mod_bound(200 * a + b, 2 * b);
        let q = (2 * w + u) / (2 * u);
        let rest = (2 * w + u) % (2 * u);
        vstd::arithmetic::div_mod::lemma_fundamental_div_mod(2 * w + u, 2 * u);
        vstd::arithmetic::div_mod::lemma_mod_bound(2 * w + u, 2 * u);
        assert(100 * u < DIGITS_END * u);
        lemma_nearest_held(w);
        assert((2 * b) * p == 2 * (p * b)) by (nonlinear_arith);
        assert((2 * u) * q == 2 * (q * u)) by (nonlinear_arith);
        if r == 0 {
            let half = pow2(1073) as int;
            lemma_pow2_adds(1, 1073);
            let c = (2 * p - 1) * half;
            assert(n == c * b) by (nonlinear_arith)
                requires
                    n == (100 * a) * u,
                    u == 2 * half,
                    200 * a + b == 2 * (p * b),
                    c == (2 * p - 1) * half,
            ;
            assert(p >= 1) by (nonlinear_arith)
                requires
                    200 * a + b == 2 * (p * b),
                    a >= 0,
                    b > 0,
            ;
            assert(p <= 101) by (nonlinear_arith)
                requires
                    200 * a + b == 2 * (p * b),
                    a <= b,
                    b > 0,
            ;
            lemma_pow2_pos(1073);
            assert(0 <= c < DIGITS_END * half) by (nonlinear_arith)
                requires
                    c == (2 * p - 1) * half,
                    1 <= p <= 101,
                    half > 0,
                    DIGITS_END == 0x20_0000_0000_0000,
            ;
            lemma_even_quotient(false, c, b);
            lemma_pow2_adds(53, 1073);
            vstd::arithmetic::div_mod::lemma_mod_multiples_basic(2 * p - 1, half);
            lemma_exact(false, c, 1073);
            assert(2 * w + u == p * (2 * u)) by (nonlinear_arith)
                requires
                    w == (2 * p - 1) * half,
                    u == 2 * half,
            ;
            vstd::arithmetic::div_mod::lemma_fundamental_div_mod_converse(
                2 * w + u,
                2 * u,
                p,
                0,
            );
        } else {
            let e = apart(w * b, n);
            let f = apart(q * u, w);
            let off = apart(q * b, 100 * a);
            assert(2 * f <= u);
            assert(DIGITS_END * e <= 100 * b * u) by (nonlinear_arith)
                requires
                    2 * e <= b || DIGITS_END * e <= n,
                    n <= (100 * u) * b,
                    u >= DIGITS_END,
                    b > 0,
                    DIGITS_END == 0x20_0000_0000_0000,
            ;
            lemma_percent_off(q, a, b, u, w, e, f, off);
            assert(DIGITS_END * (2 * (off * u)) <= (b * u) * (DIGITS_END + 200)) by (nonlinear_arith)
                requires
                    off * u <= f * b + e,
                    2 * f <= u,
                    DIGITS_END * e <= 100 * b * u,
                    b > 0,
            ;
            assert(DIGITS_END * (2 * off) <= b * (DIGITS_END + 200)) by (nonlinear_arith)
                requires
                    DIGITS_END * (2 * (off * u)) <= (b * u) * (DIGITS_END + 200),
                    u > 0,
            ;
            assert(2 * off <= b);
            assert(2 * apart(p * b, 100 * a) < b);
            assert(q == p) by (nonlinear_arith)
                requires
                    2 * off <= b,
                    off == apart(q * b, 100 * a),
                    2 * apart(p * b, 100 * a) < b,
                    b > 0,
            ;
        }
        assert(as_i64(x) == p);
    }
}

proof fn lemma_percent_off(q: int, a: int, b: int, u: int, w: int, e: int, f: int, off: int)
    requires
        b > 0,
        u > 0,
        e == apart(w * b, (100 * a) * u),
        f == apart(q * u, w),
        off == apart(q * b, 100 * a),
    ensures
        off * u <= f * b + e,
{
    let x = (q * b) * u;
    let y = (100 * a) * u;
    let z = w * b;
    assert(off * u == apart(x, y)) by (nonlinear_arith)
        requires
            off == apart(q * b, 100 * a),
            x == (q * b) * u,
            y == (100 * a) * u,
            u > 0,
    ;
    assert(f * b == apart(x, z)) by (nonlinear_arith)
        requires
            f == apart(q * u, w),
            x == (q * b) * u,
            z == w * b,
            b > 0,
    ;
}

// ---- cells ------------------------------------------------------------------------------------------

/// What a cell is called: its label with a space behind it, nothing at all where
/// the label is empty, and without one what the tier has for the metric.
pub proof fn law_a_cell_is_named(set: IconSet, metric: Metric, label: Seq<char>, reading: Percent)
    ensures
        naming(set, metric, Some(label), reading) == if label.len() == 0 {
            seq![]
        } else {
            label + seq![' ']
        },
        set == IconSet::Text || set == IconSet::Unicode ==> naming(set, metric, None, reading)
            == match metric {
            Metric::Cpu => "cpu "@,
            Metric::Ram => "ram "@,
            Metric::Battery => "bat "@,
            Metric::Disk => "disk "@,
        },
        set == IconSet::NerdFont ==> naming(set, metric, None, reading) == seq![
            match metric {
                Metric::Cpu => '\u{f4bc}',
                Metric::Ram => '\u{efc5}',
                Metric::Battery => nerd_battery(reading),
                Metric::Disk => '\u{f0a0}',
            },
            ' ',
        ],
        set == IconSet::Emoji ==> naming(set, metric, None, reading) == seq![
            match metric {
                Metric::Cpu => '💻',
                Metric::Ram => '🧠',
                Metric::Battery => '🔋',
                Metric::Disk => '💾',
            },
        ],
{
    reveal_strlit(" ");
    reveal_strlit("cpu");
    reveal_strlit("cpu ");
    reveal_strlit("ram");
    reveal_strlit("ram ");
    reveal_strlit("bat");
    reveal_strlit("bat ");
    reveal_strlit("disk");
    reveal_strlit("disk ");
    assert(" "@ =~= seq![' ']);
    assert("cpu"@ + " "@ =~= "cpu "@);
    assert("ram"@ + " "@ =~= "ram "@);
    assert("bat"@ + " "@ =~= "bat "@);
    assert("disk"@ + " "@ =~= "disk "@);
    assert(naming(set, metric, Some(label), reading) =~= if label.len() == 0 {
        seq![]
    } else {
        label + seq![' ']
    });
    if set == IconSet::NerdFont {
        assert(naming(set, metric, None, reading) =~= seq![metric.nerd(reading), ' ']);
    }
}

/// A load cell is its name and its level, and a RAM cell its name and either the
/// level of its share of the machine, where that is asked for and known, or its
/// size.
pub proof fn law_a_cell_is_its_name_and_its_figure(
    set: IconSet,
    label: Option<Seq<char>>,
    load: Double,
    part: int,
    total: int,
    state: State,
)
    requires
        0 <= part <= total,
        0 < total < 0x2000_0000_0000,
    ensures
        cpu_text(set, label, Percent { value: load }) == naming(
            set,
            Metric::Cpu,
            label,
            Percent { value: load },
        ) + level(set, Percent { value: load }),
        ({
            let p = Percent { value: share(megabytes(part), megabytes(total)) };
            ram_text(set, label, megabytes(part), RamDisplay::Percent, megabytes(total)) == naming(
                set,
                Metric::Ram,
                label,
                p,
            ) + (if set == IconSet::Unicode {
                seq![gauge_of(p)]
            } else {
                seq![]
            }) + digits((200 * part + total) / (2 * total)) + "%"@
        }),
        ram_text(set, label, megabytes(part), RamDisplay::Absolute, megabytes(total)) == naming(
            set,
            Metric::Ram,
            label,
            Percent { value: zero(false) },
        ) + small_size(megabytes(part)),
        ram_text(set, label, megabytes(part), RamDisplay::Percent, zero(false)) == naming(
            set,
            Metric::Ram,
            label,
            Percent { value: zero(false) },
        ) + small_size(megabytes(part)),
        battery_text(set, label, Battery { percent: Percent { value: load }, state }) == naming(
            set,
            Metric::Battery,
            label,
            Percent { value: load },
        ) + level(set, Percent { value: load }) + match state {
            State::Charging => "+"@,
            State::Full | State::NotCharging => "="@,
            State::Discharging | State::Unknown => seq![],
        },
{
    law_a_share_is_the_nearest_percent(part, total);
    lemma_bytes(total);
    let g = pow2(1054) as int;
    lemma_pow2_pos(1054);
    assert(total * g > 0) by (nonlinear_arith)
        requires
            total > 0,
            g > 0,
    ;
    assert(0 * pow2(0) == 0);
    let p = Percent { value: share(megabytes(part), megabytes(total)) };
    let q = (200 * part + total) / (2 * total);
    assert(0 <= q) by {
        vstd::arithmetic::div_mod::lemma_div_pos_is_pos(200 * part + total, 2 * total);
    }
    let gauge = if set == IconSet::Unicode {
        seq![gauge_of(p)]
    } else {
        seq![]
    };
    let name = naming(set, Metric::Ram, label, p);
    assert(name + (gauge + digits(q) + "%"@) =~= name + gauge + digits(q) + "%"@);
    reveal_strlit("+");
    reveal_strlit("=");
    assert("+"@ =~= seq!['+']);
    assert("="@ =~= seq!['=']);
}

/// A drive's cell says how full it is and then what is left; it names its mount
/// exactly where there is more than one drive, and there is a cell for each.
pub proof fn law_a_drive_cell_says_what_is_left(
    set: IconSet,
    label: Option<Seq<char>>,
    disks: Seq<DiskView>,
    i: int,
)
    requires
        0 <= i < disks.len(),
    ensures
        drive_texts(set, label, disks).len() == disks.len(),
        ({
            let d = disks[i];
            drive_texts(set, label, disks)[i] == naming(set, Metric::Disk, label, d.used_share())
                + (if disks.len() > 1 {
                d.name + " "@
            } else {
                seq![]
            }) + level(set, d.used_share()) + " "@ + small_size(d.free_mb)
        }),
{
}

/// The cells of a row stand in order, load first, then RAM, then the battery and
/// the drives, a dot between each and the next.
pub proof fn law_a_row_holds_every_cell(
    cpu: Seq<char>,
    ram: Seq<char>,
    battery: Seq<Seq<char>>,
    disks: Seq<Seq<char>>,
)
    ensures
        row_text(cpu, ram, battery, disks) == (battery + disks).fold_left(
            cpu + " · "@ + ram,
            |line: Seq<char>, cell: Seq<char>| line + " · "@ + cell,
        ),
{
    lemma_cells(seq![cpu, ram], battery + disks);
    assert(seq![cpu, ram] + battery + disks =~= seq![cpu, ram] + (battery + disks));
    reveal_with_fuel(join, 3);
    assert(seq![cpu, ram].drop_last() =~= seq![cpu]);
}

proof fn lemma_cells(front: Seq<Seq<char>>, cells: Seq<Seq<char>>)
    requires
        front.len() > 0,
    ensures
        join(front + cells, " · "@) == cells.fold_left(
            join(front, " · "@),
            |line: Seq<char>, cell: Seq<char>| line + " · "@ + cell,
        ),
    decreases cells.len(),
{
    if cells.len() == 0 {
        assert(front + cells =~= front);
    } else {
        lemma_cells(front, cells.drop_last());
        assert((front + cells).drop_last() =~= front + cells.drop_last());
    }
}

/// A machine with a battery has one cell for it, and one without has none.
pub proof fn law_no_battery_is_no_cell(set: IconSet, label: Option<Seq<char>>, b: Battery)
    ensures
        battery_texts(set, label, None).len() == 0,
        battery_texts(set, label, Some(b)) == seq![battery_text(set, label, b)],
        cell_list(None).len() == 0,
        forall|cell: Seq<char>| #[trigger] cell_list(Some(cell)) == seq![cell],
{
}

/// A word given beside a picture leads it, unless it is the metric's own; in a tier
/// of words it takes the place of theirs.
pub proof fn law_a_word_leads_the_picture(
    set: IconSet,
    metric: Metric,
    word: Seq<char>,
    reading: Percent,
    mark: Seq<char>,
)
    requires
        word.len() > 0,
        word != metric.word(),
    ensures
        set == IconSet::Text || set == IconSet::Unicode ==> led_cell(
            set,
            metric,
            word,
            reading,
            mark,
        ) == word + seq![' '] + level(set, reading) + mark,
        set == IconSet::NerdFont || set == IconSet::Emoji ==> led_cell(
            set,
            metric,
            word,
            reading,
            mark,
        ) == word + seq![' '] + naming(set, metric, None, reading) + level(set, reading) + mark,
        set == IconSet::NerdFont || set == IconSet::Emoji ==> led_cell(
            set,
            metric,
            metric.word(),
            reading,
            mark,
        ) == naming(set, metric, None, reading) + level(set, reading) + mark,
{
    reveal_strlit(" ");
    assert(" "@ =~= seq![' ']);
    let none = Seq::<char>::empty();
    assert(word + seq![' '] + none =~= word + seq![' ']);
    assert(none + naming(set, metric, None, reading) =~= naming(set, metric, None, reading));
}

} // verus!
