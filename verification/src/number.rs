//! Reading a number a person or a driver wrote down.
//!
//! The grammar is that of a decimal floating point literal: an optional sign,
//! then `inf`, `infinity` or `nan` in any case, or digits with an optional
//! point and an optional exponent. The value is the double nearest to what is
//! written.

use vstd::arithmetic::power::{
    lemma_pow0, lemma_pow1, lemma_pow_adds, lemma_pow_increases, lemma_pow_multiplies,
    lemma_pow_positive, pow,
};
use vstd::arithmetic::power2::{
    lemma2_to64, lemma_pow2, lemma_pow2_adds, lemma_pow2_pos, lemma_pow2_strictly_increases,
    lemma_pow2_unfold, pow2,
};
use vstd::prelude::*;
use vstd::string::*;

use crate::big::Big;
use crate::double::{
    double_of, lemma_double_of_huge, lemma_double_of_tiny, lemma_double_of_zero, magnitude,
    nearest_double, one, whole, zero, Double,
};
use crate::text::{
    all_digits, chars_of, digit, digits, is_digit, lemma_digits_round_trip, lemma_value_of_digits,
    lower, same, to_lower, value_of_digits,
};

verus! {

/// How many zeros `m` starts with.
pub open spec fn leading_zeros(m: Seq<char>) -> int
    decreases m.len(),
{
    if m.len() > 0 && m[0] == '0' {
        1 + leading_zeros(m.drop_first())
    } else {
        0
    }
}

/// The double nearest to what the digits `m` spell with the point after the
/// first `scale`.
pub open spec fn digits_number(negative: bool, m: Seq<char>, scale: int) -> Double {
    let shift = scale - m.len();
    if shift >= 0 {
        double_of(negative, value_of_digits(m) * pow(10, shift as nat) * one(), 1)
    } else {
        double_of(negative, value_of_digits(m) * one(), pow(10, (-shift) as nat))
    }
}

/// Index of the first `a` or `b` in `s`, or its length.
pub open spec fn first_of(s: Seq<char>, a: char, b: char, i: int) -> int
    decreases s.len() - i,
{
    if i >= s.len() || s[i] == a || s[i] == b {
        i
    } else {
        first_of(s, a, b, i + 1)
    }
}

pub open spec fn is_sign(c: char) -> bool {
    c == '+' || c == '-'
}

/// `s` without the sign it may start with.
pub open spec fn unsigned(s: Seq<char>) -> Seq<char> {
    if s.len() > 0 && is_sign(s[0]) {
        s.drop_first()
    } else {
        s
    }
}

pub open spec fn negated(s: Seq<char>) -> bool {
    s.len() > 0 && s[0] == '-'
}

/// The exponent `s` spells, if it spells one.
pub open spec fn exponent(s: Seq<char>) -> Option<int> {
    let u = unsigned(s);
    if u.len() > 0 && all_digits(u) {
        Some(if negated(s) {
            -value_of_digits(u)
        } else {
            value_of_digits(u)
        })
    } else {
        None
    }
}

/// The number spelt by a mantissa and a power of ten.
pub open spec fn mantissa_number(negative: bool, mantissa: Seq<char>, power: int) -> Option<Double> {
    let point = first_of(mantissa, '.', '.', 0);
    let whole = mantissa.take(point);
    let fraction = if point < mantissa.len() {
        mantissa.skip(point + 1)
    } else {
        seq![]
    };
    if all_digits(whole) && all_digits(fraction) && whole.len() + fraction.len() > 0 {
        Some(digits_number(negative, whole + fraction, whole.len() + power))
    } else {
        None
    }
}

/// The number `s` spells, if it spells one.
pub open spec fn number_of(s: Seq<char>) -> Option<Double> {
    let u = unsigned(s);
    let negative = negated(s);
    let e = first_of(u, 'e', 'E', 0);
    if lower(u) == "inf"@ || lower(u) == "infinity"@ {
        Some(Double::Infinite { negative })
    } else if lower(u) == "nan"@ {
        Some(Double::NotANumber)
    } else if e == u.len() {
        mantissa_number(negative, u, 0)
    } else {
        match exponent(u.skip(e + 1)) {
            Some(power) => mantissa_number(negative, u.take(e), power),
            None => None,
        }
    }
}

/// A character that does not occur is not found.
pub(crate) proof fn lemma_first_of_absent(s: Seq<char>, a: char, b: char, i: int)
    requires
        0 <= i <= s.len(),
        forall|j: int| 0 <= j < s.len() ==> (#[trigger] s[j]) != a && s[j] != b,
    ensures
        first_of(s, a, b, i) == s.len(),
    decreases s.len() - i,
{
    if i < s.len() {
        lemma_first_of_absent(s, a, b, i + 1);
    }
}

/// Digits on their own spell the whole number they stand for.
pub proof fn lemma_whole_number(n: int)
    requires
        0 <= n,
    ensures
        number_of(digits(n)) == Some(whole(n)),
{
    let d = digits(n);
    lemma_digits_round_trip(n);
    assert forall|j: int| 0 <= j < d.len() implies is_digit(#[trigger] d[j]) by {}
    assert(is_digit(d[0]));
    assert(unsigned(d) == d);
    assert(lower(d)[0] == d[0]);
    reveal_strlit("inf");
    reveal_strlit("infinity");
    reveal_strlit("nan");
    lemma_first_of_absent(d, 'e', 'E', 0);
    lemma_first_of_absent(d, '.', '.', 0);
    assert(d.take(d.len() as int) =~= d);
    assert(d + Seq::<char>::empty() =~= d);
    lemma_pow0(10);
    assert(n * 1 == n);
}

// ---- digits and powers of ten ------------------------------------------------------

/// Digits spell less than the power of ten their count gives, and at least the
/// one below it when the first is not a zero.
proof fn lemma_digits_bound(m: Seq<char>)
    requires
        all_digits(m),
    ensures
        0 <= value_of_digits(m) < pow(10, m.len()),
        m.len() > 0 && m[0] != '0' ==> value_of_digits(m) >= pow(10, (m.len() - 1) as nat),
    decreases m.len(),
{
    if m.len() == 0 {
        lemma_pow0(10);
    } else {
        let front = m.drop_last();
        assert(all_digits(front)) by {
            assert forall|i: int| 0 <= i < front.len() implies is_digit(#[trigger] front[i]) by {
                assert(front[i] == m[i]);
            }
        }
        lemma_digits_bound(front);
        assert(is_digit(m.last()));
        lemma_pow1(10);
        lemma_pow0(10);
        lemma_pow_adds(10, 1, front.len());
        if m.len() > 1 {
            assert(front[0] == m[0]);
            lemma_pow_adds(10, 1, (front.len() - 1) as nat);
        } else {
            assert(front.len() == 0);
            assert(m[0] == m.last());
        }
    }
}

/// Leading zeros add nothing.
proof fn lemma_leading_zeros(m: Seq<char>)
    requires
        all_digits(m),
    ensures
        0 <= leading_zeros(m) <= m.len(),
        value_of_digits(m.skip(leading_zeros(m))) == value_of_digits(m),
        leading_zeros(m) < m.len() ==> m[leading_zeros(m)] != '0',
        forall|i: int| 0 <= i < leading_zeros(m) ==> m[i] == '0',
    decreases m.len(),
{
    if m.len() > 0 && m[0] == '0' {
        let rest = m.drop_first();
        assert(all_digits(rest)) by {
            assert forall|i: int| 0 <= i < rest.len() implies is_digit(#[trigger] rest[i]) by {
                assert(rest[i] == m[i + 1]);
            }
        }
        lemma_leading_zeros(rest);
        let z = leading_zeros(rest);
        assert(m.skip(z + 1) =~= rest.skip(z));
        lemma_zero_front(m);
        if z < rest.len() {
            assert(m[z + 1] == rest[z]);
        }
        assert forall|i: int| 0 <= i < z + 1 implies m[i] == '0' by {
            if i > 0 {
                assert(rest[i - 1] == '0');
            }
        }
    } else {
        assert(m.skip(0) =~= m);
    }
}

/// One zero in front adds nothing.
proof fn lemma_zero_front(m: Seq<char>)
    requires
        m.len() > 0,
        m[0] == '0',
    ensures
        value_of_digits(m.drop_first()) == value_of_digits(m),
    decreases m.len(),
{
    if m.len() > 1 {
        lemma_zero_front(m.drop_last());
        assert(m.drop_first().drop_last() =~= m.drop_last().drop_first());
    } else {
        assert(m.drop_first() =~= seq![]);
        assert(m.drop_last() =~= seq![]);
        assert(value_of_digits(m.drop_last()) == 0);
    }
}

/// Larger bases have larger powers.
proof fn lemma_pow_base(a: int, b: int, n: nat)
    requires
        0 <= a <= b,
    ensures
        0 <= pow(a, n) <= pow(b, n),
    decreases n,
{
    if n == 0 {
        lemma_pow0(a);
        lemma_pow0(b);
    } else {
        lemma_pow_base(a, b, (n - 1) as nat);
        lemma_pow1(a);
        lemma_pow1(b);
        lemma_pow_adds(a, 1, (n - 1) as nat);
        lemma_pow_adds(b, 1, (n - 1) as nat);
        let (x, y) = (pow(a, (n - 1) as nat), pow(b, (n - 1) as nat));
        assert(0 <= a * x <= b * y) by (nonlinear_arith)
            requires
                0 <= a <= b,
                0 <= x <= y,
        ;
    }
}

/// Where decimal places leave the range of a double.
proof fn lemma_range()
    ensures
        pow(10, 309) >= pow2(1024),
        pow(10, 400) > 2 * one(),
{
    assert(pow(10, 5) == 100_000) by {
        reveal_with_fuel(pow, 6);
    }
    assert(pow(10, 4) == 10_000) by {
        reveal_with_fuel(pow, 5);
    }
    lemma_pow_adds(10, 4, 4);
    assert(pow(10, 8) == 100_000_000);
    lemma_pow_adds(10, 5, 5);
    assert(pow(10, 10) == 10_000_000_000);
    lemma_pow_adds(10, 10, 10);
    assert(pow(10, 20) == 100_000_000_000_000_000_000);
    lemma_pow_adds(10, 20, 8);
    assert(pow(10, 28) == 10_000_000_000_000_000_000_000_000_000);
    lemma2_to64();
    lemma_pow2_adds(64, 29);
    assert(pow2(93) == 9_903_520_314_283_042_199_192_993_792);
    lemma_pow2(93);
    lemma_pow_base(pow(2, 93), pow(10, 28), 11);
    lemma_pow_multiplies(2, 93, 11);
    lemma_pow_multiplies(10, 28, 11);
    lemma_pow2(1023);
    lemma_pow2_unfold(1024);
    lemma_pow1(10);
    lemma_pow_adds(10, 1, 308);
    assert(pow(10, 308) >= pow2(1023));
    assert(pow(2, 3) == 8) by {
        reveal_with_fuel(pow, 4);
    }
    lemma_pow_base(8, 10, 400);
    lemma_pow_multiplies(2, 3, 400);
    lemma_pow2(1200);
    lemma_pow2_unfold(1075);
    lemma_pow2_strictly_increases(1075, 1200);
}

/// Digits that all stand far behind the point are too little to count.
proof fn lemma_digits_tiny(negative: bool, m: Seq<char>, scale: int)
    requires
        all_digits(m),
        scale - leading_zeros(m) <= -400,
    ensures
        digits_number(negative, m, scale) == zero(negative),
{
    lemma_leading_zeros(m);
    let zeros = leading_zeros(m);
    let sig = m.skip(zeros);
    assert(all_digits(sig)) by {
        assert forall|i: int| 0 <= i < sig.len() implies is_digit(#[trigger] sig[i]) by {
            assert(sig[i] == m[i + zeros]);
        }
    }
    lemma_digits_bound(sig);
    let v = value_of_digits(m);
    let places = (m.len() - scale) as nat;
    let extra = (places - sig.len()) as nat;
    lemma_range();
    lemma_pow_increases(10, 400, extra);
    lemma_pow_adds(10, sig.len(), extra);
    let (a, b, u) = (pow(10, sig.len()), pow(10, extra), one());
    lemma_pow2_pos(1074);
    assert(0 <= 2 * (v * u) < a * b) by (nonlinear_arith)
        requires
            0 <= v < a,
            2 * u < b,
            u > 0,
    ;
    lemma_double_of_tiny(negative, v * u, a * b);
}

/// Digits that reach far before the point are past every double.
proof fn lemma_digits_huge(negative: bool, m: Seq<char>, scale: int)
    requires
        all_digits(m),
        value_of_digits(m) != 0,
        scale - leading_zeros(m) >= 310,
    ensures
        digits_number(negative, m, scale) == (Double::Infinite { negative }),
{
    lemma_leading_zeros(m);
    let zeros = leading_zeros(m);
    let sig = m.skip(zeros);
    assert(all_digits(sig)) by {
        assert forall|i: int| 0 <= i < sig.len() implies is_digit(#[trigger] sig[i]) by {
            assert(sig[i] == m[i + zeros]);
        }
    }
    lemma_digits_bound(sig);
    lemma_pow0(10);
    assert(sig.len() > 0);
    assert(sig[0] == m[zeros]);
    let v = value_of_digits(m);
    let shift = scale - m.len();
    let top = (scale - zeros - 1) as nat;
    let first = (sig.len() - 1) as nat;
    lemma_range();
    lemma_pow_increases(10, 309, top);
    lemma_pow2_adds(1024, 1074);
    lemma_pow2_pos(1074);
    lemma_pow2_pos(1024);
    let u = one();
    let h = pow2(1024) as int;
    if shift >= 0 {
        lemma_pow_adds(10, first, shift as nat);
        lemma_pow_positive(10, shift as nat);
        let (a, b) = (pow(10, first), pow(10, shift as nat));
        assert(v * b * u >= h * u) by (nonlinear_arith)
            requires
                v >= a,
                a * b >= h,
                b > 0,
                u > 0,
        ;
        lemma_double_of_huge(negative, v * b * u, 1);
    } else {
        let d = pow(10, (-shift) as nat);
        lemma_pow_adds(10, top, (-shift) as nat);
        lemma_pow_positive(10, (-shift) as nat);
        let a = pow(10, top);
        assert(v * u >= d * (h * u)) by (nonlinear_arith)
            requires
                v >= a * d,
                a >= h,
                d > 0,
                u > 0,
                h > 0,
        ;
        lemma_double_of_huge(negative, v * u, d);
    }
}

/// A number times a power of ten.
fn big_tens(n: Big, count: u128) -> (r: Big)
    ensures
        r@ == n@ * pow(10, count as nat),
{
    let ghost start = n@;
    let mut r = n;
    let mut i: u128 = 0;
    proof {
        lemma_pow0(10);
    }
    while i < count
        invariant
            i <= count,
            r@ == start * pow(10, i as nat),
        decreases count - i,
    {
        proof {
            lemma_pow1(10);
            lemma_pow_adds(10, i as nat, 1);
            let p = pow(10, i as nat);
            assert((start * p) * 10 == start * (p * 10)) by (nonlinear_arith);
        }
        r = r.scaled(10, 0);
        i += 1;
    }
    r
}

/// The digits `m` with the point after the first `scale`.
fn from_digits(negative: bool, m: &Vec<char>, scale: i128) -> (r: Double)
    requires
        all_digits(m@),
        -3_000_000_000_000_000_000_000_000_000_000 <= scale
            <= 3_000_000_000_000_000_000_000_000_000_000,
    ensures
        r == digits_number(negative, m@, scale as int),
{
    let mut zeros: usize = 0;
    assert(m@.skip(0) =~= m@);
    while zeros < m.len() && m[zeros] == '0'
        invariant
            zeros <= m.len(),
            leading_zeros(m@) == zeros + leading_zeros(m@.skip(zeros as int)),
        decreases m.len() - zeros,
    {
        assert(m@.skip(zeros as int).drop_first() =~= m@.skip(zeros + 1));
        zeros += 1;
    }
    assert(leading_zeros(m@) == zeros);
    let shift: i128 = scale - m.len() as i128;
    proof {
        lemma_leading_zeros(m@);
        lemma_value_of_digits(m@);
        if shift < 0 {
            lemma_pow_positive(10, (-shift) as nat);
        }
    }
    if zeros == m.len() {
        proof {
            assert(m@.skip(zeros as int) =~= seq![]);
            lemma_zero_digits(negative, m@, scale as int);
        }
        return Double::Finite { negative, digits: 0, power: 0 };
    }
    let place: i128 = scale - zeros as i128;
    if place <= -400 {
        proof {
            lemma_digits_tiny(negative, m@, scale as int);
        }
        return Double::Finite { negative, digits: 0, power: 0 };
    }
    if place >= 310 {
        proof {
            let sig = m@.skip(zeros as int);
            assert(all_digits(sig)) by {
                assert forall|i: int| 0 <= i < sig.len() implies is_digit(#[trigger] sig[i]) by {
                    assert(sig[i] == m@[i + zeros]);
                }
            }
            lemma_digits_bound(sig);
            lemma_pow_positive(10, (sig.len() - 1) as nat);
            assert(sig[0] == m@[zeros as int]);
            lemma_digits_huge(negative, m@, scale as int);
        }
        return Double::Infinite { negative };
    }
    let mut v = Big::small(0);
    let mut i: usize = 0;
    assert(m@.take(0) =~= seq![]);
    while i < m.len()
        invariant
            i <= m.len(),
            all_digits(m@),
            v@ == value_of_digits(m@.take(i as int)),
        decreases m.len() - i,
    {
        assert(m@.take(i + 1).drop_last() =~= m@.take(i as int));
        assert(is_digit(m@[i as int]));
        v = v.scaled(10, m[i] as u32 - 48);
        i += 1;
    }
    assert(m@.take(i as int) =~= m@);
    if shift >= 0 {
        let n = big_tens(v, shift as u128).shifted(1074);
        proof {
            n.lemma_natural();
        }
        nearest_double(negative, &n, &Big::small(1))
    } else {
        let d = big_tens(Big::small(1), (-shift) as u128);
        let n = v.shifted(1074);
        proof {
            n.lemma_natural();
            assert(1 * pow(10, (-shift) as nat) == pow(10, (-shift) as nat));
        }
        nearest_double(negative, &n, &d)
    }
}

/// How far an exponent is read: past it nothing changes.
pub open spec fn held(power: int) -> int {
    if power > 1_000_000_000_000_000_000_000_000_000_000 {
        1_000_000_000_000_000_000_000_000_000_000
    } else if power < -1_000_000_000_000_000_000_000_000_000_000 {
        -1_000_000_000_000_000_000_000_000_000_000
    } else {
        power
    }
}

proof fn lemma_held(negative: bool, m: Seq<char>, whole: int, power: int)
    requires
        all_digits(m),
        0 <= whole <= m.len() <= 0x1_ffff_ffff_ffff_fffe,
    ensures
        digits_number(negative, m, whole + held(power)) == digits_number(
            negative,
            m,
            whole + power,
        ),
{
    lemma_leading_zeros(m);
    let (near, far) = (whole + held(power), whole + power);
    if held(power) != power {
        if value_of_digits(m) == 0 {
            lemma_pow_positive(10, magnitude(near - m.len()) as nat);
            lemma_pow_positive(10, magnitude(far - m.len()) as nat);
            lemma_zero_digits(negative, m, near);
            lemma_zero_digits(negative, m, far);
        } else if power < 0 {
            lemma_digits_tiny(negative, m, near);
            lemma_digits_tiny(negative, m, far);
        } else {
            lemma_digits_huge(negative, m, near);
            lemma_digits_huge(negative, m, far);
        }
    }
}

/// Zeros spell nothing, wherever the point stands.
proof fn lemma_zero_digits(negative: bool, m: Seq<char>, scale: int)
    requires
        value_of_digits(m) == 0,
    ensures
        digits_number(negative, m, scale) == zero(negative),
{
    let shift = scale - m.len();
    if shift >= 0 {
        assert(0 * pow(10, shift as nat) * one() == 0) by (nonlinear_arith);
        lemma_double_of_zero(negative, 1);
    } else {
        lemma_pow_positive(10, (-shift) as nat);
        lemma_double_of_zero(negative, pow(10, (-shift) as nat));
    }
}

fn every_digit(s: &Vec<char>, from: usize, to: usize) -> (r: bool)
    requires
        from <= to <= s.len(),
    ensures
        r == all_digits(s@.subrange(from as int, to as int)),
{
    let mut i: usize = from;
    while i < to
        invariant
            from <= i <= to <= s.len(),
            forall|j: int| from <= j < i ==> is_digit(#[trigger] s@[j]),
        decreases to - i,
    {
        if !digit(s[i]) {
            assert(s@.subrange(from as int, to as int)[i - from] == s@[i as int]);
            return false;
        }
        i += 1;
    }
    assert forall|j: int| 0 <= j < to - from implies is_digit(
        #[trigger] s@.subrange(from as int, to as int)[j],
    ) by {
        assert(is_digit(s@[j + from]));
    }
    true
}

/// The exponent in `s[from..]`, held within bounds.
fn read_exponent(s: &Vec<char>, from: usize) -> (r: Option<i128>)
    requires
        from <= s.len(),
    ensures
        match r {
            Some(p) => exponent(s@.skip(from as int)) matches Some(power) && p == held(power),
            None => exponent(s@.skip(from as int)) is None,
        },
{
    let ghost text = s@.skip(from as int);
    let signed = from < s.len() && (s[from] == '+' || s[from] == '-');
    let start: usize = if signed {
        from + 1
    } else {
        from
    };
    let ghost u = unsigned(text);
    assert(u =~= s@.subrange(start as int, s@.len() as int));
    if start == s.len() || !every_digit(s, start, s.len()) {
        return None;
    }
    let cap: u128 = 1_000_000_000_000_000_000_000_000_000_000;
    let mut power: u128 = 0;
    let mut i: usize = start;
    assert(s@.subrange(start as int, start as int) =~= seq![]);
    while i < s.len()
        invariant
            start <= i <= s.len(),
            u == s@.subrange(start as int, s@.len() as int),
            all_digits(u),
            cap == 1_000_000_000_000_000_000_000_000_000_000,
            power == (if value_of_digits(s@.subrange(start as int, i as int)) < cap {
                value_of_digits(s@.subrange(start as int, i as int))
            } else {
                cap as int
            }),
            0 <= value_of_digits(s@.subrange(start as int, i as int)),
        decreases s.len() - i,
    {
        assert(s@.subrange(start as int, i + 1).drop_last() =~= s@.subrange(
            start as int,
            i as int,
        ));
        assert(u[i - start] == s@[i as int]);
        assert(is_digit(u[i - start]));
        let d: u128 = (s[i] as u32 - 48) as u128;
        power = power * 10 + d;
        if power > cap {
            power = cap;
        }
        i += 1;
    }
    if signed && s[from] == '-' {
        Some(-(power as i128))
    } else {
        Some(power as i128)
    }
}

/// The number `s[from..to]` spells as a mantissa to the given power of ten.
fn read_mantissa(negative: bool, s: &Vec<char>, from: usize, to: usize, power: i128, Ghost(exact): Ghost<int>) -> (r: Option<Double>)
    requires
        from <= to <= s.len(),
        power == held(exact),
    ensures
        r == mantissa_number(negative, s@.subrange(from as int, to as int), exact),
{
    let ghost text = s@.subrange(from as int, to as int);
    let mut point: usize = from;
    while point < to && s[point] != '.'
        invariant
            from <= point <= to <= s.len(),
            text == s@.subrange(from as int, to as int),
            first_of(text, '.', '.', 0) == first_of(text, '.', '.', point - from),
        decreases to - point,
    {
        assert(text[point - from] == s@[point as int]);
        point += 1;
    }
    assert(point < to ==> text[point - from] == s@[point as int]);
    let after: usize = if point < to {
        point + 1
    } else {
        to
    };
    let ghost whole = text.take(point - from);
    let ghost fraction = if point < to {
        text.skip(point - from + 1)
    } else {
        seq![]
    };
    assert(whole =~= s@.subrange(from as int, point as int));
    assert(fraction =~= s@.subrange(after as int, to as int));
    if !every_digit(s, from, point) || !every_digit(s, after, to) {
        return None;
    }
    let mut m: Vec<char> = Vec::new();
    let mut i: usize = from;
    while i < point
        invariant
            from <= i <= point <= s.len(),
            m@ == s@.subrange(from as int, i as int),
        decreases point - i,
    {
        m.push(s[i]);
        i += 1;
    }
    i = after;
    assert(m@ =~= whole + s@.subrange(after as int, after as int));
    while i < to
        invariant
            after <= i <= to <= s.len(),
            m@ == whole + s@.subrange(after as int, i as int),
        decreases to - i,
    {
        m.push(s[i]);
        i += 1;
        assert(m@ =~= whole + s@.subrange(after as int, i as int));
    }
    if m.len() == 0 {
        return None;
    }
    proof {
        assert forall|j: int| 0 <= j < m@.len() implies is_digit(#[trigger] m@[j]) by {
            if j < whole.len() {
                assert(is_digit(whole[j]));
            } else {
                assert(is_digit(fraction[j - whole.len()]));
            }
        }
        lemma_held(negative, m@, whole.len() as int, exact);
    }
    let count: usize = point - from;
    Some(from_digits(negative, &m, count as i128 + power))
}

/// The number `s` spells, if it spells one.
pub fn parse_number(s: &str) -> (r: Option<Double>)
    ensures
        r == number_of(s@),
{
    let cs = chars_of(s);
    let negative = cs.len() > 0 && cs[0] == '-';
    let start: usize = if cs.len() > 0 && (cs[0] == '+' || cs[0] == '-') {
        1
    } else {
        0
    };
    let bare = s.substring_char(start, cs.len());
    let ghost u = unsigned(s@);
    assert(u =~= s@.subrange(start as int, s@.len() as int));
    let name = to_lower(bare);
    if same(name.as_str(), "inf") || same(name.as_str(), "infinity") {
        return Some(Double::Infinite { negative });
    }
    if same(name.as_str(), "nan") {
        return Some(Double::NotANumber);
    }
    let mut e: usize = start;
    while e < cs.len() && cs[e] != 'e' && cs[e] != 'E'
        invariant
            start <= e <= cs.len(),
            cs@ == s@,
            u == s@.subrange(start as int, s@.len() as int),
            first_of(u, 'e', 'E', 0) == first_of(u, 'e', 'E', e - start),
        decreases cs.len() - e,
    {
        assert(u[e - start] == s@[e as int]);
        e += 1;
    }
    assert(e < cs.len() ==> u[e - start] == s@[e as int]);
    if e == cs.len() {
        return read_mantissa(negative, &cs, start, e, 0, Ghost(0));
    }
    assert(u.skip(e - start + 1) =~= s@.skip(e + 1));
    assert(u.take(e - start) =~= s@.subrange(start as int, e as int));
    match read_exponent(&cs, e + 1) {
        Some(power) => read_mantissa(
            negative,
            &cs,
            start,
            e,
            power,
            Ghost(exponent(u.skip(e - start + 1))->0),
        ),
        None => None,
    }
}

} // verus!
