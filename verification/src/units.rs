//! Shares and sizes, and how each is rounded for display.

use vstd::prelude::*;
use vstd::string::*;

use crate::double::{as_i64, fixed_text, less_than, product, quotient, sum, whole, zero, Double};
use crate::text::{digits, glued, int_digits, int_text};

verus! {

/// A share of something, in percent.
///
/// A reading may be impossible (below nothing, or past a hundred): it is kept as
/// it is and reported honestly.
#[derive(Debug, Clone, Copy, PartialEq, Eq, Structural)]
pub struct Percent {
    pub value: Double,
}

/// So many whole percent.
pub open spec fn percent(n: int) -> Percent {
    Percent { value: whole(n) }
}

/// Whether a share is so many percent or more.
pub open spec fn at_least(share: Percent, n: int) -> bool {
    not_below(share.value, n)
}

/// No percent at all.
pub open spec fn nothing() -> Percent {
    Percent { value: zero(false) }
}

/// Bytes in a megabyte.
pub const MB: u64 = 0x10_0000;

/// `n / d` rounded to the nearest whole number, a half away from zero.
pub open spec fn nearest(n: int, d: int) -> int {
    if n >= 0 {
        (2 * n + d) / (2 * d)
    } else {
        -((-2 * n + d) / (2 * d))
    }
}

/// `n / d` rounded to the nearest whole number, a half to the even one, for
/// nothing below zero.
pub open spec fn nearest_even(n: int, d: int) -> int {
    let q = n / d;
    let r = n % d;
    if 2 * r < d || (2 * r == d && q % 2 == 0) {
        q
    } else {
        q + 1
    }
}

/// `n` held within the range of an `i64`.
pub open spec fn held_i64(n: int) -> int {
    if n > i64::MAX {
        i64::MAX as int
    } else if n < i64::MIN {
        i64::MIN as int
    } else {
        n
    }
}

/// `a + b` held within the range of a `u64`.
pub open spec fn sum_u64(a: int, b: int) -> int {
    if a + b > u64::MAX {
        u64::MAX as int
    } else {
        a + b
    }
}

/// A number of tenths, hundredths or so on with its point: `whole`, a point and
/// the remaining `places` digits.
pub open spec fn point_text(n: int, scale: int, places: int) -> Seq<char> {
    digits(n / scale) + seq!['.'] + padded_digits(n % scale, places)
}

/// `n` in decimal with zeros in front up to `places` digits.
pub open spec fn padded_digits(n: int, places: int) -> Seq<char> {
    pad_left(digits(n), places, '0')
}

/// `s` with `fill` in front up to `width` characters.
pub open spec fn pad_left(s: Seq<char>, width: int, fill: char) -> Seq<char>
    decreases width - s.len(),
{
    if s.len() >= width {
        s
    } else {
        pad_left(seq![fill] + s, width, fill)
    }
}

/// `s` with `fill` behind up to `width` characters.
pub open spec fn pad_right(s: Seq<char>, width: int, fill: char) -> Seq<char>
    decreases width - s.len(),
{
    if s.len() >= width {
        s
    } else {
        pad_right(s.push(fill), width, fill)
    }
}

pub fn padded_left(s: &str, width: usize, fill: char) -> (r: String)
    ensures
        r@ == pad_left(s@, width as int, fill),
{
    let count: usize = s.unicode_len();
    let mut front = String::new();
    let mut k: usize = count;
    assert(front@ + s@ =~= s@);
    while k < width
        invariant
            count <= k,
            s@.len() == count,
            front@.len() == k - count,
            pad_left(s@, width as int, fill) == pad_left(front@ + s@, width as int, fill),
            forall|i: int| 0 <= i < front@.len() ==> front@[i] == fill,
        decreases width - k,
    {
        let ghost before = front@;
        front.push(fill);
        assert(front@ + s@ =~= seq![fill] + (before + s@));
        k += 1;
    }
    glued(front.as_str(), s)
}

pub fn padded_right(s: &str, width: usize, fill: char) -> (r: String)
    ensures
        r@ == pad_right(s@, width as int, fill),
{
    let mut r = s.to_owned();
    let mut k: usize = s.unicode_len();
    while k < width
        invariant
            r@.len() == k,
            pad_right(s@, width as int, fill) == pad_right(r@, width as int, fill),
        decreases width - k,
    {
        r.push(fill);
        k += 1;
    }
    r
}

/// `a + b`, held within range.
pub fn add_u64(a: u64, b: u64) -> (r: u64)
    ensures
        r == sum_u64(a as int, b as int),
{
    if a > u64::MAX - b {
        u64::MAX
    } else {
        a + b
    }
}

// ---- shares ------------------------------------------------------------------------

/// Bytes in megabytes.
pub open spec fn megabytes(bytes: int) -> Double {
    quotient(whole(bytes), whole(MB as int))
}

/// `part` of `total`, in percent.
pub open spec fn share(part: Double, total: Double) -> Double {
    quotient(product(part, 100), total)
}

/// Bytes in megabytes.
pub fn in_megabytes(bytes: u64) -> (r: Double)
    ensures
        r == megabytes(bytes as int),
{
    Double::from_whole(bytes).over(Double::from_whole(MB))
}

/// `part` of `total`.
pub fn share_of(part: Double, total: Double) -> (r: Percent)
    ensures
        r.value == share(part, total),
{
    Percent { value: part.times(100).over(total) }
}

/// Whether a figure is above nothing.
pub fn is_positive(value: Double) -> (r: bool)
    ensures
        r == less_than(zero(false), value),
{
    Double::nothing().below(value)
}

impl Percent {
    /// Whole percent as shown in a narrow cell: nearest, a half away from zero,
    /// held within the range of an `i64`.
    pub open spec fn whole(self) -> int {
        as_i64(self.value) as int
    }

    /// The share with one decimal, a half to the even tenth.
    pub open spec fn one_decimal(self) -> Seq<char> {
        fixed_text(self.value, 10, 1)
    }

    /// Whether the share is so many percent or more.
    pub fn reaches(self, n: u64) -> (r: bool)
        ensures
            r == at_least(self, n as int),
    {
        reaches(self.value, n)
    }

    /// So many whole percent.
    pub fn new(n: u64) -> (r: Percent)
        ensures
            r == percent(n as int),
    {
        Percent { value: Double::from_whole(n) }
    }

    /// No percent at all.
    pub fn none() -> (r: Percent)
        ensures
            r == nothing(),
    {
        Percent { value: Double::Finite { negative: false, digits: 0, power: 0 } }
    }

    pub fn rounded(self) -> (r: i64)
        ensures
            r == self.whole(),
    {
        self.value.to_i64()
    }

    pub fn text_1dp(self) -> (r: String)
        ensures
            r@ == self.one_decimal(),
    {
        self.value.text_1dp()
    }

    /// Two shares together.
    pub fn plus(self, other: Percent) -> (r: Percent)
        ensures
            r.value == sum(self.value, other.value),
    {
        Percent { value: self.value.plus(other.value) }
    }
}

// ---- sizes -------------------------------------------------------------------------

/// Whether a double is so much or more.
pub open spec fn not_below(value: Double, n: int) -> bool {
    !(value is NotANumber) && !less_than(value, whole(n))
}

/// A size in megabytes in the wide form: `<x.xx> GB` from a gigabyte on, else
/// whole MB.
pub open spec fn wide_size(mb: Double) -> Seq<char> {
    if not_below(mb, 1024) {
        fixed_text(quotient(mb, whole(1024)), 100, 2) + " GB"@
    } else {
        int_digits(as_i64(mb) as int) + " MB"@
    }
}

/// A size in `unit`s of `scale` megabytes: one decimal below ten, none from there.
pub open spec fn in_units(mb: Double, scale: int, unit: Seq<char>) -> Seq<char> {
    let value = quotient(mb, whole(scale));
    (if not_below(value, 10) {
        int_digits(as_i64(value) as int)
    } else {
        fixed_text(value, 10, 1)
    }) + unit
}

/// A size in megabytes in the compact form: `512M`, `1.5G`, `231G`, `1.2T`.
pub open spec fn small_size(mb: Double) -> Seq<char> {
    if not_below(mb, 1_048_576) {
        in_units(mb, 1_048_576, "T"@)
    } else if not_below(mb, 1024) {
        in_units(mb, 1024, "G"@)
    } else {
        int_digits(as_i64(mb) as int) + "M"@
    }
}

fn reaches(value: Double, n: u64) -> (r: bool)
    ensures
        r == not_below(value, n as int),
{
    match value {
        Double::NotANumber => false,
        _ => !value.below(Double::from_whole(n)),
    }
}

fn size_in(mb: Double, scale: u64, unit: &str) -> (r: String)
    ensures
        r@ == in_units(mb, scale as int, unit@),
{
    let value = mb.over(Double::from_whole(scale));
    if reaches(value, 10) {
        glued(int_text(value.to_i64() as i128).as_str(), unit)
    } else {
        glued(value.text_1dp().as_str(), unit)
    }
}

/// Format a RAM figure in megabytes the wide way the terminal report uses.
pub fn fmt_ram(mb: Double) -> (r: String)
    ensures
        r@ == wide_size(mb),
{
    if reaches(mb, 1024) {
        glued(mb.over(Double::from_whole(1024)).text_2dp().as_str(), " GB")
    } else {
        glued(int_text(mb.to_i64() as i128).as_str(), " MB")
    }
}

/// Compact absolute size for the narrow cells, of a figure in megabytes.
///
/// One decimal below ten units and none from there on: `1.5G` says something
/// `2G` does not, while `231.0G` is two characters of noise.
pub fn compact_size(mb: Double) -> (r: String)
    ensures
        r@ == small_size(mb),
{
    if reaches(mb, 1_048_576) {
        size_in(mb, 1_048_576, "T")
    } else if reaches(mb, 1024) {
        size_in(mb, 1024, "G")
    } else {
        glued(int_text(mb.to_i64() as i128).as_str(), "M")
    }
}

} // verus!
