//! Space on the drives the user selected.
//!
//! A mount that cannot be read yields no reading at all, and no cell is drawn
//! for it: a fabricated `0%` is worse than an absent one.

use vstd::arithmetic::power2::{lemma_pow2_adds, lemma_pow2_pos, pow2};
use vstd::prelude::*;
use vstd::string::*;

use crate::battery::{clamp_percent, clamped, in_range, lemma_clamped};
use crate::double::{
    double_of, lemma_double_of_zero, lemma_even_quotient, lemma_exact, lemma_sizes, lemma_whole,
    lemma_whole_quotient, lemma_worth_zero, less_than, multiplied, one, product, quotient, sum, whole, worth,
    zero, Double, DIGITS_END,
};
use crate::text::{chars_of, is_letter, letter, trim, trimmed};
use crate::units::{megabytes, nothing, percent, Percent, MB};

verus! {

/// Space on one filesystem, in megabytes.
#[derive(Debug, Clone, PartialEq, Eq)]
pub struct Disk {
    /// The mount as the user selected it.
    pub name: String,
    /// Space available to this user. Never above the total.
    pub free_mb: Double,
    /// Space already occupied. Not simply `total - free`: blocks reserved for
    /// root are neither used nor available to anyone else.
    pub used_mb: Double,
    /// Size of the filesystem. Always positive.
    pub total_mb: Double,
}

/// What a [`Disk`] says, in plain values.
pub struct DiskView {
    pub name: Seq<char>,
    pub free_mb: Double,
    pub used_mb: Double,
    pub total_mb: Double,
}

impl View for Disk {
    type V = DiskView;

    open spec fn view(&self) -> DiskView {
        DiskView {
            name: self.name@,
            free_mb: self.free_mb,
            used_mb: self.used_mb,
            total_mb: self.total_mb,
        }
    }
}

/// What a list of drives says.
pub open spec fn disk_views(v: Seq<Disk>) -> Seq<DiskView> {
    v.map_values(|d: Disk| d@)
}

impl DiskView {
    /// Percent in use, as `df` prints it: used against used plus available.
    pub open spec fn used_share(self) -> Percent {
        let usable = sum(self.used_mb, self.free_mb);
        if !(usable is NotANumber) && !less_than(zero(false), usable) {
            nothing()
        } else {
            clamped(quotient(product(self.used_mb, 100), usable))
        }
    }
}

impl Disk {
    /// Percent of the filesystem in use: the figure `df` prints under `Use%`.
    ///
    /// The denominator is used plus available, not the filesystem size: the
    /// blocks reserved for root belong to neither side.
    pub fn used_percent(&self) -> (r: Percent)
        ensures
            r == self@.used_share(),
    {
        let usable = self.used_mb.plus(self.free_mb);
        let number = match usable {
            Double::NotANumber => false,
            _ => true,
        };
        if number && !Double::nothing().below(usable) {
            return Percent::none();
        }
        clamp_percent(self.used_mb.times(100).over(usable))
    }

    /// A copy of the reading.
    pub fn copied(&self) -> (r: Disk)
        ensures
            r@ == self@,
    {
        Disk {
            name: self.name.clone(),
            free_mb: self.free_mb,
            used_mb: self.used_mb,
            total_mb: self.total_mb,
        }
    }
}

/// A number of bytes pinned between nothing and `top`, in megabytes.
pub open spec fn pinned_mb(bytes: Double, top: Double) -> Double {
    quotient(
        if less_than(bytes, zero(false)) {
            zero(false)
        } else if less_than(top, bytes) {
            top
        } else {
            bytes
        },
        whole(MB as int),
    )
}

/// The reading three byte counts make: none where a count is no finite number or
/// the size is not positive, and both figures pinned into the size.
pub open spec fn reading_of(
    name: Seq<char>,
    free: Double,
    used: Double,
    total: Double,
) -> Option<DiskView> {
    if free is Finite && used is Finite && total is Finite && less_than(zero(false), total) {
        Some(
            DiskView {
                name,
                free_mb: pinned_mb(free, total),
                used_mb: pinned_mb(used, total),
                total_mb: quotient(total, whole(MB as int)),
            },
        )
    } else {
        None
    }
}

/// A reading's view, where there is one.
pub open spec fn opt_disk(d: Option<Disk>) -> Option<DiskView> {
    match d {
        Some(d) => Some(d@),
        None => None,
    }
}

fn pin_mb(bytes: Double, top: Double) -> (r: Double)
    ensures
        r == pinned_mb(bytes, top),
{
    let none = Double::nothing();
    let pinned = if bytes.below(none) {
        none
    } else if top.below(bytes) {
        top
    } else {
        bytes
    };
    pinned.over(Double::from_whole(MB))
}

/// The single gate every backend pushes its raw byte counts through.
///
/// A count that is no finite number is rejected, like a size that is nothing or
/// less: there would be nothing to be a percentage of.
pub fn from_bytes(
    name: &str,
    free_bytes: Double,
    used_bytes: Double,
    total_bytes: Double,
) -> (r: Option<Disk>)
    ensures
        opt_disk(r) == reading_of(name@, free_bytes, used_bytes, total_bytes),
{
    if !free_bytes.is_finite() || !used_bytes.is_finite() || !total_bytes.is_finite()
        || !Double::nothing().below(total_bytes) {
        return None;
    }
    Some(
        Disk {
            name: name.to_owned(),
            free_mb: pin_mb(free_bytes, total_bytes),
            used_mb: pin_mb(used_bytes, total_bytes),
            total_mb: total_bytes.over(Double::from_whole(MB)),
        },
    )
}

/// So many blocks of a size, in bytes.
pub open spec fn in_blocks(count: u64, size: u64) -> Double {
    multiplied(whole(count as int), whole(size as int))
}

fn blocks_size(count: u64, size: u64) -> (r: Double)
    ensures
        r == in_blocks(count, size),
{
    Double::from_whole(count).multiply(Double::from_whole(size))
}

/// The block size the counts are expressed in: the fragment size, or the
/// preferred block size where that is zero.
pub open spec fn block_size(fragment: u64, preferred: u64) -> u64 {
    if fragment > 0 {
        fragment
    } else {
        preferred
    }
}

/// `a - b`, or nothing where that is below zero.
pub open spec fn less(a: u64, b: u64) -> u64 {
    if a > b {
        (a - b) as u64
    } else {
        0
    }
}

/// The reading the counts of a filesystem make.
///
/// `available` is the room this user can still fill, which leaves out the blocks
/// reserved for root; `blocks - free` is what is occupied.
pub fn from_blocks(
    name: &str,
    fragment: u64,
    preferred: u64,
    blocks: u64,
    free: u64,
    available: u64,
) -> (r: Option<Disk>)
    ensures
        opt_disk(r) == reading_of(
            name@,
            in_blocks(available, block_size(fragment, preferred)),
            in_blocks(less(blocks, free), block_size(fragment, preferred)),
            in_blocks(blocks, block_size(fragment, preferred)),
        ),
{
    let size: u64 = if fragment > 0 {
        fragment
    } else {
        preferred
    };
    let occupied: u64 = if blocks > free {
        blocks - free
    } else {
        0
    };
    from_bytes(
        name,
        blocks_size(available, size),
        blocks_size(occupied, size),
        blocks_size(blocks, size),
    )
}

/// The reading a volume's byte counters make: the room the caller may fill, the
/// size, and what is free in all.
pub fn from_volume(name: &str, free_to_caller: u64, total: u64, total_free: u64) -> (r: Option<
    Disk,
>)
    ensures
        opt_disk(r) == reading_of(
            name@,
            whole(free_to_caller as int),
            whole(less(total, total_free) as int),
            whole(total as int),
        ),
{
    let occupied: u64 = if total > total_free {
        total - total_free
    } else {
        0
    };
    from_bytes(
        name,
        Double::from_whole(free_to_caller),
        Double::from_whole(occupied),
        Double::from_whole(total),
    )
}

/// The answers that are readings, in the order given.
pub open spec fn answered(answers: Seq<Option<Disk>>) -> Seq<Disk>
    decreases answers.len(),
{
    if answers.len() == 0 {
        seq![]
    } else {
        match answers.last() {
            Some(d) => answered(answers.drop_last()).push(d),
            None => answered(answers.drop_last()),
        }
    }
}

/// Readings for the selected mounts, given each one's answer in the order of the
/// selection; every mount that could not be answered for is skipped.
pub fn read(answers: Vec<Option<Disk>>) -> (r: Vec<Disk>)
    ensures
        disk_views(r@) == disk_views(answered(answers@)),
{
    let mut r: Vec<Disk> = Vec::new();
    let mut i: usize = 0;
    assert(answers@.take(0) =~= seq![]);
    assert(disk_views(r@) =~= disk_views(answered(answers@.take(0))));
    while i < answers.len()
        invariant
            i <= answers.len(),
            disk_views(r@) == disk_views(answered(answers@.take(i as int))),
        decreases answers.len() - i,
    {
        let ghost before = r@;
        assert(answers@.take(i + 1).drop_last() =~= answers@.take(i as int));
        if let Some(d) = &answers[i] {
            let copy = d.copied();
            r.push(copy);
            assert(disk_views(r@) =~= disk_views(before).push(copy@));
            assert(disk_views(answered(answers@.take(i as int)).push(*d)) =~= disk_views(
                answered(answers@.take(i as int)),
            ).push(d@));
        }
        i += 1;
    }
    assert(answers@.take(i as int) =~= answers@);
    r
}

/// A drive as a person writes it, as a directory the host's API accepts: a bare
/// letter, with or without its colon, means the root of that drive.
pub open spec fn mount_path(mount: Seq<char>) -> Seq<char> {
    let m = trim(mount);
    if (m.len() == 1 || (m.len() == 2 && m[1] == ':')) && is_letter(m[0]) {
        seq![m[0]] + ":\\"@
    } else {
        m
    }
}

/// Turn a drive as a person writes it into a directory the host can be asked
/// about: a bare letter, with or without its colon, is the root of that drive.
pub fn normalize_mount(mount: &str) -> (r: String)
    ensures
        r@ == mount_path(mount@),
{
    let m = trimmed(mount);
    let cs = chars_of(m);
    if (cs.len() == 1 || (cs.len() == 2 && cs[1] == ':')) && letter(cs[0]) {
        let mut r = String::new();
        r.push(cs[0]);
        r.append(":\\");
        assert(r@ =~= seq![cs[0]] + ":\\"@);
        r
    } else {
        m.to_owned()
    }
}

/// A drive with nothing used is at nothing, and one with nothing left is at a
/// hundred, as long as a hundred times the bytes used is a whole number that fits
/// a double; no drive is below the one or above the other.
pub proof fn law_used_percent_covers_both_ends(d: DiskView, used: int)
    requires
        0 <= used,
        used * 100 < DIGITS_END,
        d.used_mb == megabytes(used),
    ensures
        used == 0 && !(d.free_mb is NotANumber) ==> d.used_share() == nothing(),
        used > 0 && d.free_mb == zero(false) ==> d.used_share() == percent(100),
        d.used_share().value is NotANumber || in_range(d.used_share().value),
{
    let u = one();
    lemma_pow2_pos(1074);
    lemma_megabytes(used);
    lemma_clamped(zero(false));
    lemma_whole(100);
    assert(0 * pow2(0) == 0);
    assert(100 * u > 0);
    let usable = sum(d.used_mb, d.free_mb);
    lemma_clamped(quotient(product(megabytes(used), 100), usable));
    if used == 0 {
        if less_than(zero(false), usable) {
            lemma_zero_share(usable);
        }
    } else if d.free_mb == zero(false) {
        lemma_full_share(used);
    }
}

/// A size that fits is a whole number of steps of a megabyte's share.
pub(crate) proof fn lemma_megabytes(bytes: int)
    requires
        0 <= bytes,
        bytes * 100 < DIGITS_END,
    ensures
        megabytes(bytes) == double_of(false, bytes * pow2(1054), 1),
        megabytes(bytes) matches Double::Finite { negative, digits, power } && !negative && worth(
            digits as int,
            power as int,
        ) == bytes * pow2(1054),
        product(megabytes(bytes), 100) == double_of(false, (100 * bytes) * pow2(1054), 1),
{
    lemma_whole_quotient(bytes, MB as int);
    lemma_sizes();
    lemma_pow2_adds(20, 1054);
    vstd::arithmetic::power2::lemma2_to64();
    let p = pow2(1054) as int;
    lemma_pow2_pos(1054);
    assert(bytes * (MB * p) == (bytes * p) * MB) by (nonlinear_arith);
    assert(bytes * p >= 0) by (nonlinear_arith)
        requires
            bytes >= 0,
            p > 0,
    ;
    lemma_even_quotient(false, bytes * p, MB as int);
    lemma_pow2_adds(53, 1054);
    assert(bytes * p < DIGITS_END * p) by (nonlinear_arith)
        requires
            bytes < DIGITS_END,
            p > 0,
    ;
    vstd::arithmetic::div_mod::lemma_fundamental_div_mod_converse(bytes * p, p, bytes, 0);
    lemma_exact(false, bytes * p, 1054);
    assert((bytes * p) * 100 == (100 * bytes) * p) by (nonlinear_arith);
}

proof fn lemma_zero_share(usable: Double)
    requires
        less_than(zero(false), usable),
    ensures
        quotient(product(megabytes(0), 100), usable) == zero(false),
{
    lemma_megabytes(0);
    assert(0 * pow2(1054) == 0);
    lemma_double_of_zero(false, 1);
    assert(0 * pow2(0) == 0);
    if let Double::Finite { negative, digits, power } = usable {
        lemma_worth_zero(digits as int, power as int);
        assert(0 * one() == 0);
        lemma_double_of_zero(false, worth(digits as int, power as int));
    }
}

/// A hundred times one size over another, where it comes out even.
pub(crate) proof fn lemma_even_share(part: int, total: int, c: int)
    requires
        0 <= part,
        part * 100 < DIGITS_END,
        0 < total,
        total * 100 < DIGITS_END,
        0 <= c,
        100 * part * one() == c * total,
    ensures
        quotient(product(megabytes(part), 100), double_of(false, total * pow2(1054), 1))
            == double_of(false, c, 1),
{
    let p = pow2(1054) as int;
    let u = one();
    lemma_pow2_pos(1054);
    lemma_pow2_pos(1074);
    lemma_megabytes(part);
    lemma_megabytes(total);
    lemma_sizes();
    lemma_pow2_adds(53, 1054);
    let n = 100 * part;
    assert(0 <= n * p < DIGITS_END * p) by (nonlinear_arith)
        requires
            0 <= n < DIGITS_END,
            p > 0,
    ;
    vstd::arithmetic::div_mod::lemma_fundamental_div_mod_converse(n * p, p, n, 0);
    lemma_exact(false, n * p, 1054);
    assert(total * p > 0) by (nonlinear_arith)
        requires
            total > 0,
            p > 0,
    ;
    if let Double::Finite { negative, digits, power } = megabytes(total) {
        lemma_worth_zero(digits as int, power as int);
    }
    assert((n * p) * u == c * (total * p)) by (nonlinear_arith)
        requires
            n * u == c * total,
    ;
    lemma_even_quotient(false, c, total * p);
}

proof fn lemma_full_share(used: int)
    requires
        0 < used,
        used * 100 < DIGITS_END,
    ensures
        ({
            let usable = sum(megabytes(used), zero(false));
            &&& less_than(zero(false), usable)
            &&& quotient(product(megabytes(used), 100), usable) == whole(100)
        }),
{
    let p = pow2(1054) as int;
    let u = one();
    lemma_pow2_pos(1054);
    lemma_pow2_pos(1074);
    lemma_megabytes(used);
    assert(0 * pow2(0) == 0);
    assert(used * p > 0) by (nonlinear_arith)
        requires
            used > 0,
            p > 0,
    ;
    lemma_sizes();
    lemma_pow2_adds(53, 1054);
    let n = 100 * used;
    assert(n * p < DIGITS_END * p && n * p >= 0) by (nonlinear_arith)
        requires
            0 <= n < DIGITS_END,
            p > 0,
    ;
    vstd::arithmetic::div_mod::lemma_fundamental_div_mod_converse(n * p, p, n, 0);
    lemma_exact(false, n * p, 1054);
    if let Double::Finite { negative, digits, power } = megabytes(used) {
        lemma_worth_zero(digits as int, power as int);
    }
    assert((n * p) * u == (100 * u) * (used * p)) by (nonlinear_arith)
        requires
            n == 100 * used,
    ;
    lemma_even_quotient(false, 100 * u, used * p);
}

/// Writing a drive out once more changes nothing.
pub proof fn law_mount_path_is_stable(mount: Seq<char>)
    ensures
        mount_path(mount_path(mount)) == mount_path(mount),
{
    reveal_strlit(":\\");
    let m = trim(mount);
    let p = mount_path(mount);
    crate::text::lemma_trim_start(mount);
    crate::text::lemma_trim_end(crate::text::trim_start(mount));
    if m.len() == 0 {
        crate::text::lemma_blank(m);
        assert(trim(m) =~= m);
    } else {
        assert(m[0] == crate::text::trim_start(mount)[0]);
        crate::text::lemma_trim_core(p);
    }
}

} // verus!
