//! What a Windows host's process probes are turned into.
//!
//! CPU time comes in ticks of a hundred nanoseconds here.

use vstd::prelude::*;
use vstd::string::*;

use crate::units::{add_u64, sum_u64};
use crate::views::opt_text;

pub use crate::proc::{children_map, nproc, ram_pct, rss_bytes, scan_proc, subtree, ProcEntry};

verus! {

/// CPU-time units per second.
pub fn clk_tck() -> (r: u64)
    ensures
        r == 10_000_000,
{
    10_000_000
}

/// A file time, given as its two halves, as one count of ticks.
pub fn filetime_ticks(high: u32, low: u32) -> (r: u64)
    ensures
        r == high * 0x1_0000_0000 + low,
{
    high as u64 * 0x1_0000_0000 + low as u64
}

/// Cumulative CPU ticks of a process: its kernel and user time together.
pub fn cpu_ticks(kernel: u64, user: u64) -> (r: u64)
    ensures
        r == sum_u64(kernel as int, user as int),
{
    add_u64(kernel, user)
}

/// Whether a code unit opens a surrogate pair.
pub open spec fn is_high(unit: u16) -> bool {
    0xd800 <= unit <= 0xdbff
}

/// Whether a code unit closes a surrogate pair.
pub open spec fn is_low(unit: u16) -> bool {
    0xdc00 <= unit <= 0xdfff
}

/// The text UTF-16 code units spell: a pair of surrogates is one character, a
/// surrogate without its partner is the replacement character, and any other unit
/// is the character of that number.
pub open spec fn utf16_text(units: Seq<u16>) -> Seq<char>
    decreases units.len(),
{
    if units.len() == 0 {
        seq![]
    } else if is_high(units[0]) && units.len() > 1 && is_low(units[1]) {
        seq![(0x10000 + (units[0] - 0xd800) * 0x400 + (units[1] - 0xdc00)) as char] + utf16_text(
            units.skip(2),
        )
    } else if is_high(units[0]) || is_low(units[0]) {
        seq!['\u{fffd}'] + utf16_text(units.skip(1))
    } else {
        seq![units[0] as char] + utf16_text(units.skip(1))
    }
}

/// `String::from_utf16_lossy` decodes UTF-16, each surrogate without its partner
/// replaced by U+FFFD.
#[verifier::external_body]
fn from_utf16_lossy(units: &Vec<u16>) -> (r: String)
    ensures
        r@ == utf16_text(units@),
{
    String::from_utf16_lossy(units)
}

/// The code units of a fixed-width field, up to its first NUL if it has one.
pub open spec fn wide_units(field: Seq<u16>) -> Seq<u16>
    decreases field.len(),
{
    if field.len() == 0 || field[0] == 0 {
        seq![]
    } else {
        seq![field[0]] + wide_units(field.drop_first())
    }
}

fn field_units(field: &[u16]) -> (r: Vec<u16>)
    ensures
        r@ == wide_units(field@),
{
    let mut r: Vec<u16> = Vec::new();
    let mut i: usize = 0;
    assert(field@.skip(0) =~= field@);
    assert(r@ + wide_units(field@) =~= wide_units(field@));
    while i < field.len() && field[i] != 0
        invariant
            i <= field.len(),
            r@ + wide_units(field@.skip(i as int)) == wide_units(field@),
        decreases field.len() - i,
    {
        let ghost before = r@;
        r.push(field[i]);
        assert(field@.skip(i as int).drop_first() =~= field@.skip(i + 1));
        assert(r@ + wide_units(field@.skip(i + 1)) =~= before + wide_units(field@.skip(i as int)));
        i += 1;
    }
    assert(wide_units(field@.skip(i as int)) =~= seq![]);
    assert(r@ + wide_units(field@.skip(i as int)) =~= r@);
    r
}

/// One row of a process snapshot: a pid and its file name field.
pub struct ImageRow {
    pub pid: u32,
    pub file: Vec<u16>,
}

/// The file name of `pid` in a snapshot, the last row of that pid standing.
pub open spec fn image_of(rows: Seq<ImageRow>, pid: u32) -> Option<Seq<char>>
    decreases rows.len(),
{
    if rows.len() == 0 {
        None
    } else if rows.last().pid == pid {
        Some(utf16_text(wide_units(rows.last().file@)))
    } else {
        image_of(rows.drop_last(), pid)
    }
}

/// Executable file name of `pid` in a process snapshot, or `None` when the
/// process is gone.
pub fn process_image_name(rows: &Vec<ImageRow>, pid: u32) -> (r: Option<String>)
    ensures
        opt_text(r) == image_of(rows@, pid),
{
    let mut found: Option<String> = None;
    let mut i: usize = 0;
    assert(rows@.take(0) =~= seq![]);
    while i < rows.len()
        invariant
            i <= rows.len(),
            opt_text(found) == image_of(rows@.take(i as int), pid),
        decreases rows.len() - i,
    {
        assert(rows@.take(i + 1).drop_last() =~= rows@.take(i as int));
        if rows[i].pid == pid {
            let units = field_units(rows[i].file.as_slice());
            found = Some(from_utf16_lossy(&units));
        }
        i += 1;
    }
    assert(rows@.take(i as int) =~= rows@);
    found
}

} // verus!
