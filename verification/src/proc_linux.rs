//! What the text under a Linux host's `/proc` is turned into.

use vstd::prelude::*;
use vstd::string::*;

use crate::proc::ProcEntry;
use crate::text::{chars_of, parse_whole, same, split, split_on, split_words, whole_number, words};
use crate::units::{add_u64, sum_u64};
use crate::views::texts;

pub use crate::proc::{children_map, nproc, ram_pct, rss_bytes, scan_proc, subtree};

verus! {

/// What stands behind the last `)`: the command name before it may hold anything.
pub open spec fn behind_name(stat: Seq<char>) -> Seq<char>
    decreases stat.len(),
{
    if stat.len() == 0 || stat.last() == ')' {
        seq![]
    } else {
        behind_name(stat.drop_last()).push(stat.last())
    }
}

/// The whole number at a place among words, when there is one that fits.
pub open spec fn number_at(fields: Seq<Seq<char>>, i: int, max: int) -> Option<int> {
    if 0 <= i < fields.len() {
        match whole_number(fields[i]) {
            Some(n) => if n <= max {
                Some(n)
            } else {
                None
            },
            None => None,
        }
    } else {
        None
    }
}

/// The parent and the CPU time a `stat` line reports: its user and system time
/// together.
pub open spec fn stat_entry(stat: Seq<char>) -> Option<ProcEntry> {
    let fields = words(behind_name(stat));
    match (
        number_at(fields, 1, u32::MAX as int),
        number_at(fields, 11, u64::MAX as int),
        number_at(fields, 12, u64::MAX as int),
    ) {
        (Some(ppid), Some(user), Some(system)) => Some(
            ProcEntry { ppid: ppid as u32, jiffies: sum_u64(user, system) as u64 },
        ),
        _ => None,
    }
}

fn read_at(fields: &Vec<String>, i: usize, max: u64) -> (r: Option<u64>)
    ensures
        match r {
            Some(n) => number_at(texts(fields@), i as int, max as int) == Some(n as int),
            None => number_at(texts(fields@), i as int, max as int) is None,
        },
{
    if i >= fields.len() {
        return None;
    }
    assert(texts(fields@)[i as int] == fields@[i as int]@);
    match parse_whole(fields[i].as_str()) {
        Some(n) => if n <= max {
            Some(n)
        } else {
            None
        },
        None => None,
    }
}

/// Read a process's `stat` line.
pub fn parse_stat(stat: &str) -> (r: Option<ProcEntry>)
    ensures
        r == stat_entry(stat@),
{
    let cs = chars_of(stat);
    let mut i: usize = cs.len();
    let ghost mut tail = Seq::<char>::empty();
    assert(stat@.take(i as int) =~= stat@);
    assert(behind_name(stat@) + tail =~= behind_name(stat@));
    while i > 0 && cs[i - 1] != ')'
        invariant
            i <= cs.len(),
            cs@ == stat@,
            tail == stat@.skip(i as int),
            behind_name(stat@.take(i as int)) + tail == behind_name(stat@),
        decreases i,
    {
        proof {
            let p = stat@.take(i as int);
            assert(p.drop_last() =~= stat@.take(i - 1));
            assert(behind_name(stat@.take(i - 1)).push(p.last()) + tail =~= behind_name(
                stat@.take(i - 1),
            ) + stat@.skip(i - 1));
            tail = stat@.skip(i - 1);
        }
        i -= 1;
    }
    let rest = stat.substring_char(i, cs.len());
    proof {
        assert(behind_name(stat@.take(i as int)) =~= seq![]);
        assert(rest@ =~= stat@.skip(i as int));
        assert(behind_name(stat@) =~= rest@);
    }
    let fields = split_words(rest);
    match (
        read_at(&fields, 1, u32::MAX as u64),
        read_at(&fields, 11, u64::MAX),
        read_at(&fields, 12, u64::MAX),
    ) {
        (Some(ppid), Some(user), Some(system)) => Some(
            ProcEntry { ppid: ppid as u32, jiffies: add_u64(user, system) },
        ),
        _ => None,
    }
}

/// `a * b`, held within the range of a `u64`.
pub open spec fn product_u64(a: int, b: int) -> int {
    if a * b > u64::MAX {
        u64::MAX as int
    } else {
        a * b
    }
}

fn mul_u64(a: u64, b: u64) -> (r: u64)
    ensures
        r == product_u64(a as int, b as int),
{
    match a.checked_mul(b) {
        Some(n) => n,
        None => u64::MAX,
    }
}

/// Resident bytes a `statm` line reports, in pages of the given size.
pub open spec fn statm_bytes(statm: Seq<char>, page_size: u64) -> Option<int> {
    match number_at(words(statm), 1, u64::MAX as int) {
        Some(pages) => Some(product_u64(pages, page_size as int)),
        None => None,
    }
}

/// Read a process's `statm` line.
pub fn parse_statm(statm: &str, page_size: u64) -> (r: Option<u64>)
    ensures
        match r {
            Some(n) => statm_bytes(statm@, page_size) == Some(n as int),
            None => statm_bytes(statm@, page_size) is None,
        },
{
    let fields = split_words(statm);
    match read_at(&fields, 1, u64::MAX) {
        Some(pages) => Some(mul_u64(pages, page_size)),
        None => None,
    }
}

/// The total a `meminfo` text reports, in bytes: the first `MemTotal:` line's
/// kilobytes, nothing where there is none.
pub open spec fn meminfo_total(lines: Seq<Seq<char>>) -> int
    decreases lines.len(),
{
    if lines.len() == 0 {
        0
    } else {
        let fields = words(lines[0]);
        if fields.len() > 0 && fields[0] == "MemTotal:"@ {
            match number_at(fields, 1, u64::MAX as int) {
                Some(kb) => product_u64(kb, 1024),
                None => 0,
            }
        } else {
            meminfo_total(lines.drop_first())
        }
    }
}

/// Read the machine's total RAM out of a `meminfo` text, zero when it is not
/// there.
pub fn parse_mem_total(meminfo: &str) -> (r: u64)
    ensures
        r == meminfo_total(split(meminfo@, '\n')),
{
    let lines = split_on(meminfo, '\n');
    let ghost all = texts(lines@);
    let mut i: usize = 0;
    assert(all.skip(0) =~= all);
    while i < lines.len()
        invariant
            i <= lines.len(),
            all == texts(lines@),
            all == split(meminfo@, '\n'),
            meminfo_total(all) == meminfo_total(all.skip(i as int)),
        decreases lines.len() - i,
    {
        assert(all.skip(i as int).drop_first() =~= all.skip(i + 1));
        let fields = split_words(lines[i].as_str());
        if fields.len() > 0 {
            assert(texts(fields@)[0] == fields@[0]@);
            if same(fields[0].as_str(), "MemTotal:") {
                return match read_at(&fields, 1, u64::MAX) {
                    Some(kb) => mul_u64(kb, 1024),
                    None => 0,
                };
            }
        }
        assert(texts(fields@).len() == fields@.len());
        i += 1;
    }
    0
}

} // verus!
