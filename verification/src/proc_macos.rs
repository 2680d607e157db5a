//! What a Mac's process probes are turned into.
//!
//! CPU time comes in nanoseconds here, so [`ProcEntry::jiffies`] holds
//! nanoseconds and [`clk_tck`] names that unit: any backend may pick its own as
//! long as `clk_tck` says which.

use vstd::prelude::*;
use vstd::string::*;
use vstd::utf8::{decode_utf8, valid_utf8};

use crate::text::{from_utf8_lossy, lossy_utf8};
use crate::units::{add_u64, sum_u64};
use crate::views::opt_text;

pub use crate::proc::{children_map, nproc, ram_pct, rss_bytes, scan_proc, subtree, ProcEntry};

verus! {

/// CPU-time units per second.
pub fn clk_tck() -> (r: u64)
    ensures
        r == 1_000_000_000,
{
    1_000_000_000
}

/// Cumulative CPU time of a task: its user and system time together.
pub fn task_ticks(user: u64, system: u64) -> (r: u64)
    ensures
        r == sum_u64(user as int, system as int),
{
    add_u64(user, system)
}

// ---- listing the pids -----------------------------------------------------------------

/// Slack added to the pid buffer so a fork racing the sizing call still fits.
pub const PID_HEADROOM: u64 = 32;

/// How many times to grow and retry when the pid buffer comes back full.
pub const PID_LIST_ATTEMPTS: u64 = 4;

/// Where listing the pids stands.
#[derive(Debug, Clone, Copy, PartialEq, Eq, Structural)]
pub enum Listing {
    /// Ask how many pids there are; `capacity` is the largest buffer so far.
    Size { capacity: u64, attempts: u64 },
    /// Fill a buffer of this many pids.
    Fill { capacity: u64, attempts: u64 },
    /// The first `count` pids of the buffer are the answer.
    Done { count: u64 },
    /// Nothing could be listed.
    Failed,
}

/// Where listing starts.
pub fn list_start() -> (r: Listing)
    ensures
        r == (Listing::Size { capacity: 0, attempts: PID_LIST_ATTEMPTS }),
{
    Listing::Size { capacity: 0, attempts: PID_LIST_ATTEMPTS }
}

/// What the host's answer makes of a listing: a count that is not positive ends
/// it, a buffer that came back full may have been cut short and is grown, and
/// the attempts are bounded.
pub open spec fn listed(at: Listing, answer: int) -> Listing {
    match at {
        Listing::Size { capacity, attempts } => if attempts == 0 || answer <= 0 {
            Listing::Failed
        } else {
            Listing::Fill {
                capacity: if capacity > answer + PID_HEADROOM {
                    capacity
                } else {
                    (answer + PID_HEADROOM) as u64
                },
                attempts: (attempts - 1) as u64,
            }
        },
        Listing::Fill { capacity, attempts } => if answer <= 0 {
            Listing::Failed
        } else if answer >= capacity {
            Listing::Size { capacity: sum_u64(capacity as int, capacity as int) as u64, attempts }
        } else {
            Listing::Done { count: answer as u64 }
        },
        _ => at,
    }
}

/// Take the host's answer to the question a listing stands at.
pub fn list_step(at: Listing, answer: i32) -> (r: Listing)
    ensures
        r == listed(at, answer as int),
{
    match at {
        Listing::Size { capacity, attempts } => {
            if attempts == 0 || answer <= 0 {
                Listing::Failed
            } else {
                let needed: u64 = answer as u64 + PID_HEADROOM;
                Listing::Fill {
                    capacity: if capacity > needed {
                        capacity
                    } else {
                        needed
                    },
                    attempts: attempts - 1,
                }
            }
        },
        Listing::Fill { capacity, attempts } => {
            if answer <= 0 {
                Listing::Failed
            } else if answer as u64 >= capacity {
                Listing::Size { capacity: add_u64(capacity, capacity), attempts }
            } else {
                Listing::Done { count: answer as u64 }
            }
        },
        Listing::Done { count } => Listing::Done { count },
        Listing::Failed => Listing::Failed,
    }
}

/// The pids among the first `count` of a buffer: the positive ones, in order.
pub open spec fn positive(raw: Seq<i32>) -> Seq<u32>
    decreases raw.len(),
{
    if raw.len() == 0 {
        seq![]
    } else if raw.last() > 0 {
        positive(raw.drop_last()).push(raw.last() as u32)
    } else {
        positive(raw.drop_last())
    }
}

/// The pids a filled buffer lists. Pid 0 is a pseudo-process, so it is dropped.
pub fn list_pids(raw: &Vec<i32>, count: usize) -> (r: Vec<u32>)
    requires
        count <= raw.len(),
    ensures
        r@ == positive(raw@.take(count as int)),
{
    let mut r: Vec<u32> = Vec::new();
    let mut i: usize = 0;
    assert(r@ =~= positive(raw@.take(0)));
    while i < count
        invariant
            i <= count <= raw.len(),
            r@ == positive(raw@.take(i as int)),
        decreases count - i,
    {
        assert(raw@.take(i + 1).drop_last() =~= raw@.take(i as int));
        if raw[i] > 0 {
            r.push(raw[i] as u32);
        }
        i += 1;
    }
    r
}

// ---- names ------------------------------------------------------------------------------

/// A C character as the byte it is.
pub open spec fn c_byte(c: i8) -> u8 {
    if c < 0 {
        (c + 256) as u8
    } else {
        c as u8
    }
}

/// The bytes of a fixed-width C string field, up to its first NUL if it has one.
pub open spec fn c_bytes(field: Seq<i8>) -> Seq<u8>
    decreases field.len(),
{
    if field.len() == 0 || field[0] == 0 {
        seq![]
    } else {
        seq![c_byte(field[0])] + c_bytes(field.drop_first())
    }
}

/// The bytes of a field that stand before its terminator.
fn field_bytes(field: &[i8]) -> (r: Vec<u8>)
    ensures
        r@ == c_bytes(field@),
{
    let mut r: Vec<u8> = Vec::new();
    let mut i: usize = 0;
    assert(field@.skip(0) =~= field@);
    assert(r@ + c_bytes(field@) =~= c_bytes(field@));
    while i < field.len() && field[i] != 0
        invariant
            i <= field.len(),
            r@ + c_bytes(field@.skip(i as int)) == c_bytes(field@),
        decreases field.len() - i,
    {
        let c: i8 = field[i];
        let b: u8 = if c < 0 {
            (c as i16 + 256) as u8
        } else {
            c as u8
        };
        let ghost before = r@;
        r.push(b);
        assert(field@.skip(i as int).drop_first() =~= field@.skip(i + 1));
        assert(r@ + c_bytes(field@.skip(i + 1)) =~= before + c_bytes(field@.skip(i as int)));
        i += 1;
    }
    assert(c_bytes(field@.skip(i as int)) =~= seq![]);
    assert(r@ + c_bytes(field@.skip(i as int)) =~= r@);
    r
}

/// A fixed-width C string field as text, up to its first NUL, or the end of the
/// field if every byte of it was filled.
pub fn c_str_field(field: &[i8]) -> (r: String)
    ensures
        r@ == lossy_utf8(c_bytes(field@)),
        valid_utf8(c_bytes(field@)) ==> r@ == decode_utf8(c_bytes(field@)),
{
    let bytes = field_bytes(field);
    from_utf8_lossy(&bytes)
}

/// The name two name fields give: the longer one, the shorter where that is
/// empty, and none where both are: an empty name would match another.
pub open spec fn name_among(name: Seq<char>, comm: Seq<char>) -> Option<Seq<char>> {
    if name.len() > 0 {
        Some(name)
    } else if comm.len() > 0 {
        Some(comm)
    } else {
        None
    }
}

/// Pick the executable name out of two names.
pub fn pick_name(name: String, comm: String) -> (r: Option<String>)
    ensures
        opt_text(r) == name_among(name@, comm@),
{
    if !name.as_str().is_empty() {
        Some(name)
    } else if !comm.as_str().is_empty() {
        Some(comm)
    } else {
        None
    }
}

/// Pick the executable name out of the two name fields a host fills.
pub fn image_name(name: &[i8], comm: &[i8]) -> (r: Option<String>)
    ensures
        opt_text(r) == name_among(lossy_utf8(c_bytes(name@)), lossy_utf8(c_bytes(comm@))),
{
    pick_name(c_str_field(name), c_str_field(comm))
}

} // verus!
