//! What measuring a space comes to, told by the process tables alone.

use vstd::arithmetic::power2::{lemma_pow2_adds, lemma_pow2_pos, pow2};
use vstd::prelude::*;

use crate::collect::{
    all_roots, cpu_load, lemma_set_sum_remove, measured, resident, seconds_of, set_sum, ticks_used,
    Window,
};
use crate::collect_laws::{lemma_over_whole, lemma_times_hundred, lemma_whole_seconds};
use crate::double::{
    double_of, lemma_double_of_zero, lemma_even_quotient, lemma_exact, lemma_monotone, lemma_sizes,
    lemma_whole, lemma_whole_quotient, lemma_worth_zero, less_than, no_more, one, product,
    quotient, sum, whole, worth, zero, Double, DIGITS_END,
};
use crate::model::SpaceView;
use crate::proc::{process_tree, runs_down_to, runs_under, ProcEntry};
use crate::units::{megabytes, MB};

verus! {

// ---- the processes of a space -------------------------------------------------------------------

/// Whether a set of processes holds every process of the table whose parent it
/// holds.
pub open spec fn closed_under(procs: Map<u32, ProcEntry>, s: Set<u32>) -> bool {
    forall|c: u32| #[trigger]
        procs.contains_key(c) && s.contains(procs[c].ppid) ==> s.contains(c)
}

proof fn lemma_line_in(
    procs: Map<u32, ProcEntry>,
    roots: Seq<u32>,
    pid: u32,
    path: Seq<u32>,
    s: Set<u32>,
    i: int,
)
    requires
        runs_down_to(procs, roots, pid, path),
        closed_under(procs, s),
        forall|k: int| 0 <= k < roots.len() ==> s.contains(#[trigger] roots[k]),
        0 <= i < path.len(),
    ensures
        s.contains(path[i]),
    decreases i,
{
    if i == 0 {
        let k = choose|k: int| 0 <= k < roots.len() && roots[k] == path[0];
        assert(s.contains(roots[k]));
    } else {
        lemma_line_in(procs, roots, pid, path, s, i - 1);
        assert(runs_under(procs, path[i - 1], path[i]));
        assert(procs.contains_key(path[i]));
    }
}

/// The processes of a space are its roots and every process running somewhere
/// below one: they hold each root and each process whose parent they hold, and are
/// part of every other set that does.
pub proof fn law_a_spaces_processes_are_its_subtrees(
    procs: Map<u32, ProcEntry>,
    roots: Seq<u32>,
    other: Set<u32>,
)
    ensures
        forall|k: int|
            0 <= k < roots.len() ==> process_tree(procs, roots).contains(#[trigger] roots[k]),
        closed_under(procs, process_tree(procs, roots)),
        closed_under(procs, other) && (forall|k: int|
            0 <= k < roots.len() ==> other.contains(#[trigger] roots[k])) ==> process_tree(
            procs,
            roots,
        ).subset_of(other),
{
    let tree = process_tree(procs, roots);
    assert forall|k: int| 0 <= k < roots.len() implies tree.contains(#[trigger] roots[k]) by {
        assert(runs_down_to(procs, roots, roots[k], seq![roots[k]]));
    }
    assert forall|c: u32| #[trigger] procs.contains_key(c) && tree.contains(
        procs[c].ppid,
    ) implies tree.contains(c) by {
        let path = choose|path: Seq<u32>| runs_down_to(procs, roots, procs[c].ppid, path);
        let longer = path.push(c);
        assert forall|i: int| 0 < i < longer.len() implies runs_under(
            procs,
            #[trigger] longer[i - 1],
            longer[i],
        ) by {
            if i < path.len() {
                assert(runs_under(procs, path[i - 1], path[i]));
            } else {
                assert(longer[i - 1] == path.last());
            }
        }
        assert(longer[0] == path[0]);
        assert(runs_down_to(procs, roots, c, longer));
    }
    if closed_under(procs, other) && (forall|k: int|
        0 <= k < roots.len() ==> other.contains(#[trigger] roots[k])) {
        assert forall|pid: u32| tree.contains(pid) implies other.contains(pid) by {
            let path = choose|path: Seq<u32>| runs_down_to(procs, roots, pid, path);
            lemma_line_in(procs, roots, pid, path, other, path.len() - 1);
        }
    }
}

proof fn lemma_all_roots(spaces: Seq<SpaceView>, pid: u32)
    ensures
        all_roots(spaces).contains(pid) <==> exists|i: int|
            0 <= i < spaces.len() && (#[trigger] spaces[i]).roots.contains(pid),
    decreases spaces.len(),
{
    if spaces.len() > 0 {
        let (front, last) = (spaces.drop_last(), spaces.last());
        lemma_all_roots(front, pid);
        let (a, b) = (all_roots(front), last.roots);
        if (a + b).contains(pid) {
            let k = choose|k: int| 0 <= k < (a + b).len() && (a + b)[k] == pid;
            if k < a.len() {
                assert(a[k] == pid);
                let i = choose|i: int| 0 <= i < front.len() && (#[trigger] front[i]).roots.contains(pid);
                assert(spaces[i].roots.contains(pid));
            } else {
                assert(b[k - a.len()] == pid);
                assert(spaces[spaces.len() - 1].roots.contains(pid));
            }
        }
        if exists|i: int| 0 <= i < spaces.len() && (#[trigger] spaces[i]).roots.contains(pid) {
            let i = choose|i: int| 0 <= i < spaces.len() && (#[trigger] spaces[i]).roots.contains(pid);
            if i < front.len() {
                assert(front[i].roots.contains(pid));
                let k = choose|k: int| 0 <= k < a.len() && a[k] == pid;
                assert((a + b)[k] == pid);
            } else {
                let k = choose|k: int| 0 <= k < b.len() && b[k] == pid;
                assert((a + b)[a.len() + k] == pid);
            }
        }
    }
}

/// The processes whose sizes are worth reading are those of the spaces, each and
/// no other.
pub proof fn law_every_process_of_a_space_is_read(
    procs: Map<u32, ProcEntry>,
    spaces: Seq<SpaceView>,
    pid: u32,
)
    ensures
        process_tree(procs, all_roots(spaces)).contains(pid) <==> exists|i: int|
            0 <= i < spaces.len() && process_tree(procs, (#[trigger] spaces[i]).roots).contains(pid),
{
    let all = all_roots(spaces);
    if process_tree(procs, all).contains(pid) {
        let path = choose|path: Seq<u32>| runs_down_to(procs, all, pid, path);
        assert(all.contains(path[0]));
        lemma_all_roots(spaces, path[0]);
        let i = choose|i: int| 0 <= i < spaces.len() && (#[trigger] spaces[i]).roots.contains(path[0]);
        assert(runs_down_to(procs, spaces[i].roots, pid, path));
        assert(process_tree(procs, spaces[i].roots).contains(pid));
    }
    if exists|i: int|
        0 <= i < spaces.len() && process_tree(procs, (#[trigger] spaces[i]).roots).contains(pid) {
        let i = choose|i: int|
            0 <= i < spaces.len() && process_tree(procs, (#[trigger] spaces[i]).roots).contains(pid);
        let path = choose|path: Seq<u32>| runs_down_to(procs, spaces[i].roots, pid, path);
        assert(spaces[i].roots.contains(path[0]));
        lemma_all_roots(spaces, path[0]);
        assert(runs_down_to(procs, all, pid, path));
    }
}

// ---- sums over them -----------------------------------------------------------------------------

proof fn lemma_set_sum_of(pids: Seq<u32>, f: spec_fn(u32) -> int)
    requires
        pids.no_duplicates(),
    ensures
        set_sum(pids.to_set(), f) == pids.fold_left(0int, |t: int, p: u32| t + f(p)),
    decreases pids.len(),
{
    let s = pids.to_set();
    pids.unique_seq_to_set();
    if pids.len() > 0 {
        let front = pids.drop_last();
        let last = pids.last();
        assert(front.no_duplicates());
        lemma_set_sum_of(front, f);
        assert(pids[pids.len() - 1] == last);
        assert(s.contains(last));
        assert(s.remove(last) =~= front.to_set()) by {
            assert forall|x: u32| s.remove(last).contains(x) implies front.to_set().contains(x) by {
                let j = choose|j: int| 0 <= j < pids.len() && pids[j] == x;
                assert(front[j] == x);
            }
            assert forall|x: u32| front.to_set().contains(x) implies s.remove(last).contains(x) by {
                let j = choose|j: int| 0 <= j < front.len() && front[j] == x;
                assert(pids[j] == x);
            }
        }
        lemma_set_sum_remove(s, f, last);
    } else {
        assert(s.len() == 0);
    }
}

/// A space's RAM is that of its processes: the exact sum of the bytes resident in
/// each that could be read, in megabytes, held at what 64 bits count to.
pub proof fn law_ram_is_the_sum_over_the_processes(
    space: SpaceView,
    window: Window,
    sizes: Map<u32, u64>,
    pids: Seq<u32>,
)
    requires
        pids.no_duplicates(),
        pids.to_set() == process_tree(window.after@, space.roots),
    ensures
        ({
            let bytes = pids.fold_left(
                0int,
                |t: int, p: u32|
                    t + if sizes.contains_key(p) {
                        sizes[p] as int
                    } else {
                        0
                    },
            );
            measured(space, window, sizes).ram_mb == megabytes(
                if bytes <= 0xffff_ffff_ffff_ffff {
                    bytes
                } else {
                    0xffff_ffff_ffff_ffff
                },
            )
        }),
{
    let f = |p: u32| resident(sizes, p);
    lemma_set_sum_of(pids, f);
    lemma_fold_same(
        pids,
        |t: int, p: u32| t + f(p),
        |t: int, p: u32|
            t + if sizes.contains_key(p) {
                sizes[p] as int
            } else {
                0
            },
    );
}

proof fn lemma_fold_same(pids: Seq<u32>, f: spec_fn(int, u32) -> int, g: spec_fn(int, u32) -> int)
    requires
        forall|t: int, p: u32| #[trigger] f(t, p) == g(t, p),
    ensures
        pids.fold_left(0int, f) == pids.fold_left(0int, g),
    decreases pids.len(),
{
    if pids.len() > 0 {
        lemma_fold_same(pids.drop_last(), f, g);
    }
}

/// The time a process used between two scans of the table: how far its counter
/// went up, where it is in both.
pub open spec fn went_up(
    before: Map<u32, ProcEntry>,
    after: Map<u32, ProcEntry>,
    pid: u32,
) -> int {
    if before.contains_key(pid) && after.contains_key(pid) && before[pid].jiffies
        <= after[pid].jiffies {
        after[pid].jiffies - before[pid].jiffies
    } else {
        0
    }
}

/// A space's load is that of its processes: the time each used between the two
/// scans, added up, over the window and the machine. How many there are is its
/// count, and nothing else about the space changes.
pub proof fn law_load_is_the_time_of_the_processes(
    space: SpaceView,
    window: Window,
    sizes: Map<u32, u64>,
    pids: Seq<u32>,
)
    requires
        pids.no_duplicates(),
        pids.to_set() == process_tree(window.after@, space.roots),
        pids.len() <= usize::MAX,
    ensures
        ({
            let now = measured(space, window, sizes);
            let used = pids.fold_left(
                0int,
                |t: int, p: u32| t + went_up(window.before@, window.after@, p),
            );
            &&& now.cpu.value == cpu_load(
                used,
                window.clk_tck as int,
                window.elapsed_ns as int,
                window.nproc as int,
            )
            &&& now.proc_count == pids.len()
            &&& now == (SpaceView {
                cpu: now.cpu,
                ram_mb: now.ram_mb,
                proc_count: now.proc_count,
                ..space
            })
        }),
{
    let f = |p: u32| ticks_used(window.before@, window.after@, p);
    lemma_set_sum_of(pids, f);
    lemma_fold_same(
        pids,
        |t: int, p: u32| t + f(p),
        |t: int, p: u32| t + went_up(window.before@, window.after@, p),
    );
    pids.unique_seq_to_set();
}

/// One process on its own is the whole of its space: its bytes are the space's
/// RAM, whatever their number, and its time the space's load.
pub proof fn law_one_process_is_measured_as_it_is(
    space: SpaceView,
    window: Window,
    sizes: Map<u32, u64>,
    pid: u32,
)
    requires
        space.roots == seq![pid],
        forall|c: u32|
            #[trigger] window.after@.contains_key(c) && window.after@[c].ppid == pid ==> c == pid,
        sizes.contains_key(pid),
    ensures
        measured(space, window, sizes).ram_mb == megabytes(sizes[pid] as int),
        measured(space, window, sizes).proc_count == 1,
        measured(space, window, sizes).cpu.value == cpu_load(
            went_up(window.before@, window.after@, pid),
            window.clk_tck as int,
            window.elapsed_ns as int,
            window.nproc as int,
        ),
{
    let pids = seq![pid];
    let alone = Set::<u32>::empty().insert(pid);
    assert(closed_under(window.after@, alone));
    assert(space.roots[0] == pid);
    law_a_spaces_processes_are_its_subtrees(window.after@, space.roots, alone);
    let tree = process_tree(window.after@, space.roots);
    assert(tree.contains(space.roots[0]));
    assert(pids[0] == pid);
    assert(tree =~= pids.to_set());
    assert(pids.drop_last() =~= seq![]);
    assert(pids.no_duplicates());
    reveal_with_fuel(Seq::fold_left, 2);
    law_ram_is_the_sum_over_the_processes(space, window, sizes, pids);
    law_load_is_the_time_of_the_processes(space, window, sizes, pids);
}

// ---- the figures ----------------------------------------------------------------------------------

/// Bytes in megabytes are exact: so many bytes are so many parts of 2^20 of one,
/// and a whole number of megabytes is that number.
pub proof fn law_megabytes_are_exact(bytes: int, mb: int)
    requires
        0 <= bytes < 0x20_0000_0000_0000,
        0 <= mb * 1_048_576 < 0x20_0000_0000_0000,
    ensures
        megabytes(bytes) matches Double::Finite { negative, digits, power } && !negative && digits
            * pow2(power as nat) == bytes * pow2(1054),
        megabytes(mb * 1_048_576) == whole(mb),
{
    lemma_bytes(bytes);
    lemma_whole_quotient(mb * 1_048_576, MB as int);
    let u = one();
    lemma_pow2_pos(1074);
    assert((mb * 1_048_576) * u == (mb * u) * 1_048_576) by (nonlinear_arith);
    assert(mb * u >= 0) by (nonlinear_arith)
        requires
            mb >= 0,
            u > 0,
    ;
    lemma_even_quotient(false, mb * u, 1_048_576);
}

pub(crate) proof fn lemma_bytes(bytes: int)
    requires
        0 <= bytes < DIGITS_END,
    ensures
        megabytes(bytes) == double_of(false, bytes * pow2(1054), 1),
        megabytes(bytes) matches Double::Finite { negative, digits, power } && !negative && worth(
            digits as int,
            power as int,
        ) == bytes * pow2(1054),
{
    lemma_whole_quotient(bytes, MB as int);
    lemma_sizes();
    lemma_pow2_adds(20, 1054);
    vstd::arithmetic::power2::lemma2_to64();
    let p = pow2(1054) as int;
    lemma_pow2_pos(1054);
    assert(bytes * (MB * p) == (bytes * p) * MB) by (nonlinear_arith);
    assert(bytes * p >= 0) by (nonlinear_arith)
        requires
            bytes >= 0,
            p > 0,
    ;
    lemma_even_quotient(false, bytes * p, MB as int);
    lemma_pow2_adds(53, 1054);
    assert(bytes * p < DIGITS_END * p) by (nonlinear_arith)
        requires
            bytes < DIGITS_END,
            p > 0,
    ;
    vstd::arithmetic::div_mod::lemma_fundamental_div_mod_converse(bytes * p, p, bytes, 0);
    lemma_exact(false, bytes * p, 1054);
}

/// Load is figured from the time used, in seconds, a hundred times over the window
/// and then over the CPUs, each step to the nearest double; a window of no length
/// has none.
pub proof fn law_load_is_figured_step_by_step(ticks: int, clk_tck: int, elapsed_ns: int, nproc: int)
    ensures
        less_than(zero(false), seconds_of(elapsed_ns)) ==> cpu_load(
            ticks,
            clk_tck,
            elapsed_ns,
            nproc,
        ) == quotient(
            quotient(
                product(quotient(whole(ticks), whole(clk_tck)), 100),
                seconds_of(elapsed_ns),
            ),
            whole(nproc),
        ),
        cpu_load(ticks, clk_tck, 0, nproc) == zero(false),
{
    lemma_whole_quotient(0, 1_000_000_000);
    lemma_double_of_zero(false, 1_000_000_000);
    lemma_double_of_zero(false, 1);
    assert(0 * one() == 0);
    assert(0 * pow2(0) == 0);
}

/// Load is time over time: over whole seconds, `used` seconds of CPU time on a
/// machine of `nproc` CPUs make the percentage that it is of all the machine had,
/// where that is a whole one.
pub proof fn law_load_is_a_percentage(
    used: int,
    clk_tck: int,
    seconds: int,
    nproc: int,
    percent: int,
)
    requires
        0 <= used,
        0 < clk_tck < DIGITS_END,
        used * clk_tck < DIGITS_END,
        0 < seconds < DIGITS_END,
        0 < nproc < DIGITS_END,
        100 * used < DIGITS_END,
        0 <= percent,
        100 * used == percent * nproc * seconds,
        percent * nproc < DIGITS_END,
        percent < DIGITS_END,
        used < DIGITS_END,
    ensures
        cpu_load(used * clk_tck, clk_tck, seconds * 1_000_000_000, nproc) == whole(percent),
{
    let u = one();
    lemma_pow2_pos(1074);
    lemma_whole_seconds(seconds);
    assert(0 <= used * clk_tck) by (nonlinear_arith)
        requires
            0 <= used,
            0 < clk_tck,
    ;
    lemma_whole_quotient(used * clk_tck, clk_tck);
    assert((used * clk_tck) * u == (used * u) * clk_tck) by (nonlinear_arith);
    assert(used * u >= 0) by (nonlinear_arith)
        requires
            used >= 0,
            u > 0,
    ;
    lemma_even_quotient(false, used * u, clk_tck);
    lemma_whole(used);
    lemma_whole(100 * used);
    lemma_times_hundred(whole(used), used);
    assert(0 <= percent * nproc) by (nonlinear_arith)
        requires
            0 <= percent,
            0 < nproc,
    ;
    lemma_over_whole(whole(100 * used), 100 * used, seconds, percent * nproc);
    lemma_whole(percent * nproc);
    lemma_over_whole(whole(percent * nproc), percent * nproc, nproc, percent);
}

/// More time is no less load, over any one window on any one machine.
pub proof fn law_more_time_is_no_less_load(
    less: int,
    more: int,
    clk_tck: int,
    elapsed_ns: int,
    nproc: int,
)
    requires
        0 <= less <= more < DIGITS_END,
        0 < clk_tck < DIGITS_END,
        0 < nproc < DIGITS_END,
        less_than(zero(false), seconds_of(elapsed_ns)),
        seconds_of(elapsed_ns) is Finite,
        product(quotient(whole(more), whole(clk_tck)), 100) is Finite,
        quotient(
            product(quotient(whole(more), whole(clk_tck)), 100),
            seconds_of(elapsed_ns),
        ) is Finite,
        cpu_load(more, clk_tck, elapsed_ns, nproc) is Finite,
        quotient(whole(more), whole(clk_tck)) is Finite,
    ensures
        no_more(
            cpu_load(less, clk_tck, elapsed_ns, nproc),
            cpu_load(more, clk_tck, elapsed_ns, nproc),
        ),
{
    lemma_whole(clk_tck);
    lemma_whole(nproc);
    lemma_whole(less);
    lemma_whole(more);
    lemma_pow2_pos(1074);
    let u = one();
    assert(less * u <= more * u && 0 <= less * u && clk_tck * u > 0 && nproc * u > 0)
        by (nonlinear_arith)
        requires
            0 <= less <= more,
            u > 0,
            clk_tck > 0,
            nproc > 0,
    ;
    assert(0 * pow2(0) == 0);
    lemma_quotient_grows(whole(less), whole(more), whole(clk_tck));
    let (a, b) = (quotient(whole(less), whole(clk_tck)), quotient(whole(more), whole(clk_tck)));
    lemma_hundred_grows(a, b);
    let elapsed = seconds_of(elapsed_ns);
    lemma_quotient_grows(product(a, 100), product(b, 100), elapsed);
    lemma_quotient_grows(
        quotient(product(a, 100), elapsed),
        quotient(product(b, 100), elapsed),
        whole(nproc),
    );
}

/// Over one positive number, more is no less.
pub(crate) proof fn lemma_quotient_grows(a: Double, b: Double, d: Double)
    requires
        no_more(a, b),
        d is Finite,
        less_than(zero(false), d),
        quotient(b, d) is Finite,
    ensures
        no_more(quotient(a, d), quotient(b, d)),
{
    let u = one();
    lemma_pow2_pos(1074);
    assert(0 * pow2(0) == 0);
    if let (
        Double::Finite { negative: s, digits: m, power: p },
        Double::Finite { negative: t, digits: n, power: q },
        Double::Finite { negative: v, digits: o, power: r },
    ) = (a, b, d) {
        let (x, y, z) = (
            worth(m as int, p as int),
            worth(n as int, q as int),
            worth(o as int, r as int),
        );
        lemma_worth_zero(m as int, p as int);
        lemma_worth_zero(n as int, q as int);
        lemma_worth_zero(o as int, r as int);
        assert(0 <= x * u <= y * u) by (nonlinear_arith)
            requires
                0 <= x <= y,
                u > 0,
        ;
        lemma_monotone(x * u, y * u, z);
    }
}

/// A hundred times more is no less.
pub(crate) proof fn lemma_hundred_grows(a: Double, b: Double)
    requires
        no_more(a, b),
        product(b, 100) is Finite,
    ensures
        no_more(product(a, 100), product(b, 100)),
{
    if let (
        Double::Finite { negative: s, digits: m, power: p },
        Double::Finite { negative: t, digits: n, power: q },
    ) = (a, b) {
        lemma_worth_zero(m as int, p as int);
        lemma_monotone(worth(m as int, p as int) * 100, worth(n as int, q as int) * 100, 1);
    }
}

/// A window is as long as it is: whole seconds are so many, part of a second is
/// that part of one, and a half is a half.
pub proof fn law_a_window_is_its_seconds(seconds: int, ns: int)
    requires
        0 <= seconds < DIGITS_END,
        0 <= ns < 1_000_000_000,
    ensures
        seconds > 0 ==> seconds_of(seconds * 1_000_000_000) == whole(seconds),
        seconds_of(seconds * 1_000_000_000 + ns) == sum(
            whole(seconds),
            double_of(false, ns * pow2(1074), 1_000_000_000),
        ),
{
    if seconds > 0 {
        lemma_whole_seconds(seconds);
    }
    vstd::arithmetic::div_mod::lemma_fundamental_div_mod_converse(
        seconds * 1_000_000_000 + ns,
        1_000_000_000,
        seconds,
        ns,
    );
    lemma_whole_quotient(ns, 1_000_000_000);
}

} // verus!
