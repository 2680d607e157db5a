//! The process table: who is whose child, and what a subtree holds.

use std::collections::{HashMap, HashSet};

use vstd::prelude::*;
use vstd::std_specs::iter::IteratorSpec;
use vstd::string::*;

use crate::model::clone_pids;
use crate::text::{glued, int_digits, int_text};
use crate::double::{less_than, zero, Double};
use crate::units::{add_u64, is_positive, share, share_of, sum_u64, Percent};

verus! {

broadcast use vstd::std_specs::hash::group_hash_axioms;

/// Per-process sample: parent PID and cumulative CPU time, in whatever unit the
/// host counts it.
#[derive(Debug, Clone, Copy, PartialEq, Eq, Structural)]
pub struct ProcEntry {
    pub ppid: u32,
    pub jiffies: u64,
}

impl Default for ProcEntry {
    fn default() -> (r: Self)
        ensures
            r == (ProcEntry { ppid: 0, jiffies: 0 }),
    {
        ProcEntry { ppid: 0, jiffies: 0 }
    }
}

// ---- descent ------------------------------------------------------------------------

/// Whether `child` is listed under `parent`.
pub open spec fn is_child(kids: Map<u32, Vec<u32>>, parent: u32, child: u32) -> bool {
    kids.contains_key(parent) && kids[parent]@.contains(child)
}

/// Whether each entry of `path` is a child of the one before it.
pub open spec fn is_line(kids: Map<u32, Vec<u32>>, path: Seq<u32>) -> bool {
    forall|i: int| 0 < i < path.len() ==> is_child(kids, #[trigger] path[i - 1], path[i])
}

/// Whether a line of children leads from `root` to `pid`.
pub open spec fn leads_to(kids: Map<u32, Vec<u32>>, root: u32, pid: u32, path: Seq<u32>) -> bool {
    path.len() > 0 && path[0] == root && path.last() == pid && is_line(kids, path)
}

/// Whether `pid` is `root` or descends from it.
pub open spec fn descends(kids: Map<u32, Vec<u32>>, root: u32, pid: u32) -> bool {
    exists|path: Seq<u32>| leads_to(kids, root, pid, path)
}

/// The PIDs in `root`'s process subtree, `root` among them.
pub open spec fn descendants(kids: Map<u32, Vec<u32>>, root: u32) -> Set<u32> {
    Set::new(|pid: u32| descends(kids, root, pid))
}

/// Whether a set holds the children of everything in it.
pub open spec fn holds_children(kids: Map<u32, Vec<u32>>, s: Set<u32>) -> bool {
    forall|p: u32, c: u32| s.contains(p) && is_child(kids, p, c) ==> s.contains(c)
}

proof fn lemma_descends_root(kids: Map<u32, Vec<u32>>, root: u32)
    ensures
        descends(kids, root, root),
{
    assert(leads_to(kids, root, root, seq![root]));
}

proof fn lemma_descends_child(kids: Map<u32, Vec<u32>>, root: u32, p: u32, c: u32)
    requires
        descends(kids, root, p),
        is_child(kids, p, c),
    ensures
        descends(kids, root, c),
{
    let path = choose|path: Seq<u32>| leads_to(kids, root, p, path);
    let longer = path.push(c);
    assert forall|i: int| 0 < i < longer.len() implies is_child(
        kids,
        #[trigger] longer[i - 1],
        longer[i],
    ) by {
        if i < path.len() {
            assert(is_child(kids, path[i - 1], path[i]));
        } else {
            assert(longer[i - 1] == path.last());
        }
    }
    assert(leads_to(kids, root, c, longer));
}

/// A set that holds the root and the children of everything in it holds every
/// descendant.
proof fn lemma_holds_line(kids: Map<u32, Vec<u32>>, s: Set<u32>, path: Seq<u32>, i: int)
    requires
        holds_children(kids, s),
        is_line(kids, path),
        0 <= i < path.len(),
        s.contains(path[0]),
    ensures
        s.contains(path[i]),
    decreases i,
{
    if i > 0 {
        lemma_holds_line(kids, s, path, i - 1);
        assert(is_child(kids, path[i - 1], path[i]));
    }
}

/// Every process in a subtree is the root or a child of one in it, and the
/// subtree is the smallest such set: it holds the root and every child of what
/// it holds, and is part of every other set that does.
pub proof fn law_subtree_is_the_least_closed_set(
    kids: Map<u32, Vec<u32>>,
    root: u32,
    other: Set<u32>,
)
    ensures
        descendants(kids, root).contains(root),
        holds_children(kids, descendants(kids, root)),
        other.contains(root) && holds_children(kids, other) ==> descendants(
            kids,
            root,
        ).subset_of(other),
{
    lemma_descends_root(kids, root);
    assert forall|p: u32, c: u32|
        descendants(kids, root).contains(p) && is_child(kids, p, c) implies descendants(
        kids,
        root,
    ).contains(c) by {
        lemma_descends_child(kids, root, p, c);
    }
    if other.contains(root) && holds_children(kids, other) {
        assert forall|pid: u32| descendants(kids, root).contains(pid) implies other.contains(
            pid,
        ) by {
            let path = choose|path: Seq<u32>| leads_to(kids, root, pid, path);
            lemma_holds_line(kids, other, path, path.len() - 1);
        }
    }
}

/// Whether `pid` is one of the roots or descends from one.
pub open spec fn descends_from_any(kids: Map<u32, Vec<u32>>, roots: Seq<u32>, pid: u32) -> bool {
    exists|i: int| 0 <= i < roots.len() && descends(kids, #[trigger] roots[i], pid)
}

/// The PIDs in the subtrees of several roots together.
pub open spec fn all_descendants(kids: Map<u32, Vec<u32>>, roots: Seq<u32>) -> Set<u32> {
    Set::new(|pid: u32| descends_from_any(kids, roots, pid))
}

proof fn lemma_any_child(kids: Map<u32, Vec<u32>>, roots: Seq<u32>, p: u32, c: u32)
    requires
        descends_from_any(kids, roots, p),
        is_child(kids, p, c),
    ensures
        descends_from_any(kids, roots, c),
{
    let i = choose|i: int| 0 <= i < roots.len() && descends(kids, #[trigger] roots[i], p);
    lemma_descends_child(kids, roots[i], p, c);
}

/// A set that holds every root and the children of all it holds, and nothing but
/// descendants, is the set of descendants.
proof fn lemma_closed_is_all(kids: Map<u32, Vec<u32>>, roots: Seq<u32>, out: Set<u32>)
    requires
        holds_children(kids, out),
        forall|i: int| 0 <= i < roots.len() ==> out.contains(#[trigger] roots[i]),
        forall|pid: u32| out.contains(pid) ==> descends_from_any(kids, roots, pid),
    ensures
        out == all_descendants(kids, roots),
{
    assert forall|pid: u32| descends_from_any(kids, roots, pid) implies out.contains(pid) by {
        let i = choose|i: int| 0 <= i < roots.len() && descends(kids, #[trigger] roots[i], pid);
        let path = choose|path: Seq<u32>| leads_to(kids, roots[i], pid, path);
        lemma_holds_line(kids, out, path, path.len() - 1);
    }
    assert(out =~= all_descendants(kids, roots));
}

/// Every PID in the process subtrees of the roots, the roots among them.
///
/// Iterative, with a visited set, so shared parents and cycles terminate.
pub fn subtrees(roots: &Vec<u32>, kids: &HashMap<u32, Vec<u32>>) -> (r: HashSet<u32>)
    ensures
        r@ == all_descendants(kids@, roots@),
{
    let mut out: HashSet<u32> = HashSet::new();
    let mut stack: Vec<u32> = clone_pids(roots);
    proof {
        assert forall|i: int| 0 <= i < stack@.len() implies descends_from_any(
            kids@,
            roots@,
            #[trigger] stack@[i],
        ) by {
            lemma_descends_root(kids@, roots@[i]);
        }
        assert forall|i: int| 0 <= i < roots@.len() implies stack@.contains(
            #[trigger] roots@[i],
        ) by {
            assert(stack@[i] == roots@[i]);
        }
    }
    while stack.len() > 0
        invariant
            forall|i: int|
                0 <= i < roots@.len() ==> out@.contains(#[trigger] roots@[i]) || stack@.contains(
                    roots@[i],
                ),
            forall|pid: u32| out@.contains(pid) ==> descends_from_any(kids@, roots@, pid),
            forall|i: int|
                0 <= i < stack@.len() ==> descends_from_any(
                    kids@,
                    roots@,
                    #[trigger] stack@[i],
                ),
            forall|p: u32, c: u32|
                out@.contains(p) && #[trigger] is_child(kids@, p, c) ==> out@.contains(c)
                    || stack@.contains(c),
        decreases kids@.dom().difference(out@).len(), stack.len(),
    {
        let ghost seen = out@;
        let ghost before = stack@;
        let pid: u32 = stack[stack.len() - 1];
        let popped = stack.pop();
        assert(before == stack@.push(pid));
        assert forall|x: u32| before.contains(x) && x != pid implies stack@.contains(x) by {
            let i = choose|i: int| 0 <= i < before.len() && before[i] == x;
            assert(stack@[i] == x);
        }
        assert(descends_from_any(kids@, roots@, pid)) by {
            assert(before[before.len() - 1] == pid);
        }
        assert forall|i: int| 0 <= i < stack@.len() implies descends_from_any(
            kids@,
            roots@,
            #[trigger] stack@[i],
        ) by {
            assert(before[i] == stack@[i]);
        }
        if out.insert(pid) {
            let ghost rest = stack@;
            if let Some(children) = kids.get(&pid) {
                let mut i: usize = 0;
                while i < children.len()
                    invariant
                        i <= children.len(),
                        kids@.contains_key(pid),
                        kids@[pid] == *children,
                        descends_from_any(kids@, roots@, pid),
                        stack@ == rest + children@.take(i as int),
                        forall|j: int|
                            0 <= j < stack@.len() ==> descends_from_any(
                                kids@,
                                roots@,
                                #[trigger] stack@[j],
                            ),
                    decreases children.len() - i,
                {
                    proof {
                        assert(children@[i as int] == children@[i as int]);
                        assert(is_child(kids@, pid, children@[i as int]));
                        lemma_any_child(kids@, roots@, pid, children@[i as int]);
                    }
                    stack.push(children[i]);
                    i += 1;
                    assert(stack@ =~= rest + children@.take(i as int));
                }
                assert(children@.take(i as int) =~= children@);
                assert(stack@ == rest + children@);
                proof {
                    assert forall|c: u32| is_child(kids@, pid, c) implies stack@.contains(c) by {
                        let j = choose|j: int| 0 <= j < children@.len() && children@[j] == c;
                        assert(stack@[rest.len() + j] == c);
                    }
                    assert forall|c: u32| rest.contains(c) implies stack@.contains(c) by {
                        let j = choose|j: int| 0 <= j < rest.len() && rest[j] == c;
                        assert(stack@[j] == c);
                    }
                    let a = kids@.dom().difference(seen);
                    let b = kids@.dom().difference(out@);
                    assert(b =~= a.remove(pid));
                    assert(a.contains(pid));
                }
            } else {
                assert(kids@.dom().difference(out@) =~= kids@.dom().difference(seen));
            }
        } else {
            assert(out@ =~= seen);
        }
    }
    proof {
        assert(stack@.len() == 0);
        assert(holds_children(kids@, out@));
        lemma_closed_is_all(kids@, roots@, out@);
    }
    out
}

/// Every PID in `root`'s process subtree, `root` among them.
pub fn subtree(root: u32, kids: &HashMap<u32, Vec<u32>>) -> (r: HashSet<u32>)
    ensures
        r@ == descendants(kids@, root),
{
    let mut roots: Vec<u32> = Vec::new();
    roots.push(root);
    let r = subtrees(&roots, kids);
    proof {
        assert(roots@[0] == root);
        assert forall|pid: u32| descends(kids@, root, pid) == descends_from_any(
            kids@,
            roots@,
            pid,
        ) by {
            if descends(kids@, root, pid) {
                assert(descends(kids@, roots@[0], pid));
            }
        }
        assert(r@ =~= descendants(kids@, root));
    }
    r
}

/// The PIDs among `among` whose parent is `ppid`.
pub open spec fn children_of(procs: Map<u32, ProcEntry>, among: Set<u32>, ppid: u32) -> Set<u32> {
    Set::new(|pid: u32| among.contains(pid) && procs.contains_key(pid) && procs[pid].ppid == ppid)
}

/// Whether `kids` is the part of `procs` over `among` inverted: under each parent
/// that has any, its children, each once, in no particular order.
pub open spec fn inverts(
    procs: Map<u32, ProcEntry>,
    among: Set<u32>,
    kids: Map<u32, Vec<u32>>,
) -> bool {
    forall|ppid: u32|
        #![trigger kids.contains_key(ppid)]
        if kids.contains_key(ppid) {
            kids[ppid]@.len() > 0 && kids[ppid]@.no_duplicates() && kids[ppid]@.to_set()
                == children_of(procs, among, ppid)
        } else {
            children_of(procs, among, ppid) == Set::<u32>::empty()
        }
}

proof fn lemma_inverts_step(
    procs: Map<u32, ProcEntry>,
    among: Set<u32>,
    before: Map<u32, Vec<u32>>,
    pid: u32,
    list: Vec<u32>,
)
    requires
        inverts(procs, among, before),
        !among.contains(pid),
        procs.contains_key(pid),
        list@ == (if before.contains_key(procs[pid].ppid) {
            before[procs[pid].ppid]@.push(pid)
        } else {
            seq![pid]
        }),
    ensures
        inverts(procs, among.insert(pid), before.insert(procs[pid].ppid, list)),
{
    let now = among.insert(pid);
    let after = before.insert(procs[pid].ppid, list);
    assert forall|ppid: u32| #![trigger after.contains_key(ppid)]
        if after.contains_key(ppid) {
            after[ppid]@.len() > 0 && after[ppid]@.no_duplicates() && after[ppid]@.to_set()
                == children_of(procs, now, ppid)
        } else {
            children_of(procs, now, ppid) == Set::<u32>::empty()
        } by {
        let was = before.contains_key(ppid);
        let old_set = children_of(procs, among, ppid);
        let new_set = children_of(procs, now, ppid);
        if ppid == procs[pid].ppid {
            assert(new_set =~= old_set.insert(pid));
            if was {
                let v = before[ppid]@;
                assert(v.to_set() == old_set);
                assert(!old_set.contains(pid));
                assert(!v.contains(pid)) by {
                    if v.contains(pid) {
                        assert(v.to_set().contains(pid));
                    }
                }
                let w = v.push(pid);
                assert forall|x: u32| w.to_set().contains(x) <==> new_set.contains(x) by {
                    if w.contains(x) {
                        let i = choose|i: int| 0 <= i < w.len() && w[i] == x;
                        if i < v.len() {
                            assert(v.contains(x));
                            assert(v.to_set().contains(x));
                        }
                    }
                    if new_set.contains(x) {
                        if x == pid {
                            assert(w[v.len() as int] == pid);
                        } else {
                            assert(v.to_set().contains(x));
                            let i = choose|i: int| 0 <= i < v.len() && v[i] == x;
                            assert(w[i] == x);
                        }
                    }
                }
                assert(w.to_set() =~= new_set);
            } else {
                assert(seq![pid].to_set() =~= new_set) by {
                    assert(seq![pid][0] == pid);
                }
            }
        } else {
            assert(new_set =~= old_set);
        }
    }
}

/// Invert a process table into `ppid -> [child pid, ..]`.
pub fn children_map(procs: &HashMap<u32, ProcEntry>) -> (r: HashMap<u32, Vec<u32>>)
    ensures
        inverts(procs@, procs@.dom(), r@),
{
    let mut kids: HashMap<u32, Vec<u32>> = HashMap::new();
    let ghost mut seen = Set::<u32>::empty();
    proof {
        assert forall|ppid: u32| children_of(procs@, seen, ppid) =~= Set::<u32>::empty() by {}
    }
    for pid in iter: procs.keys()
        invariant
            iter.seq().unref().to_set() == procs@.dom(),
            iter.seq().no_duplicates(),
            seen == iter.seq().unref().take(iter.index() as int).to_set(),
            iter.index() == iter.seq().len() ==> seen == procs@.dom(),
            inverts(procs@, seen, kids@),
    {
        let ghost all = iter.seq().unref();
        let ghost at = iter.index() as int;
        proof {
            assert(all[at] == *pid);
            assert(all.to_set().contains(*pid)) by {
                assert(all.contains(*pid));
            }
            assert(!seen.contains(*pid)) by {
                if seen.contains(*pid) {
                    let j = choose|j: int| 0 <= j < at && all.take(at)[j] == *pid;
                    assert(all[j] == all[at]);
                    assert(iter.seq()[j] == iter.seq()[at]);
                }
            }
            let next = all.take(at + 1);
            assert(next =~= all.take(at).push(*pid));
            assert forall|x: u32| next.to_set().contains(x) <==> seen.insert(*pid).contains(x) by {
                if next.contains(x) {
                    let j = choose|j: int| 0 <= j < next.len() && next[j] == x;
                    if j < at {
                        assert(all.take(at)[j] == x);
                        assert(all.take(at).contains(x));
                    }
                }
                if seen.contains(x) {
                    let j = choose|j: int| 0 <= j < at && all.take(at)[j] == x;
                    assert(next[j] == x);
                }
                if x == *pid {
                    assert(next[at] == x);
                }
            }
            assert(next.to_set() =~= seen.insert(*pid));
            assert(at + 1 == all.len() ==> next =~= all);
        }
        let ghost before = kids@;
        let entry = procs.get(pid);
        if let Some(p) = entry {
            let ppid: u32 = p.ppid;
            let mut list: Vec<u32> = match kids.remove(&ppid) {
                Some(v) => v,
                None => Vec::new(),
            };
            list.push(*pid);
            proof {
                assert(kids@ =~= before.remove(ppid));
                lemma_inverts_step(procs@, seen, before, *pid, list);
                assert(before.remove(ppid).insert(ppid, list) =~= before.insert(ppid, list));
            }
            kids.insert(ppid, list);
            proof {
                seen = seen.insert(*pid);
            }
        }
    }
    kids
}

/// Whether the table has `child` running under `parent`.
pub open spec fn runs_under(procs: Map<u32, ProcEntry>, parent: u32, child: u32) -> bool {
    procs.contains_key(child) && procs[child].ppid == parent
}

/// Whether each entry of `path`, from one of the roots to `pid`, runs under the
/// one before it.
pub open spec fn runs_down_to(
    procs: Map<u32, ProcEntry>,
    roots: Seq<u32>,
    pid: u32,
    path: Seq<u32>,
) -> bool {
    path.len() > 0 && roots.contains(path[0]) && path.last() == pid && forall|i: int|
        0 < i < path.len() ==> runs_under(procs, #[trigger] path[i - 1], path[i])
}

/// The processes of a table that are one of the roots or run somewhere below one.
pub open spec fn process_tree(procs: Map<u32, ProcEntry>, roots: Seq<u32>) -> Set<u32> {
    Set::new(|pid: u32| exists|path: Seq<u32>| runs_down_to(procs, roots, pid, path))
}

/// The inverted table leads to the same processes as the table itself.
pub proof fn lemma_process_tree(
    procs: Map<u32, ProcEntry>,
    kids: Map<u32, Vec<u32>>,
    roots: Seq<u32>,
)
    requires
        inverts(procs, procs.dom(), kids),
    ensures
        all_descendants(kids, roots) == process_tree(procs, roots),
{
    assert forall|p: u32, c: u32| #[trigger] is_child(kids, p, c) == runs_under(procs, p, c) by {
        lemma_inverted_child(procs, kids, p, c);
    }
    assert forall|pid: u32| descends_from_any(kids, roots, pid) == exists|path: Seq<u32>|
        runs_down_to(procs, roots, pid, path) by {
        if descends_from_any(kids, roots, pid) {
            let i = choose|i: int|
                0 <= i < roots.len() && descends(kids, #[trigger] roots[i], pid);
            let path = choose|path: Seq<u32>| leads_to(kids, roots[i], pid, path);
            assert forall|j: int| 0 < j < path.len() implies runs_under(
                procs,
                #[trigger] path[j - 1],
                path[j],
            ) by {
                assert(is_child(kids, path[j - 1], path[j]));
            }
            assert(runs_down_to(procs, roots, pid, path));
        }
        if exists|path: Seq<u32>| runs_down_to(procs, roots, pid, path) {
            let path = choose|path: Seq<u32>| runs_down_to(procs, roots, pid, path);
            let i = choose|i: int| 0 <= i < roots.len() && roots[i] == path[0];
            assert forall|j: int| 0 < j < path.len() implies is_child(
                kids,
                #[trigger] path[j - 1],
                path[j],
            ) by {
                assert(runs_under(procs, path[j - 1], path[j]));
            }
            assert(leads_to(kids, roots[i], pid, path));
            assert(descends(kids, roots[i], pid));
        }
    }
    assert(all_descendants(kids, roots) =~= process_tree(procs, roots));
}

proof fn lemma_inverted_child(
    procs: Map<u32, ProcEntry>,
    kids: Map<u32, Vec<u32>>,
    p: u32,
    c: u32,
)
    requires
        inverts(procs, procs.dom(), kids),
    ensures
        is_child(kids, p, c) == runs_under(procs, p, c),
{
    let set = children_of(procs, procs.dom(), p);
    if kids.contains_key(p) {
        assert(kids[p]@.to_set() == set);
        assert(kids[p]@.contains(c) == kids[p]@.to_set().contains(c));
    } else {
        assert(set == Set::<u32>::empty());
        assert(!set.contains(c));
    }
}

// ---- shares of the machine -------------------------------------------------------------

/// A RAM figure as a whole percent of the machine's total, or nothing when the
/// total is unknown.
pub open spec fn ram_share(mb: Double, total: Double) -> Seq<char> {
    if less_than(zero(false), total) {
        int_digits((Percent { value: share(mb, total) }).whole()) + "%"@
    } else {
        seq![]
    }
}

/// `"<n>%"` of the machine's RAM, or `""` if the total is unknown (zero).
pub fn ram_pct(mb: Double, total: Double) -> (r: String)
    ensures
        r@ == ram_share(mb, total),
{
    if is_positive(total) {
        let whole: i64 = share_of(mb, total).rounded();
        glued(int_text(whole as i128).as_str(), "%")
    } else {
        String::new()
    }
}

/// Resident sizes together, held within range.
pub open spec fn resident_sum(sizes: Seq<Option<u64>>) -> int
    decreases sizes.len(),
{
    if sizes.len() == 0 {
        0
    } else {
        match sizes.last() {
            Some(n) => sum_u64(resident_sum(sizes.drop_last()), n as int),
            None => resident_sum(sizes.drop_last()),
        }
    }
}

/// Sum of resident bytes over the processes of a subtree, given each one's;
/// a process that has vanished or cannot be read contributes nothing.
pub fn rss_bytes(sizes: &Vec<Option<u64>>) -> (r: u64)
    ensures
        r == resident_sum(sizes@),
{
    let mut sum: u64 = 0;
    let mut i: usize = 0;
    assert(sizes@.take(0) =~= seq![]);
    while i < sizes.len()
        invariant
            i <= sizes.len(),
            sum == resident_sum(sizes@.take(i as int)),
        decreases sizes.len() - i,
    {
        assert(sizes@.take(i + 1).drop_last() =~= sizes@.take(i as int));
        if let Some(n) = sizes[i] {
            sum = add_u64(sum, n);
        }
        i += 1;
    }
    assert(sizes@.take(i as int) =~= sizes@);
    sum
}

// ---- the table a scan makes -----------------------------------------------------------

/// One row of a host's process listing: what could be read of a process.
#[derive(Debug, Clone, Copy, PartialEq, Eq, Structural)]
pub struct ProcRow {
    pub pid: u32,
    /// `None` when the parent link could not be read: the process has gone.
    pub ppid: Option<u32>,
    /// `None` when the times could not be read.
    pub ticks: Option<u64>,
}

/// The entry a row makes. Times, unlike the parent link, are optional: dropping
/// a process whose counters cannot be read would orphan everything below it.
pub open spec fn row_entry(row: ProcRow) -> Option<ProcEntry> {
    match row.ppid {
        Some(ppid) => if row.pid == 0 {
            None
        } else {
            Some(
                ProcEntry {
                    ppid,
                    jiffies: match row.ticks {
                        Some(t) => t,
                        None => 0,
                    },
                },
            )
        },
        None => None,
    }
}

/// The table the rows make, the last row of a PID standing.
pub open spec fn table_of(rows: Seq<ProcRow>) -> Map<u32, ProcEntry>
    decreases rows.len(),
{
    if rows.len() == 0 {
        Map::empty()
    } else {
        match row_entry(rows.last()) {
            Some(e) => table_of(rows.drop_last()).insert(rows.last().pid, e),
            None => table_of(rows.drop_last()),
        }
    }
}

/// Turn a process listing into a table. PID 0 is a pseudo-process and not a real
/// tree root, so it is left out.
pub fn scan_proc(rows: &Vec<ProcRow>) -> (r: HashMap<u32, ProcEntry>)
    ensures
        r@ == table_of(rows@),
{
    let mut procs: HashMap<u32, ProcEntry> = HashMap::new();
    let mut i: usize = 0;
    assert(rows@.take(0) =~= seq![]);
    assert(procs@ =~= table_of(rows@.take(0)));
    while i < rows.len()
        invariant
            i <= rows.len(),
            procs@ == table_of(rows@.take(i as int)),
        decreases rows.len() - i,
    {
        assert(rows@.take(i + 1).drop_last() =~= rows@.take(i as int));
        let row = rows[i];
        if let Some(ppid) = row.ppid {
            if row.pid != 0 {
                let jiffies: u64 = match row.ticks {
                    Some(t) => t,
                    None => 0,
                };
                procs.insert(row.pid, ProcEntry { ppid, jiffies });
            }
        }
        i += 1;
    }
    assert(rows@.take(i as int) =~= rows@);
    procs
}

/// At least one CPU, whatever the host answered.
pub fn nproc(online: u64) -> (r: u64)
    ensures
        r == if online == 0 {
            1
        } else {
            online
        },
{
    if online == 0 {
        1
    } else {
        online
    }
}

} // verus!
