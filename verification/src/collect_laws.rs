//! What holds of collecting, grouping, measuring and folding taken together.

use vstd::arithmetic::div_mod::lemma_add_mod_noop;
use vstd::arithmetic::power2::{lemma_pow2_pos, pow2};
use vstd::prelude::*;

use crate::battery::in_range;
use crate::collect::{
    aggregated, ancestor, assigned, assignments, bucket, cpu_load, descends, gathered, grouped,
    ids_of, joined, labelled, last_index, lemma_assigned, lemma_assignments, lemma_chain_ends_once,
    lemma_descends, lemma_last_index, parent_index, reaches, roles_of, seconds_of, sound,
    survivors, Bucket, RolesView,
};
use crate::double::{
    lemma_double_of_zero, lemma_even_quotient, lemma_exact, lemma_monotone, lemma_whole,
    lemma_whole_quotient, lemma_worth_zero, less_than, no_more, one, product, quotient, sum, whole,
    worth, zero, Double, DIGITS_END, MAX_POWER,
};
use crate::model::{FamilyView, PaneView, SpaceView};

verus! {

// ---- classification -----------------------------------------------------------------------

/// How many panes belong to other plugins.
pub open spec fn foreign_count(panes: Seq<PaneView>) -> nat
    decreases panes.len(),
{
    if panes.len() == 0 {
        0
    } else {
        foreign_count(panes.drop_last()) + if bucket(panes.last()) is Foreign {
            1nat
        } else {
            0nat
        }
    }
}

/// Whether a pane stands in the bucket it falls into.
pub open spec fn placed(roles: RolesView, pane: PaneView) -> bool {
    match bucket(pane) {
        Bucket::Pseudo => roles.pseudo_panes.contains(pane.pane_id),
        Bucket::Agent => roles.agent_panes.contains(pane.pane_id),
        Bucket::Spare => roles.spare_panes.contains(pane.pane_id),
        Bucket::Foreign => true,
    }
}

proof fn lemma_push_keeps(s: Seq<Seq<char>>, x: Seq<char>, y: Seq<char>)
    ensures
        s.contains(y) ==> s.push(x).contains(y),
        s.push(x).contains(x),
{
    if s.contains(y) {
        let j = choose|j: int| 0 <= j < s.len() && s[j] == y;
        assert(s.push(x)[j] == y);
    }
    assert(s.push(x)[s.len() as int] == x);
}

/// Classification leaves a pane out of every bucket only for being another
/// plugin's, and puts every other pane into exactly one.
pub proof fn law_classification_drops_only_plugin_panes(panes: Seq<PaneView>)
    ensures
        roles_of(panes).agent_panes.len() + roles_of(panes).spare_panes.len() + roles_of(
            panes,
        ).pseudo_panes.len() + foreign_count(panes) == panes.len(),
        forall|i: int| 0 <= i < panes.len() ==> placed(roles_of(panes), #[trigger] panes[i]),
    decreases panes.len(),
{
    if panes.len() > 0 {
        let front = panes.drop_last();
        law_classification_drops_only_plugin_panes(front);
        let before = roles_of(front);
        let last = panes.last();
        assert forall|i: int| 0 <= i < panes.len() implies placed(
            roles_of(panes),
            #[trigger] panes[i],
        ) by {
            if i < front.len() {
                assert(front[i] == panes[i]);
                assert(placed(before, front[i]));
            }
            lemma_push_keeps(before.pseudo_panes, last.pane_id, panes[i].pane_id);
            lemma_push_keeps(before.agent_panes, last.pane_id, panes[i].pane_id);
            lemma_push_keeps(before.spare_panes, last.pane_id, panes[i].pane_id);
        }
    }
}

// ---- families --------------------------------------------------------------------------------

/// A parent that was assigned is one of the list's, and sound.
proof fn lemma_assigned_parent(
    spaces: Seq<SpaceView>,
    list: Seq<(int, Seq<char>)>,
    k: int,
)
    requires
        sound(ids_of(spaces), list),
        0 <= k < spaces.len(),
        spaces[k].family_parent is None,
    ensures
        assigned(spaces, list)[k].family_parent matches Some(p) ==> p != spaces[k].id
            && last_index(ids_of(spaces), p) is Some,
    decreases list.len(),
{
    if list.len() > 0 {
        let front = list.drop_last();
        assert(sound(ids_of(spaces), front)) by {
            assert forall|i: int| 0 <= i < front.len() implies front[i] == list[i] by {}
        }
        lemma_assigned(spaces, front);
        lemma_assigned_parent(spaces, front, k);
        assert(list[list.len() - 1] == list.last());
        assert(ids_of(spaces)[k] == spaces[k].id);
    }
}

/// Grouping makes no space its own parent, names only parents that are there,
/// and changes nothing else about any space.
pub proof fn law_grouping_is_sound(
    spaces: Seq<SpaceView>,
    replies: Seq<Option<FamilyView>>,
    k: int,
)
    requires
        0 <= k < spaces.len(),
        spaces[k].family_parent is None,
    ensures
        grouped(spaces, replies).len() == spaces.len(),
        grouped(spaces, replies)[k] == (SpaceView {
            family_parent: grouped(spaces, replies)[k].family_parent,
            ..spaces[k]
        }),
        grouped(spaces, replies)[k].family_parent matches Some(p) ==> p != spaces[k].id
            && ids_of(spaces).contains(p),
{
    let ids = ids_of(spaces);
    let list = assignments(ids, replies);
    lemma_assignments(ids, replies);
    lemma_assigned(spaces, list);
    lemma_assigned_parent(spaces, list, k);
    if let Some(p) = grouped(spaces, replies)[k].family_parent {
        lemma_last_index(ids, p);
        assert(ids[last_index(ids, p)->0] == p);
    }
}

// ---- folding loses nothing -----------------------------------------------------------------------

/// The sum of a figure over spaces.
pub open spec fn total(spaces: Seq<SpaceView>, m: spec_fn(SpaceView) -> int) -> int
    decreases spaces.len(),
{
    if spaces.len() == 0 {
        0
    } else {
        total(spaces.drop_last(), m) + m(spaces.last())
    }
}

/// Whether the chain of parents from the space at `i` ends at a space that is
/// there.
pub open spec fn chain_ends(spaces: Seq<SpaceView>, i: int) -> bool {
    exists|r: int|
        0 <= r < spaces.len() && spaces[r].family_parent is None && #[trigger] reaches(
            spaces,
            i,
            r,
        )
}

/// Whether every chain of parents ends at a space that is there.
pub open spec fn chains_end(spaces: Seq<SpaceView>) -> bool {
    forall|i: int| 0 <= i < spaces.len() ==> #[trigger] chain_ends(spaces, i)
}

/// The sum of a figure over those of the first `n` spaces that stand below the
/// one at `r`.
pub open spec fn below(
    spaces: Seq<SpaceView>,
    r: int,
    n: int,
    m: spec_fn(SpaceView) -> int,
) -> int
    decreases n,
{
    if n <= 0 {
        0
    } else {
        below(spaces, r, n - 1, m) + if descends(spaces, n - 1, r) {
            m(spaces[n - 1])
        } else {
            0
        }
    }
}

/// The labels of those of the first `n` spaces that are children of the one at
/// `r`, in order.
pub open spec fn child_labels(spaces: Seq<SpaceView>, r: int, n: int) -> Seq<Seq<char>>
    decreases n,
{
    if n <= 0 {
        seq![]
    } else if parent_index(spaces, n - 1) == Some(r) {
        child_labels(spaces, r, n - 1).push(spaces[n - 1].label)
    } else {
        child_labels(spaces, r, n - 1)
    }
}

/// The sum of a figure over those of the first `n` spaces that have a parent, or
/// over those that have none.
spec fn split_total(
    spaces: Seq<SpaceView>,
    children: bool,
    n: int,
    m: spec_fn(SpaceView) -> int,
) -> int
    decreases n,
{
    if n <= 0 {
        0
    } else {
        split_total(spaces, children, n - 1, m) + if spaces[n - 1].family_parent is Some
            == children {
            m(spaces[n - 1])
        } else {
            0
        }
    }
}

proof fn lemma_split_total(spaces: Seq<SpaceView>, n: int, m: spec_fn(SpaceView) -> int)
    requires
        0 <= n <= spaces.len(),
    ensures
        split_total(spaces, true, n, m) + split_total(spaces, false, n, m) == total(
            spaces.take(n),
            m,
        ),
    decreases n,
{
    if n > 0 {
        lemma_split_total(spaces, n - 1, m);
        assert(spaces.take(n).drop_last() =~= spaces.take(n - 1));
    }
}

/// What stands below a space is among the children, and grows with `n`.
proof fn lemma_below_bounds(spaces: Seq<SpaceView>, r: int, n: int, m: spec_fn(SpaceView) -> int)
    requires
        forall|s: SpaceView| #[trigger] m(s) >= 0,
        0 <= n,
    ensures
        0 <= below(spaces, r, n, m) <= split_total(spaces, true, n, m),
    decreases n,
{
    if n > 0 {
        lemma_below_bounds(spaces, r, n - 1, m);
        if descends(spaces, n - 1, r) {
            let k = choose|k: nat| k > 0 && #[trigger] ancestor(spaces, n - 1, k) == Some(r);
            assert(parent_index(spaces, n - 1) is Some);
        }
    }
}

proof fn lemma_below_grows(
    spaces: Seq<SpaceView>,
    r: int,
    a: int,
    b: int,
    m: spec_fn(SpaceView) -> int,
)
    requires
        forall|s: SpaceView| #[trigger] m(s) >= 0,
        0 <= a <= b,
    ensures
        below(spaces, r, a, m) <= below(spaces, r, b, m),
    decreases b - a,
{
    if a < b {
        lemma_below_grows(spaces, r, a, b - 1, m);
    }
}

proof fn lemma_top_bound(spaces: Seq<SpaceView>, r: int, n: int, m: spec_fn(SpaceView) -> int)
    requires
        forall|s: SpaceView| #[trigger] m(s) >= 0,
        0 <= n,
    ensures
        0 <= split_total(spaces, false, n, m),
        0 <= r < n && spaces[r].family_parent is None ==> m(spaces[r]) <= split_total(
            spaces,
            false,
            n,
            m,
        ),
    decreases n,
{
    if n > 0 {
        lemma_top_bound(spaces, r, n - 1, m);
    }
}

/// Gathering a family adds its figures up, as long as they stay in range.
proof fn lemma_gathered(
    spaces: Seq<SpaceView>,
    r: int,
    n: int,
    m: spec_fn(SpaceView) -> int,
    ok: spec_fn(SpaceView) -> bool,
    cap: int,
)
    requires
        0 <= r < spaces.len(),
        0 <= n <= spaces.len(),
        adds_up(m, ok, cap),
        forall|i: int| 0 <= i < spaces.len() ==> ok(#[trigger] spaces[i]),
        m(spaces[r]) + below(spaces, r, n, m) <= cap,
    ensures
        m(gathered(spaces, r, n)) == m(spaces[r]) + below(spaces, r, n, m),
        ok(gathered(spaces, r, n)),
    decreases n,
{
    if n > 0 {
        lemma_below_grows(spaces, r, n - 1, n, m);
        lemma_gathered(spaces, r, n - 1, m, ok, cap);
        let before = gathered(spaces, r, n - 1);
        assert(ok(spaces[n - 1]));
        let summed = if descends(spaces, n - 1, r) {
            joined(before, spaces[n - 1])
        } else {
            before
        };
        assert(ok(summed));
        assert(ok(labelled(summed, spaces[n - 1].label)));
    }
}

/// Whether a figure is never negative, adds up under [`joined`] within the cap,
/// and is left alone by a label.
spec fn adds_up(m: spec_fn(SpaceView) -> int, ok: spec_fn(SpaceView) -> bool, cap: int) -> bool {
    &&& forall|s: SpaceView| #[trigger] m(s) >= 0
    &&& forall|a: SpaceView, b: SpaceView|
        ok(a) && ok(b) && m(a) + m(b) <= cap ==> ok(#[trigger] joined(a, b)) && m(joined(a, b))
            == m(a) + m(b)
    &&& forall|a: SpaceView, l: Seq<char>|
        ok(a) ==> ok(#[trigger] labelled(a, l)) && m(labelled(a, l)) == m(a)
}

/// What stands below the spaces without a parent among the first `t`, counting
/// the first `n` spaces.
spec fn grid(spaces: Seq<SpaceView>, t: int, n: int, m: spec_fn(SpaceView) -> int) -> int
    decreases t,
{
    if t <= 0 {
        0
    } else {
        grid(spaces, t - 1, n, m) + if spaces[t - 1].family_parent is None {
            below(spaces, t - 1, n, m)
        } else {
            0
        }
    }
}

/// Whether the space at `i` stands below one of the first `t` that have no
/// parent.
spec fn counted(spaces: Seq<SpaceView>, t: int, i: int) -> bool {
    exists|r: int|
        0 <= r < t && spaces[r].family_parent is None && #[trigger] descends(spaces, i, r)
}

/// A space stands below at most one space without a parent.
proof fn lemma_one_top(spaces: Seq<SpaceView>, i: int, r: int, s: int)
    requires
        spaces[r].family_parent is None,
        spaces[s].family_parent is None,
        reaches(spaces, i, r),
        reaches(spaces, i, s),
    ensures
        r == s,
{
    let k = choose|k: nat| #[trigger] ancestor(spaces, i, k) == Some(r);
    let l = choose|l: nat| #[trigger] ancestor(spaces, i, l) == Some(s);
    lemma_chain_ends_once(spaces, i, k, r, l);
}

/// One more space counts once, and only where it stands below one of the tops.
proof fn lemma_grid_step(spaces: Seq<SpaceView>, t: int, n: int, m: spec_fn(SpaceView) -> int)
    requires
        0 <= t <= spaces.len(),
        0 <= n < spaces.len(),
    ensures
        grid(spaces, t, n + 1, m) == grid(spaces, t, n, m) + if counted(spaces, t, n) {
            m(spaces[n])
        } else {
            0
        },
    decreases t,
{
    if t > 0 {
        lemma_grid_step(spaces, t - 1, n, m);
        let r = t - 1;
        if spaces[r].family_parent is None && descends(spaces, n, r) {
            assert(counted(spaces, t, n));
            if counted(spaces, t - 1, n) {
                let s = choose|s: int|
                    0 <= s < t - 1 && spaces[s].family_parent is None && #[trigger] descends(
                        spaces,
                        n,
                        s,
                    );
                lemma_descends(spaces, n, r);
                lemma_descends(spaces, n, s);
                lemma_one_top(spaces, n, r, s);
            }
        } else if counted(spaces, t, n) {
            let s = choose|s: int|
                0 <= s < t && spaces[s].family_parent is None && #[trigger] descends(spaces, n, s);
            assert(s < t - 1);
            assert(counted(spaces, t - 1, n));
        } else if counted(spaces, t - 1, n) {
            let s = choose|s: int|
                0 <= s < t - 1 && spaces[s].family_parent is None && #[trigger] descends(
                    spaces,
                    n,
                    s,
                );
            assert(descends(spaces, n, s));
        }
    }
}

proof fn lemma_grid_empty(spaces: Seq<SpaceView>, t: int, m: spec_fn(SpaceView) -> int)
    ensures
        grid(spaces, t, 0, m) == 0,
    decreases t,
{
    if t > 0 {
        lemma_grid_empty(spaces, t - 1, m);
    }
}

/// Where every chain ends, every child is counted below a top, and no other
/// space is.
proof fn lemma_grid(spaces: Seq<SpaceView>, n: int, m: spec_fn(SpaceView) -> int)
    requires
        chains_end(spaces),
        0 <= n <= spaces.len(),
    ensures
        grid(spaces, spaces.len() as int, n, m) == split_total(spaces, true, n, m),
    decreases n,
{
    let all = spaces.len() as int;
    if n == 0 {
        lemma_grid_empty(spaces, all, m);
    } else {
        let i = n - 1;
        lemma_grid(spaces, i, m);
        lemma_grid_step(spaces, all, i, m);
        if spaces[i].family_parent is Some {
            assert(chain_ends(spaces, i));
            let r = choose|r: int|
                0 <= r < spaces.len() && spaces[r].family_parent is None && #[trigger] reaches(
                    spaces,
                    i,
                    r,
                );
            lemma_descends(spaces, i, r);
            assert(descends(spaces, i, r));
        } else if counted(spaces, all, i) {
            let r = choose|r: int|
                0 <= r < all && spaces[r].family_parent is None && #[trigger] descends(
                    spaces,
                    i,
                    r,
                );
            let k = choose|k: nat| k > 0 && #[trigger] ancestor(spaces, i, k) == Some(r);
            assert(parent_index(spaces, i) is None);
            assert(false);
        }
    }
}

/// The survivors hold the figures of the spaces without a parent and of what
/// stands below each.
proof fn lemma_survivors_total(
    spaces: Seq<SpaceView>,
    n: int,
    m: spec_fn(SpaceView) -> int,
    ok: spec_fn(SpaceView) -> bool,
    cap: int,
)
    requires
        0 <= n <= spaces.len(),
        adds_up(m, ok, cap),
        forall|i: int| 0 <= i < spaces.len() ==> ok(#[trigger] spaces[i]),
        total(spaces, m) <= cap,
    ensures
        total(survivors(spaces, n), m) == split_total(spaces, false, n, m) + grid(
            spaces,
            n,
            spaces.len() as int,
            m,
        ),
        forall|j: int|
            0 <= j < survivors(spaces, n).len() ==> ok(#[trigger] survivors(spaces, n)[j]),
    decreases n,
{
    let all = spaces.len() as int;
    if n > 0 {
        lemma_survivors_total(spaces, n - 1, m, ok, cap);
        if spaces[n - 1].family_parent is None {
            lemma_split_total(spaces, all, m);
            assert(spaces.take(all) =~= spaces);
            lemma_below_bounds(spaces, n - 1, all, m);
            lemma_top_bound(spaces, n - 1, all, m);
            lemma_gathered(spaces, n - 1, all, m, ok, cap);
            let before = survivors(spaces, n - 1);
            let top = gathered(spaces, n - 1, all);
            assert(before.push(top).drop_last() =~= before);
            assert forall|j: int| 0 <= j < survivors(spaces, n).len() implies ok(
                #[trigger] survivors(spaces, n)[j],
            ) by {
                if j < before.len() {
                    assert(ok(before[j]));
                }
            }
        }
    }
}

proof fn lemma_aggregated_total(
    spaces: Seq<SpaceView>,
    m: spec_fn(SpaceView) -> int,
    ok: spec_fn(SpaceView) -> bool,
    cap: int,
)
    requires
        chains_end(spaces),
        adds_up(m, ok, cap),
        forall|i: int| 0 <= i < spaces.len() ==> ok(#[trigger] spaces[i]),
        total(spaces, m) <= cap,
    ensures
        total(aggregated(spaces), m) == total(spaces, m),
        forall|j: int| 0 <= j < aggregated(spaces).len() ==> ok(#[trigger] aggregated(spaces)[j]),
{
    let all = spaces.len() as int;
    lemma_survivors_total(spaces, all, m, ok, cap);
    lemma_grid(spaces, all, m);
    lemma_split_total(spaces, all, m);
    assert(spaces.take(all) =~= spaces);
}

/// Folding worktrees loses nothing: where every chain of parents ends at a space
/// that is there and no count runs out of range, the processes and the panes of
/// the folded spaces add up to those of the spaces that went in, however deep the
/// families and in whatever order.
pub proof fn law_folding_loses_nothing(spaces: Seq<SpaceView>)
    requires
        chains_end(spaces),
        total(spaces, |s: SpaceView| s.proc_count as int) <= usize::MAX,
        total(spaces, |s: SpaceView| s.pane_count as int) <= usize::MAX,
    ensures
        total(aggregated(spaces), |s: SpaceView| s.proc_count as int) == total(
            spaces,
            |s: SpaceView| s.proc_count as int,
        ),
        total(aggregated(spaces), |s: SpaceView| s.pane_count as int) == total(
            spaces,
            |s: SpaceView| s.pane_count as int,
        ),
{
    let any = |s: SpaceView| true;
    lemma_aggregated_total(spaces, |s: SpaceView| s.proc_count as int, any, usize::MAX as int);
    lemma_aggregated_total(spaces, |s: SpaceView| s.pane_count as int, any, usize::MAX as int);
}

/// A figure in units of the smallest step, nothing where it is below nothing or
/// no number.
pub open spec fn steps(value: Double) -> int {
    match value {
        Double::Finite { negative: false, digits, power } => worth(digits as int, power as int),
        _ => 0,
    }
}

/// Whether a figure is a number of steps of the given grain.
pub open spec fn grained(value: Double, grain: nat) -> bool {
    value matches Double::Finite { negative: false, digits, power } && worth(
        digits as int,
        power as int,
    ) % (pow2(grain) as int) == 0
}

/// Figures of one grain add up exactly where their digits fit a double.
proof fn lemma_grained_sum(a: Double, b: Double, grain: nat)
    requires
        grain <= MAX_POWER,
        grained(a, grain),
        grained(b, grain),
        steps(a) + steps(b) < pow2(53 + grain),
    ensures
        grained(sum(a, b), grain),
        steps(sum(a, b)) == steps(a) + steps(b),
{
    lemma_steps(a);
    lemma_steps(b);
    lemma_pow2_pos(grain);
    lemma_add_mod_noop(steps(a), steps(b), pow2(grain) as int);
    vstd::arithmetic::div_mod::lemma_small_mod(0, pow2(grain));
    lemma_exact(false, steps(a) + steps(b), grain);
}

proof fn lemma_steps(value: Double)
    ensures
        steps(value) >= 0,
{
    if let Double::Finite { negative, digits, power } = value {
        lemma_worth_zero(digits as int, power as int);
    }
}

proof fn lemma_load_adds_up(grain: nat)
    requires
        grain <= MAX_POWER,
    ensures
        adds_up(
            |s: SpaceView| steps(s.cpu.value),
            |s: SpaceView| grained(s.cpu.value, grain),
            pow2(53 + grain) - 1,
        ),
{
    let m = |s: SpaceView| steps(s.cpu.value);
    let ok = |s: SpaceView| grained(s.cpu.value, grain);
    assert forall|s: SpaceView| #[trigger] m(s) >= 0 by {
        lemma_steps(s.cpu.value);
    }
    assert forall|a: SpaceView, b: SpaceView|
        ok(a) && ok(b) && m(a) + m(b) <= pow2(53 + grain) - 1 implies ok(#[trigger] joined(a, b))
        && m(joined(a, b)) == m(a) + m(b) by {
        lemma_grained_sum(a.cpu.value, b.cpu.value, grain);
    }
}

proof fn lemma_ram_adds_up(grain: nat)
    requires
        grain <= MAX_POWER,
    ensures
        adds_up(
            |s: SpaceView| steps(s.ram_mb),
            |s: SpaceView| grained(s.ram_mb, grain),
            pow2(53 + grain) - 1,
        ),
{
    let m = |s: SpaceView| steps(s.ram_mb);
    let ok = |s: SpaceView| grained(s.ram_mb, grain);
    assert forall|s: SpaceView| #[trigger] m(s) >= 0 by {
        lemma_steps(s.ram_mb);
    }
    assert forall|a: SpaceView, b: SpaceView|
        ok(a) && ok(b) && m(a) + m(b) <= pow2(53 + grain) - 1 implies ok(#[trigger] joined(a, b))
        && m(joined(a, b)) == m(a) + m(b) by {
        lemma_grained_sum(a.ram_mb, b.ram_mb, grain);
    }
}

/// Folding worktrees loses no load either: the CPU of the folded spaces adds up
/// to that of the spaces that went in, as long as no sum needs more digits than a
/// double has.
pub proof fn law_folding_loses_no_load(spaces: Seq<SpaceView>, grain: nat)
    requires
        chains_end(spaces),
        grain <= MAX_POWER,
        forall|i: int| 0 <= i < spaces.len() ==> grained((#[trigger] spaces[i]).cpu.value, grain),
        total(spaces, |s: SpaceView| steps(s.cpu.value)) < pow2(53 + grain),
    ensures
        total(aggregated(spaces), |s: SpaceView| steps(s.cpu.value)) == total(
            spaces,
            |s: SpaceView| steps(s.cpu.value),
        ),
{
    let m = |s: SpaceView| steps(s.cpu.value);
    let ok = |s: SpaceView| grained(s.cpu.value, grain);
    lemma_load_adds_up(grain);
    assert forall|i: int| 0 <= i < spaces.len() implies ok(#[trigger] spaces[i]) by {}
    lemma_aggregated_total(spaces, m, ok, pow2(53 + grain) - 1);
}

/// Nor does it lose RAM, on the same terms: whole bytes are of one grain, and add
/// up exactly below two to the 53rd of them.
pub proof fn law_folding_loses_no_ram(spaces: Seq<SpaceView>, grain: nat)
    requires
        chains_end(spaces),
        grain <= MAX_POWER,
        forall|i: int| 0 <= i < spaces.len() ==> grained((#[trigger] spaces[i]).ram_mb, grain),
        total(spaces, |s: SpaceView| steps(s.ram_mb)) < pow2(53 + grain),
    ensures
        total(aggregated(spaces), |s: SpaceView| steps(s.ram_mb)) == total(
            spaces,
            |s: SpaceView| steps(s.ram_mb),
        ),
{
    let m = |s: SpaceView| steps(s.ram_mb);
    let ok = |s: SpaceView| grained(s.ram_mb, grain);
    lemma_ram_adds_up(grain);
    assert forall|i: int| 0 <= i < spaces.len() implies ok(#[trigger] spaces[i]) by {}
    lemma_aggregated_total(spaces, m, ok, pow2(53 + grain) - 1);
}

/// What folding gives the space at the top of a family: the figures of every
/// space below it on top of its own, as long as they stay in range, the labels of
/// its own children behind those it had, and all else as it was.
pub proof fn law_a_top_holds_its_whole_family(spaces: Seq<SpaceView>, r: int, grain: nat)
    requires
        0 <= r < spaces.len(),
        grain <= MAX_POWER,
    ensures
        ({
            let n = spaces.len() as int;
            let top = gathered(spaces, r, n);
            let ram = steps(spaces[r].ram_mb) + below(
                spaces,
                r,
                n,
                |s: SpaceView| steps(s.ram_mb),
            );
            let procs = spaces[r].proc_count + below(
                spaces,
                r,
                n,
                |s: SpaceView| s.proc_count as int,
            );
            let panes = spaces[r].pane_count + below(
                spaces,
                r,
                n,
                |s: SpaceView| s.pane_count as int,
            );
            let cpu = steps(spaces[r].cpu.value) + below(
                spaces,
                r,
                n,
                |s: SpaceView| steps(s.cpu.value),
            );
            &&& ram < pow2(53 + grain) && (forall|i: int|
                0 <= i < n ==> grained((#[trigger] spaces[i]).ram_mb, grain)) ==> steps(top.ram_mb)
                == ram
            &&& procs <= usize::MAX ==> top.proc_count == procs
            &&& panes <= usize::MAX ==> top.pane_count == panes
            &&& cpu < pow2(53 + grain) && (forall|i: int|
                0 <= i < n ==> grained((#[trigger] spaces[i]).cpu.value, grain)) ==> steps(
                top.cpu.value,
            ) == cpu
            &&& top.worktree_labels == behind(
                spaces[r].worktree_labels,
                child_labels(spaces, r, n),
            )
            &&& top == (SpaceView {
                cpu: top.cpu,
                ram_mb: top.ram_mb,
                proc_count: top.proc_count,
                pane_count: top.pane_count,
                worktree_labels: top.worktree_labels,
                ..spaces[r]
            })
        }),
{
    let n = spaces.len() as int;
    let any = |s: SpaceView| true;
    let ram = |s: SpaceView| steps(s.ram_mb);
    let procs = |s: SpaceView| s.proc_count as int;
    let panes = |s: SpaceView| s.pane_count as int;
    let load = |s: SpaceView| steps(s.cpu.value);
    if ram(spaces[r]) + below(spaces, r, n, ram) < pow2(53 + grain) && (forall|i: int|
        0 <= i < n ==> grained((#[trigger] spaces[i]).ram_mb, grain)) {
        let ok = |s: SpaceView| grained(s.ram_mb, grain);
        lemma_ram_adds_up(grain);
        assert forall|i: int| 0 <= i < spaces.len() implies ok(#[trigger] spaces[i]) by {}
        lemma_gathered(spaces, r, n, ram, ok, pow2(53 + grain) - 1);
    }
    if procs(spaces[r]) + below(spaces, r, n, procs) <= usize::MAX {
        lemma_gathered(spaces, r, n, procs, any, usize::MAX as int);
    }
    if panes(spaces[r]) + below(spaces, r, n, panes) <= usize::MAX {
        lemma_gathered(spaces, r, n, panes, any, usize::MAX as int);
    }
    if load(spaces[r]) + below(spaces, r, n, load) < pow2(53 + grain) && (forall|i: int|
        0 <= i < n ==> grained((#[trigger] spaces[i]).cpu.value, grain)) {
        let ok = |s: SpaceView| grained(s.cpu.value, grain);
        lemma_load_adds_up(grain);
        assert forall|i: int| 0 <= i < spaces.len() implies ok(#[trigger] spaces[i]) by {}
        lemma_gathered(spaces, r, n, load, ok, pow2(53 + grain) - 1);
    }
    lemma_gathered_labels(spaces, r, n);
}

/// Labels behind the ones there were; without new ones, those stay as they were.
pub open spec fn behind(
    had: Option<Seq<Seq<char>>>,
    new: Seq<Seq<char>>,
) -> Option<Seq<Seq<char>>> {
    if new.len() == 0 {
        had
    } else {
        Some(
            match had {
                Some(labels) => labels + new,
                None => new,
            },
        )
    }
}

proof fn lemma_gathered_labels(spaces: Seq<SpaceView>, r: int, n: int)
    ensures
        gathered(spaces, r, n).worktree_labels == behind(
            spaces[r].worktree_labels,
            child_labels(spaces, r, n),
        ),
        ({
            let top = gathered(spaces, r, n);
            top == (SpaceView {
                cpu: top.cpu,
                ram_mb: top.ram_mb,
                proc_count: top.proc_count,
                pane_count: top.pane_count,
                worktree_labels: top.worktree_labels,
                ..spaces[r]
            })
        }),
    decreases n,
{
    if n > 0 {
        lemma_gathered_labels(spaces, r, n - 1);
        if parent_index(spaces, n - 1) == Some(r) {
            let new = child_labels(spaces, r, n - 1);
            let label = spaces[n - 1].label;
            match spaces[r].worktree_labels {
                Some(had) => {
                    assert((had + new).push(label) =~= had + new.push(label));
                    if new.len() == 0 {
                        assert(had.push(label) =~= had + new.push(label));
                    }
                },
                None => {
                    if new.len() == 0 {
                        assert(seq![label] =~= new.push(label));
                    }
                },
            }
        }
    }
}

/// No space that has a parent is surfaced on its own, and every space that has
/// none is, in the order they came.
pub proof fn law_no_child_is_surfaced(spaces: Seq<SpaceView>)
    ensures
        forall|i: int|
            0 <= i < aggregated(spaces).len() ==> (#[trigger] aggregated(spaces)[i]).family_parent
                is None,
        ids_of(aggregated(spaces)) == top_ids(spaces, spaces.len() as int),
{
    lemma_survivor_ids(spaces, spaces.len() as int);
}

/// The ids of those of the first `n` spaces that have no parent, in order.
pub open spec fn top_ids(spaces: Seq<SpaceView>, n: int) -> Seq<Seq<char>>
    decreases n,
{
    if n <= 0 {
        seq![]
    } else if spaces[n - 1].family_parent is None {
        top_ids(spaces, n - 1).push(spaces[n - 1].id)
    } else {
        top_ids(spaces, n - 1)
    }
}

proof fn lemma_survivor_ids(spaces: Seq<SpaceView>, n: int)
    requires
        0 <= n <= spaces.len(),
    ensures
        forall|i: int|
            0 <= i < survivors(spaces, n).len() ==> (#[trigger] survivors(
                spaces,
                n,
            )[i]).family_parent is None,
        ids_of(survivors(spaces, n)) == top_ids(spaces, n),
    decreases n,
{
    if n > 0 {
        lemma_survivor_ids(spaces, n - 1);
        if spaces[n - 1].family_parent is None {
            lemma_gathered_labels(spaces, n - 1, spaces.len() as int);
            let before = survivors(spaces, n - 1);
            let top = gathered(spaces, n - 1, spaces.len() as int);
            assert(ids_of(before.push(top)) =~= ids_of(before).push(top.id));
        }
    } else {
        assert(ids_of(survivors(spaces, n)) =~= top_ids(spaces, n));
    }
}

// ---- measuring ---------------------------------------------------------------------------------------

/// A window of whole seconds is so many of them.
pub(crate) proof fn lemma_whole_seconds(seconds: int)
    requires
        0 < seconds < DIGITS_END,
    ensures
        seconds_of(seconds * 1_000_000_000) == whole(seconds),
        less_than(zero(false), whole(seconds)),
{
    let u = one();
    lemma_pow2_pos(1074);
    lemma_whole(seconds);
    vstd::arithmetic::div_mod::lemma_fundamental_div_mod_converse(
        seconds * 1_000_000_000,
        1_000_000_000,
        seconds,
        0,
    );
    lemma_whole_quotient(0, 1_000_000_000);
    assert(0 * u == 0 && 0 * pow2(0) == 0);
    lemma_double_of_zero(false, 1_000_000_000);
    assert(seconds * u > 0) by (nonlinear_arith)
        requires
            seconds > 0,
            u > 0,
    ;
}

/// A hundred times no more than a whole number.
pub(crate) proof fn lemma_times_hundred(a: Double, n: int)
    requires
        0 <= n,
        100 * n < DIGITS_END,
        no_more(a, whole(n)),
    ensures
        no_more(product(a, 100), whole(100 * n)),
        a == whole(n) ==> product(a, 100) == whole(100 * n),
{
    let u = one();
    lemma_whole(n);
    lemma_whole(100 * n);
    assert((n * u) * 100 == (100 * n) * u) by (nonlinear_arith);
    if let Double::Finite { negative, digits, power } = a {
        lemma_worth_zero(digits as int, power as int);
        lemma_monotone(worth(digits as int, power as int) * 100, (100 * n) * u, 1);
    }
}

/// No more than a whole number, over one that divides it.
pub(crate) proof fn lemma_over_whole(a: Double, n: int, d: int, q: int)
    requires
        0 <= n < DIGITS_END,
        0 < d < DIGITS_END,
        0 <= q < DIGITS_END,
        n == q * d,
        no_more(a, whole(n)),
    ensures
        no_more(quotient(a, whole(d)), whole(q)),
        a == whole(n) ==> quotient(a, whole(d)) == whole(q),
{
    let u = one();
    lemma_pow2_pos(1074);
    lemma_whole(n);
    lemma_whole(d);
    lemma_whole(q);
    assert(d * u > 0 && q * u >= 0) by (nonlinear_arith)
        requires
            d > 0,
            q >= 0,
            u > 0,
    ;
    assert((n * u) * u == (q * u) * (d * u)) by (nonlinear_arith)
        requires
            n == q * d,
    ;
    lemma_even_quotient(false, q * u, d * u);
    if let Double::Finite { negative, digits, power } = whole(d) {
        lemma_worth_zero(digits as int, power as int);
    }
    if let Double::Finite { negative, digits, power } = a {
        let w = worth(digits as int, power as int);
        lemma_worth_zero(digits as int, power as int);
        assert(0 <= w * u <= (n * u) * u) by (nonlinear_arith)
            requires
                0 <= w <= n * u,
                u > 0,
        ;
        lemma_monotone(w * u, (n * u) * u, d * u);
    }
}

/// CPU is a share of the whole machine: over a window of whole seconds, processes
/// that used all the time the machine had are at a hundred percent, and those
/// that used less are at no more than that. In between two whole seconds the
/// window itself is rounded, and the share with it.
pub proof fn law_cpu_is_a_share_of_the_machine(ticks: int, clk_tck: int, seconds: int, nproc: int)
    requires
        0 < clk_tck,
        0 < seconds,
        0 < nproc,
        0 <= ticks <= clk_tck * (seconds * nproc),
        clk_tck * (seconds * nproc) < DIGITS_END,
        100 * (seconds * nproc) < DIGITS_END,
    ensures
        in_range(cpu_load(ticks, clk_tck, seconds * 1_000_000_000, nproc)),
        ticks == clk_tck * (seconds * nproc) ==> cpu_load(
            ticks,
            clk_tck,
            seconds * 1_000_000_000,
            nproc,
        ) == whole(100),
{
    let all = seconds * nproc;
    assert(seconds <= all && nproc <= all && all <= clk_tck * all && clk_tck <= clk_tck * all && 0
        < all) by (nonlinear_arith)
        requires
            seconds > 0,
            nproc > 0,
            clk_tck > 0,
            all == seconds * nproc,
    ;
    lemma_whole_seconds(seconds);
    // what was used, in seconds
    lemma_whole_quotient(ticks, clk_tck);
    lemma_whole_quotient(clk_tck * all, clk_tck);
    let u = one();
    lemma_pow2_pos(1074);
    assert((clk_tck * all) * u == (all * u) * clk_tck) by (nonlinear_arith);
    assert(all * u >= 0) by (nonlinear_arith)
        requires
            all > 0,
            u > 0,
    ;
    lemma_even_quotient(false, all * u, clk_tck);
    lemma_whole(all);
    assert(0 <= ticks * u <= (clk_tck * all) * u) by (nonlinear_arith)
        requires
            0 <= ticks <= clk_tck * all,
            u > 0,
    ;
    lemma_monotone(ticks * u, (clk_tck * all) * u, clk_tck);
    let used = quotient(whole(ticks), whole(clk_tck));
    assert(no_more(used, whole(all)));
    // a hundred times as much
    lemma_times_hundred(used, all);
    let scaled = product(used, 100);
    assert(no_more(scaled, whole(100 * all)));
    // over the window
    assert(100 * all == (100 * nproc) * seconds) by (nonlinear_arith)
        requires
            all == seconds * nproc,
    ;
    lemma_over_whole(scaled, 100 * all, seconds, 100 * nproc);
    let per_second = quotient(scaled, whole(seconds));
    // over the processors
    lemma_over_whole(per_second, 100 * nproc, nproc, 100);
    assert(0 * pow2(0) == 0);
    if let Double::Finite { negative, digits, power } = quotient(per_second, whole(nproc)) {
        lemma_worth_zero(digits as int, power as int);
    }
}

} // verus!
