//! Which spaces grouping puts into which family, told by the replies alone.

use vstd::arithmetic::power2::pow2;
use vstd::prelude::*;

use crate::collect::{
    aggregated, ancestor, assigned, assignments, children_assigned, descends, family_assigned,
    gathered, grouped, ids_of, last_index, lemma_assigned, lemma_assignments, lemma_last_index,
    parent_index, reaches, repo_seen, sound, survivors,
};
use crate::collect_laws::{
    below, chain_ends, child_labels, grained, law_a_top_holds_its_whole_family,
    law_folding_loses_no_load, law_folding_loses_no_ram, law_folding_loses_nothing, steps, total,
};
use crate::double::MAX_POWER;
use crate::model::{FamilyView, SpaceView};

verus! {

/// Whether the reply at `r` is the first about its repository.
pub open spec fn first_about(replies: Seq<Option<FamilyView>>, r: int) -> bool {
    replies[r] matches Some(f) && f.repo_key.len() > 0 && forall|j: int|
        0 <= j < r ==> (#[trigger] replies[j] matches Some(g) ==> g.repo_key != f.repo_key)
}

/// Whether the reply at `r` puts the workspace `child` under `parent`: it is the
/// first about its repository, `parent` is the repository's main checkout, and
/// `child` is another workspace a worktree of it is open in.
pub open spec fn puts_under(
    replies: Seq<Option<FamilyView>>,
    r: int,
    child: Seq<char>,
    parent: Seq<char>,
) -> bool {
    0 <= r < replies.len() && first_about(replies, r) && replies[r]->0.source == Some(parent)
        && child != parent && replies[r]->0.open.contains(Some(child))
}

/// Whether an assignment stands in a list.
spec fn listed(list: Seq<(int, Seq<char>)>, k: int, parent: Seq<char>) -> bool {
    exists|j: int| 0 <= j < list.len() && #[trigger] list[j] == (k, parent)
}

proof fn lemma_children_listed(
    ids: Seq<Seq<char>>,
    parent: Seq<char>,
    open: Seq<Option<Seq<char>>>,
    k: int,
    p: Seq<char>,
)
    ensures
        listed(children_assigned(ids, parent, open), k, p) <==> p == parent && exists|c: Seq<char>|
            #[trigger] open.contains(Some(c)) && c != parent && last_index(ids, c) == Some(k),
    decreases open.len(),
{
    let list = children_assigned(ids, parent, open);
    if open.len() > 0 {
        let front = open.drop_last();
        lemma_children_listed(ids, parent, front, k, p);
        let before = children_assigned(ids, parent, front);
        if listed(list, k, p) {
            let j = choose|j: int| 0 <= j < list.len() && #[trigger] list[j] == (k, p);
            if j < before.len() {
                assert(before[j] == (k, p));
                let c = choose|c: Seq<char>|
                    #[trigger] front.contains(Some(c)) && c != parent && last_index(ids, c) == Some(
                        k,
                    );
                let w = choose|w: int| 0 <= w < front.len() && front[w] == Some(c);
                assert(open[w] == Some(c));
                assert(open.contains(Some(c)));
            } else {
                let c = open.last()->0;
                assert(open[open.len() - 1] == Some(c));
                assert(open.contains(Some(c)));
            }
        }
        if p == parent && exists|c: Seq<char>|
            #[trigger] open.contains(Some(c)) && c != parent && last_index(ids, c) == Some(k) {
            let c = choose|c: Seq<char>|
                #[trigger] open.contains(Some(c)) && c != parent && last_index(ids, c) == Some(k);
            let w = choose|w: int| 0 <= w < open.len() && open[w] == Some(c);
            if w < front.len() {
                assert(front[w] == Some(c));
                assert(front.contains(Some(c)));
                let j = choose|j: int| 0 <= j < before.len() && #[trigger] before[j] == (k, p);
                assert(list[j] == (k, p));
            } else {
                assert(list == before.push((k, parent)));
                assert(list[before.len() as int] == (k, p));
            }
        }
    }
}

proof fn lemma_listed_concat(
    a: Seq<(int, Seq<char>)>,
    b: Seq<(int, Seq<char>)>,
    k: int,
    p: Seq<char>,
)
    ensures
        listed(a + b, k, p) <==> listed(a, k, p) || listed(b, k, p),
{
    let c = a + b;
    if listed(c, k, p) {
        let j = choose|j: int| 0 <= j < c.len() && #[trigger] c[j] == (k, p);
        if j < a.len() {
            assert(a[j] == (k, p));
        } else {
            assert(b[j - a.len()] == (k, p));
        }
    }
    if listed(a, k, p) {
        let j = choose|j: int| 0 <= j < a.len() && #[trigger] a[j] == (k, p);
        assert(c[j] == (k, p));
    }
    if listed(b, k, p) {
        let j = choose|j: int| 0 <= j < b.len() && #[trigger] b[j] == (k, p);
        assert(c[a.len() + j] == (k, p));
    }
}

/// Whether some reply puts the space at `k` under `p`, and `p` is there.
spec fn has_reason(
    ids: Seq<Seq<char>>,
    replies: Seq<Option<FamilyView>>,
    k: int,
    p: Seq<char>,
) -> bool {
    last_index(ids, p) is Some && exists|r: int, c: Seq<char>|
        #[trigger] puts_under(replies, r, c, p) && last_index(ids, c) == Some(k)
}

proof fn lemma_reason_step(
    ids: Seq<Seq<char>>,
    replies: Seq<Option<FamilyView>>,
    k: int,
    p: Seq<char>,
)
    requires
        replies.len() > 0,
    ensures
        has_reason(ids, replies, k, p) <==> has_reason(ids, replies.drop_last(), k, p) || (
        last_index(ids, p) is Some && exists|c: Seq<char>|
            #[trigger] puts_under(replies, replies.len() - 1, c, p) && last_index(ids, c) == Some(
                k,
            )),
{
    let front = replies.drop_last();
    let n = replies.len() - 1;
    assert forall|r: int, c: Seq<char>| 0 <= r < n implies #[trigger] puts_under(
        front,
        r,
        c,
        p,
    ) == puts_under(replies, r, c, p) by {
        lemma_first_front(replies, r);
    }
    if has_reason(ids, replies, k, p) {
        let (r, c) = choose|r: int, c: Seq<char>|
            #[trigger] puts_under(replies, r, c, p) && last_index(ids, c) == Some(k);
        if r < n {
            assert(puts_under(front, r, c, p));
        }
    }
    if has_reason(ids, front, k, p) {
        let (r, c) = choose|r: int, c: Seq<char>|
            #[trigger] puts_under(front, r, c, p) && last_index(ids, c) == Some(k);
        assert(puts_under(replies, r, c, p));
    }
}

proof fn lemma_first_front(replies: Seq<Option<FamilyView>>, r: int)
    requires
        0 <= r < replies.len() - 1,
    ensures
        first_about(replies.drop_last(), r) == first_about(replies, r),
{
    let front = replies.drop_last();
    assert(forall|j: int| 0 <= j <= r ==> #[trigger] front[j] == replies[j]);
    if first_about(front, r) {
        assert forall|j: int| 0 <= j < r implies (#[trigger] replies[j] matches Some(g)
            ==> g.repo_key != replies[r]->0.repo_key) by {
            assert(front[j] == replies[j]);
        }
    }
    if first_about(replies, r) {
        assert forall|j: int| 0 <= j < r implies (#[trigger] front[j] matches Some(g) ==> g.repo_key
            != front[r]->0.repo_key) by {
            assert(front[j] == replies[j]);
        }
    }
}

/// An assignment is made exactly where a reply gives a reason for it.
proof fn lemma_assignments_listed(
    ids: Seq<Seq<char>>,
    replies: Seq<Option<FamilyView>>,
    k: int,
    p: Seq<char>,
)
    ensures
        listed(assignments(ids, replies), k, p) <==> has_reason(ids, replies, k, p),
    decreases replies.len(),
{
    if replies.len() > 0 {
        let front = replies.drop_last();
        let n = replies.len() - 1;
        lemma_assignments_listed(ids, front, k, p);
        lemma_reason_step(ids, replies, k, p);
        assert(replies[n] == replies.last());
        if let Some(family) = replies.last() {
            lemma_listed_concat(assignments(ids, front), family_assigned(ids, family), k, p);
            if let Some(parent) = family.source {
                lemma_children_listed(ids, parent, family.open, k, p);
            }
            let seen = repo_seen(front, family.repo_key);
            if first_about(replies, n) {
                if seen {
                    let j = choose|j: int|
                        0 <= j < front.len() && (#[trigger] front[j] matches Some(f) && f.repo_key
                            == family.repo_key);
                    assert(replies[j] == front[j]);
                    assert(false);
                }
            } else if family.repo_key.len() > 0 && !seen {
                assert forall|j: int| 0 <= j < n implies (#[trigger] replies[j] matches Some(g)
                    ==> g.repo_key != family.repo_key) by {
                    assert(front[j] == replies[j]);
                }
                assert(first_about(replies, n));
            }
            if first_about(replies, n) && family.source == Some(p) && last_index(ids, p) is Some {
                if exists|c: Seq<char>|
                    #[trigger] family.open.contains(Some(c)) && c != p && last_index(ids, c)
                        == Some(k) {
                    let c = choose|c: Seq<char>|
                        #[trigger] family.open.contains(Some(c)) && c != p && last_index(ids, c)
                            == Some(k);
                    assert(puts_under(replies, n, c, p));
                }
                if exists|c: Seq<char>|
                    #[trigger] puts_under(replies, n, c, p) && last_index(ids, c) == Some(k) {
                    let c = choose|c: Seq<char>|
                        #[trigger] puts_under(replies, n, c, p) && last_index(ids, c) == Some(k);
                    assert(family.open.contains(Some(c)));
                }
            }
        }
    }
}

/// What the assignments of a space leave it with.
proof fn lemma_assigned_to(
    spaces: Seq<SpaceView>,
    list: Seq<(int, Seq<char>)>,
    k: int,
    p: Seq<char>,
)
    requires
        sound(ids_of(spaces), list),
        0 <= k < spaces.len(),
    ensures
        assigned(spaces, list).len() == spaces.len(),
        assigned(spaces, list)[k].family_parent == Some(p) ==> listed(list, k, p)
            || spaces[k].family_parent == Some(p),
        listed(list, k, p) && (forall|q: Seq<char>| #[trigger] listed(list, k, q) ==> q == p)
            ==> assigned(spaces, list)[k].family_parent == Some(p),
        (forall|q: Seq<char>| !#[trigger] listed(list, k, q)) ==> assigned(spaces, list)[k]
            == spaces[k],
    decreases list.len(),
{
    lemma_assigned(spaces, list);
    if list.len() > 0 {
        let front = list.drop_last();
        assert(sound(ids_of(spaces), front)) by {
            assert forall|i: int| 0 <= i < front.len() implies front[i] == list[i] by {}
        }
        lemma_assigned(spaces, front);
        lemma_assigned_to(spaces, front, k, p);
        let (j, q) = list.last();
        assert(list[list.len() - 1] == list.last());
        assert(0 <= j < ids_of(spaces).len());
        assert(listed(list, j, q));
        assert forall|o: Seq<char>| #[trigger] listed(front, k, o) implies listed(list, k, o) by {
            let x = choose|x: int| 0 <= x < front.len() && #[trigger] front[x] == (k, o);
            assert(list[x] == (k, o));
        }
        if j != k {
            assert forall|o: Seq<char>| #[trigger] listed(list, k, o) implies listed(
                front,
                k,
                o,
            ) by {
                let x = choose|x: int| 0 <= x < list.len() && #[trigger] list[x] == (k, o);
                assert(front[x] == (k, o));
            }
        }
    }
}

/// Every open worktree is grouped: where the first reply about a repository says
/// that its main checkout is open in one space and a worktree of it in another,
/// the second becomes a child of the first, unless another repository lists it
/// too.
pub proof fn law_every_open_worktree_is_grouped(
    spaces: Seq<SpaceView>,
    replies: Seq<Option<FamilyView>>,
    r: int,
    i: int,
    k: int,
)
    requires
        0 <= r < replies.len(),
        first_about(replies, r),
        0 <= i < spaces.len(),
        replies[r]->0.source == Some(spaces[i].id),
        0 <= k < spaces.len(),
        spaces[k].id != spaces[i].id,
        forall|j: int| k < j < spaces.len() ==> (#[trigger] spaces[j]).id != spaces[k].id,
        replies[r]->0.open.contains(Some(spaces[k].id)),
        forall|j: int|
            0 <= j < replies.len() && (#[trigger] replies[j] matches Some(g) && g.repo_key.len() > 0
                && g.repo_key != replies[r]->0.repo_key) ==> !replies[j]->0.open.contains(
                Some(spaces[k].id),
            ),
    ensures
        grouped(spaces, replies)[k].family_parent == Some(spaces[i].id),
{
    let ids = ids_of(spaces);
    let (c, p) = (spaces[k].id, spaces[i].id);
    let list = assignments(ids, replies);
    lemma_assignments(ids, replies);
    lemma_last_index(ids, c);
    lemma_last_index(ids, p);
    assert(ids[k] == c && ids[i] == p);
    assert(last_index(ids, c) == Some(k)) by {
        let x = last_index(ids, c)->0;
        assert(spaces[x].id == ids[x]);
    }
    assert(puts_under(replies, r, c, p));
    lemma_assignments_listed(ids, replies, k, p);
    assert forall|q: Seq<char>| #[trigger] listed(list, k, q) implies q == p by {
        lemma_assignments_listed(ids, replies, k, q);
        let (s, d) = choose|s: int, d: Seq<char>|
            #[trigger] puts_under(replies, s, d, q) && last_index(ids, d) == Some(k);
        lemma_last_index(ids, d);
        assert(d == c);
        if replies[s]->0.repo_key == replies[r]->0.repo_key {
            if s < r {
                assert(replies[s] matches Some(g) ==> g.repo_key != replies[r]->0.repo_key);
            } else if r < s {
                assert(replies[r] matches Some(g) ==> g.repo_key != replies[s]->0.repo_key);
            }
        }
    }
    lemma_assigned_to(spaces, list, k, p);
}

proof fn lemma_assigned_concat(
    spaces: Seq<SpaceView>,
    a: Seq<(int, Seq<char>)>,
    b: Seq<(int, Seq<char>)>,
)
    ensures
        assigned(spaces, a + b) == assigned(assigned(spaces, a), b),
    decreases b.len(),
{
    if b.len() == 0 {
        assert(a + b =~= a);
    } else {
        lemma_assigned_concat(spaces, a, b.drop_last());
        assert((a + b).drop_last() =~= a + b.drop_last());
        assert((a + b).last() == b.last());
    }
}

proof fn lemma_last_reply(
    spaces: Seq<SpaceView>,
    replies: Seq<Option<FamilyView>>,
    r: int,
    k: int,
    p: Seq<char>,
)
    requires
        0 <= k < spaces.len(),
        last_index(ids_of(spaces), spaces[k].id) == Some(k),
        last_index(ids_of(spaces), p) is Some,
        puts_under(replies, r, spaces[k].id, p),
        forall|s: int, q: Seq<char>|
            r < s && #[trigger] puts_under(replies, s, spaces[k].id, q) ==> last_index(
                ids_of(spaces),
                q,
            ) is None,
    ensures
        grouped(spaces, replies)[k].family_parent == Some(p),
    decreases replies.len(),
{
    let ids = ids_of(spaces);
    let c = spaces[k].id;
    let n = replies.len() - 1;
    let front = replies.drop_last();
    let a = assignments(ids, front);
    lemma_assignments(ids, front);
    lemma_assignments(ids, replies);
    lemma_assigned(spaces, a);
    let before = assigned(spaces, a);
    assert(ids_of(before) =~= ids);
    assert(replies.last() == replies[n]);
    assert forall|j: int| 0 <= j < front.len() implies front[j] == #[trigger] replies[j] by {}
    if r < n {
        lemma_first_front(replies, r);
        assert(puts_under(front, r, c, p));
        assert forall|s: int, q: Seq<char>|
            r < s && #[trigger] puts_under(front, s, c, q) implies last_index(ids, q) is None by {
            lemma_first_front(replies, s);
            assert(puts_under(replies, s, c, q));
        }
        lemma_last_reply(spaces, front, r, k, p);
    }
    if let Some(family) = replies.last() {
        if family.repo_key.len() > 0 && !repo_seen(front, family.repo_key) {
            assert(first_about(replies, n)) by {
                assert forall|j: int| 0 <= j < n implies (#[trigger] replies[j] matches Some(g)
                    ==> g.repo_key != family.repo_key) by {
                    assert(front[j] == replies[j]);
                }
            }
            let b = family_assigned(ids, family);
            lemma_assigned_concat(spaces, a, b);
            assert(sound(ids, b)) by {
                assert forall|j: int| 0 <= j < b.len() implies #[trigger] b[j] == (a + b)[a.len()
                    + j] by {}
            }
            if let Some(parent) = family.source {
                if last_index(ids, parent) is Some {
                    assert forall|q: Seq<char>| #[trigger] listed(b, k, q) implies q == parent
                        && r == n by {
                        lemma_children_listed(ids, parent, family.open, k, q);
                        let d = choose|d: Seq<char>|
                            #[trigger] family.open.contains(Some(d)) && d != parent && last_index(
                                ids,
                                d,
                            ) == Some(k);
                        lemma_last_index(ids, d);
                        assert(d == c);
                        assert(puts_under(replies, n, c, parent));
                    }
                    if r == n {
                        lemma_children_listed(ids, parent, family.open, k, p);
                        assert(family.open.contains(Some(c)));
                        assert(listed(b, k, p));
                    }
                } else {
                    assert forall|q: Seq<char>| !#[trigger] listed(b, k, q) by {}
                }
            } else {
                assert forall|q: Seq<char>| !#[trigger] listed(b, k, q) by {}
            }
            lemma_assigned_to(before, b, k, p);
        } else if r == n {
            let j = choose|j: int|
                0 <= j < front.len() && (#[trigger] front[j] matches Some(f) && f.repo_key
                    == family.repo_key);
            assert(replies[j] == front[j]);
        }
    }
}

/// Where several repositories list a space among their worktrees, the last of them
/// whose main checkout is open decides its parent.
pub proof fn law_the_last_repository_decides(
    spaces: Seq<SpaceView>,
    replies: Seq<Option<FamilyView>>,
    r: int,
    i: int,
    k: int,
)
    requires
        0 <= i < spaces.len(),
        0 <= k < spaces.len(),
        forall|j: int| k < j < spaces.len() ==> (#[trigger] spaces[j]).id != spaces[k].id,
        puts_under(replies, r, spaces[k].id, spaces[i].id),
        forall|s: int, j: int|
            r < s && 0 <= j < spaces.len() ==> !#[trigger] puts_under(
                replies,
                s,
                spaces[k].id,
                spaces[j].id,
            ),
    ensures
        grouped(spaces, replies)[k].family_parent == Some(spaces[i].id),
{
    let ids = ids_of(spaces);
    lemma_last_index(ids, spaces[k].id);
    lemma_last_index(ids, spaces[i].id);
    assert(ids[k] == spaces[k].id && ids[i] == spaces[i].id);
    assert(last_index(ids, spaces[k].id) == Some(k)) by {
        let x = last_index(ids, spaces[k].id)->0;
        assert(spaces[x].id == ids[x]);
    }
    assert forall|s: int, q: Seq<char>|
        r < s && #[trigger] puts_under(replies, s, spaces[k].id, q) implies last_index(
        ids,
        q,
    ) is None by {
        lemma_last_index(ids, q);
        if let Some(j) = last_index(ids, q) {
            assert(ids[j] == spaces[j].id);
            assert(puts_under(replies, s, spaces[k].id, spaces[j].id));
        }
    }
    lemma_last_reply(spaces, replies, r, k, spaces[i].id);
}

/// A space is grouped only for a reason: the parent it is given is a space that is
/// there, and the first reply about some repository names that one as the main
/// checkout and this one as another workspace a worktree is open in. A space that
/// no reply gives a reason for stays as it was.
pub proof fn law_no_space_is_grouped_without_a_reason(
    spaces: Seq<SpaceView>,
    replies: Seq<Option<FamilyView>>,
    k: int,
)
    requires
        0 <= k < spaces.len(),
    ensures
        grouped(spaces, replies)[k].family_parent != spaces[k].family_parent ==> (grouped(
            spaces,
            replies,
        )[k].family_parent matches Some(p) && (exists|i: int|
            0 <= i < spaces.len() && (#[trigger] spaces[i]).id == p) && exists|r: int|
            #[trigger] puts_under(replies, r, spaces[k].id, p)),
        (forall|r: int, p: Seq<char>| !#[trigger] puts_under(replies, r, spaces[k].id, p))
            ==> grouped(spaces, replies)[k] == spaces[k],
{
    let ids = ids_of(spaces);
    let list = assignments(ids, replies);
    lemma_assignments(ids, replies);
    lemma_assigned(spaces, list);
    assert forall|q: Seq<char>| #[trigger] listed(list, k, q) implies (exists|i: int|
        0 <= i < spaces.len() && (#[trigger] spaces[i]).id == q) && exists|r: int|
        #[trigger] puts_under(replies, r, spaces[k].id, q) by {
        lemma_assignments_listed(ids, replies, k, q);
        let (s, d) = choose|s: int, d: Seq<char>|
            #[trigger] puts_under(replies, s, d, q) && last_index(ids, d) == Some(k);
        lemma_last_index(ids, d);
        lemma_last_index(ids, q);
        assert(spaces[k].id == ids[k]);
        let i = last_index(ids, q)->0;
        assert(spaces[i].id == ids[i]);
        assert(puts_under(replies, s, spaces[k].id, q));
    }
    let now = grouped(spaces, replies)[k];
    match now.family_parent {
        Some(p) => {
            lemma_assigned_to(spaces, list, k, p);
            if now.family_parent != spaces[k].family_parent {
                assert(listed(list, k, p));
            }
        },
        None => {
            lemma_kept_parent(spaces, list, k);
        },
    }
    if forall|r: int, p: Seq<char>| !#[trigger] puts_under(replies, r, spaces[k].id, p) {
        assert forall|q: Seq<char>| !#[trigger] listed(list, k, q) by {}
        lemma_assigned_to(spaces, list, k, seq![]);
    }
}

/// Assigning parents takes none away.
proof fn lemma_kept_parent(spaces: Seq<SpaceView>, list: Seq<(int, Seq<char>)>, k: int)
    requires
        sound(ids_of(spaces), list),
        0 <= k < spaces.len(),
    ensures
        assigned(spaces, list)[k].family_parent is None ==> spaces[k].family_parent is None,
    decreases list.len(),
{
    lemma_assigned(spaces, list);
    if list.len() > 0 {
        let front = list.drop_last();
        assert(sound(ids_of(spaces), front)) by {
            assert forall|i: int| 0 <= i < front.len() implies front[i] == list[i] by {}
        }
        lemma_assigned(spaces, front);
        lemma_kept_parent(spaces, front, k);
        assert(list[list.len() - 1] == list.last());
        assert(0 <= list.last().0 < ids_of(spaces).len());
    }
}

// ---- folding -------------------------------------------------------------------------------------

/// How many of the first `n` spaces have no parent.
pub open spec fn tops_before(spaces: Seq<SpaceView>, n: int) -> nat {
    spaces.take(n).filter(|s: SpaceView| s.family_parent is None).len()
}

proof fn lemma_survivors(spaces: Seq<SpaceView>, n: int)
    requires
        0 <= n <= spaces.len(),
    ensures
        survivors(spaces, n).len() == tops_before(spaces, n),
        forall|r: int|
            0 <= r < n && (#[trigger] spaces[r]).family_parent is None ==> tops_before(spaces, r)
                < survivors(spaces, n).len() && survivors(spaces, n)[tops_before(spaces, r) as int]
                == gathered(spaces, r, spaces.len() as int),
    decreases n,
{
    reveal(Seq::filter);
    if n > 0 {
        lemma_survivors(spaces, n - 1);
        assert(spaces.take(n).drop_last() =~= spaces.take(n - 1));
        assert(spaces.take(n).last() == spaces[n - 1]);
    } else {
        assert(spaces.take(0).len() == 0);
    }
}

/// Each space without a parent is surfaced, in its turn among those, with its
/// whole family gathered into it.
pub proof fn law_every_top_is_surfaced_whole(spaces: Seq<SpaceView>, r: int)
    requires
        0 <= r < spaces.len(),
        spaces[r].family_parent is None,
    ensures
        aggregated(spaces).len() == tops_before(spaces, spaces.len() as int),
        tops_before(spaces, r) < aggregated(spaces).len(),
        aggregated(spaces)[tops_before(spaces, r) as int] == gathered(
            spaces,
            r,
            spaces.len() as int,
        ),
{
    lemma_survivors(spaces, spaces.len() as int);
}

// ---- families of any depth, without following their chains ------------------------------------------

/// Whether each space's parent, where it names one, is a space that is there and
/// ranks below it.
pub open spec fn ranked(spaces: Seq<SpaceView>, rank: Seq<nat>) -> bool {
    rank.len() == spaces.len() && forall|i: int|
        0 <= i < spaces.len() ==> ((#[trigger] spaces[i]).family_parent matches Some(p)
            ==> exists|j: int|
            0 <= j < spaces.len() && (#[trigger] spaces[j]).id == p && rank[j] < rank[i])
}

/// Whether no two spaces share an id.
pub open spec fn distinct_ids(spaces: Seq<SpaceView>) -> bool {
    forall|i: int, j: int|
        0 <= i < spaces.len() && 0 <= j < spaces.len() && i != j ==> (#[trigger] spaces[i]).id != (
        #[trigger] spaces[j]).id
}

/// A sum of a figure over spaces.
pub open spec fn summed(spaces: Seq<SpaceView>, figure: spec_fn(SpaceView) -> int) -> int {
    spaces.fold_left(0int, |t: int, s: SpaceView| t + figure(s))
}

proof fn lemma_summed(spaces: Seq<SpaceView>, figure: spec_fn(SpaceView) -> int)
    ensures
        summed(spaces, figure) == total(spaces, figure),
    decreases spaces.len(),
{
    if spaces.len() > 0 {
        lemma_summed(spaces.drop_last(), figure);
    }
}

proof fn lemma_parent_found(spaces: Seq<SpaceView>, i: int, j: int)
    requires
        distinct_ids(spaces),
        0 <= i < spaces.len(),
        0 <= j < spaces.len(),
        spaces[i].family_parent == Some(spaces[j].id),
    ensures
        parent_index(spaces, i) == Some(j),
{
    let ids = ids_of(spaces);
    lemma_last_index(ids, spaces[j].id);
    assert(ids[j] == spaces[j].id);
    let k = last_index(ids, spaces[j].id)->0;
    assert(ids[k] == spaces[k].id);
}

proof fn lemma_ranked_chain(spaces: Seq<SpaceView>, rank: Seq<nat>, i: int)
    requires
        distinct_ids(spaces),
        ranked(spaces, rank),
        0 <= i < spaces.len(),
    ensures
        chain_ends(spaces, i),
    decreases rank[i],
{
    match spaces[i].family_parent {
        Some(p) => {
            let j = choose|j: int|
                0 <= j < spaces.len() && (#[trigger] spaces[j]).id == p && rank[j] < rank[i];
            lemma_ranked_chain(spaces, rank, j);
            lemma_parent_found(spaces, i, j);
            let r = choose|r: int|
                0 <= r < spaces.len() && spaces[r].family_parent is None && #[trigger] reaches(
                    spaces,
                    j,
                    r,
                );
            let k = choose|k: nat| #[trigger] ancestor(spaces, j, k) == Some(r);
            assert(ancestor(spaces, i, k + 1) == Some(r));
            assert(reaches(spaces, i, r));
        },
        None => {
            assert(ancestor(spaces, i, 0) == Some(i));
            assert(reaches(spaces, i, i));
        },
    }
}

/// Whatever the depth of the families and the order of the spaces, folding keeps
/// every process and every pane: where each child names a parent that is there,
/// and no chain of parents comes back to itself, the counts of what is left add up
/// to those of what there was.
pub proof fn law_families_of_any_depth_keep_their_counts(spaces: Seq<SpaceView>, rank: Seq<nat>)
    requires
        distinct_ids(spaces),
        ranked(spaces, rank),
        summed(spaces, |s: SpaceView| s.proc_count as int) <= usize::MAX,
        summed(spaces, |s: SpaceView| s.pane_count as int) <= usize::MAX,
    ensures
        summed(aggregated(spaces), |s: SpaceView| s.proc_count as int) == summed(
            spaces,
            |s: SpaceView| s.proc_count as int,
        ),
        summed(aggregated(spaces), |s: SpaceView| s.pane_count as int) == summed(
            spaces,
            |s: SpaceView| s.pane_count as int,
        ),
{
    assert forall|i: int| 0 <= i < spaces.len() implies #[trigger] chain_ends(spaces, i) by {
        lemma_ranked_chain(spaces, rank, i);
    }
    let procs = |s: SpaceView| s.proc_count as int;
    let panes = |s: SpaceView| s.pane_count as int;
    lemma_summed(spaces, procs);
    lemma_summed(spaces, panes);
    lemma_summed(aggregated(spaces), procs);
    lemma_summed(aggregated(spaces), panes);
    law_folding_loses_nothing(spaces);
}

/// And its load and its RAM, as long as no sum of theirs needs more digits than a
/// double has.
pub proof fn law_families_of_any_depth_keep_their_figures(
    spaces: Seq<SpaceView>,
    rank: Seq<nat>,
    grain: nat,
)
    requires
        distinct_ids(spaces),
        ranked(spaces, rank),
        grain <= MAX_POWER,
        forall|i: int| 0 <= i < spaces.len() ==> grained((#[trigger] spaces[i]).cpu.value, grain),
        forall|i: int| 0 <= i < spaces.len() ==> grained((#[trigger] spaces[i]).ram_mb, grain),
        summed(spaces, |s: SpaceView| steps(s.cpu.value)) < pow2(53 + grain),
        summed(spaces, |s: SpaceView| steps(s.ram_mb)) < pow2(53 + grain),
    ensures
        summed(aggregated(spaces), |s: SpaceView| steps(s.cpu.value)) == summed(
            spaces,
            |s: SpaceView| steps(s.cpu.value),
        ),
        summed(aggregated(spaces), |s: SpaceView| steps(s.ram_mb)) == summed(
            spaces,
            |s: SpaceView| steps(s.ram_mb),
        ),
{
    assert forall|i: int| 0 <= i < spaces.len() implies #[trigger] chain_ends(spaces, i) by {
        lemma_ranked_chain(spaces, rank, i);
    }
    let cpu = |s: SpaceView| steps(s.cpu.value);
    let ram = |s: SpaceView| steps(s.ram_mb);
    lemma_summed(spaces, cpu);
    lemma_summed(spaces, ram);
    lemma_summed(aggregated(spaces), cpu);
    lemma_summed(aggregated(spaces), ram);
    law_folding_loses_no_load(spaces, grain);
    law_folding_loses_no_ram(spaces, grain);
}

proof fn lemma_child_labels(spaces: Seq<SpaceView>, r: int, n: int)
    requires
        distinct_ids(spaces),
        0 <= r < spaces.len(),
        0 <= n <= spaces.len(),
    ensures
        child_labels(spaces, r, n) == spaces.take(n).filter_map(
            |s: SpaceView|
                if s.family_parent == Some(spaces[r].id) {
                    Some(s.label)
                } else {
                    None
                },
        ),
    decreases n,
{
    let pick = |s: SpaceView|
        if s.family_parent == Some(spaces[r].id) {
            Some(s.label)
        } else {
            None
        };
    if n > 0 {
        lemma_child_labels(spaces, r, n - 1);
        assert(spaces.take(n).drop_last() =~= spaces.take(n - 1));
        assert(spaces.take(n).last() == spaces[n - 1]);
        let before = spaces.take(n - 1).filter_map(pick);
        assert(before + seq![spaces[n - 1].label] =~= before.push(spaces[n - 1].label));
        if spaces[n - 1].family_parent == Some(spaces[r].id) {
            lemma_parent_found(spaces, n - 1, r);
        } else if parent_index(spaces, n - 1) == Some(r) {
            lemma_last_index(ids_of(spaces), spaces[n - 1].family_parent->0);
            assert(ids_of(spaces)[r] == spaces[r].id);
        }
    }
}

/// A surfaced space names its own worktrees: the labels of the spaces that name it
/// as their parent, in the order they came, behind any it had; without such spaces
/// its labels stay as they were. Its id, name, branch, focus, roots and panes are
/// its own.
pub proof fn law_a_top_names_its_own_worktrees(spaces: Seq<SpaceView>, r: int)
    requires
        distinct_ids(spaces),
        0 <= r < spaces.len(),
        spaces[r].family_parent is None,
    ensures
        tops_before(spaces, r) < aggregated(spaces).len(),
        ({
            let top = aggregated(spaces)[tops_before(spaces, r) as int];
            let names = spaces.filter_map(
                |s: SpaceView|
                    if s.family_parent == Some(spaces[r].id) {
                        Some(s.label)
                    } else {
                        None
                    },
            );
            &&& names.len() == 0 ==> top.worktree_labels == spaces[r].worktree_labels
            &&& names.len() > 0 && spaces[r].worktree_labels is None ==> top.worktree_labels
                == Some(names)
            &&& names.len() > 0 && spaces[r].worktree_labels is Some ==> top.worktree_labels
                == Some(spaces[r].worktree_labels->0 + names)
            &&& top.id == spaces[r].id && top.label == spaces[r].label && top.focused
                == spaces[r].focused && top.branch == spaces[r].branch && top.roots
                == spaces[r].roots && top.agent_panes == spaces[r].agent_panes && top.spare_panes
                == spaces[r].spare_panes && top.pseudo_panes == spaces[r].pseudo_panes
        }),
{
    let n = spaces.len() as int;
    law_every_top_is_surfaced_whole(spaces, r);
    law_a_top_holds_its_whole_family(spaces, r, 0);
    lemma_child_labels(spaces, r, n);
    assert(spaces.take(n) =~= spaces);
}

/// Whether every space's parent, where it names one, is there and has none itself.
pub open spec fn flat(spaces: Seq<SpaceView>) -> bool {
    forall|i: int|
        0 <= i < spaces.len() ==> ((#[trigger] spaces[i]).family_parent matches Some(p)
            ==> exists|j: int|
            0 <= j < spaces.len() && (#[trigger] spaces[j]).id == p && spaces[j].family_parent
                is None)
}

proof fn lemma_flat_descends(spaces: Seq<SpaceView>, i: int, r: int)
    requires
        distinct_ids(spaces),
        flat(spaces),
        0 <= i < spaces.len(),
        0 <= r < spaces.len(),
        spaces[r].family_parent is None,
    ensures
        descends(spaces, i, r) <==> spaces[i].family_parent == Some(spaces[r].id),
{
    if spaces[i].family_parent == Some(spaces[r].id) {
        lemma_parent_found(spaces, i, r);
        assert(ancestor(spaces, r, 0) == Some(r));
        assert(ancestor(spaces, i, 1) == Some(r));
    } else if descends(spaces, i, r) {
        let k = choose|k: nat| k > 0 && #[trigger] ancestor(spaces, i, k) == Some(r);
        let p = spaces[i].family_parent->0;
        let j = choose|j: int|
            0 <= j < spaces.len() && (#[trigger] spaces[j]).id == p && spaces[j].family_parent
                is None;
        lemma_parent_found(spaces, i, j);
        assert(ancestor(spaces, j, (k - 1) as nat) == Some(r));
        assert(parent_index(spaces, j) is None);
        assert(k == 1);
    }
}

proof fn lemma_below_flat(
    spaces: Seq<SpaceView>,
    r: int,
    n: int,
    figure: spec_fn(SpaceView) -> int,
)
    requires
        distinct_ids(spaces),
        flat(spaces),
        0 <= r < spaces.len(),
        spaces[r].family_parent is None,
        0 <= n <= spaces.len(),
    ensures
        below(spaces, r, n, figure) == summed(
            spaces.take(n).filter(|s: SpaceView| s.family_parent == Some(spaces[r].id)),
            figure,
        ),
    decreases n,
{
    reveal(Seq::filter);
    let mine = |s: SpaceView| s.family_parent == Some(spaces[r].id);
    if n > 0 {
        lemma_below_flat(spaces, r, n - 1, figure);
        lemma_flat_descends(spaces, n - 1, r);
        assert(spaces.take(n).drop_last() =~= spaces.take(n - 1));
        assert(spaces.take(n).last() == spaces[n - 1]);
        let before = spaces.take(n - 1).filter(mine);
        assert(before.push(spaces[n - 1]).drop_last() =~= before);
    } else {
        assert(spaces.take(0).filter(mine).len() == 0);
    }
}

/// In a family of one level, the space at the top holds its own counts and those
/// of the spaces that name it as their parent, and no others.
pub proof fn law_a_top_counts_its_children(spaces: Seq<SpaceView>, r: int)
    requires
        distinct_ids(spaces),
        flat(spaces),
        0 <= r < spaces.len(),
        spaces[r].family_parent is None,
    ensures
        ({
            let top = aggregated(spaces)[tops_before(spaces, r) as int];
            let children = spaces.filter(
                |s: SpaceView| s.family_parent == Some(spaces[r].id),
            );
            let panes = spaces[r].pane_count + summed(children, |s: SpaceView| s.pane_count as int);
            let procs = spaces[r].proc_count + summed(children, |s: SpaceView| s.proc_count as int);
            &&& panes <= usize::MAX ==> top.pane_count == panes
            &&& procs <= usize::MAX ==> top.proc_count == procs
        }),
{
    let n = spaces.len() as int;
    law_every_top_is_surfaced_whole(spaces, r);
    law_a_top_holds_its_whole_family(spaces, r, 0);
    lemma_below_flat(spaces, r, n, |s: SpaceView| s.pane_count as int);
    lemma_below_flat(spaces, r, n, |s: SpaceView| s.proc_count as int);
    assert(spaces.take(n) =~= spaces);
}

} // verus!
