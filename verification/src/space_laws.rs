//! What a session snapshot's spaces hold, told by the snapshot alone.

use vstd::prelude::*;

use crate::collect::{
    annotated_by_others, bucket, collected, foreign_among, pane_views, panes_in, roles_of,
    roots_in,
};
use crate::model::{PaneInfo, PaneView, SessionSnapshot};
use crate::views::texts;

verus! {

/// Whether a pane runs an agent of the given name.
pub open spec fn runs(pane: PaneInfo, agent: Seq<char>) -> bool {
    pane.agent matches Some(a) && a@ == agent
}

/// Whether a pane runs no agent at all.
pub open spec fn runs_nothing(pane: PaneInfo) -> bool {
    pane.agent matches Some(a) ==> a@.len() == 0
}

/// Whether a pane carries a token of another name than the given one.
pub open spec fn carries_other(pane: PaneInfo, token: Seq<char>) -> bool {
    pane.tokens matches Some(keys) && exists|i: int|
        0 <= i < keys@.len() && (#[trigger] keys@[i])@ != token
}

proof fn lemma_views_front(panes: Seq<PaneInfo>)
    requires
        panes.len() > 0,
    ensures
        pane_views(panes).drop_last() == pane_views(panes.drop_last()),
        pane_views(panes).last() == panes.last()@,
{
    assert(pane_views(panes).drop_last() =~= pane_views(panes.drop_last()));
}

proof fn lemma_carries(pane: PaneInfo)
    ensures
        carries_other(pane, "usage"@) == annotated_by_others(pane@),
{
    if let Some(keys) = pane.tokens {
        let names = texts(keys@);
        if carries_other(pane, "usage"@) {
            let i = choose|i: int| 0 <= i < keys@.len() && (#[trigger] keys@[i])@ != "usage"@;
            assert(names[i] != "usage"@);
            assert(foreign_among(names));
        }
        if foreign_among(names) {
            let i = choose|i: int| 0 <= i < names.len() && #[trigger] names[i] != "usage"@;
            assert(keys@[i]@ != "usage"@);
        }
    }
}

// ---- shells ----------------------------------------------------------------------------------

/// The shell learnt of the pane at `k`, where the pane stands in the workspace and
/// has one.
pub open spec fn shell_of(
    panes: Seq<PaneInfo>,
    pids: Seq<Option<u32>>,
    id: Seq<char>,
    k: int,
) -> Option<u32> {
    if panes[k].workspace_id@ == id && k < pids.len() && pids[k] != Some(0u32) {
        pids[k]
    } else {
        None
    }
}

proof fn lemma_roots(panes: Seq<PaneInfo>, pids: Seq<Option<u32>>, id: Seq<char>, n: int)
    requires
        0 <= n <= panes.len(),
    ensures
        roots_in(pane_views(panes.take(n)), pids, id) == Seq::new(
            n as nat,
            |k: int| shell_of(panes, pids, id, k),
        ).filter_map(|shell: Option<u32>| shell),
    decreases n,
{
    let keep = |shell: Option<u32>| shell;
    let all = Seq::new(n as nat, |k: int| shell_of(panes, pids, id, k));
    if n > 0 {
        lemma_roots(panes, pids, id, n - 1);
        lemma_views_front(panes.take(n));
        assert(panes.take(n).drop_last() =~= panes.take(n - 1));
        let front = Seq::new((n - 1) as nat, |k: int| shell_of(panes, pids, id, k));
        assert(all.drop_last() =~= front);
        if let Some(pid) = shell_of(panes, pids, id, n - 1) {
            assert(front.filter_map(keep) + seq![pid] =~= front.filter_map(keep).push(pid));
        }
    } else {
        assert(panes.take(0) =~= seq![]);
    }
}

proof fn lemma_kept(all: Seq<Option<u32>>, k: int)
    requires
        0 <= k < all.len(),
    ensures
        all[k] matches Some(pid) ==> all.filter_map(|shell: Option<u32>| shell).contains(pid),
    decreases all.len(),
{
    let keep = |shell: Option<u32>| shell;
    let front = all.drop_last();
    let before = front.filter_map(keep);
    if let Some(pid) = all[k] {
        if k == all.len() - 1 {
            let now = before + seq![pid];
            assert(now[before.len() as int] == pid);
        } else {
            lemma_kept(front, k);
            let j = choose|j: int| 0 <= j < before.len() && before[j] == pid;
            assert(all.filter_map(keep)[j] == pid);
        }
    }
}

/// Every pane of a workspace counts toward its space: the shell of each is a root,
/// in the order of the panes, whatever runs in the pane and whoever annotated it,
/// and nothing else is.
pub proof fn law_every_pane_gives_its_shell(
    snapshot: SessionSnapshot,
    pids: Seq<Option<u32>>,
    branches: Seq<Seq<char>>,
    i: int,
)
    requires
        0 <= i < snapshot.workspaces@.len(),
    ensures
        ({
            let id = snapshot.workspaces@[i].workspace_id@;
            let roots = collected(snapshot, pids, branches)[i].roots;
            &&& roots == Seq::new(
                snapshot.panes@.len(),
                |k: int| shell_of(snapshot.panes@, pids, id, k),
            ).filter_map(|shell: Option<u32>| shell)
            &&& forall|k: int, pid: u32|
                0 <= k < snapshot.panes@.len() && k < pids.len()
                    && snapshot.panes@[k].workspace_id@ == id && pid != 0 && #[trigger] pids[k]
                    == Some(pid) ==> #[trigger] roots.contains(pid)
        }),
{
    let panes = snapshot.panes@;
    let id = snapshot.workspaces@[i].workspace_id@;
    lemma_roots(panes, pids, id, panes.len() as int);
    assert(panes.take(panes.len() as int) =~= panes);
    let all = Seq::new(panes.len(), |k: int| shell_of(panes, pids, id, k));
    let roots = collected(snapshot, pids, branches)[i].roots;
    assert forall|k: int, pid: u32|
        0 <= k < panes.len() && k < pids.len() && panes[k].workspace_id@ == id && pid != 0
            && #[trigger] pids[k] == Some(pid) implies #[trigger] roots.contains(pid) by {
        assert(all[k] == Some(pid));
        lemma_kept(all, k);
    }
}

// ---- roles ------------------------------------------------------------------------------------

/// The ids of the panes of a workspace that satisfy `pick`, in order.
pub open spec fn picked(
    panes: Seq<PaneInfo>,
    id: Seq<char>,
    pick: spec_fn(PaneInfo) -> bool,
) -> Seq<Seq<char>> {
    panes.filter_map(
        |p: PaneInfo|
            if p.workspace_id@ == id && pick(p) {
                Some(p.pane_id@)
            } else {
                None
            },
    )
}

proof fn lemma_picked(panes: Seq<PaneInfo>, id: Seq<char>, pick: spec_fn(PaneInfo) -> bool)
    requires
        panes.len() > 0,
    ensures
        picked(panes, id, pick) == if panes.last().workspace_id@ == id && pick(panes.last()) {
            picked(panes.drop_last(), id, pick).push(panes.last().pane_id@)
        } else {
            picked(panes.drop_last(), id, pick)
        },
{
    let before = picked(panes.drop_last(), id, pick);
    assert(before + seq![panes.last().pane_id@] =~= before.push(panes.last().pane_id@));
}

proof fn lemma_roles(panes: Seq<PaneInfo>, id: Seq<char>)
    ensures
        ({
            let own = panes_in(pane_views(panes), id);
            let roles = roles_of(own);
            &&& own.len() == picked(panes, id, |p: PaneInfo| true).len()
            &&& roles.pseudo_panes == picked(panes, id, |p: PaneInfo| runs(p, "usage"@))
            &&& roles.agent_panes == picked(
                panes,
                id,
                |p: PaneInfo| !runs(p, "usage"@) && !runs_nothing(p),
            )
            &&& roles.spare_panes == picked(
                panes,
                id,
                |p: PaneInfo| runs_nothing(p) && !carries_other(p, "usage"@),
            )
        }),
    decreases panes.len(),
{
    let every = |p: PaneInfo| true;
    let pseudo = |p: PaneInfo| runs(p, "usage"@);
    let agents = |p: PaneInfo| !runs(p, "usage"@) && !runs_nothing(p);
    let spare = |p: PaneInfo| runs_nothing(p) && !carries_other(p, "usage"@);
    if panes.len() == 0 {
        assert(pane_views(panes) =~= seq![]);
    } else {
        let last = panes.last();
        lemma_roles(panes.drop_last(), id);
        lemma_views_front(panes);
        lemma_carries(last);
        lemma_picked(panes, id, every);
        lemma_picked(panes, id, pseudo);
        lemma_picked(panes, id, agents);
        lemma_picked(panes, id, spare);
        reveal_strlit("usage");
        let own = panes_in(pane_views(panes), id);
        let before = panes_in(pane_views(panes.drop_last()), id);
        if last.workspace_id@ == id {
            assert(own.drop_last() =~= before);
            assert(own.last() == last@);
        }
    }
}

/// What a space holds of its panes: how many there are, and which of them carry
/// the usage pseudo-agent, run an agent of their own, or are plain shells that no
/// other plugin has annotated, each in the order of the panes.
pub proof fn law_a_space_holds_its_own_panes(
    snapshot: SessionSnapshot,
    pids: Seq<Option<u32>>,
    branches: Seq<Seq<char>>,
    i: int,
)
    requires
        0 <= i < snapshot.workspaces@.len(),
    ensures
        ({
            let panes = snapshot.panes@;
            let id = snapshot.workspaces@[i].workspace_id@;
            let s = collected(snapshot, pids, branches)[i];
            &&& panes.len() <= usize::MAX ==> s.pane_count == picked(
                panes,
                id,
                |p: PaneInfo| true,
            ).len()
            &&& s.pseudo_panes == picked(panes, id, |p: PaneInfo| runs(p, "usage"@))
            &&& s.agent_panes == picked(
                panes,
                id,
                |p: PaneInfo| !runs(p, "usage"@) && !runs_nothing(p),
            )
            &&& s.spare_panes == picked(
                panes,
                id,
                |p: PaneInfo| runs_nothing(p) && !carries_other(p, "usage"@),
            )
        }),
{
    let panes = snapshot.panes@;
    let id = snapshot.workspaces@[i].workspace_id@;
    lemma_roles(panes, id);
    lemma_picked_len(panes, id, |p: PaneInfo| true);
}

proof fn lemma_picked_len(panes: Seq<PaneInfo>, id: Seq<char>, pick: spec_fn(PaneInfo) -> bool)
    ensures
        picked(panes, id, pick).len() <= panes.len(),
    decreases panes.len(),
{
    if panes.len() > 0 {
        lemma_picked_len(panes.drop_last(), id, pick);
        lemma_picked(panes, id, pick);
    }
}

/// A space goes by its workspace: its id, its name (the id where it has none),
/// whether it is focused and the branch handed in for it, and nothing is measured,
/// grouped or folded yet. There is one space per workspace, in their order.
pub proof fn law_a_space_goes_by_its_workspace(
    snapshot: SessionSnapshot,
    pids: Seq<Option<u32>>,
    branches: Seq<Seq<char>>,
    i: int,
)
    requires
        0 <= i < snapshot.workspaces@.len(),
    ensures
        collected(snapshot, pids, branches).len() == snapshot.workspaces@.len(),
        ({
            let ws = snapshot.workspaces@[i];
            let s = collected(snapshot, pids, branches)[i];
            &&& s.id == ws.workspace_id@
            &&& ws.label@.len() > 0 ==> s.label == ws.label@
            &&& ws.label@.len() == 0 ==> s.label == ws.workspace_id@
            &&& s.focused == ws.focused
            &&& s.branch == branches[i]
            &&& s.proc_count == 0
            &&& s.family_parent is None
            &&& s.worktree_labels is None
        }),
{
}

/// The directory a branch is read from is that of the first pane that has one.
pub proof fn law_the_first_directory_is_the_branchs(panes: Seq<PaneView>)
    ensures
        match roles_of(panes).cwd {
            Some(dir) => dir.len() > 0 && exists|k: int|
                0 <= k < panes.len() && (#[trigger] panes[k]).cwd == Some(dir) && forall|j: int|
                    0 <= j < k ==> ((#[trigger] panes[j]).cwd matches Some(d) ==> d.len() == 0),
            None => forall|j: int|
                0 <= j < panes.len() ==> ((#[trigger] panes[j]).cwd matches Some(d) ==> d.len()
                    == 0),
        },
    decreases panes.len(),
{
    if panes.len() > 0 {
        let front = panes.drop_last();
        law_the_first_directory_is_the_branchs(front);
        let n = panes.len() - 1;
        assert(forall|j: int| 0 <= j < n ==> #[trigger] panes[j] == front[j]);
        match roles_of(front).cwd {
            Some(dir) => {
                let k = choose|k: int|
                    0 <= k < front.len() && (#[trigger] front[k]).cwd == Some(dir) && forall|j: int|
                        0 <= j < k ==> ((#[trigger] front[j]).cwd matches Some(d) ==> d.len() == 0);
                assert(panes[k].cwd == Some(dir));
            },
            None => {
                assert(panes[n] == panes.last());
                if let Some(dir) = roles_of(panes).cwd {
                    assert(panes[n].cwd == Some(dir));
                }
            },
        }
    }
}

/// The panes of a workspace are those that name it, in the order they came.
pub proof fn law_a_workspace_has_the_panes_that_name_it(panes: Seq<PaneView>, id: Seq<char>)
    ensures
        panes_in(panes, id) == panes.filter(|p: PaneView| p.workspace_id == id),
    decreases panes.len(),
{
    reveal(Seq::filter);
    if panes.len() > 0 {
        law_a_workspace_has_the_panes_that_name_it(panes.drop_last(), id);
    } else {
        assert(panes =~= seq![]);
    }
}

/// Which bucket a pane falls into: the usage pseudo-agent's, that of agents, none
/// where another plugin has annotated it, or that of plain shells.
pub proof fn law_a_pane_falls_into_one_bucket(pane: PaneInfo)
    ensures
        bucket(pane@) is Pseudo <==> runs(pane, "usage"@),
        bucket(pane@) is Agent <==> !runs(pane, "usage"@) && !runs_nothing(pane),
        bucket(pane@) is Foreign <==> runs_nothing(pane) && carries_other(pane, "usage"@),
        bucket(pane@) is Spare <==> runs_nothing(pane) && !carries_other(pane, "usage"@),
{
    reveal_strlit("usage");
    lemma_carries(pane);
}

} // verus!
