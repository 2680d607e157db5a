//! Snapshot to spaces, worktree grouping, and CPU / RAM measurement.
//!
//! One session snapshot becomes [`Space`]s; worktree children are grouped under
//! the workspace of their main checkout; CPU and RAM are measured over each
//! space's process subtrees; and the children are folded into their parents.

use std::collections::{HashMap, HashSet};

use vstd::prelude::*;
use vstd::string::*;

use crate::double::{less_than, product, quotient, sum, whole, zero, Double};
use crate::model::{
    blank_space, space_views, FamilyView, PaneInfo, PaneView, SessionSnapshot, Space, SpaceView,
    WorktreeListResult,
};
use crate::proc::{
    children_map, inverts, lemma_process_tree, process_tree, subtrees, ProcEntry,
};
use crate::text::{from_utf8_lossy, lossy_utf8, same, trim, trimmed};
use crate::units::{add_u64, in_megabytes, megabytes, Percent};
use crate::views::{lemma_texts_push, opt_text, texts};

verus! {

broadcast use {lemma_texts_push, vstd::std_specs::hash::group_hash_axioms};

/// Pseudo-agent label that marks the entries this plugin claims.
pub const PSEUDO_AGENT: &'static str = "usage";

// ---- classifying panes ------------------------------------------------------------------

/// How one workspace's panes divide up: the cwd the branch is read from, plus
/// the agent / spare / pseudo buckets.
#[derive(Debug, Clone, PartialEq, Eq)]
pub struct PaneRoles {
    /// cwd of the first pane that reports one.
    pub cwd: Option<String>,
    /// Panes with a real agent.
    pub agent_panes: Vec<String>,
    /// Plain shell panes.
    pub spare_panes: Vec<String>,
    /// Panes already carrying the "usage" pseudo-agent.
    pub pseudo_panes: Vec<String>,
}

/// What a [`PaneRoles`] says, in plain values.
pub struct RolesView {
    pub cwd: Option<Seq<char>>,
    pub agent_panes: Seq<Seq<char>>,
    pub spare_panes: Seq<Seq<char>>,
    pub pseudo_panes: Seq<Seq<char>>,
}

impl View for PaneRoles {
    type V = RolesView;

    open spec fn view(&self) -> RolesView {
        RolesView {
            cwd: opt_text(self.cwd),
            agent_panes: texts(self.agent_panes@),
            spare_panes: texts(self.spare_panes@),
            pseudo_panes: texts(self.pseudo_panes@),
        }
    }
}

/// No pane at all.
pub open spec fn no_roles() -> RolesView {
    RolesView { cwd: None, agent_panes: seq![], spare_panes: seq![], pseudo_panes: seq![] }
}

impl Default for PaneRoles {
    fn default() -> (r: Self)
        ensures
            r@ == no_roles(),
    {
        let r = PaneRoles {
            cwd: None,
            agent_panes: Vec::new(),
            spare_panes: Vec::new(),
            pseudo_panes: Vec::new(),
        };
        assert(r@.agent_panes =~= seq![]);
        assert(r@.spare_panes =~= seq![]);
        assert(r@.pseudo_panes =~= seq![]);
        r
    }
}

/// Whether a pane belongs to another plugin: it carries a metadata token other
/// than this plugin's own.
pub open spec fn annotated_by_others(pane: PaneView) -> bool {
    match pane.tokens {
        Some(keys) => foreign_among(keys),
        None => false,
    }
}

/// Whether any token name is not this plugin's.
pub open spec fn foreign_among(keys: Seq<Seq<char>>) -> bool {
    exists|i: int| 0 <= i < keys.len() && #[trigger] keys[i] != PSEUDO_AGENT@
}

/// The bucket a pane falls into.
pub enum Bucket {
    Pseudo,
    Agent,
    Foreign,
    Spare,
}

/// This plugin's pseudo-agent first, then any other agent, else a plain shell,
/// unless another plugin owns it.
pub open spec fn bucket(pane: PaneView) -> Bucket {
    match pane.agent {
        Some(agent) => if agent == PSEUDO_AGENT@ {
            Bucket::Pseudo
        } else if agent.len() > 0 {
            Bucket::Agent
        } else if annotated_by_others(pane) {
            Bucket::Foreign
        } else {
            Bucket::Spare
        },
        None => if annotated_by_others(pane) {
            Bucket::Foreign
        } else {
            Bucket::Spare
        },
    }
}

/// What one more pane adds to the roles.
pub open spec fn role_added(roles: RolesView, pane: PaneView) -> RolesView {
    let cwd = match (roles.cwd, pane.cwd) {
        (None, Some(dir)) => if dir.len() > 0 {
            Some(dir)
        } else {
            None
        },
        _ => roles.cwd,
    };
    match bucket(pane) {
        Bucket::Pseudo => RolesView {
            cwd,
            pseudo_panes: roles.pseudo_panes.push(pane.pane_id),
            ..roles
        },
        Bucket::Agent => RolesView {
            cwd,
            agent_panes: roles.agent_panes.push(pane.pane_id),
            ..roles
        },
        Bucket::Foreign => RolesView { cwd, ..roles },
        Bucket::Spare => RolesView {
            cwd,
            spare_panes: roles.spare_panes.push(pane.pane_id),
            ..roles
        },
    }
}

/// The roles of panes, in the order they were reported.
pub open spec fn roles_of(panes: Seq<PaneView>) -> RolesView
    decreases panes.len(),
{
    if panes.len() == 0 {
        no_roles()
    } else {
        role_added(roles_of(panes.drop_last()), panes.last())
    }
}

/// What a list of panes says.
pub open spec fn pane_views(v: Seq<PaneInfo>) -> Seq<PaneView> {
    v.map_values(|p: PaneInfo| p@)
}

/// The same of a list of borrowed panes.
pub open spec fn pane_ref_views(v: Seq<&PaneInfo>) -> Seq<PaneView> {
    v.map_values(|p: &PaneInfo| p@)
}

/// Whether an agent-less pane belongs to another plugin.
///
/// A heuristic: token names carry no owner, so "someone else annotated this
/// pane" is the strongest signal there is. The plugin's own token must not trip
/// it, or a pane it reported once would stop being a spare pane.
pub fn is_plugin_pane(pane: &PaneInfo) -> (r: bool)
    ensures
        r == annotated_by_others(pane@),
{
    match &pane.tokens {
        Some(keys) => {
            let mut i: usize = 0;
            while i < keys.len()
                invariant
                    i <= keys.len(),
                    pane@.tokens == Some(texts(keys@)),
                    forall|j: int| 0 <= j < i ==> #[trigger] texts(keys@)[j] == PSEUDO_AGENT@,
                decreases keys.len() - i,
            {
                if !same(keys[i].as_str(), PSEUDO_AGENT) {
                    assert(texts(keys@)[i as int] != PSEUDO_AGENT@);
                    assert(foreign_among(texts(keys@)));
                    return true;
                }
                i += 1;
            }
            false
        },
        None => false,
    }
}

/// Classify one workspace's panes, in the order herdr reported them.
///
/// The first pane with a non-empty cwd wins the branch lookup: `cwd` can be
/// absent while a pane is still starting, so a later pane may supply it. A pane
/// another plugin owns is never a status host.
pub fn classify_panes(panes: &Vec<&PaneInfo>) -> (r: PaneRoles)
    ensures
        r@ == roles_of(pane_ref_views(panes@)),
{
    let mut roles = PaneRoles::default();
    let mut i: usize = 0;
    let ghost all = pane_ref_views(panes@);
    assert(all.take(0) =~= seq![]);
    while i < panes.len()
        invariant
            i <= panes.len(),
            all == pane_ref_views(panes@),
            roles@ == roles_of(all.take(i as int)),
        decreases panes.len() - i,
    {
        assert(all.take(i + 1).drop_last() =~= all.take(i as int));
        let pane: &PaneInfo = panes[i];
        assert(all[i as int] == pane@);
        if roles.cwd.is_none() {
            if let Some(dir) = &pane.cwd {
                if !dir.as_str().is_empty() {
                    roles.cwd = Some(dir.clone());
                }
            }
        }
        let named = match &pane.agent {
            Some(agent) => !agent.as_str().is_empty(),
            None => false,
        };
        let ours = match &pane.agent {
            Some(agent) => same(agent.as_str(), PSEUDO_AGENT),
            None => false,
        };
        if ours {
            roles.pseudo_panes.push(pane.pane_id.clone());
        } else if named {
            roles.agent_panes.push(pane.pane_id.clone());
        } else if !is_plugin_pane(pane) {
            roles.spare_panes.push(pane.pane_id.clone());
        }
        i += 1;
    }
    assert(all.take(i as int) =~= all);
    roles
}

/// The panes of one workspace, in the order they were reported.
pub open spec fn panes_in(panes: Seq<PaneView>, workspace_id: Seq<char>) -> Seq<PaneView>
    decreases panes.len(),
{
    if panes.len() == 0 {
        seq![]
    } else if panes.last().workspace_id == workspace_id {
        panes_in(panes.drop_last(), workspace_id).push(panes.last())
    } else {
        panes_in(panes.drop_last(), workspace_id)
    }
}

/// The panes of a snapshot's flat list that stand under one workspace, in
/// herdr's reported order: that order is what makes "the first pane's cwd"
/// well-defined.
pub fn panes_by_workspace<'a>(panes: &'a Vec<PaneInfo>, workspace_id: &str) -> (r: Vec<
    &'a PaneInfo,
>)
    ensures
        pane_ref_views(r@) == panes_in(pane_views(panes@), workspace_id@),
        r@.len() <= panes@.len(),
{
    let mut r: Vec<&'a PaneInfo> = Vec::new();
    let ghost all = pane_views(panes@);
    let mut i: usize = 0;
    assert(pane_ref_views(r@) =~= panes_in(all.take(0), workspace_id@));
    while i < panes.len()
        invariant
            i <= panes.len(),
            all == pane_views(panes@),
            pane_ref_views(r@) == panes_in(all.take(i as int), workspace_id@),
            r@.len() <= i,
        decreases panes.len() - i,
    {
        assert(all.take(i + 1).drop_last() =~= all.take(i as int));
        if same(panes[i].workspace_id.as_str(), workspace_id) {
            let ghost before = r@;
            r.push(&panes[i]);
            assert(pane_ref_views(r@) =~= pane_ref_views(before).push(all[i as int]));
        }
        i += 1;
    }
    assert(all.take(i as int) =~= all);
    r
}

// ---- spaces --------------------------------------------------------------------------------

/// The shell PIDs of one workspace's panes, given each pane's answer: a pane that
/// could not be asked, or has none, contributes no root.
pub open spec fn roots_in(
    panes: Seq<PaneView>,
    pids: Seq<Option<u32>>,
    workspace_id: Seq<char>,
) -> Seq<u32>
    decreases panes.len(),
{
    if panes.len() == 0 {
        seq![]
    } else {
        let before = roots_in(panes.drop_last(), pids, workspace_id);
        let k = panes.len() - 1;
        if panes.last().workspace_id == workspace_id && k < pids.len() && (pids[k] matches Some(
            pid,
        ) && pid != 0) {
            before.push(pids[k]->0)
        } else {
            before
        }
    }
}

/// The space one workspace makes.
pub open spec fn space_of(
    id: Seq<char>,
    label: Seq<char>,
    focused: bool,
    panes: Seq<PaneView>,
    pids: Seq<Option<u32>>,
    branch: Seq<char>,
) -> SpaceView {
    let own = panes_in(panes, id);
    let roles = roles_of(own);
    SpaceView {
        id,
        label: if label.len() > 0 {
            label
        } else {
            id
        },
        focused,
        pane_count: own.len() as usize,
        branch,
        roots: roots_in(panes, pids, id),
        agent_panes: roles.agent_panes,
        spare_panes: roles.spare_panes,
        pseudo_panes: roles.pseudo_panes,
        ..blank_space()
    }
}

/// The directory each workspace's branch is read from, in the order of the
/// workspaces.
pub fn branch_dirs(snapshot: &SessionSnapshot) -> (r: Vec<Option<String>>)
    ensures
        r@.len() == snapshot.workspaces@.len(),
        forall|i: int|
            0 <= i < r@.len() ==> opt_text(#[trigger] r@[i]) == roles_of(
                panes_in(
                    pane_views(snapshot.panes@),
                    snapshot.workspaces@[i].workspace_id@,
                ),
            ).cwd,
{
    let mut r: Vec<Option<String>> = Vec::new();
    let mut i: usize = 0;
    while i < snapshot.workspaces.len()
        invariant
            i <= snapshot.workspaces.len(),
            r@.len() == i,
            forall|j: int|
                0 <= j < i ==> opt_text(#[trigger] r@[j]) == roles_of(
                    panes_in(
                        pane_views(snapshot.panes@),
                        snapshot.workspaces@[j].workspace_id@,
                    ),
                ).cwd,
        decreases snapshot.workspaces.len() - i,
    {
        let own = panes_by_workspace(
            &snapshot.panes,
            snapshot.workspaces[i].workspace_id.as_str(),
        );
        let roles = classify_panes(&own);
        r.push(roles.cwd);
        i += 1;
    }
    r
}

fn collect_roots(panes: &Vec<PaneInfo>, pids: &Vec<Option<u32>>, workspace_id: &str) -> (r: Vec<
    u32,
>)
    ensures
        r@ == roots_in(pane_views(panes@), pids@, workspace_id@),
{
    let mut r: Vec<u32> = Vec::new();
    let ghost all = pane_views(panes@);
    let mut i: usize = 0;
    assert(r@ =~= roots_in(all.take(0), pids@, workspace_id@));
    while i < panes.len()
        invariant
            i <= panes.len(),
            all == pane_views(panes@),
            r@ == roots_in(all.take(i as int), pids@, workspace_id@),
        decreases panes.len() - i,
    {
        assert(all.take(i + 1).drop_last() =~= all.take(i as int));
        if same(panes[i].workspace_id.as_str(), workspace_id) && i < pids.len() {
            if let Some(pid) = pids[i] {
                if pid != 0 {
                    r.push(pid);
                }
            }
        }
        i += 1;
    }
    assert(all.take(i as int) =~= all);
    r
}

/// Enumerate spaces and the root shell PID of each of their panes, classifying
/// panes into agent / spare / pseudo buckets.
///
/// `pids` holds what was learnt of each pane's shell, in the order of the panes;
/// `branches` the branch of each workspace, in the order of the workspaces.
pub fn collect_spaces(
    snapshot: &SessionSnapshot,
    pids: &Vec<Option<u32>>,
    branches: &Vec<String>,
) -> (r: Vec<Space>)
    requires
        branches.len() == snapshot.workspaces.len(),
    ensures
        space_views(r@) == collected(*snapshot, pids@, texts(branches@)),
{
    let mut spaces: Vec<Space> = Vec::new();
    let mut i: usize = 0;
    while i < snapshot.workspaces.len()
        invariant
            i <= snapshot.workspaces.len(),
            branches.len() == snapshot.workspaces.len(),
            spaces@.len() == i,
            forall|j: int|
                0 <= j < i ==> (#[trigger] spaces@[j])@ == space_of(
                    snapshot.workspaces@[j].workspace_id@,
                    snapshot.workspaces@[j].label@,
                    snapshot.workspaces@[j].focused,
                    pane_views(snapshot.panes@),
                    pids@,
                    branches@[j]@,
                ),
        decreases snapshot.workspaces.len() - i,
    {
        let ws = &snapshot.workspaces[i];
        let id = ws.workspace_id.as_str();
        let own = panes_by_workspace(&snapshot.panes, id);
        let roles = classify_panes(&own);
        let roots = collect_roots(&snapshot.panes, pids, id);
        let label = if ws.label.as_str().is_empty() {
            ws.workspace_id.clone()
        } else {
            ws.label.clone()
        };
        let mut space = Space::default();
        space.id = ws.workspace_id.clone();
        space.label = label;
        space.focused = ws.focused;
        space.pane_count = own.len();
        space.branch = branches[i].clone();
        space.roots = roots;
        space.agent_panes = roles.agent_panes;
        space.spare_panes = roles.spare_panes;
        space.pseudo_panes = roles.pseudo_panes;
        proof {
            assert(pane_ref_views(own@).len() == own@.len());
        }
        spaces.push(space);
        i += 1;
    }
    assert(space_views(spaces@) =~= collected(*snapshot, pids@, texts(branches@)));
    spaces
}

/// The branch a git reply names: nothing where git failed.
pub open spec fn branch_named(reply: Option<Seq<u8>>) -> Seq<char> {
    match reply {
        Some(stdout) => trim(lossy_utf8(stdout)),
        None => seq![],
    }
}

/// What is in the standard output git left, if it succeeded.
pub open spec fn opt_bytes(reply: Option<Vec<u8>>) -> Option<Seq<u8>> {
    match reply {
        Some(v) => Some(v@),
        None => None,
    }
}

/// git branch of `cwd`: what running git there prints, trimmed, and nothing
/// where it fails. Without a directory git is not run at all.
pub fn git_branch<F: FnOnce(&str) -> Option<Vec<u8>>>(cwd: Option<&str>, run: F) -> (r: String)
    requires
        cwd matches Some(dir) ==> dir@.len() > 0 ==> run.requires((dir,)),
    ensures
        match cwd {
            Some(dir) => if dir@.len() > 0 {
                exists|reply: Option<Vec<u8>>|
                    run.ensures((dir,), reply) && r@ == branch_named(#[trigger] opt_bytes(reply))
            } else {
                r@.len() == 0
            },
            None => r@.len() == 0,
        },
{
    match cwd {
        Some(dir) => {
            if dir.is_empty() {
                return String::new();
            }
            let reply = run(dir);
            let ghost said = opt_bytes(reply);
            match &reply {
                Some(stdout) => {
                    let text = from_utf8_lossy(stdout);
                    trimmed(text.as_str()).to_owned()
                },
                None => {
                    let r = String::new();
                    assert(r@ =~= branch_named(said));
                    r
                },
            }
        },
        None => String::new(),
    }
}

// ---- worktree families ------------------------------------------------------------------------

/// The workspace ids of a list of spaces.
pub open spec fn ids_of(spaces: Seq<SpaceView>) -> Seq<Seq<char>> {
    spaces.map_values(|s: SpaceView| s.id)
}

/// Index of the last space with an id.
pub open spec fn last_index(ids: Seq<Seq<char>>, id: Seq<char>) -> Option<int>
    decreases ids.len(),
{
    if ids.len() == 0 {
        None
    } else if ids.last() == id {
        Some(ids.len() - 1)
    } else {
        last_index(ids.drop_last(), id)
    }
}

/// What the replies say, where they are replies.
pub open spec fn family_views(replies: Seq<Option<WorktreeListResult>>) -> Seq<Option<FamilyView>> {
    replies.map_values(
        |r: Option<WorktreeListResult>|
            match r {
                Some(f) => Some(f@),
                None => None,
            },
    )
}

/// Whether any of the replies is about the repository `key`.
pub open spec fn repo_seen(replies: Seq<Option<FamilyView>>, key: Seq<char>) -> bool {
    exists|j: int| 0 <= j < replies.len() && (#[trigger] replies[j] matches Some(f) && f.repo_key
        == key)
}

/// The spaces that become children of `parent`, in the order their worktrees were
/// listed: those that are open, and not the parent itself.
pub open spec fn children_assigned(
    ids: Seq<Seq<char>>,
    parent: Seq<char>,
    open: Seq<Option<Seq<char>>>,
) -> Seq<(int, Seq<char>)>
    decreases open.len(),
{
    if open.len() == 0 {
        seq![]
    } else {
        let before = children_assigned(ids, parent, open.drop_last());
        match open.last() {
            Some(child) => match last_index(ids, child) {
                Some(k) => if child != parent {
                    before.push((k, parent))
                } else {
                    before
                },
                None => before,
            },
            None => before,
        }
    }
}

/// The assignments one reply makes: a family forms only when the repository's
/// main checkout is itself open.
pub open spec fn family_assigned(ids: Seq<Seq<char>>, family: FamilyView) -> Seq<(int, Seq<char>)> {
    match family.source {
        Some(parent) => if last_index(ids, parent) is Some {
            children_assigned(ids, parent, family.open)
        } else {
            seq![]
        },
        None => seq![],
    }
}

/// Every assignment the replies make, in order: one reply per repository counts,
/// the first.
pub open spec fn assignments(ids: Seq<Seq<char>>, replies: Seq<Option<FamilyView>>) -> Seq<
    (int, Seq<char>),
>
    decreases replies.len(),
{
    if replies.len() == 0 {
        seq![]
    } else {
        let before = assignments(ids, replies.drop_last());
        match replies.last() {
            Some(family) => if family.repo_key.len() > 0 && !repo_seen(
                replies.drop_last(),
                family.repo_key,
            ) {
                before + family_assigned(ids, family)
            } else {
                before
            },
            None => before,
        }
    }
}

/// The spaces after the assignments, the last one of a space standing.
pub open spec fn assigned(spaces: Seq<SpaceView>, list: Seq<(int, Seq<char>)>) -> Seq<SpaceView>
    decreases list.len(),
{
    if list.len() == 0 {
        spaces
    } else {
        let before = assigned(spaces, list.drop_last());
        let (k, parent) = list.last();
        before.update(k, SpaceView { family_parent: Some(parent), ..before[k] })
    }
}

/// The spaces after every reply was taken into account.
pub open spec fn grouped(
    spaces: Seq<SpaceView>,
    replies: Seq<Option<FamilyView>>,
) -> Seq<SpaceView> {
    assigned(spaces, assignments(ids_of(spaces), replies))
}

pub(crate) proof fn lemma_last_index(ids: Seq<Seq<char>>, id: Seq<char>)
    ensures
        last_index(ids, id) matches Some(k) ==> 0 <= k < ids.len() && ids[k] == id,
        last_index(ids, id) is None ==> forall|i: int|
            0 <= i < ids.len() ==> #[trigger] ids[i] != id,
        last_index(ids, id) matches Some(k) ==> forall|i: int|
            k < i < ids.len() ==> #[trigger] ids[i] != id,
    decreases ids.len(),
{
    if ids.len() > 0 && ids.last() != id {
        lemma_last_index(ids.drop_last(), id);
        assert forall|i: int| 0 <= i < ids.len() - 1 implies #[trigger] ids[i]
            == ids.drop_last()[i] by {}
    }
}

/// Assigning parents changes no id and no count.
pub(crate) proof fn lemma_assigned(spaces: Seq<SpaceView>, list: Seq<(int, Seq<char>)>)
    requires
        sound(ids_of(spaces), list),
    ensures
        assigned(spaces, list).len() == spaces.len(),
        ids_of(assigned(spaces, list)) == ids_of(spaces),
        forall|k: int|
            0 <= k < spaces.len() ==> (#[trigger] assigned(spaces, list)[k]) == (SpaceView {
                family_parent: assigned(spaces, list)[k].family_parent,
                ..spaces[k]
            }),
    decreases list.len(),
{
    if list.len() > 0 {
        let front = list.drop_last();
        assert(sound(ids_of(spaces), front)) by {
            assert forall|i: int| 0 <= i < front.len() implies front[i] == list[i] by {}
        }
        lemma_assigned(spaces, front);
        assert(list[list.len() - 1] == list.last());
        let before = assigned(spaces, front);
        let now = assigned(spaces, list);
        assert forall|k: int| 0 <= k < spaces.len() implies ids_of(now)[k] == ids_of(
            spaces,
        )[k] by {
            assert(ids_of(before)[k] == ids_of(spaces)[k]);
            assert(before[k].id == spaces[k].id);
        }
        assert(ids_of(now) =~= ids_of(spaces));
    }
}

/// Whether every assignment is of a space that is there, to another space that is
/// there.
pub open spec fn sound(ids: Seq<Seq<char>>, list: Seq<(int, Seq<char>)>) -> bool {
    forall|i: int|
        0 <= i < list.len() ==> 0 <= (#[trigger] list[i]).0 < ids.len() && ids[list[i].0]
            != list[i].1 && last_index(ids, list[i].1) is Some
}

proof fn lemma_sound_concat(
    ids: Seq<Seq<char>>,
    a: Seq<(int, Seq<char>)>,
    b: Seq<(int, Seq<char>)>,
)
    requires
        sound(ids, a),
        sound(ids, b),
    ensures
        sound(ids, a + b),
{
    let c = a + b;
    assert forall|i: int| 0 <= i < c.len() implies 0 <= (#[trigger] c[i]).0 < ids.len()
        && ids[c[i].0] != c[i].1 && last_index(ids, c[i].1) is Some by {
        if i < a.len() {
            assert(c[i] == a[i]);
        } else {
            assert(c[i] == b[i - a.len()]);
        }
    }
}

pub(crate) proof fn lemma_children_assigned(
    ids: Seq<Seq<char>>,
    parent: Seq<char>,
    open: Seq<Option<Seq<char>>>,
)
    requires
        last_index(ids, parent) is Some,
    ensures
        sound(ids, children_assigned(ids, parent, open)),
    decreases open.len(),
{
    if open.len() > 0 {
        lemma_children_assigned(ids, parent, open.drop_last());
        let before = children_assigned(ids, parent, open.drop_last());
        if let Some(child) = open.last() {
            lemma_last_index(ids, child);
            if let Some(k) = last_index(ids, child) {
                if child != parent {
                    lemma_sound_concat(ids, before, seq![(k, parent)]);
                    assert(before + seq![(k, parent)] =~= before.push((k, parent)));
                }
            }
        }
    }
}

/// Every assignment is of a space that is there, to another space that is there.
pub(crate) proof fn lemma_assignments(ids: Seq<Seq<char>>, replies: Seq<Option<FamilyView>>)
    ensures
        sound(ids, assignments(ids, replies)),
    decreases replies.len(),
{
    if replies.len() > 0 {
        lemma_assignments(ids, replies.drop_last());
        let before = assignments(ids, replies.drop_last());
        if let Some(family) = replies.last() {
            if let Some(parent) = family.source {
                if last_index(ids, parent) is Some {
                    lemma_children_assigned(ids, parent, family.open);
                }
            }
            lemma_sound_concat(ids, before, family_assigned(ids, family));
        }
    }
}

/// Index of the last space with an id.
fn index_of_id(spaces: &Vec<Space>, id: &str) -> (r: Option<usize>)
    ensures
        match r {
            Some(k) => last_index(ids_of(space_views(spaces@)), id@) == Some(k as int) && k
                < spaces.len(),
            None => last_index(ids_of(space_views(spaces@)), id@) is None,
        },
{
    let ghost ids = ids_of(space_views(spaces@));
    let mut i: usize = spaces.len();
    assert(ids.take(i as int) =~= ids);
    while i > 0
        invariant
            i <= spaces.len(),
            ids == ids_of(space_views(spaces@)),
            last_index(ids, id@) == last_index(ids.take(i as int), id@),
        decreases i,
    {
        assert(ids.take(i as int).drop_last() =~= ids.take(i - 1));
        assert(ids[i - 1] == spaces@[i - 1]@.id);
        if same(spaces[i - 1].id.as_str(), id) {
            return Some(i - 1);
        }
        i -= 1;
    }
    None
}

fn assign_parent(spaces: &mut Vec<Space>, k: usize, parent: &str)
    requires
        k < old(spaces)@.len(),
    ensures
        space_views(final(spaces)@) == space_views(old(spaces)@).update(
            k as int,
            SpaceView { family_parent: Some(parent@), ..old(spaces)@[k as int]@ },
        ),
{
    let ghost before = spaces@;
    spaces[k].family_parent = Some(parent.to_owned());
    assert(space_views(spaces@) =~= space_views(before).update(
        k as int,
        SpaceView { family_parent: Some(parent@), ..before[k as int]@ },
    ));
}

/// Apply the assignments one reply makes.
fn assign_family(spaces: &mut Vec<Space>, reply: &WorktreeListResult)
    ensures
        space_views(final(spaces)@) == assigned(
            space_views(old(spaces)@),
            family_assigned(ids_of(space_views(old(spaces)@)), reply@),
        ),
{
    let ghost start = space_views(spaces@);
    let ghost ids = ids_of(start);
    let parent: &String = match &reply.source.source_workspace_id {
        Some(id) => id,
        None => {
            return;
        },
    };
    if index_of_id(spaces, parent.as_str()).is_none() {
        return;
    }
    let ghost open = reply@.open;
    let mut i: usize = 0;
    assert(children_assigned(ids, parent@, open.take(0)) =~= seq![]);
    while i < reply.worktrees.len()
        invariant
            i <= reply.worktrees.len(),
            open == reply@.open,
            ids == ids_of(start),
            last_index(ids, parent@) is Some,
            ids_of(space_views(spaces@)) == ids,
            space_views(spaces@) == assigned(
                start,
                children_assigned(ids, parent@, open.take(i as int)),
            ),
        decreases reply.worktrees.len() - i,
    {
        assert(open.take(i + 1).drop_last() =~= open.take(i as int));
        assert(open[i as int] == opt_text(reply.worktrees@[i as int].open_workspace_id));
        let ghost list = children_assigned(ids, parent@, open.take(i as int));
        if let Some(child) = &reply.worktrees[i].open_workspace_id {
            if let Some(k) = index_of_id(spaces, child.as_str()) {
                if !same(child.as_str(), parent.as_str()) {
                    let ghost before = space_views(spaces@);
                    assign_parent(spaces, k, parent.as_str());
                    proof {
                        let longer = list.push((k as int, parent@));
                        assert(longer.drop_last() =~= list);
                        assert(space_views(spaces@) == assigned(start, longer));
                        lemma_children_assigned(ids, parent@, open.take(i + 1));
                        lemma_assigned(start, longer);
                    }
                }
            }
        }
        i += 1;
    }
    assert(open.take(i as int) =~= open);
}

/// Tag worktree-child spaces with their group parent, given the worktrees each
/// space's workspace lists, or nothing where it is in no repository.
///
/// One reply per repository counts, and a family forms only when the main
/// checkout is itself open.
pub fn group_worktree_families(
    spaces: &mut Vec<Space>,
    replies: &Vec<Option<WorktreeListResult>>,
)
    ensures
        space_views(final(spaces)@) == grouped(space_views(old(spaces)@), family_views(replies@)),
{
    let ghost start = space_views(spaces@);
    let ghost ids = ids_of(start);
    let ghost all = family_views(replies@);
    let mut seen: Vec<String> = Vec::new();
    let mut i: usize = 0;
    assert(all.take(0) =~= seq![]);
    while i < replies.len()
        invariant
            i <= replies.len(),
            all == family_views(replies@),
            ids == ids_of(start),
            ids_of(space_views(spaces@)) == ids,
            space_views(spaces@) == assigned(start, assignments(ids, all.take(i as int))),
            forall|key: Seq<char>|
                key.len() > 0 ==> #[trigger] texts(seen@).contains(key) == repo_seen(
                    all.take(i as int),
                    key,
                ),
        decreases replies.len() - i,
    {
        let ghost before = all.take(i as int);
        let ghost now = all.take(i + 1);
        let ghost listed = texts(seen@);
        assert(now.drop_last() =~= before);
        assert(now.last() == all[i as int]);
        proof {
            lemma_repo_seen(before, all[i as int]);
            assert(now =~= before.push(all[i as int]));
        }
        if let Some(reply) = &replies[i] {
            let key = reply.source.repo_key.as_str();
            if !key.is_empty() && !crate::text::holds(&seen, key) {
                seen.push(key.to_owned());
                assign_family(spaces, reply);
                proof {
                    lemma_assigned_concat(
                        start,
                        assignments(ids, before),
                        family_assigned(ids, reply@),
                    );
                    lemma_assignments(ids, now);
                    lemma_assigned(start, assignments(ids, now));
                    assert forall|k: Seq<char>| k.len() > 0 implies #[trigger] texts(
                        seen@,
                    ).contains(k) == repo_seen(now, k) by {
                        lemma_push_contains(listed, key@, k);
                    }
                }
            }
        }
        i += 1;
    }
    assert(all.take(i as int) =~= all);
}

proof fn lemma_push_contains(s: Seq<Seq<char>>, x: Seq<char>, y: Seq<char>)
    ensures
        s.push(x).contains(y) == (s.contains(y) || x == y),
{
    if s.contains(y) {
        let j = choose|j: int| 0 <= j < s.len() && s[j] == y;
        assert(s.push(x)[j] == y);
    }
    if x == y {
        assert(s.push(x)[s.len() as int] == y);
    }
    if s.push(x).contains(y) {
        let j = choose|j: int| 0 <= j < s.push(x).len() && s.push(x)[j] == y;
        if j < s.len() {
            assert(s[j] == y);
        }
    }
}

/// One more reply makes its repository seen, and no other.
proof fn lemma_repo_seen(replies: Seq<Option<FamilyView>>, more: Option<FamilyView>)
    ensures
        forall|key: Seq<char>| #[trigger]
            repo_seen(replies.push(more), key) == (repo_seen(replies, key) || (more matches Some(
                f,
            ) && f.repo_key == key)),
{
    assert forall|key: Seq<char>| #[trigger]
        repo_seen(replies.push(more), key) == (repo_seen(replies, key) || (more matches Some(f)
            && f.repo_key == key)) by {
        let longer = replies.push(more);
        if repo_seen(replies, key) {
            let j = choose|j: int| 0 <= j < replies.len() && (#[trigger] replies[j] matches Some(f)
                && f.repo_key == key);
            assert(longer[j] == replies[j]);
        }
        if more matches Some(f) && f.repo_key == key {
            assert(longer[replies.len() as int] == more);
        }
        if repo_seen(longer, key) {
            let j = choose|j: int| 0 <= j < longer.len() && (#[trigger] longer[j] matches Some(f)
                && f.repo_key == key);
            if j < replies.len() {
                assert(replies[j] == longer[j]);
            }
        }
    }
}

/// Assigning one list and then another is assigning both.
proof fn lemma_assigned_concat(
    spaces: Seq<SpaceView>,
    a: Seq<(int, Seq<char>)>,
    b: Seq<(int, Seq<char>)>,
)
    ensures
        assigned(spaces, a + b) == assigned(assigned(spaces, a), b),
    decreases b.len(),
{
    if b.len() == 0 {
        assert(a + b =~= a);
    } else {
        lemma_assigned_concat(spaces, a, b.drop_last());
        assert((a + b).drop_last() =~= a + b.drop_last());
        assert((a + b).last() == b.last());
    }
}

// ---- measuring ------------------------------------------------------------------------------------

/// The sum of `f` over a finite set.
pub open spec fn set_sum(s: Set<u32>, f: spec_fn(u32) -> int) -> int
    decreases s.len(),
    when s.finite()
{
    if s.len() == 0 {
        0
    } else {
        let x = s.choose();
        f(x) + set_sum(s.remove(x), f)
    }
}

/// What CPU time one process used between two scans; a counter that went back
/// (a reset, a recycled pid) counts as nothing, and so does a process that is
/// not in both.
pub open spec fn ticks_used(
    before: Map<u32, ProcEntry>,
    after: Map<u32, ProcEntry>,
    pid: u32,
) -> int {
    if before.contains_key(pid) && after.contains_key(pid) && after[pid].jiffies
        > before[pid].jiffies {
        after[pid].jiffies - before[pid].jiffies
    } else {
        0
    }
}

/// The resident size of one process, nothing when it could not be read.
pub open spec fn resident(sizes: Map<u32, u64>, pid: u32) -> int {
    if sizes.contains_key(pid) {
        sizes[pid] as int
    } else {
        0
    }
}

/// Nanoseconds in seconds: the whole ones, and the rest as a fraction of one.
pub open spec fn seconds_of(ns: int) -> Double {
    sum(
        whole(ns / 1_000_000_000),
        quotient(whole(ns % 1_000_000_000), whole(1_000_000_000)),
    )
}

/// CPU time as a share of the whole machine, in percent: over the unit it is
/// counted in, the seconds of the window, and the number of CPUs.
pub open spec fn cpu_load(ticks: int, clk_tck: int, elapsed_ns: int, nproc: int) -> Double {
    let elapsed = seconds_of(elapsed_ns);
    if less_than(zero(false), elapsed) {
        let used = quotient(whole(ticks), whole(clk_tck));
        quotient(quotient(product(used, 100), elapsed), whole(nproc))
    } else {
        zero(false)
    }
}

/// Two scans of the process table and how far apart they were.
pub struct Window<'a> {
    pub before: &'a HashMap<u32, ProcEntry>,
    pub after: &'a HashMap<u32, ProcEntry>,
    pub elapsed_ns: u64,
    /// CPU-time units per second.
    pub clk_tck: u64,
    /// Number of CPUs.
    pub nproc: u64,
}

/// A space measured over a window.
pub open spec fn measured(space: SpaceView, window: Window, sizes: Map<u32, u64>) -> SpaceView {
    let pids = process_tree(window.after@, space.roots);
    let used = set_sum(pids, |pid: u32| ticks_used(window.before@, window.after@, pid));
    let bytes = set_sum(pids, |pid: u32| resident(sizes, pid));
    SpaceView {
        cpu: Percent {
            value: cpu_load(
                used,
                window.clk_tck as int,
                window.elapsed_ns as int,
                window.nproc as int,
            ),
        },
        ram_mb: megabytes(
            if bytes < u64::MAX {
                bytes
            } else {
                u64::MAX as int
            },
        ),
        proc_count: pids.len() as usize,
        ..space
    }
}

pub(crate) proof fn lemma_set_sum_remove(s: Set<u32>, f: spec_fn(u32) -> int, x: u32)
    requires
        s.finite(),
        s.contains(x),
    ensures
        set_sum(s, f) == f(x) + set_sum(s.remove(x), f),
    decreases s.len(),
{
    let y = s.choose();
    if x != y {
        lemma_set_sum_remove(s.remove(y), f, x);
        lemma_set_sum_remove(s.remove(x), f, y);
        assert(s.remove(x).remove(y) =~= s.remove(y).remove(x));
    }
}

/// The CPU share a number of ticks makes.
fn cpu_share(ticks: u128, window: &Window) -> (r: Percent)
    ensures
        r.value == cpu_load(
            ticks as int,
            window.clk_tck as int,
            window.elapsed_ns as int,
            window.nproc as int,
        ),
{
    let second: u64 = 1_000_000_000;
    let fraction = Double::from_whole(window.elapsed_ns % second).over(Double::from_whole(second));
    let elapsed = Double::from_whole(window.elapsed_ns / second).plus(fraction);
    if !Double::nothing().below(elapsed) {
        return Percent::none();
    }
    let used = Double::from_wide(ticks).over(Double::from_whole(window.clk_tck));
    Percent { value: used.times(100).over(elapsed).over(Double::from_whole(window.nproc)) }
}

/// CPU time a set of processes used between two scans.
fn ticks_over(pids: &HashSet<u32>, window: &Window) -> (r: u128)
    ensures
        r == set_sum(pids@, |pid: u32| ticks_used(window.before@, window.after@, pid)),
{
    let ghost f = |pid: u32| ticks_used(window.before@, window.after@, pid);
    let count: usize = pids.len();
    let mut sum: u128 = 0;
    for pid in iter: pids.iter()
        invariant
            f == (|pid: u32| ticks_used(window.before@, window.after@, pid)),
            iter.seq().unref().to_set() == pids@,
            iter.seq().unref().no_duplicates(),
            sum == set_sum(iter.seq().unref().take(iter.index() as int).to_set(), f),
            sum <= iter.index() * u64::MAX,
            iter.seq().len() == count,
            iter.index() == iter.seq().len() ==> sum == set_sum(pids@, f),
    {
        proof {
            lemma_set_sum_walk(iter.seq().unref(), iter.index() as int, f);
            assert(iter.seq().unref().take(iter.seq().len() as int) =~= iter.seq().unref());
        }
        let used: u64 = match (window.after.get(pid), window.before.get(pid)) {
            (Some(a), Some(b)) => if a.jiffies > b.jiffies {
                a.jiffies - b.jiffies
            } else {
                0
            },
            _ => 0,
        };
        sum = sum + used as u128;
    }
    sum
}

/// Resident bytes of a set of processes, held within range.
fn bytes_over(pids: &HashSet<u32>, sizes: &HashMap<u32, u64>) -> (r: u64)
    ensures
        r == ({
            let bytes = set_sum(pids@, |pid: u32| resident(sizes@, pid));
            if bytes < u64::MAX {
                bytes
            } else {
                u64::MAX as int
            }
        }),
{
    let ghost f = |pid: u32| resident(sizes@, pid);
    let mut sum: u64 = 0;
    for pid in iter: pids.iter()
        invariant
            f == (|pid: u32| resident(sizes@, pid)),
            iter.seq().unref().to_set() == pids@,
            iter.seq().unref().no_duplicates(),
            sum == ({
                let bytes = set_sum(iter.seq().unref().take(iter.index() as int).to_set(), f);
                if bytes < u64::MAX {
                    bytes
                } else {
                    u64::MAX as int
                }
            }),
            iter.index() == iter.seq().len() ==> sum == ({
                let bytes = set_sum(pids@, f);
                if bytes < u64::MAX {
                    bytes
                } else {
                    u64::MAX as int
                }
            }),
    {
        proof {
            lemma_set_sum_walk(iter.seq().unref(), iter.index() as int, f);
            assert(iter.seq().unref().take(iter.seq().len() as int) =~= iter.seq().unref());
        }
        if let Some(n) = sizes.get(pid) {
            sum = add_u64(sum, *n);
        }
    }
    sum
}

/// Fill `cpu`, `ram` and `proc_count` on each space by summing over its process
/// subtrees.
///
/// The processes of a space are the subtrees of its roots together, built from
/// the second scan. CPU is what they used between the two scans, as a share of
/// the whole machine; `sizes` holds the resident bytes of each process that
/// could be read.
pub fn measure(spaces: &mut Vec<Space>, window: &Window, sizes: &HashMap<u32, u64>)
    ensures
        space_views(final(spaces)@) == space_views(old(spaces)@).map_values(
            |s: SpaceView| measured(s, *window, sizes@),
        ),
{
    let kids = children_map(window.after);
    let ghost start = space_views(spaces@);
    let ghost f = |s: SpaceView| measured(s, *window, sizes@);
    let mut i: usize = 0;
    while i < spaces.len()
        invariant
            i <= spaces.len(),
            spaces@.len() == start.len(),
            inverts(window.after@, window.after@.dom(), kids@),
            f == (|s: SpaceView| measured(s, *window, sizes@)),
            forall|j: int| 0 <= j < i ==> (#[trigger] spaces@[j])@ == f(start[j]),
            forall|j: int| i <= j < spaces@.len() ==> (#[trigger] spaces@[j])@ == start[j],
        decreases spaces.len() - i,
    {
        let pids = subtrees(&spaces[i].roots, &kids);
        proof {
            lemma_process_tree(window.after@, kids@, spaces@[i as int].roots@);
        }
        let ticks: u128 = ticks_over(&pids, window);
        let bytes: u64 = bytes_over(&pids, sizes);
        let count: usize = pids.len();
        let share = cpu_share(ticks, window);
        assert(spaces@[i as int]@ == start[i as int]);
        spaces[i].cpu = share;
        spaces[i].ram_mb = in_megabytes(bytes);
        spaces[i].proc_count = count;
        i += 1;
    }
    assert(space_views(spaces@) =~= start.map_values(f));
}

/// Summing along a walk of the set is summing over the set.
proof fn lemma_set_sum_walk(walk: Seq<u32>, n: int, f: spec_fn(u32) -> int)
    requires
        walk.no_duplicates(),
        0 <= n < walk.len(),
    ensures
        walk.take(n + 1).to_set() == walk.take(n).to_set().insert(walk[n]),
        !walk.take(n).to_set().contains(walk[n]),
        walk.take(n).to_set().finite(),
        set_sum(walk.take(n + 1).to_set(), f) == set_sum(walk.take(n).to_set(), f) + f(walk[n]),
{
    let a = walk.take(n);
    let b = walk.take(n + 1);
    assert(!a.to_set().contains(walk[n])) by {
        if a.contains(walk[n]) {
            let j = choose|j: int| 0 <= j < a.len() && a[j] == walk[n];
            assert(walk[j] == walk[n]);
        }
    }
    assert(b =~= a.push(walk[n]));
    assert forall|x: u32| b.to_set().contains(x) <==> a.to_set().insert(walk[n]).contains(x) by {
        if b.contains(x) {
            let j = choose|j: int| 0 <= j < b.len() && b[j] == x;
            if j < n {
                assert(a[j] == x);
                assert(a.contains(x));
            }
        }
        if a.contains(x) {
            let j = choose|j: int| 0 <= j < a.len() && a[j] == x;
            assert(b[j] == x);
        }
        if x == walk[n] {
            assert(b[n] == x);
        }
    }
    assert(b.to_set() =~= a.to_set().insert(walk[n]));
    vstd::seq_lib::seq_to_set_is_finite(a);
    vstd::seq_lib::seq_to_set_is_finite(b);
    lemma_set_sum_remove(b.to_set(), f, walk[n]);
    assert(b.to_set().remove(walk[n]) =~= a.to_set());
}

/// The roots of every space, in order.
pub open spec fn all_roots(spaces: Seq<SpaceView>) -> Seq<u32>
    decreases spaces.len(),
{
    if spaces.len() == 0 {
        seq![]
    } else {
        all_roots(spaces.drop_last()) + spaces.last().roots
    }
}

/// The processes measuring will count: those whose resident size is worth
/// reading.
pub fn measured_pids(spaces: &Vec<Space>, after: &HashMap<u32, ProcEntry>) -> (r: HashSet<u32>)
    ensures
        r@ == process_tree(after@, all_roots(space_views(spaces@))),
{
    let kids = children_map(after);
    let ghost all = space_views(spaces@);
    let mut roots: Vec<u32> = Vec::new();
    let mut i: usize = 0;
    assert(roots@ =~= all_roots(all.take(0)));
    while i < spaces.len()
        invariant
            i <= spaces.len(),
            all == space_views(spaces@),
            roots@ == all_roots(all.take(i as int)),
        decreases spaces.len() - i,
    {
        assert(all.take(i + 1).drop_last() =~= all.take(i as int));
        let ghost before = roots@;
        let own = &spaces[i].roots;
        let mut k: usize = 0;
        while k < own.len()
            invariant
                k <= own.len(),
                roots@ == before + own@.take(k as int),
            decreases own.len() - k,
        {
            roots.push(own[k]);
            k += 1;
            assert(roots@ =~= before + own@.take(k as int));
        }
        assert(own@.take(k as int) =~= own@);
        assert(all[i as int].roots == own@);
        i += 1;
    }
    assert(all.take(i as int) =~= all);
    proof {
        lemma_process_tree(after@, kids@, roots@);
    }
    subtrees(&roots, &kids)
}

// ---- folding worktrees ------------------------------------------------------------------------------

/// `a + b` held within the range of a `usize`.
pub open spec fn sum_usize(a: int, b: int) -> int {
    if a + b > usize::MAX {
        usize::MAX as int
    } else {
        a + b
    }
}

fn add_usize(a: usize, b: usize) -> (r: usize)
    ensures
        r == sum_usize(a as int, b as int),
{
    if a > usize::MAX - b {
        usize::MAX
    } else {
        a + b
    }
}

/// An index as a number.
pub open spec fn opt_index(index: Option<usize>) -> Option<int> {
    match index {
        Some(i) => Some(i as int),
        None => None,
    }
}

fn is_index(index: Option<usize>, i: usize) -> (r: bool)
    ensures
        r == (opt_index(index) == Some(i as int)),
{
    match index {
        Some(j) => i == j,
        None => false,
    }
}

/// A space with the figures of one of its family added to its own.
pub open spec fn joined(space: SpaceView, member: SpaceView) -> SpaceView {
    SpaceView {
        cpu: Percent { value: sum(space.cpu.value, member.cpu.value) },
        ram_mb: sum(space.ram_mb, member.ram_mb),
        proc_count: sum_usize(space.proc_count as int, member.proc_count as int) as usize,
        pane_count: sum_usize(space.pane_count as int, member.pane_count as int) as usize,
        ..space
    }
}

/// A space with one more worktree label behind those it has.
pub open spec fn labelled(space: SpaceView, label: Seq<char>) -> SpaceView {
    SpaceView {
        worktree_labels: Some(
            match space.worktree_labels {
                Some(labels) => labels.push(label),
                None => seq![label],
            },
        ),
        ..space
    }
}

/// Index of the parent of the space at `i`, where it has one that is there.
pub open spec fn parent_index(spaces: Seq<SpaceView>, i: int) -> Option<int> {
    match spaces[i].family_parent {
        Some(parent) => last_index(ids_of(spaces), parent),
        None => None,
    }
}

/// Index of the space `k` parents up from the one at `i`, where the chain of
/// parents reaches that far.
pub open spec fn ancestor(spaces: Seq<SpaceView>, i: int, k: nat) -> Option<int>
    decreases k,
{
    if k == 0 {
        Some(i)
    } else {
        match parent_index(spaces, i) {
            Some(p) => ancestor(spaces, p, (k - 1) as nat),
            None => None,
        }
    }
}

/// Whether the space at `i` stands below the one at `r`: its child, or a child of
/// one that does.
pub open spec fn descends(spaces: Seq<SpaceView>, i: int, r: int) -> bool {
    exists|k: nat| k > 0 && #[trigger] ancestor(spaces, i, k) == Some(r)
}

/// The space at `r` with the figures of those among the first `n` that stand
/// below it, and the labels of those that are its own children.
pub open spec fn gathered(spaces: Seq<SpaceView>, r: int, n: int) -> SpaceView
    decreases n,
{
    if n <= 0 {
        spaces[r]
    } else {
        let i = n - 1;
        let before = gathered(spaces, r, i);
        let summed = if descends(spaces, i, r) {
            joined(before, spaces[i])
        } else {
            before
        };
        if parent_index(spaces, i) == Some(r) {
            labelled(summed, spaces[i].label)
        } else {
            summed
        }
    }
}

/// Those of the first `n` spaces that are nobody's child, in order, each with its
/// whole family gathered.
pub open spec fn survivors(spaces: Seq<SpaceView>, n: int) -> Seq<SpaceView>
    decreases n,
{
    if n <= 0 {
        seq![]
    } else if spaces[n - 1].family_parent is None {
        survivors(spaces, n - 1).push(gathered(spaces, n - 1, spaces.len() as int))
    } else {
        survivors(spaces, n - 1)
    }
}

/// The spaces with every worktree family folded into the space at its top.
pub open spec fn aggregated(spaces: Seq<SpaceView>) -> Seq<SpaceView> {
    survivors(spaces, spaces.len() as int)
}

/// A parent that is there is one of the spaces.
pub(crate) proof fn lemma_parent_index(spaces: Seq<SpaceView>, i: int)
    ensures
        parent_index(spaces, i) matches Some(p) ==> 0 <= p < spaces.len(),
{
    if let Some(parent) = spaces[i].family_parent {
        lemma_last_index(ids_of(spaces), parent);
    }
}

/// Climbing in two goes is climbing in one.
pub(crate) proof fn lemma_ancestor_adds(spaces: Seq<SpaceView>, i: int, a: nat, b: nat)
    ensures
        ancestor(spaces, i, a + b) == match ancestor(spaces, i, a) {
            Some(j) => ancestor(spaces, j, b),
            None => None,
        },
    decreases a,
{
    if a > 0 {
        if let Some(p) = parent_index(spaces, i) {
            lemma_ancestor_adds(spaces, p, (a - 1) as nat, b);
        }
    }
}

/// Every ancestor is one of the spaces.
proof fn lemma_ancestor_there(spaces: Seq<SpaceView>, i: int, k: nat)
    requires
        0 <= i < spaces.len(),
    ensures
        ancestor(spaces, i, k) matches Some(j) ==> 0 <= j < spaces.len(),
    decreases k,
{
    if k > 0 {
        lemma_parent_index(spaces, i);
        if let Some(p) = parent_index(spaces, i) {
            lemma_ancestor_there(spaces, p, (k - 1) as nat);
        }
    }
}

/// A chain that comes to a space without a parent ends there: it comes to no
/// other such space, nor to any space past it.
pub(crate) proof fn lemma_chain_ends_once(
    spaces: Seq<SpaceView>,
    i: int,
    k: nat,
    r: int,
    l: nat,
)
    requires
        ancestor(spaces, i, k) == Some(r),
        parent_index(spaces, r) is None,
    ensures
        l > k ==> ancestor(spaces, i, l) is None,
        ancestor(spaces, i, l) matches Some(s) ==> parent_index(spaces, s) is None ==> l == k && s
            == r,
{
    if l > k {
        lemma_ancestor_adds(spaces, i, k, (l - k) as nat);
    } else if l < k {
        lemma_ancestor_adds(spaces, i, l, (k - l) as nat);
    }
}

/// A chain that comes to the same space twice never ends.
proof fn lemma_ring(spaces: Seq<SpaceView>, i: int, j: nat, l: nat, k: nat)
    requires
        j < l,
        ancestor(spaces, i, j) is Some,
        ancestor(spaces, i, j) == ancestor(spaces, i, l),
    ensures
        ancestor(spaces, i, k) is Some,
    decreases k,
{
    if k <= l {
        lemma_ancestor_adds(spaces, i, k, (l - k) as nat);
    } else {
        let back = (k - l + j) as nat;
        lemma_ancestor_adds(spaces, i, l, (k - l) as nat);
        lemma_ancestor_adds(spaces, i, j, (k - l) as nat);
        assert((l + (k - l)) as nat == k);
        assert((j + (k - l)) as nat == back);
        lemma_ring(spaces, i, j, l, back);
    }
}

/// A chain as long as there are spaces comes to one of them twice.
proof fn lemma_long_chain(spaces: Seq<SpaceView>, i: int, k: nat)
    requires
        0 <= i < spaces.len(),
        ancestor(spaces, i, spaces.len()) is Some,
    ensures
        ancestor(spaces, i, k) is Some,
{
    let n = spaces.len();
    let chain = Seq::new(n + 1, |s: int| ancestor(spaces, i, s as nat)->0);
    assert forall|s: int| 0 <= s <= n implies #[trigger] ancestor(spaces, i, s as nat) is Some by {
        lemma_ancestor_adds(spaces, i, s as nat, (n - s) as nat);
    }
    if chain.no_duplicates() {
        let range = vstd::set_lib::set_int_range(0, n as int);
        vstd::set_lib::lemma_int_range(0, n as int);
        chain.unique_seq_to_set();
        assert forall|x: int| #[trigger] chain.to_set().contains(x) implies range.contains(x) by {
            let s = choose|s: int| 0 <= s < chain.len() && chain[s] == x;
            lemma_ancestor_there(spaces, i, s as nat);
            assert(ancestor(spaces, i, s as nat) is Some);
        }
        vstd::set_lib::lemma_len_subset(chain.to_set(), range);
        assert(false);
    } else {
        let (a, b) = choose|a: int, b: int|
            0 <= a < chain.len() && 0 <= b < chain.len() && a != b && chain[a] == chain[b];
        assert(ancestor(spaces, i, a as nat) is Some);
        assert(ancestor(spaces, i, b as nat) is Some);
        if a < b {
            lemma_ring(spaces, i, a as nat, b as nat, k);
        } else {
            lemma_ring(spaces, i, b as nat, a as nat, k);
        }
    }
}

/// Whether the chain of parents from the space at `i`, itself included, comes to
/// the one at `r`.
pub open spec fn reaches(spaces: Seq<SpaceView>, i: int, r: int) -> bool {
    exists|k: nat| #[trigger] ancestor(spaces, i, k) == Some(r)
}

/// Below a space without a parent stands every other space whose chain comes to
/// it.
pub(crate) proof fn lemma_descends(spaces: Seq<SpaceView>, i: int, r: int)
    requires
        spaces[r].family_parent is None,
    ensures
        descends(spaces, i, r) <==> i != r && reaches(spaces, i, r),
{
    if descends(spaces, i, r) {
        let k = choose|k: nat| k > 0 && #[trigger] ancestor(spaces, i, k) == Some(r);
        assert(ancestor(spaces, i, k) == Some(r));
    }
    if i != r && reaches(spaces, i, r) {
        let k = choose|k: nat| #[trigger] ancestor(spaces, i, k) == Some(r);
        assert(k > 0);
        assert(ancestor(spaces, i, k) == Some(r));
    }
}

/// The parents of the spaces, by index.
fn parent_indices(spaces: &Vec<Space>) -> (r: Vec<Option<usize>>)
    ensures
        r@.len() == spaces@.len(),
        forall|i: int|
            0 <= i < r@.len() ==> opt_index(#[trigger] r@[i]) == parent_index(
                space_views(spaces@),
                i,
            ),
{
    let ghost views = space_views(spaces@);
    let mut r: Vec<Option<usize>> = Vec::new();
    let mut i: usize = 0;
    while i < spaces.len()
        invariant
            i <= spaces.len(),
            views == space_views(spaces@),
            r@.len() == i,
            forall|j: int| 0 <= j < i ==> opt_index(#[trigger] r@[j]) == parent_index(views, j),
        decreases spaces.len() - i,
    {
        assert(views[i as int] == spaces@[i as int]@);
        let parent: Option<usize> = match &spaces[i].family_parent {
            Some(id) => index_of_id(spaces, id.as_str()),
            None => None,
        };
        r.push(parent);
        i += 1;
    }
    r
}

/// The space without a parent that the chain from the one at `i` ends at, if it
/// ends at one.
fn top_of(spaces: &Vec<Space>, parents: &Vec<Option<usize>>, i: usize) -> (r: Option<usize>)
    requires
        i < spaces.len(),
        parents@.len() == spaces@.len(),
        forall|j: int|
            0 <= j < parents@.len() ==> opt_index(#[trigger] parents@[j]) == parent_index(
                space_views(spaces@),
                j,
            ),
    ensures
        forall|t: int|
            0 <= t < spaces@.len() && space_views(spaces@)[t].family_parent is None ==> (
            #[trigger] reaches(space_views(spaces@), i as int, t) <==> opt_index(r) == Some(t)),
{
    let ghost views = space_views(spaces@);
    let n: usize = spaces.len();
    let mut at: usize = i;
    let mut steps: usize = 0;
    while steps < n
        invariant_except_break
            steps <= n,
        invariant
            views == space_views(spaces@),
            n == spaces@.len(),
            n == views.len(),
            parents@.len() == n,
            forall|j: int|
                0 <= j < parents@.len() ==> opt_index(#[trigger] parents@[j]) == parent_index(
                    views,
                    j,
                ),
            i < n,
            at < n,
            ancestor(views, i as int, steps as nat) == Some(at as int),
        ensures
            steps == n || parent_index(views, at as int) is None,
        decreases n - steps,
    {
        proof {
            lemma_parent_index(views, at as int);
            lemma_ancestor_adds(views, i as int, steps as nat, 1);
            assert(opt_index(parents@[at as int]) == parent_index(views, at as int));
        }
        match parents[at] {
            Some(p) => {
                assert(ancestor(views, p as int, 0) == Some(p as int));
                assert(ancestor(views, at as int, 1) == ancestor(views, p as int, 0));
                at = p;
                steps += 1;
            },
            None => {
                break;
            },
        }
    }
    assert(opt_index(parents@[at as int]) == parent_index(views, at as int));
    assert(views[at as int] == spaces@[at as int]@);
    if parents[at].is_none() && spaces[at].family_parent.is_none() {
        proof {
            assert(reaches(views, i as int, at as int));
            assert forall|t: int|
                0 <= t < views.len() && views[t].family_parent is None implies (
            #[trigger] reaches(views, i as int, t) <==> t == at) by {
                if reaches(views, i as int, t) {
                    let k = choose|k: nat| #[trigger] ancestor(views, i as int, k) == Some(t);
                    lemma_chain_ends_once(views, i as int, steps as nat, at as int, k);
                }
            }
        }
        Some(at)
    } else {
        proof {
            assert forall|t: int| 0 <= t < views.len() && views[t].family_parent is None implies !(
            #[trigger] reaches(views, i as int, t)) by {
                if reaches(views, i as int, t) {
                    let k = choose|k: nat| #[trigger] ancestor(views, i as int, k) == Some(t);
                    assert(parent_index(views, t) is None);
                    if parent_index(views, at as int) is None {
                        lemma_chain_ends_once(views, i as int, steps as nat, at as int, k);
                    } else {
                        lemma_long_chain(views, i as int, k + 1);
                        lemma_ancestor_adds(views, i as int, k, 1);
                    }
                }
            }
        }
        None
    }
}

/// Fold measured worktree families into the space at their top, and return the
/// spaces without the folded ones.
///
/// A child that is itself a parent brings its own children along, wherever they
/// stand in the list. Every space that has a parent is dropped from the result,
/// and where its chain of parents ends at no space that is there, because one is
/// missing or the parents form a ring, its figures go with it.
pub fn aggregate_families(spaces: Vec<Space>) -> (r: Vec<Space>)
    ensures
        space_views(r@) == aggregated(space_views(spaces@)),
{
    let ghost views = space_views(spaces@);
    let parents = parent_indices(&spaces);
    let mut tops: Vec<Option<usize>> = Vec::new();
    let mut i: usize = 0;
    while i < spaces.len()
        invariant
            i <= spaces.len(),
            views == space_views(spaces@),
            parents@.len() == spaces@.len(),
            forall|j: int|
                0 <= j < parents@.len() ==> opt_index(#[trigger] parents@[j]) == parent_index(
                    views,
                    j,
                ),
            tops@.len() == i,
            forall|j: int, t: int|
                0 <= j < i && 0 <= t < views.len() && views[t].family_parent is None ==> (
                #[trigger] reaches(views, j, t) <==> opt_index(tops@[j]) == Some(t)),
        decreases spaces.len() - i,
    {
        tops.push(top_of(&spaces, &parents, i));
        i += 1;
    }
    let mut r: Vec<Space> = Vec::new();
    let mut at: usize = 0;
    assert(space_views(r@) =~= survivors(views, 0));
    while at < spaces.len()
        invariant
            at <= spaces.len(),
            views == space_views(spaces@),
            parents@.len() == spaces@.len(),
            forall|j: int|
                0 <= j < parents@.len() ==> opt_index(#[trigger] parents@[j]) == parent_index(
                    views,
                    j,
                ),
            tops@.len() == spaces@.len(),
            forall|j: int, t: int|
                0 <= j < tops@.len() && 0 <= t < views.len() && views[t].family_parent is None
                    ==> (#[trigger] reaches(views, j, t) <==> opt_index(tops@[j]) == Some(t)),
            space_views(r@) == survivors(views, at as int),
        decreases spaces.len() - at,
    {
        assert(views[at as int] == spaces@[at as int]@);
        if spaces[at].family_parent.is_none() {
            let ghost before = r@;
            let kept = gather(&spaces, &parents, &tops, at);
            r.push(kept);
            assert(space_views(r@) =~= space_views(before).push(kept@));
        }
        at += 1;
    }
    r
}

/// The space at `at`, which has no parent, with its whole family gathered.
fn gather(
    spaces: &Vec<Space>,
    parents: &Vec<Option<usize>>,
    tops: &Vec<Option<usize>>,
    at: usize,
) -> (r: Space)
    requires
        at < spaces.len(),
        space_views(spaces@)[at as int].family_parent is None,
        parents@.len() == spaces@.len(),
        forall|j: int|
            0 <= j < parents@.len() ==> opt_index(#[trigger] parents@[j]) == parent_index(
                space_views(spaces@),
                j,
            ),
        tops@.len() == spaces@.len(),
        forall|j: int, t: int|
            0 <= j < tops@.len() && 0 <= t < spaces@.len() && space_views(
                spaces@,
            )[t].family_parent is None ==> (#[trigger] reaches(space_views(spaces@), j, t)
                <==> opt_index(tops@[j]) == Some(t)),
    ensures
        r@ == gathered(space_views(spaces@), at as int, spaces@.len() as int),
{
    let ghost views = space_views(spaces@);
    assert(views[at as int] == spaces@[at as int]@);
    let mut kept = spaces[at].copied();
    let mut i: usize = 0;
    while i < spaces.len()
        invariant
            i <= spaces.len(),
            at < spaces.len(),
            views == space_views(spaces@),
            views[at as int].family_parent is None,
            parents@.len() == spaces@.len(),
            forall|j: int|
                0 <= j < parents@.len() ==> opt_index(#[trigger] parents@[j]) == parent_index(
                    views,
                    j,
                ),
            tops@.len() == spaces@.len(),
            forall|j: int, t: int|
                0 <= j < tops@.len() && 0 <= t < spaces@.len() && views[t].family_parent is None
                    ==> (#[trigger] reaches(views, j, t) <==> opt_index(tops@[j]) == Some(t)),
            kept@ == gathered(views, at as int, i as int),
        decreases spaces.len() - i,
    {
        proof {
            lemma_descends(views, i as int, at as int);
            assert(reaches(views, i as int, at as int) <==> opt_index(tops@[i as int]) == Some(
                at as int,
            ));
            assert(opt_index(parents@[i as int]) == parent_index(views, i as int));
            assert(views[i as int] == spaces@[i as int]@);
        }
        let ghost start = kept@;
        if i != at && is_index(tops[i], at) {
            kept.cpu = kept.cpu.plus(spaces[i].cpu);
            kept.ram_mb = kept.ram_mb.plus(spaces[i].ram_mb);
            kept.proc_count = add_usize(kept.proc_count, spaces[i].proc_count);
            kept.pane_count = add_usize(kept.pane_count, spaces[i].pane_count);
            assert(kept@ == joined(start, views[i as int]));
        }
        let ghost summed = kept@;
        if is_index(parents[i], at) {
            let mut labels: Vec<String> = match &kept.worktree_labels {
                Some(v) => crate::text::clone_texts(v),
                None => Vec::new(),
            };
            let ghost had = texts(labels@);
            labels.push(spaces[i].label.clone());
            proof {
                if kept@.worktree_labels is None {
                    assert(had =~= seq![]);
                    assert(texts(labels@) =~= seq![spaces@[i as int].label@]);
                }
            }
            kept.worktree_labels = Some(labels);
            assert(kept@ == labelled(summed, views[i as int].label));
        }
        i += 1;
    }
    kept
}

/// The spaces a session snapshot makes, before anything is known of families and
/// usage.
pub open spec fn collected(
    snapshot: SessionSnapshot,
    pids: Seq<Option<u32>>,
    branches: Seq<Seq<char>>,
) -> Seq<SpaceView> {
    Seq::new(
        snapshot.workspaces@.len(),
        |i: int|
            space_of(
                snapshot.workspaces@[i].workspace_id@,
                snapshot.workspaces@[i].label@,
                snapshot.workspaces@[i].focused,
                pane_views(snapshot.panes@),
                pids,
                branches[i],
            ),
    )
}

/// Full pipeline over spaces that were collected: group worktrees, measure, fold.
pub fn snapshot(
    spaces: Vec<Space>,
    replies: &Vec<Option<WorktreeListResult>>,
    window: &Window,
    sizes: &HashMap<u32, u64>,
) -> (r: Vec<Space>)
    ensures
        space_views(r@) == aggregated(
            grouped(space_views(spaces@), family_views(replies@)).map_values(
                |s: SpaceView| measured(s, *window, sizes@),
            ),
        ),
{
    let mut spaces = spaces;
    group_worktree_families(&mut spaces, replies);
    measure(&mut spaces, window, sizes);
    aggregate_families(spaces)
}

} // verus!
