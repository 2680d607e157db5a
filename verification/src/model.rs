//! Data types shared across the plugin.
//!
//! [`Space`] is the per-workspace aggregate. The remaining types hold what is
//! consumed of herdr's replies.

use vstd::prelude::*;
use vstd::string::*;

use crate::text::{clone_opt, clone_texts};
use crate::double::{zero, Double};
use crate::units::{nothing, Percent};
use crate::views::{opt_text, texts};

verus! {

/// CPU / RAM aggregate for one herdr space (workspace).
#[derive(Debug, Clone)]
pub struct Space {
    /// herdr workspace id.
    pub id: String,
    pub label: String,
    pub focused: bool,
    pub pane_count: usize,
    /// git branch of the first pane's cwd (empty if none).
    pub branch: String,
    /// Shell PIDs of each pane (process-tree roots).
    pub roots: Vec<u32>,
    /// Panes with a real agent.
    pub agent_panes: Vec<String>,
    /// Plain shell panes.
    pub spare_panes: Vec<String>,
    /// Panes carrying the "usage" pseudo-agent.
    pub pseudo_panes: Vec<String>,
    /// CPU share of the whole machine (all cores), filled by measuring.
    pub cpu: Percent,
    /// Resident bytes, filled by measuring.
    pub ram_mb: Double,
    /// Processes counted, filled by measuring.
    pub proc_count: usize,
    /// Workspace id of the worktree-group parent.
    pub family_parent: Option<String>,
    /// Labels of folded worktree children.
    pub worktree_labels: Option<Vec<String>>,
}

/// What a [`Space`] says, in plain values.
pub struct SpaceView {
    pub id: Seq<char>,
    pub label: Seq<char>,
    pub focused: bool,
    pub pane_count: usize,
    pub branch: Seq<char>,
    pub roots: Seq<u32>,
    pub agent_panes: Seq<Seq<char>>,
    pub spare_panes: Seq<Seq<char>>,
    pub pseudo_panes: Seq<Seq<char>>,
    pub cpu: Percent,
    pub ram_mb: Double,
    pub proc_count: usize,
    pub family_parent: Option<Seq<char>>,
    pub worktree_labels: Option<Seq<Seq<char>>>,
}

/// The characters of an optional list of strings.
pub open spec fn opt_texts(o: Option<Vec<String>>) -> Option<Seq<Seq<char>>> {
    match o {
        Some(v) => Some(texts(v@)),
        None => None,
    }
}

impl View for Space {
    type V = SpaceView;

    open spec fn view(&self) -> SpaceView {
        SpaceView {
            id: self.id@,
            label: self.label@,
            focused: self.focused,
            pane_count: self.pane_count,
            branch: self.branch@,
            roots: self.roots@,
            agent_panes: texts(self.agent_panes@),
            spare_panes: texts(self.spare_panes@),
            pseudo_panes: texts(self.pseudo_panes@),
            cpu: self.cpu,
            ram_mb: self.ram_mb,
            proc_count: self.proc_count,
            family_parent: opt_text(self.family_parent),
            worktree_labels: opt_texts(self.worktree_labels),
        }
    }
}

/// What a list of spaces says.
pub open spec fn space_views(v: Seq<Space>) -> Seq<SpaceView> {
    v.map_values(|s: Space| s@)
}

/// A space nothing is known of.
pub open spec fn blank_space() -> SpaceView {
    SpaceView {
        id: seq![],
        label: seq![],
        focused: false,
        pane_count: 0,
        branch: seq![],
        roots: seq![],
        agent_panes: seq![],
        spare_panes: seq![],
        pseudo_panes: seq![],
        cpu: nothing(),
        ram_mb: zero(false),
        proc_count: 0,
        family_parent: None,
        worktree_labels: None,
    }
}

impl Default for Space {
    fn default() -> (r: Self)
        ensures
            r@ == blank_space(),
    {
        let r = Space {
            id: String::new(),
            label: String::new(),
            focused: false,
            pane_count: 0,
            branch: String::new(),
            roots: Vec::new(),
            agent_panes: Vec::new(),
            spare_panes: Vec::new(),
            pseudo_panes: Vec::new(),
            cpu: Percent::none(),
            ram_mb: Double::nothing(),
            proc_count: 0,
            family_parent: None,
            worktree_labels: None,
        };
        assert(r@.id =~= seq![]);
        assert(r@.label =~= seq![]);
        assert(r@.branch =~= seq![]);
        assert(r@.roots =~= seq![]);
        assert(r@.agent_panes =~= seq![]);
        assert(r@.spare_panes =~= seq![]);
        assert(r@.pseudo_panes =~= seq![]);
        r
    }
}

/// A copy of an optional list of strings.
pub fn clone_opt_texts(o: &Option<Vec<String>>) -> (r: Option<Vec<String>>)
    ensures
        opt_texts(r) == opt_texts(*o),
{
    match o {
        Some(v) => Some(clone_texts(v)),
        None => None,
    }
}

/// A copy of a list of pids.
pub fn clone_pids(v: &Vec<u32>) -> (r: Vec<u32>)
    ensures
        r@ == v@,
{
    let mut r: Vec<u32> = Vec::new();
    let mut i: usize = 0;
    while i < v.len()
        invariant
            i <= v.len(),
            r@ == v@.take(i as int),
        decreases v.len() - i,
    {
        r.push(v[i]);
        i += 1;
    }
    assert(v@.take(i as int) =~= v@);
    r
}

impl Space {
    /// A copy of the space.
    pub fn copied(&self) -> (r: Space)
        ensures
            r@ == self@,
    {
        Space {
            id: self.id.clone(),
            label: self.label.clone(),
            focused: self.focused,
            pane_count: self.pane_count,
            branch: self.branch.clone(),
            roots: clone_pids(&self.roots),
            agent_panes: clone_texts(&self.agent_panes),
            spare_panes: clone_texts(&self.spare_panes),
            pseudo_panes: clone_texts(&self.pseudo_panes),
            cpu: self.cpu,
            ram_mb: self.ram_mb,
            proc_count: self.proc_count,
            family_parent: clone_opt(&self.family_parent),
            worktree_labels: clone_opt_texts(&self.worktree_labels),
        }
    }
}

// ---- session.snapshot ---------------------------------------------------------------

/// The reply to `session.snapshot`.
#[derive(Debug, Clone)]
pub struct SessionSnapshotResult {
    pub snapshot: SessionSnapshot,
}

/// One call returns every workspace and every pane, so the two can never be read
/// torn apart.
#[derive(Debug, Clone)]
pub struct SessionSnapshot {
    pub workspaces: Vec<WorkspaceInfo>,
    pub panes: Vec<PaneInfo>,
}

/// One workspace.
#[derive(Debug, Clone)]
pub struct WorkspaceInfo {
    pub workspace_id: String,
    pub label: String,
    pub focused: bool,
}

/// One pane. `workspace_id` is what buckets it under its workspace; `tokens`
/// holds the names of its metadata tokens, by which panes opened by other
/// plugins are told apart.
#[derive(Debug, Clone)]
pub struct PaneInfo {
    pub pane_id: String,
    pub workspace_id: String,
    pub cwd: Option<String>,
    pub agent: Option<String>,
    pub tokens: Option<Vec<String>>,
}

/// What a [`PaneInfo`] says, in plain values.
pub struct PaneView {
    pub pane_id: Seq<char>,
    pub workspace_id: Seq<char>,
    pub cwd: Option<Seq<char>>,
    pub agent: Option<Seq<char>>,
    pub tokens: Option<Seq<Seq<char>>>,
}

impl View for PaneInfo {
    type V = PaneView;

    open spec fn view(&self) -> PaneView {
        PaneView {
            pane_id: self.pane_id@,
            workspace_id: self.workspace_id@,
            cwd: opt_text(self.cwd),
            agent: opt_text(self.agent),
            tokens: opt_texts(self.tokens),
        }
    }
}

// ---- pane.process_info --------------------------------------------------------------

/// The reply to `pane.process_info`.
#[derive(Debug, Clone)]
pub struct ProcessInfoResult {
    pub process_info: ProcessInfo,
}

/// Only the shell PID is needed.
#[derive(Debug, Clone)]
pub struct ProcessInfo {
    pub shell_pid: Option<u32>,
}

// ---- worktree.list ------------------------------------------------------------------

/// The reply to `worktree.list`.
#[derive(Debug, Clone)]
pub struct WorktreeListResult {
    pub source: WorktreeSource,
    pub worktrees: Vec<WorktreeEntry>,
}

/// The repository and the workspace of its main checkout.
#[derive(Debug, Clone)]
pub struct WorktreeSource {
    pub repo_key: String,
    pub source_workspace_id: Option<String>,
}

/// One worktree; only the workspace it is open in matters for grouping.
#[derive(Debug, Clone)]
pub struct WorktreeEntry {
    pub open_workspace_id: Option<String>,
}

/// What a [`WorktreeListResult`] says, in plain values.
pub struct FamilyView {
    pub repo_key: Seq<char>,
    pub source: Option<Seq<char>>,
    pub open: Seq<Option<Seq<char>>>,
}

impl View for WorktreeListResult {
    type V = FamilyView;

    open spec fn view(&self) -> FamilyView {
        FamilyView {
            repo_key: self.source.repo_key@,
            source: opt_text(self.source.source_workspace_id),
            open: self.worktrees@.map_values(|w: WorktreeEntry| opt_text(w.open_workspace_id)),
        }
    }
}

} // verus!
