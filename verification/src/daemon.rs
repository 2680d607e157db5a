//! The sidebar status updater: what it pushes, when it stands down, and what the
//! enable / disable / toggle / restore controls decide.
//!
//! The decisions stand here, from state and event to action; performing an
//! action and reporting what came of it is the caller's part.

use vstd::prelude::*;
use vstd::string::*;

use crate::battery::Battery;
use crate::collect::{
    classify_panes, pane_views, panes_by_workspace, panes_in, roles_of, PaneRoles, RolesView,
};
use crate::config::{
    config_of, default_config, herdr_labels, lines_applied, load_config_from, load_herdr_labels,
    no_labels, overridden, Config, Labels, Mode, Wanted,
};
use crate::disk::{disk_views, Disk};
use crate::double::Double;
use crate::herdr_config::Change;
use crate::icons::{deciding, detected, named_tier, utf8_locale, IconSet, LocaleVars};
use crate::model::{space_views, SessionSnapshot, Space, SpaceView};
use crate::names::NameSet;
use crate::render::{
    battery_texts, cpu_text, drive_texts, ram_text, row_text, total_cpu, total_ram, totals_row,
    usage_row, RowStyle,
};
use crate::text::{digits, glued, number_text, same, split};
use crate::units::Percent;
use crate::views::{lemma_texts_push, opt_str, texts};

verus! {

broadcast use lemma_texts_push;

// ---- settings ---------------------------------------------------------------------------

/// What one refresh cycle renders with. Grouped, because a caller that refreshed
/// one part and kept another stale would render a mixture.
#[derive(Debug)]
pub struct Settings {
    pub config: Config,
    pub labels: Labels,
    pub icons: IconSet,
}

impl Settings {
    /// The style of this cycle's rows.
    pub fn row_style(&self) -> (r: RowStyle<'_>)
        ensures
            r.labels@ == self.labels@,
            r.icons == self.icons,
            r.ram_display == self.config.ram_display,
    {
        RowStyle::from_config(&self.labels, self.icons, &self.config)
    }
}

/// Read the settings of one cycle from the texts of the two config files, where
/// they could be read, starting from what this host's settings are when nothing
/// is written down.
pub fn reload_settings_from<F: FnOnce() -> bool>(
    base: Config,
    config_file: Option<&str>,
    herdr_file: Option<&str>,
    vars: &LocaleVars,
    has_nerd_font: F,
) -> (r: Settings)
    requires
        utf8_locale(deciding(*vars)) ==> has_nerd_font.requires(()),
    ensures
        r.config@ == match opt_str(config_file) {
            Some(text) => lines_applied(base@, split(text, '\n')),
            None => base@,
        },
        r.labels@ == overridden(
            match opt_str(herdr_file) {
                Some(text) => herdr_labels(text),
                None => no_labels(),
            },
            r.config@,
        ),
        named_tier(Some(r.config@.icons)) matches Some(tier) ==> r.icons == tier,
        named_tier(Some(r.config@.icons)) is None && utf8_locale(deciding(*vars))
            ==> exists|found: bool|
            has_nerd_font.ensures((), found) && r.icons == #[trigger] detected(*vars, found),
        named_tier(Some(r.config@.icons)) is None && !utf8_locale(deciding(*vars)) ==> r.icons
            == IconSet::Text,
{
    let config = load_config_from(base, config_file);
    let labels = load_herdr_labels(herdr_file).with_overrides(&config);
    let icons = config.icon_set(vars, has_nerd_font);
    Settings { config, labels, icons }
}

/// [`reload_settings_from`] the defaults of a host whose root is `/`.
pub fn reload_settings<F: FnOnce() -> bool>(
    config_file: Option<&str>,
    herdr_file: Option<&str>,
    vars: &LocaleVars,
    has_nerd_font: F,
) -> (r: Settings)
    requires
        utf8_locale(deciding(*vars)) ==> has_nerd_font.requires(()),
    ensures
        r.config@ == match opt_str(config_file) {
            Some(text) => config_of(text),
            None => default_config(),
        },
        r.labels@ == overridden(
            match opt_str(herdr_file) {
                Some(text) => herdr_labels(text),
                None => no_labels(),
            },
            r.config@,
        ),
        named_tier(Some(r.config@.icons)) matches Some(tier) ==> r.icons == tier,
        named_tier(Some(r.config@.icons)) is None && utf8_locale(deciding(*vars))
            ==> exists|found: bool|
            has_nerd_font.ensures((), found) && r.icons == #[trigger] detected(*vars, found),
        named_tier(Some(r.config@.icons)) is None && !utf8_locale(deciding(*vars)) ==> r.icons
            == IconSet::Text,
{
    reload_settings_from(Config::default(), config_file, herdr_file, vars, has_nerd_font)
}

// ---- what was pushed ------------------------------------------------------------------------

/// Everything this daemon has put on a surface, so that it can be taken back.
#[derive(Debug)]
pub struct Pushed {
    /// Panes carrying the pseudo-agent.
    pub pseudo: NameSet,
    /// Panes carrying the status token.
    pub metadata: NameSet,
    /// Workspaces carrying the status token.
    pub workspaces: NameSet,
}

impl Pushed {
    /// Nothing pushed.
    pub fn new() -> (r: Pushed)
        ensures
            r.pseudo@.len() == 0,
            r.metadata@.len() == 0,
            r.workspaces@.len() == 0,
    {
        Pushed { pseudo: NameSet::new(), metadata: NameSet::new(), workspaces: NameSet::new() }
    }
}

/// One report about a space, and the space done with.
#[derive(Debug, PartialEq, Eq)]
pub enum Step {
    /// Claim a pane for the pseudo-agent.
    ClaimAgent(String),
    /// Put the status on a pane.
    PaneStatus(String),
    /// Put the status on a workspace.
    WorkspaceStatus(String),
    /// Nothing more to report.
    Done,
}

/// What a [`Step`] says, in plain values.
pub enum StepView {
    ClaimAgent(Seq<char>),
    PaneStatus(Seq<char>),
    WorkspaceStatus(Seq<char>),
    Done,
}

impl View for Step {
    type V = StepView;

    open spec fn view(&self) -> StepView {
        match self {
            Step::ClaimAgent(p) => StepView::ClaimAgent(p@),
            Step::PaneStatus(p) => StepView::PaneStatus(p@),
            Step::WorkspaceStatus(w) => StepView::WorkspaceStatus(w@),
            Step::Done => StepView::Done,
        }
    }
}

/// Pseudo-agents left over from earlier runs: all of them in sidebar mode, and
/// all but the first in the agents panel, so that a space keeps one entry.
pub open spec fn stale(s: SpaceView, mode: Mode) -> Seq<Seq<char>> {
    match mode {
        Mode::Sidebar => s.pseudo_panes,
        Mode::AgentsPanel => if s.pseudo_panes.len() > 0 {
            s.pseudo_panes.drop_first()
        } else {
            s.pseudo_panes
        },
    }
}

/// Where the status goes when no pane could be claimed: a spare pane, else an
/// agent's, else nowhere this cycle.
pub open spec fn fallback(s: SpaceView) -> StepView {
    if s.spare_panes.len() > 0 {
        StepView::PaneStatus(s.spare_panes[0])
    } else if s.agent_panes.len() > 0 {
        StepView::PaneStatus(s.agent_panes[0])
    } else {
        StepView::Done
    }
}

/// The first report about a space.
pub open spec fn first_step(s: SpaceView, mode: Mode) -> StepView {
    match mode {
        Mode::Sidebar => StepView::WorkspaceStatus(s.id),
        Mode::AgentsPanel => if s.pseudo_panes.len() > 0 {
            StepView::ClaimAgent(s.pseudo_panes[0])
        } else if s.spare_panes.len() > 0 {
            StepView::ClaimAgent(s.spare_panes[0])
        } else {
            fallback(s)
        },
    }
}

/// The report that follows one, given whether it was accepted: a claimed pane
/// gets the status, a refused claim falls back, and a status ends it.
pub open spec fn next_step(s: SpaceView, step: StepView, accepted: bool) -> StepView {
    match step {
        StepView::ClaimAgent(pane) => if accepted {
            StepView::PaneStatus(pane)
        } else {
            fallback(s)
        },
        _ => StepView::Done,
    }
}

/// Add a name to a set of names.
pub open spec fn with_name(names: Seq<Seq<char>>, name: Seq<char>) -> Seq<Seq<char>> {
    if names.contains(name) {
        names
    } else {
        names.push(name)
    }
}

/// The pseudo-agents to release before a space is reported.
pub fn stale_claims(sp: &Space, mode: Mode) -> (r: Vec<String>)
    ensures
        texts(r@) == stale(sp@, mode),
{
    let mut r: Vec<String> = Vec::new();
    let start: usize = if mode == Mode::AgentsPanel && sp.pseudo_panes.len() > 0 {
        1
    } else {
        0
    };
    let ghost all = texts(sp.pseudo_panes@);
    let mut i: usize = start;
    assert(texts(r@) =~= all.subrange(start as int, start as int));
    while i < sp.pseudo_panes.len()
        invariant
            start <= i <= sp.pseudo_panes.len(),
            all == texts(sp.pseudo_panes@),
            texts(r@) == all.subrange(start as int, i as int),
        decreases sp.pseudo_panes.len() - i,
    {
        r.push(sp.pseudo_panes[i].clone());
        i += 1;
        assert(all.subrange(start as int, i as int) =~= all.subrange(start as int, i - 1).push(
            all[i - 1],
        ));
    }
    assert(texts(r@) =~= stale(sp@, mode));
    r
}

fn fallback_push(sp: &Space) -> (r: Step)
    ensures
        r@ == fallback(sp@),
{
    if sp.spare_panes.len() > 0 {
        assert(texts(sp.spare_panes@)[0] == sp.spare_panes@[0]@);
        Step::PaneStatus(sp.spare_panes[0].clone())
    } else if sp.agent_panes.len() > 0 {
        assert(texts(sp.agent_panes@)[0] == sp.agent_panes@[0]@);
        Step::PaneStatus(sp.agent_panes[0].clone())
    } else {
        Step::Done
    }
}

/// The first report about a space.
///
/// In sidebar mode the spaces card renders workspace tokens, so the workspace is
/// reported. In the agents panel a pane is claimed: one that carries the
/// pseudo-agent already, else a spare one.
pub fn first_push(sp: &Space, mode: Mode) -> (r: Step)
    ensures
        r@ == first_step(sp@, mode),
{
    match mode {
        Mode::Sidebar => Step::WorkspaceStatus(sp.id.clone()),
        Mode::AgentsPanel => {
            if sp.pseudo_panes.len() > 0 {
                assert(texts(sp.pseudo_panes@)[0] == sp.pseudo_panes@[0]@);
                Step::ClaimAgent(sp.pseudo_panes[0].clone())
            } else if sp.spare_panes.len() > 0 {
                assert(texts(sp.spare_panes@)[0] == sp.spare_panes@[0]@);
                Step::ClaimAgent(sp.spare_panes[0].clone())
            } else {
                fallback_push(sp)
            }
        },
    }
}

/// Take in what came of a report: remember what was accepted, and say what to
/// report next.
pub fn push_statuses(sp: &Space, step: &Step, accepted: bool, pushed: &mut Pushed) -> (r: Step)
    ensures
        r@ == next_step(sp@, step@, accepted),
        final(pushed).pseudo@ == match step@ {
            StepView::ClaimAgent(p) => if accepted {
                with_name(old(pushed).pseudo@, p)
            } else {
                old(pushed).pseudo@
            },
            _ => old(pushed).pseudo@,
        },
        final(pushed).metadata@ == match step@ {
            StepView::PaneStatus(p) => if accepted {
                with_name(old(pushed).metadata@, p)
            } else {
                old(pushed).metadata@
            },
            _ => old(pushed).metadata@,
        },
        final(pushed).workspaces@ == match step@ {
            StepView::WorkspaceStatus(w) => if accepted {
                with_name(old(pushed).workspaces@, w)
            } else {
                old(pushed).workspaces@
            },
            _ => old(pushed).workspaces@,
        },
{
    match step {
        Step::ClaimAgent(pane) => {
            if accepted {
                pushed.pseudo.insert(pane.as_str());
                Step::PaneStatus(pane.clone())
            } else {
                fallback_push(sp)
            }
        },
        Step::PaneStatus(pane) => {
            if accepted {
                pushed.metadata.insert(pane.as_str());
            }
            Step::Done
        },
        Step::WorkspaceStatus(workspace) => {
            if accepted {
                pushed.workspaces.insert(workspace.as_str());
            }
            Step::Done
        },
        Step::Done => Step::Done,
    }
}

/// One thing to take back.
#[derive(Debug, PartialEq, Eq)]
pub enum Clear {
    /// Release a pane's pseudo-agent.
    Agent(String),
    /// Clear a pane's status.
    Pane(String),
    /// Clear a workspace's status.
    Workspace(String),
}

/// What a [`Clear`] says, in plain values.
pub enum ClearView {
    Agent(Seq<char>),
    Pane(Seq<char>),
    Workspace(Seq<char>),
}

impl View for Clear {
    type V = ClearView;

    open spec fn view(&self) -> ClearView {
        match self {
            Clear::Agent(p) => ClearView::Agent(p@),
            Clear::Pane(p) => ClearView::Pane(p@),
            Clear::Workspace(w) => ClearView::Workspace(w@),
        }
    }
}

pub open spec fn clear_views(v: Seq<Clear>) -> Seq<ClearView> {
    v.map_values(|c: Clear| c@)
}

/// Everything to take back: the pseudo-agents, then the panes' statuses, then the
/// workspaces'.
pub open spec fn clears(
    pseudo: Seq<Seq<char>>,
    metadata: Seq<Seq<char>>,
    workspaces: Seq<Seq<char>>,
) -> Seq<ClearView> {
    pseudo.map_values(|p: Seq<char>| ClearView::Agent(p)) + metadata.map_values(
        |p: Seq<char>| ClearView::Pane(p),
    ) + workspaces.map_values(|w: Seq<char>| ClearView::Workspace(w))
}

/// What to take back of everything that was pushed.
pub fn clear_all(pushed: &Pushed) -> (r: Vec<Clear>)
    ensures
        clear_views(r@) == clears(pushed.pseudo@, pushed.metadata@, pushed.workspaces@),
{
    let mut r: Vec<Clear> = Vec::new();
    let pseudo = pushed.pseudo.list();
    let metadata = pushed.metadata.list();
    let workspaces = pushed.workspaces.list();
    let ghost a = texts(pseudo@).map_values(|p: Seq<char>| ClearView::Agent(p));
    let ghost b = texts(metadata@).map_values(|p: Seq<char>| ClearView::Pane(p));
    let ghost c = texts(workspaces@).map_values(|w: Seq<char>| ClearView::Workspace(w));
    let mut i: usize = 0;
    assert(clear_views(r@) =~= a.take(0));
    while i < pseudo.len()
        invariant
            i <= pseudo.len(),
            a == texts(pseudo@).map_values(|p: Seq<char>| ClearView::Agent(p)),
            clear_views(r@) == a.take(i as int),
        decreases pseudo.len() - i,
    {
        let ghost before = r@;
        let item = Clear::Agent(pseudo[i].clone());
        let ghost said = item@;
        r.push(item);
        assert(clear_views(r@) =~= clear_views(before).push(said));
        i += 1;
        assert(a.take(i as int) =~= a.take(i - 1).push(a[i - 1]));
    }
    assert(a.take(i as int) =~= a);
    i = 0;
    assert(clear_views(r@) =~= a + b.take(0));
    while i < metadata.len()
        invariant
            i <= metadata.len(),
            b == texts(metadata@).map_values(|p: Seq<char>| ClearView::Pane(p)),
            clear_views(r@) == a + b.take(i as int),
        decreases metadata.len() - i,
    {
        let ghost before = r@;
        let item = Clear::Pane(metadata[i].clone());
        let ghost said = item@;
        r.push(item);
        assert(clear_views(r@) =~= clear_views(before).push(said));
        i += 1;
        assert(b.take(i as int) =~= b.take(i - 1).push(b[i - 1]));
        assert(clear_views(r@) =~= a + b.take(i as int));
    }
    assert(b.take(i as int) =~= b);
    i = 0;
    assert(clear_views(r@) =~= a + b + c.take(0));
    while i < workspaces.len()
        invariant
            i <= workspaces.len(),
            c == texts(workspaces@).map_values(|w: Seq<char>| ClearView::Workspace(w)),
            clear_views(r@) == a + b + c.take(i as int),
        decreases workspaces.len() - i,
    {
        let ghost before = r@;
        let item = Clear::Workspace(workspaces[i].clone());
        let ghost said = item@;
        r.push(item);
        assert(clear_views(r@) =~= clear_views(before).push(said));
        i += 1;
        assert(c.take(i as int) =~= c.take(i - 1).push(c[i - 1]));
        assert(clear_views(r@) =~= a + b + c.take(i as int));
    }
    assert(c.take(i as int) =~= c);
    r
}

// ---- sweeping -----------------------------------------------------------------------------------

/// One workspace and how its panes divide up.
#[derive(Debug)]
pub struct SweepTarget {
    pub workspace: String,
    pub panes: PaneRoles,
}

/// The workspaces of a session and how their panes divide up: what there is to
/// sweep.
pub fn sweep_targets(snapshot: &SessionSnapshot) -> (r: Vec<SweepTarget>)
    ensures
        r@.len() == snapshot.workspaces@.len(),
        forall|i: int|
            0 <= i < r@.len() ==> (#[trigger] r@[i]).workspace@
                == snapshot.workspaces@[i].workspace_id@ && r@[i].panes@ == roles_of(
                panes_in(
                    pane_views(snapshot.panes@),
                    snapshot.workspaces@[i].workspace_id@,
                ),
            ),
{
    let mut r: Vec<SweepTarget> = Vec::new();
    let mut i: usize = 0;
    while i < snapshot.workspaces.len()
        invariant
            i <= snapshot.workspaces.len(),
            r@.len() == i,
            forall|j: int|
                0 <= j < i ==> (#[trigger] r@[j]).workspace@
                    == snapshot.workspaces@[j].workspace_id@ && r@[j].panes@ == roles_of(
                    panes_in(
                        pane_views(snapshot.panes@),
                        snapshot.workspaces@[j].workspace_id@,
                    ),
                ),
        decreases snapshot.workspaces.len() - i,
    {
        let workspace = snapshot.workspaces[i].workspace_id.clone();
        let own = panes_by_workspace(&snapshot.panes, workspace.as_str());
        let panes = classify_panes(&own);
        r.push(SweepTarget { workspace, panes });
        i += 1;
    }
    r
}

/// Names added one after the other.
pub open spec fn with_names(names: Seq<Seq<char>>, more: Seq<Seq<char>>) -> Seq<Seq<char>>
    decreases more.len(),
{
    if more.len() == 0 {
        names
    } else {
        with_name(with_names(names, more.drop_last()), more.last())
    }
}

/// What a sweep takes back, in plain values.
pub struct SweepView {
    pub pseudo: Seq<Seq<char>>,
    pub metadata: Seq<Seq<char>>,
    pub workspaces: Seq<Seq<char>>,
}

/// What one workspace adds to a sweep. A pseudo-agent's pane carries two things:
/// the row and the reading inside it.
pub open spec fn swept(before: SweepView, workspace: Seq<char>, panes: RolesView) -> SweepView {
    SweepView {
        pseudo: with_names(before.pseudo, panes.pseudo_panes),
        metadata: with_names(
            with_names(
                with_names(before.metadata, panes.pseudo_panes),
                panes.agent_panes,
            ),
            panes.spare_panes,
        ),
        workspaces: with_name(before.workspaces, workspace),
    }
}

/// What a sweep of several workspaces takes back.
pub open spec fn sweep_of(targets: Seq<SweepTarget>) -> SweepView
    decreases targets.len(),
{
    if targets.len() == 0 {
        SweepView { pseudo: seq![], metadata: seq![], workspaces: seq![] }
    } else {
        swept(
            sweep_of(targets.drop_last()),
            targets.last().workspace@,
            targets.last().panes@,
        )
    }
}

fn add_names(set: &mut NameSet, more: &Vec<String>)
    ensures
        final(set)@ == with_names(old(set)@, texts(more@)),
{
    let ghost start = set@;
    let mut i: usize = 0;
    assert(texts(more@).take(0) =~= seq![]);
    while i < more.len()
        invariant
            i <= more.len(),
            set@ == with_names(start, texts(more@).take(i as int)),
        decreases more.len() - i,
    {
        assert(texts(more@).take(i + 1).drop_last() =~= texts(more@).take(i as int));
        let added = set.insert(more[i].as_str());
        i += 1;
    }
    assert(texts(more@).take(i as int) =~= texts(more@));
}

/// Everything an updater could have put on the panes and workspaces of a session:
/// what a sweep clears when there is no record of what was pushed.
pub fn everything_we_could_have_pushed(targets: &Vec<SweepTarget>) -> (r: Pushed)
    ensures
        (SweepView {
            pseudo: r.pseudo@,
            metadata: r.metadata@,
            workspaces: r.workspaces@,
        }) == sweep_of(targets@),
{
    let mut sweep = Pushed::new();
    let mut i: usize = 0;
    assert(targets@.take(0) =~= seq![]);
    assert(sweep.pseudo@ =~= seq![]);
    assert(sweep.metadata@ =~= seq![]);
    assert(sweep.workspaces@ =~= seq![]);
    while i < targets.len()
        invariant
            i <= targets.len(),
            (SweepView {
                pseudo: sweep.pseudo@,
                metadata: sweep.metadata@,
                workspaces: sweep.workspaces@,
            }) == sweep_of(targets@.take(i as int)),
        decreases targets.len() - i,
    {
        assert(targets@.take(i + 1).drop_last() =~= targets@.take(i as int));
        let target = &targets[i];
        add_names(&mut sweep.metadata, &target.panes.pseudo_panes);
        add_names(&mut sweep.pseudo, &target.panes.pseudo_panes);
        add_names(&mut sweep.metadata, &target.panes.agent_panes);
        add_names(&mut sweep.metadata, &target.panes.spare_panes);
        let added = sweep.workspaces.insert(target.workspace.as_str());
        i += 1;
    }
    assert(targets@.take(i as int) =~= targets@);
    sweep
}

// ---- the refresh loop ---------------------------------------------------------------------------

/// Quick first sample, so the sidebar updates immediately, in milliseconds.
pub const FIRST_WINDOW_MS: u64 = 500;

/// Failed samples in a row after which the server is taken to be gone.
pub const MAX_FAILURES: u32 = 5;

/// Where a running updater stands.
#[derive(Debug, Clone, Copy, PartialEq, Eq, Structural)]
pub struct Daemon {
    /// The cadence, fixed at startup: the status lifetime is sized by it.
    pub interval_ms: u64,
    /// How long the next sample takes.
    pub window_ms: u64,
    /// Samples that failed in a row.
    pub failures: u32,
}

/// What happened to a running updater.
#[derive(Debug, Clone, Copy, PartialEq, Eq, Structural)]
pub enum Event {
    /// It was started, and another may be serving the session already.
    Started { another: bool },
    /// It tried to reach the server.
    Connected { ok: bool },
    /// A cycle begins; its own build may have been replaced on disk.
    CycleBegan { replaced: bool, stopping: bool },
    /// A sample was taken.
    Sampled { stopping: bool },
    /// A sample could not be taken.
    SampleFailed { stopping: bool },
    /// The rest after a failure is over.
    Rested { stopping: bool },
}

/// What a running updater does next.
#[derive(Debug, Clone, Copy, PartialEq, Eq, Structural)]
pub enum Action {
    /// Leave: another updater serves the session.
    Quit,
    /// Record the claim, then connect.
    ClaimAndConnect,
    /// Give the claim up and report the failure to connect.
    GiveUp,
    /// Begin a cycle.
    Begin,
    /// Take everything back and start the build that is on disk now.
    HandOff,
    /// Sample over this window.
    Sample { window_ms: u64 },
    /// Push the statuses, and the title where it is asked for, and begin again.
    Push,
    /// Rest before trying again.
    Rest,
    /// Take everything back and leave.
    Shutdown,
    /// Do nothing more: a shutdown is under way, and nothing may be reported
    /// behind it.
    Park,
}

/// The updater after an event.
pub open spec fn after_event(d: Daemon, event: Event) -> Daemon {
    match event {
        Event::Sampled { stopping } => if stopping {
            d
        } else {
            Daemon { window_ms: d.interval_ms, failures: 0, ..d }
        },
        Event::SampleFailed { stopping } => Daemon {
            window_ms: d.interval_ms,
            failures: if d.failures < u32::MAX {
                (d.failures + 1) as u32
            } else {
                d.failures
            },
            ..d
        },
        _ => d,
    }
}

/// What the updater does about an event.
pub open spec fn action_for(d: Daemon, event: Event) -> Action {
    match event {
        Event::Started { another } => if another {
            Action::Quit
        } else {
            Action::ClaimAndConnect
        },
        Event::Connected { ok } => if ok {
            Action::Begin
        } else {
            Action::GiveUp
        },
        Event::CycleBegan { replaced, stopping } => if replaced && !stopping {
            Action::HandOff
        } else {
            Action::Sample { window_ms: d.window_ms }
        },
        Event::Sampled { stopping } => if stopping {
            Action::Park
        } else {
            Action::Push
        },
        Event::SampleFailed { stopping } => if after_event(d, event).failures >= MAX_FAILURES
            && !stopping {
            Action::Shutdown
        } else {
            Action::Rest
        },
        Event::Rested { stopping } => if stopping {
            Action::Park
        } else {
            Action::Begin
        },
    }
}

impl Daemon {
    /// An updater about to start, refreshing at the given cadence.
    pub fn new(interval_seconds: u64) -> (r: Daemon)
        requires
            interval_seconds * 1000 <= u64::MAX,
        ensures
            r == (Daemon {
                interval_ms: (interval_seconds * 1000) as u64,
                window_ms: FIRST_WINDOW_MS,
                failures: 0,
            }),
    {
        Daemon { interval_ms: interval_seconds * 1000, window_ms: FIRST_WINDOW_MS, failures: 0 }
    }
}

/// Take in what happened to a running updater and say what it does next.
///
/// A shutdown may be won by a signal at any time; once it is under way
/// (`stopping`) the loop starts no second one and reports nothing more.
pub fn run_daemon(daemon: &mut Daemon, event: Event) -> (r: Action)
    ensures
        *final(daemon) == after_event(*old(daemon), event),
        r == action_for(*old(daemon), event),
{
    match event {
        Event::Started { another } => if another {
            Action::Quit
        } else {
            Action::ClaimAndConnect
        },
        Event::Connected { ok } => if ok {
            Action::Begin
        } else {
            Action::GiveUp
        },
        Event::CycleBegan { replaced, stopping } => if replaced && !stopping {
            Action::HandOff
        } else {
            Action::Sample { window_ms: daemon.window_ms }
        },
        Event::Sampled { stopping } => {
            if stopping {
                Action::Park
            } else {
                daemon.failures = 0;
                daemon.window_ms = daemon.interval_ms;
                Action::Push
            }
        },
        Event::SampleFailed { stopping } => {
            if daemon.failures < u32::MAX {
                daemon.failures = daemon.failures + 1;
            }
            daemon.window_ms = daemon.interval_ms;
            if daemon.failures >= MAX_FAILURES && !stopping {
                Action::Shutdown
            } else {
                Action::Rest
            }
        },
        Event::Rested { stopping } => if stopping {
            Action::Park
        } else {
            Action::Begin
        },
    }
}

// ---- lifetimes -----------------------------------------------------------------------------------

/// The longest status lifetime herdr accepts, in milliseconds.
pub const MAX_TTL_MS: u64 = 86_400_000;

/// Three intervals, within what herdr accepts.
pub open spec fn ttl_ms(interval_seconds: int) -> int {
    if interval_seconds * 3_000 < MAX_TTL_MS {
        interval_seconds * 3_000
    } else {
        MAX_TTL_MS as int
    }
}

/// Lifetime of a pushed status: it outlives three refreshes, so it never blinks
/// out between two, and goes away by itself when the updater dies.
pub fn status_ttl_ms(interval_seconds: u64) -> (r: u64)
    ensures
        r == ttl_ms(interval_seconds as int),
{
    if interval_seconds < 28_800 {
        interval_seconds * 3_000
    } else {
        MAX_TTL_MS
    }
}

/// Seconds a cycle may take before the updater is taken to be stuck, at least.
pub const WATCHDOG_GRACE: u64 = 300;

/// Seconds a cycle may take: the grace, and always several intervals, so that a
/// long cadence cannot trip its own watchdog.
pub fn watchdog_deadline(interval_seconds: u64) -> (r: u64)
    ensures
        r == if interval_seconds * 5 > u64::MAX {
            u64::MAX as int
        } else if interval_seconds * 5 > WATCHDOG_GRACE {
            interval_seconds * 5
        } else {
            WATCHDOG_GRACE as int
        },
{
    if interval_seconds > u64::MAX / 5 {
        u64::MAX
    } else if interval_seconds * 5 > WATCHDOG_GRACE {
        interval_seconds * 5
    } else {
        WATCHDOG_GRACE
    }
}

/// Whether the last heartbeat lies further back than the deadline allows, both
/// in seconds since the start.
pub fn is_stalled(now: u64, heartbeat: u64, deadline: u64) -> (r: bool)
    ensures
        r == ((if now > heartbeat {
            now - heartbeat
        } else {
            0
        }) >= deadline),
{
    let since: u64 = if now > heartbeat {
        now - heartbeat
    } else {
        0
    };
    since >= deadline
}

// ---- the build on disk ---------------------------------------------------------------------------

/// A build's stamp: when its file was written, and how long it is.
pub open spec fn stamp_text(mtime_nanos: u128, len: u64) -> Seq<char> {
    digits(mtime_nanos as int) + seq![':'] + digits(len as int)
}

pub fn stamp(mtime_nanos: u128, len: u64) -> (r: String)
    ensures
        r@ == stamp_text(mtime_nanos, len),
{
    let mut r = number_text(mtime_nanos);
    r.push(':');
    r.append(number_text(len as u128).as_str());
    assert(r@ =~= stamp_text(mtime_nanos, len));
    r
}

/// Whether the build on disk is another than the one that was launched. One that
/// cannot be read is not: standing down on a guess would blank the sidebar.
pub fn build_changed(launched: &str, current: Option<&str>) -> (r: bool)
    ensures
        r == (opt_str(current) matches Some(c) && c != launched@),
{
    match current {
        Some(c) => !same(c, launched),
        None => false,
    }
}

// ---- the texts pushed ------------------------------------------------------------------------------

/// One space's status: its narrow row.
pub fn status_line(sp: &Space, mem_total: Double, style: RowStyle) -> (r: String)
    ensures
        r@ == row_text(
            cpu_text(style.icons, style.labels@.cpu, sp.cpu),
            ram_text(style.icons, style.labels@.ram, sp.ram_mb, style.ram_display, mem_total),
            seq![],
            seq![],
        ),
{
    usage_row(sp.cpu, sp.ram_mb, mem_total, style)
}

/// The window title: the totals over all spaces, and the machine's own cells.
pub fn title_totals(
    spaces: &Vec<Space>,
    mem_total: Double,
    style: RowStyle,
    battery: Option<Battery>,
    disks: &Vec<Disk>,
) -> (r: String)
    ensures
        r@ == "spaces · "@ + row_text(
            cpu_text(
                style.icons,
                style.labels@.cpu,
                Percent { value: total_cpu(space_views(spaces@)) },
            ),
            ram_text(
                style.icons,
                style.labels@.ram,
                total_ram(space_views(spaces@)),
                style.ram_display,
                mem_total,
            ),
            battery_texts(style.icons, style.labels@.battery, battery),
            drive_texts(style.icons, style.labels@.disk, disk_views(disks@)),
        ),
{
    let ghost all = space_views(spaces@);
    let mut cpu = Percent::none();
    let mut ram = Double::nothing();
    let mut i: usize = 0;
    assert(all.take(0) =~= seq![]);
    while i < spaces.len()
        invariant
            i <= spaces.len(),
            all == space_views(spaces@),
            cpu.value == total_cpu(all.take(i as int)),
            ram == total_ram(all.take(i as int)),
        decreases spaces.len() - i,
    {
        assert(all.take(i + 1).drop_last() =~= all.take(i as int));
        assert(all[i as int] == spaces@[i as int]@);
        cpu = cpu.plus(spaces[i].cpu);
        ram = ram.plus(spaces[i].ram_mb);
        i += 1;
    }
    assert(all.take(i as int) =~= all);
    glued("spaces · ", totals_row(cpu, ram, mem_total, style, battery, disks).as_str())
}

/// The title to set after a push, or `None` where the config asks for none: the
/// battery and the drives are read only for a title that is drawn.
pub fn set_title_totals<F: FnOnce() -> Option<Battery>, G: FnOnce(&Vec<String>) -> Vec<Disk>>(
    spaces: &Vec<Space>,
    mem_total: Double,
    config: &Config,
    style: RowStyle,
    battery: F,
    disks: G,
) -> (r: Option<String>)
    requires
        config.window_title_totals && config.battery ==> battery.requires(()),
        config.window_title_totals && config.disk ==> disks.requires((&config.disks,)),
    ensures
        r is Some == config.window_title_totals,
        r matches Some(title) ==> exists|b: Option<Battery>, d: Vec<Disk>|
            (if config.battery {
                battery.ensures((), b)
            } else {
                b is None
            }) && (if config.disk {
                disks.ensures((&config.disks,), d)
            } else {
                d@.len() == 0
            }) && title@ == "spaces · "@ + #[trigger] row_text(
                cpu_text(
                    style.icons,
                    style.labels@.cpu,
                    Percent { value: total_cpu(space_views(spaces@)) },
                ),
                ram_text(
                    style.icons,
                    style.labels@.ram,
                    total_ram(space_views(spaces@)),
                    style.ram_display,
                    mem_total,
                ),
                battery_texts(style.icons, style.labels@.battery, b),
                drive_texts(style.icons, style.labels@.disk, disk_views(d@)),
            ),
{
    if !config.window_title_totals {
        return None;
    }
    let b = config.battery_reading(battery);
    let d = config.disk_readings(disks);
    Some(title_totals(spaces, mem_total, style, b, &d))
}

// ---- the controls ---------------------------------------------------------------------------------

/// The text of the decision marker. Off has a text of its own: deleting the
/// marker would read as a fresh install, and switch the updater back on.
pub open spec fn marker_text(wanted: Wanted) -> Seq<char> {
    if wanted == Wanted::Disabled {
        "0\n"@
    } else {
        "1\n"@
    }
}

pub fn set_wanted(wanted: Wanted) -> (r: &'static str)
    ensures
        r@ == marker_text(wanted),
{
    if wanted == Wanted::Disabled {
        "0\n"
    } else {
        "1\n"
    }
}

/// What the enable notice says: an edit of a file the user owns is named.
pub open spec fn notice(base: Seq<char>, added_row: bool) -> Seq<char> {
    if added_row {
        base + " — added a $usage row to herdr's config.toml (backup alongside it)"@
    } else {
        base
    }
}

pub fn enabled_message(base: &str, added_row: bool) -> (r: String)
    ensures
        r@ == notice(base@, added_row),
{
    if added_row {
        glued(base, " — added a $usage row to herdr's config.toml (backup alongside it)")
    } else {
        base.to_owned()
    }
}

/// What first-time setup does.
#[derive(Debug, Clone, Copy, PartialEq, Eq, Structural)]
pub struct Bootstrap {
    /// Record that setup has run.
    pub mark: bool,
    /// Have herdr read its config again.
    pub reload: bool,
    /// A row was added.
    pub added: bool,
}

/// What first-time setup comes to: nothing where it has run before. Otherwise it
/// is done only when the edit settled the question; a failed edit leaves it to
/// run again.
pub open spec fn setup(marked: bool, edit: Option<Change>) -> Bootstrap {
    match edit {
        Some(change) => if marked {
            Bootstrap { mark: false, reload: false, added: false }
        } else {
            Bootstrap {
                mark: true,
                reload: change == Change::Written,
                added: change == Change::Written,
            }
        },
        None => Bootstrap { mark: false, reload: false, added: false },
    }
}

/// Whether first-time setup has to run, given whether its marker is there: where
/// it is, herdr's config is left alone.
pub fn needs_bootstrap(marked: bool) -> (r: bool)
    ensures
        r == !marked,
{
    !marked
}

/// First-time setup, given whether its marker is there and what came of the
/// config edit, where one was made and did not fail.
pub fn bootstrap_sidebar(marked: bool, edit: Option<Change>) -> (r: Bootstrap)
    ensures
        r == setup(marked, edit),
{
    if !needs_bootstrap(marked) {
        return Bootstrap { mark: false, reload: false, added: false };
    }
    match edit {
        Some(change) => {
            let written = change.needs_reload();
            Bootstrap { mark: true, reload: written, added: written }
        },
        None => Bootstrap { mark: false, reload: false, added: false },
    }
}

/// What switching on does once setup has run.
#[derive(Debug)]
pub struct Enable {
    /// Start an updater.
    pub spawn: bool,
    /// What to tell the user.
    pub message: String,
}

/// Switch on: start an updater for this session unless one is live.
pub fn enable_updater(live: bool, added_row: bool) -> (r: Enable)
    ensures
        r.spawn == !live,
        r.message@ == notice(
            if live {
                "sidebar usage already enabled"@
            } else {
                "sidebar usage enabled"@
            },
            added_row,
        ),
{
    if live {
        Enable {
            spawn: false,
            message: enabled_message("sidebar usage already enabled", added_row),
        }
    } else {
        Enable { spawn: true, message: enabled_message("sidebar usage enabled", added_row) }
    }
}

/// What bringing the updater back does.
#[derive(Debug, Clone, Copy, PartialEq, Eq, Structural)]
pub struct Restore {
    /// Run first-time setup first.
    pub bootstrap: bool,
    /// Start an updater.
    pub spawn: bool,
}

/// Bring the updater back after a restart, unless it was switched off: a fresh
/// install, where nobody has decided, wants it.
pub fn restore_updater(wanted: Wanted, live: bool) -> (r: Restore)
    ensures
        r.bootstrap == (wanted == Wanted::Undecided),
        r.spawn == (wanted != Wanted::Disabled && !live),
{
    if !wanted.wants_daemon() {
        return Restore { bootstrap: false, spawn: false };
    }
    Restore { bootstrap: wanted == Wanted::Undecided, spawn: !live }
}

/// What switching off does about herdr's config.
#[derive(Debug, Clone, Copy, PartialEq, Eq, Structural)]
pub struct Disable {
    /// Forget that first-time setup has run, so that switching on runs it again.
    pub forget_setup: bool,
    /// Have herdr read its config again.
    pub reload: bool,
}

/// What switching off comes to: where the row was taken back out, setup has to
/// run again for it to come back, and herdr has to read its config.
pub open spec fn switched_off(edit: Option<Change>) -> Disable {
    Disable {
        forget_setup: edit == Some(Change::Written),
        reload: edit == Some(Change::Written),
    }
}

/// Switch off, given what came of taking the row out, where that did not fail.
pub fn disable_updater(edit: Option<Change>) -> (r: Disable)
    ensures
        r == switched_off(edit),
{
    let written = match edit {
        Some(change) => change.needs_reload(),
        None => false,
    };
    Disable { forget_setup: written, reload: written }
}

/// Which way a toggle goes.
#[derive(Debug, Clone, Copy, PartialEq, Eq, Structural)]
pub enum Toggle {
    Enable,
    Disable,
}

/// Switch off where an updater is live, else on.
pub fn toggle_updater(live: bool) -> (r: Toggle)
    ensures
        r == if live {
            Toggle::Disable
        } else {
            Toggle::Enable
        },
{
    if live {
        Toggle::Disable
    } else {
        Toggle::Enable
    }
}

} // verus!
