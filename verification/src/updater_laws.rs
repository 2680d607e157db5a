//! What the updater does about each thing that happens, and what a sweep reaches.

use vstd::prelude::*;
use vstd::string::*;

use crate::config::{Mode, Wanted};
use crate::daemon::{
    action_for, after_event, clears, first_step, marker_text, next_step, notice, setup, stale,
    stamp_text, sweep_of, swept, switched_off, ttl_ms, with_name, with_names, Action, ClearView,
    Daemon, Event, StepView, SweepTarget,
};
use crate::daemon_laws::{lemma_with_name, lemma_with_names};
use crate::herdr_config::Change;
use crate::model::SpaceView;
use crate::text::digits;

verus! {

// ---- the refresh loop -----------------------------------------------------------------------------

/// What the updater does about everything that can happen to it, while no shutdown
/// is under way.
pub proof fn law_every_event_has_its_action(d: Daemon)
    ensures
        action_for(d, Event::Started { another: true }) is Quit,
        action_for(d, Event::Started { another: false }) is ClaimAndConnect,
        action_for(d, Event::Connected { ok: true }) is Begin,
        action_for(d, Event::Connected { ok: false }) is GiveUp,
        action_for(d, Event::CycleBegan { replaced: true, stopping: false }) is HandOff,
        action_for(d, Event::CycleBegan { replaced: false, stopping: false }) == (Action::Sample {
            window_ms: d.window_ms,
        }),
        action_for(d, Event::Sampled { stopping: false }) is Push,
        action_for(d, Event::SampleFailed { stopping: false }) is Shutdown <==> d.failures >= 4,
        action_for(d, Event::SampleFailed { stopping: false }) is Rest <==> d.failures < 4,
        action_for(d, Event::Rested { stopping: false }) is Begin,
{
}

/// Only a sample changes the updater: each sets the window to the cadence, one that
/// failed counts, one that succeeded forgets the failures before it.
pub proof fn law_only_samples_change_the_updater(d: Daemon, flag: bool, other: bool)
    ensures
        after_event(d, Event::Started { another: flag }) == d,
        after_event(d, Event::Connected { ok: flag }) == d,
        after_event(d, Event::CycleBegan { replaced: flag, stopping: other }) == d,
        after_event(d, Event::Rested { stopping: flag }) == d,
        after_event(d, Event::Sampled { stopping: true }) == d,
        after_event(d, Event::Sampled { stopping: false }) == (Daemon {
            interval_ms: d.interval_ms,
            window_ms: d.interval_ms,
            failures: 0,
        }),
        d.failures < u32::MAX ==> after_event(d, Event::SampleFailed { stopping: flag })
            == (Daemon {
            interval_ms: d.interval_ms,
            window_ms: d.interval_ms,
            failures: (d.failures + 1) as u32,
        }),
{
}

// ---- reporting ------------------------------------------------------------------------------------

/// In the agents panel the pane that carries the pseudo-agent is claimed, else the
/// first plain shell; a claim that was accepted gets the status, and one that was
/// refused leaves it to the first plain shell, else the first agent, else nobody.
pub proof fn law_the_panel_claims_in_order(s: SpaceView)
    ensures
        s.pseudo_panes.len() > 0 ==> first_step(s, Mode::AgentsPanel) == StepView::ClaimAgent(
            s.pseudo_panes[0],
        ),
        s.pseudo_panes.len() == 0 && s.spare_panes.len() > 0 ==> first_step(s, Mode::AgentsPanel)
            == StepView::ClaimAgent(s.spare_panes[0]),
        s.pseudo_panes.len() == 0 && s.spare_panes.len() == 0 && s.agent_panes.len() > 0
            ==> first_step(s, Mode::AgentsPanel) == StepView::PaneStatus(s.agent_panes[0]),
        s.pseudo_panes.len() == 0 && s.spare_panes.len() == 0 && s.agent_panes.len() == 0
            ==> first_step(s, Mode::AgentsPanel) is Done,
        forall|pane: Seq<char>| #[trigger]
            next_step(s, StepView::ClaimAgent(pane), true) == StepView::PaneStatus(pane),
        forall|pane: Seq<char>| #[trigger]
            next_step(s, StepView::ClaimAgent(pane), false) == if s.spare_panes.len() > 0 {
                StepView::PaneStatus(s.spare_panes[0])
            } else if s.agent_panes.len() > 0 {
                StepView::PaneStatus(s.agent_panes[0])
            } else {
                StepView::Done
            },
        forall|pane: Seq<char>, ok: bool| #[trigger]
            next_step(s, StepView::PaneStatus(pane), ok) is Done,
        forall|id: Seq<char>, ok: bool| #[trigger]
            next_step(s, StepView::WorkspaceStatus(id), ok) is Done,
        s.pseudo_panes.len() == 0 ==> stale(s, Mode::AgentsPanel).len() == 0,
{
}

/// What was pushed is remembered once.
pub proof fn law_a_name_is_kept_once(names: Seq<Seq<char>>, name: Seq<char>)
    requires
        names.no_duplicates(),
    ensures
        with_name(names, name).no_duplicates(),
        with_name(names, name).contains(name),
        forall|x: Seq<char>| #[trigger]
            with_name(names, name).contains(x) <==> names.contains(x) || x == name,
{
    assert forall|x: Seq<char>| #[trigger]
        with_name(names, name).contains(x) <==> names.contains(x) || x == name by {
        lemma_with_name(names, name, x);
    }
    assert(with_name(names, name).contains(name));
}

proof fn lemma_no_repeats(names: Seq<Seq<char>>, more: Seq<Seq<char>>)
    requires
        names.no_duplicates(),
    ensures
        with_names(names, more).no_duplicates(),
    decreases more.len(),
{
    if more.len() > 0 {
        lemma_no_repeats(names, more.drop_last());
        law_a_name_is_kept_once(with_names(names, more.drop_last()), more.last());
    }
}

/// A sweep reaches every workspace and every pane of it that an updater could have
/// touched, nothing else, and nothing twice: the pseudo-agents to release, and
/// with them the agents and the plain shells to clear.
pub proof fn law_a_sweep_reaches_every_workspace(targets: Seq<SweepTarget>, x: Seq<char>)
    ensures
        sweep_of(targets).pseudo.contains(x) <==> exists|i: int|
            0 <= i < targets.len() && (#[trigger] targets[i]).panes@.pseudo_panes.contains(x),
        sweep_of(targets).metadata.contains(x) <==> exists|i: int|
            0 <= i < targets.len() && ((#[trigger] targets[i]).panes@.pseudo_panes.contains(x)
                || targets[i].panes@.agent_panes.contains(x)
                || targets[i].panes@.spare_panes.contains(x)),
        sweep_of(targets).workspaces.contains(x) <==> exists|i: int|
            0 <= i < targets.len() && (#[trigger] targets[i]).workspace@ == x,
        sweep_of(targets).pseudo.no_duplicates(),
        sweep_of(targets).metadata.no_duplicates(),
        sweep_of(targets).workspaces.no_duplicates(),
    decreases targets.len(),
{
    if targets.len() > 0 {
        let front = targets.drop_last();
        let n = targets.len() - 1;
        let before = sweep_of(front);
        let (id, roles) = (targets.last().workspace@, targets.last().panes@);
        law_a_sweep_reaches_every_workspace(front, x);
        let a = with_names(before.metadata, roles.pseudo_panes);
        let b = with_names(a, roles.agent_panes);
        lemma_with_names(before.pseudo, roles.pseudo_panes);
        lemma_with_names(before.metadata, roles.pseudo_panes);
        lemma_with_names(a, roles.agent_panes);
        lemma_with_names(b, roles.spare_panes);
        lemma_no_repeats(before.pseudo, roles.pseudo_panes);
        lemma_no_repeats(before.metadata, roles.pseudo_panes);
        lemma_no_repeats(a, roles.agent_panes);
        lemma_no_repeats(b, roles.spare_panes);
        law_a_name_is_kept_once(before.workspaces, id);
        let now = sweep_of(targets);
        assert(now == swept(before, id, roles));
        assert(targets[n] == targets.last());
        assert(now.metadata.contains(x) <==> b.contains(x) || roles.spare_panes.contains(x));
        assert(b.contains(x) <==> a.contains(x) || roles.agent_panes.contains(x));
        assert(now.workspaces == with_name(before.workspaces, id));
        assert(with_name(before.workspaces, id).contains(x) <==> before.workspaces.contains(x) || x
            == id);
        assert forall|i: int| 0 <= i < front.len() implies front[i] == #[trigger] targets[i] by {}
        if before.pseudo.contains(x) {
            let i = choose|i: int|
                0 <= i < front.len() && (#[trigger] front[i]).panes@.pseudo_panes.contains(x);
            assert(targets[i].panes@.pseudo_panes.contains(x));
        }
        if before.metadata.contains(x) {
            let i = choose|i: int|
                0 <= i < front.len() && ((#[trigger] front[i]).panes@.pseudo_panes.contains(x)
                    || front[i].panes@.agent_panes.contains(x)
                    || front[i].panes@.spare_panes.contains(x));
            assert(targets[i] == front[i]);
        }
        if before.workspaces.contains(x) {
            let i = choose|i: int| 0 <= i < front.len() && (#[trigger] front[i]).workspace@ == x;
            assert(targets[i].workspace@ == x);
        }
    }
}

/// What is taken back stands in order, the pseudo-agents first, then the panes,
/// then the workspaces, and nothing else is.
pub proof fn law_nothing_else_is_taken_back(
    pseudo: Seq<Seq<char>>,
    metadata: Seq<Seq<char>>,
    workspaces: Seq<Seq<char>>,
    i: int,
)
    requires
        0 <= i < clears(pseudo, metadata, workspaces).len(),
    ensures
        clears(pseudo, metadata, workspaces)[i] == if i < pseudo.len() {
            ClearView::Agent(pseudo[i])
        } else if i < pseudo.len() + metadata.len() {
            ClearView::Pane(metadata[i - pseudo.len()])
        } else {
            ClearView::Workspace(workspaces[i - pseudo.len() - metadata.len()])
        },
{
}

// ---- lifetimes and decisions ----------------------------------------------------------------------

/// A status lives for three refreshes, a day at most.
pub proof fn law_a_status_lives_three_refreshes(seconds: int)
    requires
        0 <= seconds,
    ensures
        seconds <= 28_800 ==> ttl_ms(seconds) == 3_000 * seconds,
        seconds >= 28_800 ==> ttl_ms(seconds) == 24 * 60 * 60 * 1_000,
{
}

/// A decision is written as one digit on a line, nought for off.
pub proof fn law_a_decision_is_one_digit(wanted: Wanted)
    ensures
        marker_text(wanted) == if wanted is Disabled {
            seq!['0', '\n']
        } else {
            seq!['1', '\n']
        },
{
    reveal_strlit("0\n");
    reveal_strlit("1\n");
    assert("0\n"@ =~= seq!['0', '\n']);
    assert("1\n"@ =~= seq!['1', '\n']);
}

/// Setup is recorded where an edit settled it and it was not recorded before, and
/// herdr reads its config again exactly where that was written. Switching off
/// forgets it exactly where the row was taken out.
pub proof fn law_setup_follows_the_edit(marked: bool, edit: Option<Change>)
    ensures
        setup(marked, edit).mark <==> !marked && edit is Some,
        setup(marked, edit).reload <==> !marked && edit == Some(Change::Written),
        setup(marked, edit).added <==> !marked && edit == Some(Change::Written),
        switched_off(edit).forget_setup <==> edit == Some(Change::Written),
        switched_off(edit).reload <==> edit == Some(Change::Written),
{
}

/// A build is told by when its file was written and how long it is, a colon between
/// them.
pub proof fn law_a_stamp_is_a_time_and_a_length(mtime_nanos: u128, len: u64)
    ensures
        stamp_text(mtime_nanos, len) == digits(mtime_nanos as int) + seq![':'] + digits(len as int),
{
}

/// An edit of herdr's config is named behind what is said, and nothing is added
/// where there was none.
pub proof fn law_an_edit_is_named(base: Seq<char>)
    ensures
        notice(base, false) == base,
        notice(base, true) == base
            + " — added a $usage row to herdr's config.toml (backup alongside it)"@,
{
}

} // verus!
