//! What holds of the updater's decisions taken together.

use vstd::prelude::*;

use crate::collect::RolesView;
use crate::config::{config_of, decision, text_decision, Marker, Mode, Wanted};
use crate::config_laws::law_interval_is_in_range;
use crate::daemon::{
    action_for, after_event, clears, first_step, marker_text, next_step, setup, stale, stamp_text,
    swept, switched_off, ttl_ms, with_name, with_names, Action, Bootstrap, ClearView, Daemon,
    Event, StepView, SweepView, MAX_FAILURES, MAX_TTL_MS,
};
use crate::herdr_config::Change;
use crate::model::SpaceView;
use crate::text::{
    digits, is_digit, lemma_digits_injective, lemma_digits_round_trip, lemma_trim_core,
    lemma_trim_push_white,
};

verus! {

// ---- the refresh loop -----------------------------------------------------------------------

/// The updater after `k` samples failed in a row.
pub open spec fn after_failures(d: Daemon, k: nat) -> Daemon
    decreases k,
{
    if k == 0 {
        d
    } else {
        after_event(after_failures(d, (k - 1) as nat), Event::SampleFailed { stopping: false })
    }
}

proof fn lemma_failures(d: Daemon, k: nat)
    requires
        d.failures == 0,
        k <= MAX_FAILURES,
    ensures
        after_failures(d, k).failures == k,
    decreases k,
{
    if k > 0 {
        lemma_failures(d, (k - 1) as nat);
    }
}

/// The updater takes the server to be gone exactly when the last of five samples
/// in a row has failed: it rests after each failure before that, and a sample
/// that succeeds starts the count again.
pub proof fn law_gives_up_after_five_failures_in_a_row(d: Daemon, k: nat)
    requires
        d.failures == 0,
        k < MAX_FAILURES,
    ensures
        action_for(after_failures(d, k), Event::SampleFailed { stopping: false }) == (if k + 1
            == MAX_FAILURES {
            Action::Shutdown
        } else {
            Action::Rest
        }),
        after_event(after_failures(d, k), Event::Sampled { stopping: false }).failures == 0,
{
    lemma_failures(d, k);
}

/// Once a shutdown is under way nothing is pushed behind it, and no second one,
/// nor a hand-over, is started.
pub proof fn law_nothing_is_reported_behind_a_shutdown(d: Daemon, replaced: bool)
    ensures
        action_for(d, Event::Sampled { stopping: true }) == Action::Park,
        action_for(d, Event::Rested { stopping: true }) == Action::Park,
        action_for(d, Event::SampleFailed { stopping: true }) == Action::Rest,
        action_for(d, Event::CycleBegan { replaced, stopping: true }) == (Action::Sample {
            window_ms: d.window_ms,
        }),
{
}

/// After the first sample, whatever came of it, the cadence is the configured one.
pub proof fn law_cadence_follows_the_first_sample(d: Daemon)
    ensures
        after_event(d, Event::Sampled { stopping: false }).window_ms == d.interval_ms,
        after_event(d, Event::SampleFailed { stopping: false }).window_ms == d.interval_ms,
{
}

// ---- pushing ------------------------------------------------------------------------------------

/// A space takes at most two reports, whatever comes of each.
pub proof fn law_a_space_is_reported_in_two_steps(
    s: SpaceView,
    mode: Mode,
    first: bool,
    second: bool,
)
    ensures
        next_step(s, next_step(s, first_step(s, mode), first), second) is Done,
{
}

/// The pseudo-agent is only ever claimed on a pane that carries it already or on
/// a plain shell: never on an agent's pane, and never on one that another plugin
/// owns.
pub proof fn law_only_own_panes_are_claimed(s: SpaceView, mode: Mode, step: StepView, ok: bool)
    ensures
        first_step(s, mode) matches StepView::ClaimAgent(p) ==> mode == Mode::AgentsPanel && (
        s.pseudo_panes.contains(p) || s.spare_panes.contains(p)),
        !(next_step(s, step, ok) is ClaimAgent),
{
    if s.pseudo_panes.len() > 0 {
        assert(s.pseudo_panes.contains(s.pseudo_panes[0]));
    }
    if s.spare_panes.len() > 0 {
        assert(s.spare_panes.contains(s.spare_panes[0]));
    }
}

/// In sidebar mode a space's every pseudo-agent is released, and its workspace is
/// all that is reported.
pub proof fn law_sidebar_mode_reports_the_workspace_alone(s: SpaceView, ok: bool)
    ensures
        stale(s, Mode::Sidebar) == s.pseudo_panes,
        first_step(s, Mode::Sidebar) == StepView::WorkspaceStatus(s.id),
        next_step(s, first_step(s, Mode::Sidebar), ok) is Done,
{
}

/// In the agents panel a space keeps one entry: every pseudo-agent but the pane
/// that is claimed again is released.
pub proof fn law_a_space_keeps_one_panel_entry(s: SpaceView)
    requires
        s.pseudo_panes.len() > 0,
    ensures
        first_step(s, Mode::AgentsPanel) == StepView::ClaimAgent(s.pseudo_panes[0]),
        seq![s.pseudo_panes[0]] + stale(s, Mode::AgentsPanel) == s.pseudo_panes,
{
    assert(seq![s.pseudo_panes[0]] + s.pseudo_panes.drop_first() =~= s.pseudo_panes);
}

// ---- taking back -----------------------------------------------------------------------------------

/// Adding names keeps those that were there and brings in every new one.
pub(crate) proof fn lemma_with_names(names: Seq<Seq<char>>, more: Seq<Seq<char>>)
    ensures
        forall|x: Seq<char>| #[trigger]
            with_names(names, more).contains(x) <==> names.contains(x) || more.contains(x),
    decreases more.len(),
{
    if more.len() == 0 {
        assert forall|x: Seq<char>| !(#[trigger] more.contains(x)) by {}
    } else {
        let front = more.drop_last();
        lemma_with_names(names, front);
        let before = with_names(names, front);
        assert forall|x: Seq<char>| #[trigger]
            with_names(names, more).contains(x) <==> names.contains(x) || more.contains(x) by {
            lemma_with_name(before, more.last(), x);
            if more.contains(x) {
                let i = choose|i: int| 0 <= i < more.len() && more[i] == x;
                if i < front.len() {
                    assert(front[i] == x);
                    assert(front.contains(x));
                }
            }
            if front.contains(x) {
                let i = choose|i: int| 0 <= i < front.len() && front[i] == x;
                assert(more[i] == x);
            }
            assert(more[more.len() - 1] == more.last());
        }
    }
}

pub(crate) proof fn lemma_with_name(names: Seq<Seq<char>>, name: Seq<char>, x: Seq<char>)
    ensures
        with_name(names, name).contains(x) <==> names.contains(x) || x == name,
{
    if !names.contains(name) {
        let now = names.push(name);
        if names.contains(x) {
            let i = choose|i: int| 0 <= i < names.len() && names[i] == x;
            assert(now[i] == x);
        }
        if x == name {
            assert(now[names.len() as int] == x);
        }
        if now.contains(x) {
            let i = choose|i: int| 0 <= i < now.len() && now[i] == x;
            if i < names.len() {
                assert(names[i] == x);
            }
        }
    }
}

/// Whether a sweep takes back what a report put there.
pub open spec fn takes_back(sweep: SweepView, step: StepView) -> bool {
    match step {
        StepView::ClaimAgent(p) => sweep.metadata.contains(p),
        StepView::PaneStatus(p) => sweep.metadata.contains(p),
        StepView::WorkspaceStatus(w) => sweep.workspaces.contains(w),
        StepView::Done => true,
    }
}

/// A sweep of a workspace takes back the status of every report an updater could
/// have made about it, in either mode and whatever came of each; and every pane
/// that carries the pseudo-agent is both released and cleared.
pub proof fn law_sweep_covers_every_push(
    s: SpaceView,
    roles: RolesView,
    before: SweepView,
    mode: Mode,
    ok: bool,
)
    requires
        roles.pseudo_panes == s.pseudo_panes,
        roles.agent_panes == s.agent_panes,
        roles.spare_panes == s.spare_panes,
    ensures
        takes_back(swept(before, s.id, roles), first_step(s, mode)),
        takes_back(swept(before, s.id, roles), next_step(s, first_step(s, mode), ok)),
        forall|p: Seq<char>|
            s.pseudo_panes.contains(p) ==> #[trigger] swept(before, s.id, roles).pseudo.contains(
                p,
            ) && swept(before, s.id, roles).metadata.contains(p),
{
    let sweep = swept(before, s.id, roles);
    let a = with_names(before.metadata, roles.pseudo_panes);
    let b = with_names(a, roles.agent_panes);
    lemma_with_names(before.pseudo, roles.pseudo_panes);
    lemma_with_names(before.metadata, roles.pseudo_panes);
    lemma_with_names(a, roles.agent_panes);
    lemma_with_names(b, roles.spare_panes);
    lemma_with_name(before.workspaces, s.id, s.id);
    assert forall|p: Seq<char>|
        s.pseudo_panes.contains(p) || s.agent_panes.contains(p) || s.spare_panes.contains(
            p,
        ) implies sweep.metadata.contains(p) by {
        assert(a.contains(p) || roles.agent_panes.contains(p) || roles.spare_panes.contains(p));
        assert(b.contains(p) || roles.spare_panes.contains(p));
    }
    assert forall|p: Seq<char>| s.pseudo_panes.contains(p) implies #[trigger] sweep.pseudo.contains(
        p,
    ) && sweep.metadata.contains(p) by {}
    if s.pseudo_panes.len() > 0 {
        assert(s.pseudo_panes.contains(s.pseudo_panes[0]));
    }
    if s.agent_panes.len() > 0 {
        assert(s.agent_panes.contains(s.agent_panes[0]));
    }
    if s.spare_panes.len() > 0 {
        assert(s.spare_panes.contains(s.spare_panes[0]));
    }
}

/// Everything that was pushed is taken back.
pub proof fn law_everything_pushed_is_taken_back(
    pseudo: Seq<Seq<char>>,
    metadata: Seq<Seq<char>>,
    workspaces: Seq<Seq<char>>,
    x: Seq<char>,
)
    ensures
        pseudo.contains(x) ==> clears(pseudo, metadata, workspaces).contains(ClearView::Agent(x)),
        metadata.contains(x) ==> clears(pseudo, metadata, workspaces).contains(ClearView::Pane(x)),
        workspaces.contains(x) ==> clears(pseudo, metadata, workspaces).contains(
            ClearView::Workspace(x),
        ),
        clears(pseudo, metadata, workspaces).len() == pseudo.len() + metadata.len()
            + workspaces.len(),
{
    let all = clears(pseudo, metadata, workspaces);
    if pseudo.contains(x) {
        let i = choose|i: int| 0 <= i < pseudo.len() && pseudo[i] == x;
        assert(all[i] == ClearView::Agent(x));
    }
    if metadata.contains(x) {
        let i = choose|i: int| 0 <= i < metadata.len() && metadata[i] == x;
        assert(all[pseudo.len() + i] == ClearView::Pane(x));
    }
    if workspaces.contains(x) {
        let i = choose|i: int| 0 <= i < workspaces.len() && workspaces[i] == x;
        assert(all[pseudo.len() + metadata.len() + i] == ClearView::Workspace(x));
    }
}

// ---- lifetimes, stamps and markers --------------------------------------------------------------------

/// Whatever the config says, a status lives for exactly three refreshes, and herdr
/// accepts the lifetime.
pub proof fn law_status_outlives_three_refreshes(text: Seq<char>)
    ensures
        ttl_ms(config_of(text).interval_seconds as int) == 3 * (config_of(text).interval_seconds
            * 1000),
        ttl_ms(config_of(text).interval_seconds as int) <= MAX_TTL_MS,
{
    law_interval_is_in_range(text);
}

/// Either half of a stamp can move it on its own: two builds have one stamp only
/// when both the time and the length are the same.
pub proof fn law_stamps_tell_builds_apart(t: u128, n: u64, u: u128, m: u64)
    ensures
        stamp_text(t, n) == stamp_text(u, m) ==> t == u && n == m,
{
    let a = digits(t as int);
    let b = digits(u as int);
    let x = stamp_text(t, n);
    let y = stamp_text(u, m);
    lemma_digits_round_trip(t as int);
    lemma_digits_round_trip(u as int);
    if x == y {
        assert(x[a.len() as int] == ':');
        assert(y[b.len() as int] == ':');
        if a.len() < b.len() {
            assert(is_digit(b[a.len() as int]));
            assert(y[a.len() as int] == b[a.len() as int]);
        }
        if b.len() < a.len() {
            assert(is_digit(a[b.len() as int]));
            assert(x[b.len() as int] == a[b.len() as int]);
        }
        assert(a =~= x.take(a.len() as int));
        assert(b =~= y.take(b.len() as int));
        assert(digits(n as int) =~= x.skip(a.len() as int + 1));
        assert(digits(m as int) =~= y.skip(b.len() as int + 1));
        lemma_digits_injective(t as int, u as int);
        lemma_digits_injective(n as int, m as int);
    }
}

/// A decision reads back as it was made: off survives a restart, on comes back,
/// and only a marker that was never written is nobody's decision.
pub proof fn law_decision_reads_back(wanted: Wanted, marker: Marker)
    ensures
        wanted == Wanted::Disabled ==> text_decision(marker_text(wanted)) == Wanted::Disabled,
        wanted != Wanted::Disabled ==> text_decision(marker_text(wanted)) == Wanted::Enabled,
        decision(marker) == Wanted::Undecided <==> marker is Absent,
{
    reveal_strlit("0\n");
    reveal_strlit("1\n");
    reveal_strlit("0");
    reveal_strlit("1");
    lemma_trim_core("0"@);
    lemma_trim_core("1"@);
    lemma_trim_push_white("0"@, '\n');
    lemma_trim_push_white("1"@, '\n');
    assert("0\n"@ =~= "0"@.push('\n'));
    assert("1\n"@ =~= "1"@.push('\n'));
    assert("0"@[0] != "1"@[0]);
}

// ---- first-time setup ------------------------------------------------------------------------

/// Something that bears on first-time setup: a run of it, or switching off, each
/// with what came of its config edit.
pub enum Move {
    Setup(Option<Change>),
    Off(Option<Change>),
}

/// Whether the marker of first-time setup is there after a move.
pub open spec fn marked_after(marked: bool, at: Move) -> bool {
    match at {
        Move::Setup(edit) => marked || setup(marked, edit).mark,
        Move::Off(edit) => marked && !switched_off(edit).forget_setup,
    }
}

/// Whether the marker is there after several moves.
pub open spec fn marked_through(marked: bool, moves: Seq<Move>) -> bool
    decreases moves.len(),
{
    if moves.len() == 0 {
        marked
    } else {
        marked_after(marked_through(marked, moves.drop_last()), moves.last())
    }
}

/// Whether a move takes this plugin's row out, and with it the record that setup
/// has run.
pub open spec fn forgets(at: Move) -> bool {
    at matches Move::Off(edit) && switched_off(edit).forget_setup
}

/// First-time setup runs once: after a run that recorded itself, whatever happens
/// short of switching off taking the row out, no later run touches anything, so a
/// row the user deleted stays deleted.
pub proof fn law_setup_runs_once(
    marked: bool,
    first: Option<Change>,
    moves: Seq<Move>,
    edit: Option<Change>,
)
    requires
        setup(marked, first).mark,
        forall|i: int| 0 <= i < moves.len() ==> !forgets(#[trigger] moves[i]),
    ensures
        setup(marked_through(marked_after(marked, Move::Setup(first)), moves), edit) == (Bootstrap {
            mark: false,
            reload: false,
            added: false,
        }),
{
    lemma_marked_stays(moves);
}

proof fn lemma_marked_stays(moves: Seq<Move>)
    requires
        forall|i: int| 0 <= i < moves.len() ==> !forgets(#[trigger] moves[i]),
    ensures
        marked_through(true, moves),
    decreases moves.len(),
{
    if moves.len() > 0 {
        lemma_marked_stays(moves.drop_last());
        assert(!forgets(moves[moves.len() - 1]));
    }
}

/// A run that failed, and switching off that took the row out, both leave setup
/// to run again.
pub proof fn law_setup_can_run_again(marked: bool, edit: Option<Change>)
    ensures
        !marked_after(false, Move::Setup(None)),
        switched_off(edit).forget_setup ==> !marked_after(marked, Move::Off(edit)),
        edit is Some ==> setup(false, edit).mark && (setup(false, edit).added <==> edit == Some(
            Change::Written,
        )),
{
}

} // verus!
