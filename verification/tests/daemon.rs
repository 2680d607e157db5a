use std::collections::HashSet;

use space_usage::battery::{Battery, State};
use space_usage::claims::{
    claims_pid_file, daemon_pid, is_our_process, is_stoppable, read_claim, reap_dead_claims_among,
    recorded_claims_among, stand_down, sweep_sessions, write_claim, Claim, ClaimFile,
};
use space_usage::collect::PaneRoles;
use space_usage::config::{
    pid_file_name, read_wanted, Config, Labels, Marker, Mode, RamDisplay, Wanted,
};
use space_usage::double::Double;
use space_usage::daemon::{
    bootstrap_sidebar, build_changed, clear_all, disable_updater, enable_updater, enabled_message,
    everything_we_could_have_pushed, first_push, is_stalled, needs_bootstrap, push_statuses,
    reload_settings, reload_settings_from,
    restore_updater, run_daemon, set_title_totals, set_wanted, stale_claims, stamp, status_line,
    status_ttl_ms, sweep_targets, title_totals, toggle_updater, watchdog_deadline, Action,
    Bootstrap, Clear, Daemon, Event, Pushed, Settings, Step, SweepTarget, Toggle, MAX_TTL_MS,
};
use space_usage::disk::Disk;
use space_usage::herdr_config::Change;
use space_usage::icons::{IconSet, LocaleVars};
use space_usage::model::{PaneInfo, SessionSnapshot, Space, WorkspaceInfo};
use space_usage::render::{totals_row, RowStyle};
use space_usage::units::Percent;

/// A double as the library holds it.
fn dbl(x: f64) -> Double {
    let bits = x.to_bits();
    let negative = x.is_sign_negative();
    let digits = bits & 0xf_ffff_ffff_ffff;
    match (bits >> 52) & 0x7ff {
        0x7ff if digits == 0 => Double::Infinite { negative },
        0x7ff => Double::NotANumber,
        0 => Double::Finite {
            negative,
            digits,
            power: 0,
        },
        exponent => Double::Finite {
            negative,
            digits: digits | 0x10_0000_0000_0000,
            power: (exponent - 1) as u16,
        },
    }
}

fn pct(x: f64) -> Percent {
    Percent { value: dbl(x) }
}

/// Megabytes.
fn mb(x: f64) -> Double {
    dbl(x)
}

/// The machine's RAM in these tests, in megabytes.
const TOTAL: Double = Double::Finite {
    negative: false,
    digits: 0x10_0000_0000_0000,
    power: 1036,
};

fn space(cpu: f64, ram_mb: f64) -> Space {
    Space {
        cpu: pct(cpu),
        ram_mb: mb(ram_mb),
        ..Default::default()
    }
}

fn bat(percent: f64, state: State) -> Battery {
    Battery {
        percent: pct(percent),
        state,
    }
}

/// A drive, its free and total size in GB, as drives are quoted.
fn drive(name: &str, free_gb: f64, total_gb: f64) -> Disk {
    Disk {
        name: name.to_string(),
        free_mb: mb(free_gb * 1024.0),
        used_mb: mb((total_gb - free_gb) * 1024.0),
        total_mb: mb(total_gb * 1024.0),
    }
}

// ---- standing down when the binary underneath us is replaced -------------

#[test]
fn both_halves_of_the_stamp_can_move_it_on_their_own() {
    assert_ne!(stamp(42, 500), stamp(42, 505));
    assert_ne!(stamp(42, 500), stamp(43, 500));
    assert_eq!(stamp(42, 500), stamp(42, 500));
}

#[test]
fn a_daemon_gives_up_only_a_claim_that_still_names_it() {
    assert!(claims_pid_file(Some(42), 42));
    assert!(!claims_pid_file(Some(43), 42));
    assert!(!claims_pid_file(None, 42));
}

#[test]
fn a_replaced_binary_is_a_changed_build() {
    assert!(build_changed("111:500", Some("222:505")));
}

#[test]
fn the_binary_we_launched_from_is_not_a_changed_build() {
    assert!(!build_changed("222:505", Some("222:505")));
}

#[test]
fn an_unreadable_binary_is_not_a_changed_build() {
    assert!(!build_changed("111:500", None));
}

#[test]
fn status_ttl_is_three_intervals_clamped_to_herdr_ceiling() {
    assert_eq!(status_ttl_ms(5), 15_000);
    assert_eq!(status_ttl_ms(1), 3_000);
    assert_eq!(status_ttl_ms(28_800), MAX_TTL_MS);
    assert_eq!(status_ttl_ms(28_801), MAX_TTL_MS);
    assert_eq!(status_ttl_ms(u64::MAX), MAX_TTL_MS);
}

/// The plain-text style with default naming — what most of these tests want,
/// since they are asserting layout rather than glyphs.
fn text_style(labels: &Labels) -> RowStyle<'_> {
    RowStyle::new(labels, IconSet::Text, RamDisplay::Percent)
}

// ---- the sidebar status line --------------------------------------------

#[test]
fn status_line_uses_labels_and_rounds_cpu() {
    let labels = Labels::new(Some("CPU"), Some("MEM"), Some("PWR"), Some("DISK"));
    let line = status_line(&space(5.6, 0.0), TOTAL, text_style(&labels));
    assert!(line.starts_with("CPU 6% · MEM "), "got: {line}");
}

#[test]
fn the_cycles_style_comes_from_the_cycles_config() {
    let settings = Settings {
        config: Config {
            ram_display: RamDisplay::Absolute,
            ..Config::default()
        },
        labels: Labels::default(),
        icons: IconSet::Text,
    };
    assert_eq!(
        status_line(&space(26.0, 1536.0), TOTAL, settings.row_style()),
        "cpu 26% · ram 1.5G",
    );
}

#[test]
fn status_line_draws_the_absolute_ram_the_config_asked_for() {
    let labels = Labels::default();
    let style = RowStyle::new(&labels, IconSet::Text, RamDisplay::Absolute);
    assert_eq!(
        status_line(&space(26.0, 1536.0), TOTAL, style),
        "cpu 26% · ram 1.5G"
    );
}

#[test]
fn status_line_rounds_cpu_half_away_from_zero() {
    let labels = Labels::default();
    let line = |cpu| status_line(&space(cpu, 0.0), TOTAL, text_style(&labels));
    assert!(line(2.5).starts_with("cpu 3%"));
    assert!(line(2.4).starts_with("cpu 2%"));
}

#[test]
fn a_space_row_is_the_machine_row_without_the_battery_or_the_disks() {
    let labels = Labels::default();
    let sp = space(26.0, 0.0);
    let style = RowStyle::new(&labels, IconSet::Unicode, RamDisplay::Percent);
    let row = status_line(&sp, TOTAL, style);
    let machine = totals_row(
        sp.cpu,
        sp.ram_mb,
        TOTAL,
        style,
        Some(bat(74.0, State::Discharging)),
        &vec![drive("/", 240.0, 512.0)],
    );

    assert!(!row.contains("bat"), "got: {row}");
    assert!(!row.contains("disk"), "got: {row}");
    assert_eq!(
        machine.strip_suffix(" · bat ▓74% · disk ▒53% 240G"),
        Some(row.as_str()),
    );
}

#[test]
fn status_line_draws_the_cpu_cell_in_every_tier_and_no_machine_wide_cell() {
    let labels = Labels::default();
    let sp = space(26.0, 0.0);
    let expected = [
        (IconSet::Text, "cpu 26%"),
        (IconSet::Unicode, "cpu ░26%"),
        (IconSet::NerdFont, "\u{f4bc} 26%"),
        (IconSet::Emoji, "💻26%"),
    ];
    for (icons, cpu) in expected {
        let line = status_line(&sp, TOTAL, RowStyle::new(&labels, icons, RamDisplay::Percent));
        assert!(line.starts_with(&format!("{cpu} · ")), "{icons:?}: {line}");
        for mark in ["bat", "\u{f241}", "🔋", "disk", "\u{f0a0}", "💾"] {
            assert!(!line.contains(mark), "{icons:?} drew {mark}: {line}");
        }
    }
}

// ---- the window title ----------------------------------------------------

#[test]
fn title_battery_cell_shows_the_charge_state() {
    let labels = Labels::default();
    let style = RowStyle::new(&labels, IconSet::Unicode, RamDisplay::Percent);
    let line = |state| title_totals(
        &vec![space(26.0, 0.0)],
        TOTAL,
        style,
        Some(bat(74.0, state)),
        &vec![],
    );
    assert!(line(State::Charging).ends_with("bat ▓74%+"));
    assert!(line(State::Discharging).ends_with("bat ▓74%"));
    assert!(line(State::Full).ends_with("bat ▓74%="));
    assert_ne!(line(State::Charging), line(State::Discharging));
}

#[test]
fn title_totals_sums_the_spaces_and_carries_one_battery() {
    let labels = Labels::default();
    let spaces = vec![space(10.0, 0.0), space(16.4, 0.0)];
    let style = text_style(&labels);
    let with = title_totals(
        &spaces,
        TOTAL,
        style,
        Some(bat(74.0, State::Full)),
        &vec![],
    );
    let without = title_totals(&spaces, TOTAL, style, None, &vec![]);

    assert!(with.starts_with("spaces · cpu 26% · ram "), "got: {with}");
    assert!(with.ends_with(" · bat 74%="), "got: {with}");
    assert!(!without.contains("bat"), "got: {without}");
    assert_eq!(with.strip_suffix(" · bat 74%="), Some(without.as_str()));
}

#[test]
fn the_title_ends_with_each_selected_drive() {
    let labels = Labels::default();
    let spaces = vec![space(10.0, 0.0), space(16.4, 0.0)];
    let style = text_style(&labels);
    let title = |disks: &[Disk]| title_totals(&spaces, TOTAL, style, None, &disks.to_vec());

    let one = title(&[drive("/", 240.0, 512.0)]);
    assert!(one.ends_with(" · disk 53% 240G"), "got: {one}");

    let two = title(&[drive("/", 240.0, 512.0), drive("/data", 600.0, 2048.0)]);
    assert!(
        two.ends_with(" · disk / 53% 240G · disk /data 71% 600G"),
        "got: {two}",
    );

    assert!(!title(&[]).contains("disk"), "got: {}", title(&[]));
}

#[test]
fn the_title_puts_the_battery_before_the_drives() {
    let labels = Labels::default();
    let title = title_totals(
        &vec![space(26.0, 0.0)],
        TOTAL,
        text_style(&labels),
        Some(bat(74.0, State::Discharging)),
        &vec![drive("/", 240.0, 512.0)],
    );
    assert!(
        title.ends_with(" · bat 74% · disk 53% 240G"),
        "got: {title}"
    );
}

// ---- restart recovery ---------------------------------------------------

#[test]
fn a_fresh_install_wants_the_daemon_without_anyone_asking() {
    assert_eq!(read_wanted(Marker::Absent), Wanted::Undecided);
    assert!(
        read_wanted(Marker::Absent).wants_daemon(),
        "a fresh install must start itself",
    );
    let restore = restore_updater(read_wanted(Marker::Absent), false);
    assert!(restore.bootstrap && restore.spawn);
}

#[test]
fn the_marker_round_trips_and_creates_a_missing_state_dir() {
    let on = set_wanted(Wanted::Enabled);
    assert_eq!(read_wanted(Marker::Text(on)), Wanted::Enabled);
    assert!(read_wanted(Marker::Text(on)).wants_daemon());

    let off = set_wanted(Wanted::Disabled);
    assert_eq!(read_wanted(Marker::Text(off)), Wanted::Disabled);
    assert!(!read_wanted(Marker::Text(off)).wants_daemon());

    let again = set_wanted(Wanted::Enabled);
    assert!(read_wanted(Marker::Text(again)).wants_daemon());
}

#[test]
fn disabling_writes_a_marker_rather_than_deleting_one() {
    let off = set_wanted(Wanted::Disabled);
    assert!(!off.is_empty(), "the off state needs a text of its own");
    let restore = restore_updater(read_wanted(Marker::Text(off)), false);
    assert!(!restore.bootstrap && !restore.spawn);
}

#[test]
fn removing_our_row_forgets_the_first_run_marker() {
    let written = disable_updater(Some(Change::Written));
    assert!(written.forget_setup && written.reload);
    for edit in [Some(Change::Unchanged), None] {
        let kept = disable_updater(edit);
        assert!(!kept.forget_setup && !kept.reload);
    }
}

#[test]
fn a_marker_from_an_older_version_still_reads_as_enabled() {
    assert_eq!(read_wanted(Marker::Text("1\n")), Wanted::Enabled);
}

#[test]
fn the_enable_toast_names_the_config_edit() {
    let quiet = enabled_message("sidebar usage enabled", false);
    let loud = enabled_message("sidebar usage enabled", true);
    assert_eq!(quiet, "sidebar usage enabled");
    assert!(loud.starts_with(&quiet), "got: {loud}");
    assert!(
        loud.contains("config.toml") && loud.contains("backup"),
        "{loud}"
    );
}

#[test]
fn our_own_pid_is_recognised_as_ours() {
    assert!(is_our_process(Some("space-usage"), Some("space-usage")));
    assert!(!is_our_process(Some("bash"), Some("space-usage")));
}

#[test]
fn vanished_pid_is_not_ours() {
    assert!(!is_our_process(None, Some("space-usage")));
    assert!(!is_our_process(None, None));
}

#[test]
fn setup_is_done_only_when_the_edit_settled_the_question() {
    assert_eq!(
        bootstrap_sidebar(false, Some(Change::Written)),
        Bootstrap {
            mark: true,
            reload: true,
            added: true
        }
    );
    assert_eq!(
        bootstrap_sidebar(false, Some(Change::Unchanged)),
        Bootstrap {
            mark: true,
            reload: false,
            added: false
        }
    );
    assert_eq!(
        bootstrap_sidebar(false, None),
        Bootstrap {
            mark: false,
            reload: false,
            added: false
        }
    );
}

#[test]
fn setup_that_has_run_touches_nothing() {
    assert!(needs_bootstrap(false));
    assert!(!needs_bootstrap(true));
    for edit in [Some(Change::Written), Some(Change::Unchanged), None] {
        assert_eq!(
            bootstrap_sidebar(true, edit),
            Bootstrap {
                mark: false,
                reload: false,
                added: false
            }
        );
    }
}

#[test]
fn setup_runs_once_until_it_is_forgotten() {
    let mut marked = false;
    let first = bootstrap_sidebar(marked, Some(Change::Written));
    assert!(first.added);
    marked |= first.mark;
    assert!(!bootstrap_sidebar(marked, Some(Change::Written)).added);
    marked &= !disable_updater(Some(Change::Unchanged)).forget_setup;
    assert!(!bootstrap_sidebar(marked, Some(Change::Written)).added);
    marked &= !disable_updater(Some(Change::Written)).forget_setup;
    assert!(bootstrap_sidebar(marked, Some(Change::Written)).added);
}

#[test]
fn settings_start_from_what_the_host_has() {
    let vars = LocaleVars {
        lc_all: None,
        lc_ctype: None,
        lang: None,
    };
    let base = || Config {
        disks: vec!["D:".to_string()],
        ..Config::default()
    };
    let read = |text| reload_settings_from(base(), text, None, &vars, || true);
    assert_eq!(read(None).config.disks, ["D:"]);
    assert_eq!(read(Some("battery = false")).config.disks, ["D:"]);
    assert!(!read(Some("battery = false")).config.battery);
    assert_eq!(read(Some("disks = \"E:\"")).config.disks, ["E:"]);
    assert_eq!(read(Some("disk_label = \"d\"")).labels.disk(), Some("d"));
}

#[test]
fn switching_on_starts_one_updater() {
    let fresh = enable_updater(false, true);
    assert!(fresh.spawn);
    assert_eq!(
        fresh.message,
        "sidebar usage enabled — added a $usage row to herdr's config.toml (backup alongside it)"
    );
    let again = enable_updater(true, false);
    assert!(!again.spawn);
    assert_eq!(again.message, "sidebar usage already enabled");
    assert_eq!(toggle_updater(true), Toggle::Disable);
    assert_eq!(toggle_updater(false), Toggle::Enable);
    assert!(!restore_updater(Wanted::Enabled, true).spawn);
    assert!(restore_updater(Wanted::Enabled, false).spawn);
}

// ---- one updater per session ---------------------------------------------

/// A pid file claiming `pid` for `session_key`.
fn claim(session_key: &str, pid: u32) -> ClaimFile {
    ClaimFile {
        path: pid_file_name(session_key),
        text: Some(format!("{pid}\n/run/{session_key}.sock\n")),
    }
}

fn claim_of(session_key: &str, pid: u32) -> Claim {
    Claim {
        pid,
        socket: Some(format!("/run/{session_key}.sock")),
    }
}

#[test]
fn one_sessions_live_updater_does_not_stand_the_next_session_down() {
    let me = 4242;
    let first = claim("42c3c964", me);
    let second = ClaimFile {
        path: pid_file_name("e60b12c5"),
        text: None,
    };
    let ours = Some("space-usage");
    assert_eq!(
        daemon_pid(&first, ours, ours),
        Some(me),
        "the first session's own"
    );
    assert_eq!(daemon_pid(&first, Some("bash"), ours), None);
    assert_eq!(
        daemon_pid(&second, ours, ours),
        None,
        "the second session has to start one of its own",
    );
}

#[test]
fn disable_stops_the_live_updaters_but_sweeps_every_session_it_can_name() {
    let me = 777;
    let live: HashSet<u32> = [4242, 4343, me].into_iter().collect();
    let mine = claim("42c3c964", 4242);
    let other_session = claim("e60b12c5", 4343);
    let stale = claim("deadbeef", u32::MAX);
    let ourselves = claim("0badc0de", me);
    let unparseable = ClaimFile {
        path: pid_file_name("garbage"),
        text: Some("not a pid\n".to_string()),
    };

    let claims = recorded_claims_among(&vec![
        mine.clone(),
        other_session.clone(),
        stale.clone(),
        ourselves.clone(),
        unparseable,
    ]);

    assert_eq!(
        claims,
        vec![
            (mine.path, claim_of("42c3c964", 4242)),
            (other_session.path, claim_of("e60b12c5", 4343)),
            (stale.path, claim_of("deadbeef", u32::MAX)),
            (ourselves.path, claim_of("0badc0de", me)),
        ],
    );
    let stopped: Vec<u32> = claims
        .iter()
        .filter(|(_, claim)| is_stoppable(claim, me, &live))
        .map(|(_, claim)| claim.pid)
        .collect();
    assert_eq!(stopped, vec![4242, 4343]);

    let plan = stand_down(&claims, me, &live, Some("/run/42c3c964.sock"));
    assert_eq!(
        plan.stop,
        vec![
            (pid_file_name("42c3c964"), 4242),
            (pid_file_name("e60b12c5"), 4343)
        ]
    );
    assert_eq!(
        sweep_sessions(&plan.others),
        [
            "/run/e60b12c5.sock",
            "/run/deadbeef.sock",
            "/run/0badc0de.sock"
        ]
    );
}

#[test]
fn a_session_is_swept_once_and_an_unknown_one_not_at_all() {
    let sockets = vec![
        Some("/a".to_string()),
        None,
        Some("/b".to_string()),
        Some("/a".to_string()),
    ];
    assert_eq!(sweep_sessions(&sockets), ["/a", "/b"]);
}

#[test]
fn a_sweep_takes_back_both_things_a_pseudo_pane_carries() {
    let sweep = everything_we_could_have_pushed(&vec![SweepTarget {
        workspace: "w1".to_string(),
        panes: PaneRoles {
            cwd: None,
            pseudo_panes: vec!["w1:p1".to_string()],
            agent_panes: vec!["w1:p2".to_string()],
            spare_panes: vec!["w1:p3".to_string()],
        },
    }]);

    assert!(sweep.pseudo.contains("w1:p1"), "the row is released");
    assert!(
        sweep.metadata.contains("w1:p1"),
        "and the reading inside it is cleared, not left to its TTL",
    );
    assert_eq!(sweep.pseudo.len(), 1);
    assert!(sweep.metadata.contains("w1:p2") && sweep.metadata.contains("w1:p3"));
    assert!(sweep.workspaces.contains("w1"));
}

#[test]
fn a_claim_carries_the_socket_the_daemon_serves() {
    let me = 31_337;
    let text = write_claim(me, Some("/run/a.sock"));
    assert_eq!(text, "31337\n/run/a.sock\n");
    assert_eq!(
        read_claim(&text),
        Some(Claim {
            pid: me,
            socket: Some("/run/a.sock".to_string()),
        }),
    );
    assert_eq!(
        read_claim(&write_claim(me, None)),
        Some(Claim {
            pid: me,
            socket: None
        })
    );

    for legacy in ["4242\n", "4242", "4242\n\n"] {
        assert_eq!(
            read_claim(legacy),
            Some(Claim {
                pid: 4242,
                socket: None
            }),
            "got: {legacy:?}",
        );
    }

    for (text, expected) in [
        ("4294967295\n", Some(u32::MAX)),
        ("4294967296\n", None),
        ("0\n", None),
        ("-1\n", None),
        ("\n", None),
        ("", None),
    ] {
        assert_eq!(
            read_claim(text).map(|claim| claim.pid),
            expected,
            "got: {text:?}",
        );
    }
}

#[test]
fn reaping_takes_the_claims_that_name_nothing_and_leaves_the_rest() {
    let live: HashSet<u32> = [4242].into_iter().collect();
    let dead = claim("deadbeef", u32::MAX);
    let unparseable = ClaimFile {
        path: pid_file_name("garbage"),
        text: Some("not a pid\n".to_string()),
    };
    assert_eq!(
        reap_dead_claims_among(
            &vec![claim("42c3c964", 4242), dead.clone(), unparseable.clone()],
            &live,
        ),
        [dead.path, unparseable.path],
        "a crashed one's claim goes, and so does a file naming nothing",
    );
}

// ---- pushing -----------------------------------------------------------------

fn names(list: &[&str]) -> Vec<String> {
    list.iter().map(|name| name.to_string()).collect()
}

fn host(pseudo: &[&str], spare: &[&str], agent: &[&str]) -> Space {
    Space {
        id: "w1".to_string(),
        pseudo_panes: names(pseudo),
        spare_panes: names(spare),
        agent_panes: names(agent),
        ..Default::default()
    }
}

/// The reports a space takes when they are answered in turn, and what is
/// remembered of them.
fn run(sp: &Space, mode: Mode, answers: &[bool]) -> (Vec<Step>, Pushed) {
    let mut pushed = Pushed::new();
    let mut steps = Vec::new();
    let mut step = first_push(sp, mode);
    for &accepted in answers {
        if step == Step::Done {
            break;
        }
        let next = push_statuses(sp, &step, accepted, &mut pushed);
        steps.push(step);
        step = next;
    }
    assert_eq!(step, Step::Done);
    (steps, pushed)
}

#[test]
fn sidebar_mode_reports_the_workspace() {
    let sp = host(&["p1", "p2"], &["p3"], &["p4"]);
    assert_eq!(stale_claims(&sp, Mode::Sidebar), ["p1", "p2"]);
    let (steps, pushed) = run(&sp, Mode::Sidebar, &[true, true]);
    assert_eq!(steps, [Step::WorkspaceStatus("w1".to_string())]);
    assert!(pushed.workspaces.contains("w1"));
    assert_eq!(pushed.pseudo.len() + pushed.metadata.len(), 0);
    let (_, refused) = run(&sp, Mode::Sidebar, &[false, false]);
    assert_eq!(refused.workspaces.len(), 0);
}

#[test]
fn the_agents_panel_claims_one_pane_and_fills_it() {
    let sp = host(&["p1", "p2"], &["p3"], &["p4"]);
    assert_eq!(stale_claims(&sp, Mode::AgentsPanel), ["p2"]);
    let (steps, pushed) = run(&sp, Mode::AgentsPanel, &[true, true]);
    assert_eq!(
        steps,
        [
            Step::ClaimAgent("p1".to_string()),
            Step::PaneStatus("p1".to_string())
        ]
    );
    assert!(pushed.pseudo.contains("p1") && pushed.metadata.contains("p1"));

    let (steps, _) = run(&host(&[], &["p3"], &["p4"]), Mode::AgentsPanel, &[true, false]);
    assert_eq!(steps[0], Step::ClaimAgent("p3".to_string()));
}

#[test]
fn a_refused_claim_falls_back_to_a_pane_status() {
    let (steps, pushed) = run(
        &host(&["p1"], &["p3"], &["p4"]),
        Mode::AgentsPanel,
        &[false, true],
    );
    assert_eq!(steps[1], Step::PaneStatus("p3".to_string()));
    assert_eq!(pushed.pseudo.len(), 0);
    assert!(pushed.metadata.contains("p3"));

    let (steps, _) = run(&host(&[], &[], &["p4"]), Mode::AgentsPanel, &[true]);
    assert_eq!(steps, [Step::PaneStatus("p4".to_string())]);
    let (steps, _) = run(&host(&[], &[], &[]), Mode::AgentsPanel, &[true]);
    assert!(steps.is_empty());
}

#[test]
fn everything_pushed_is_cleared() {
    let (_, pushed) = run(&host(&["p1"], &[], &[]), Mode::AgentsPanel, &[true, true]);
    assert_eq!(
        clear_all(&pushed),
        [Clear::Agent("p1".to_string()), Clear::Pane("p1".to_string())]
    );
}

#[test]
fn a_session_is_swept_by_its_own_panes() {
    let pane = |id: &str, agent: Option<&str>| PaneInfo {
        pane_id: id.to_string(),
        workspace_id: "w1".to_string(),
        cwd: None,
        agent: agent.map(str::to_string),
        tokens: None,
    };
    let session = SessionSnapshot {
        workspaces: vec![WorkspaceInfo {
            workspace_id: "w1".to_string(),
            label: String::new(),
            focused: false,
        }],
        panes: vec![pane("p1", Some("usage")), pane("p2", None)],
    };
    let sweep = everything_we_could_have_pushed(&sweep_targets(&session));
    assert_eq!(
        clear_all(&sweep),
        [
            Clear::Agent("p1".to_string()),
            Clear::Pane("p1".to_string()),
            Clear::Pane("p2".to_string()),
            Clear::Workspace("w1".to_string()),
        ]
    );
}

// ---- the refresh loop ----------------------------------------------------------

#[test]
fn the_updater_gives_up_after_five_failures_in_a_row() {
    let mut daemon = Daemon::new(5);
    let fail = Event::SampleFailed { stopping: false };
    for _ in 0..4 {
        assert_eq!(run_daemon(&mut daemon, fail), Action::Rest);
    }
    assert_eq!(
        run_daemon(&mut daemon, Event::Sampled { stopping: false }),
        Action::Push
    );
    for _ in 0..4 {
        assert_eq!(run_daemon(&mut daemon, fail), Action::Rest);
    }
    assert_eq!(run_daemon(&mut daemon, fail), Action::Shutdown);
}

#[test]
fn a_cycle_samples_quickly_first_and_at_the_cadence_from_then_on() {
    let mut daemon = Daemon::new(5);
    assert_eq!(
        run_daemon(&mut daemon, Event::Started { another: true }),
        Action::Quit
    );
    assert_eq!(
        run_daemon(&mut daemon, Event::Started { another: false }),
        Action::ClaimAndConnect
    );
    assert_eq!(
        run_daemon(&mut daemon, Event::Connected { ok: false }),
        Action::GiveUp
    );
    assert_eq!(
        run_daemon(&mut daemon, Event::Connected { ok: true }),
        Action::Begin
    );
    let began = Event::CycleBegan {
        replaced: false,
        stopping: false,
    };
    assert_eq!(
        run_daemon(&mut daemon, began),
        Action::Sample { window_ms: 500 }
    );
    run_daemon(&mut daemon, Event::Sampled { stopping: false });
    assert_eq!(
        run_daemon(&mut daemon, began),
        Action::Sample { window_ms: 5000 }
    );
    assert_eq!(
        run_daemon(
            &mut daemon,
            Event::CycleBegan {
                replaced: true,
                stopping: false
            }
        ),
        Action::HandOff
    );
}

#[test]
fn nothing_is_reported_behind_a_shutdown() {
    let mut daemon = Daemon::new(1);
    assert_eq!(
        run_daemon(&mut daemon, Event::Sampled { stopping: true }),
        Action::Park
    );
    assert_eq!(
        run_daemon(&mut daemon, Event::Rested { stopping: true }),
        Action::Park
    );
    assert_eq!(
        run_daemon(&mut daemon, Event::Rested { stopping: false }),
        Action::Begin
    );
    for _ in 0..9 {
        assert_eq!(
            run_daemon(&mut daemon, Event::SampleFailed { stopping: true }),
            Action::Rest
        );
    }
}

#[test]
fn a_stuck_cycle_trips_the_watchdog() {
    assert_eq!(watchdog_deadline(5), 300);
    assert_eq!(watchdog_deadline(100), 500);
    assert_eq!(watchdog_deadline(u64::MAX), u64::MAX);
    assert!(is_stalled(700, 100, 600));
    assert!(!is_stalled(699, 100, 600));
    assert!(!is_stalled(5, 9, 300));
}

#[test]
fn settings_come_from_both_files() {
    let vars = LocaleVars {
        lc_all: None,
        lc_ctype: None,
        lang: Some("en_US.UTF-8".to_string()),
    };
    let settings = reload_settings(
        Some("ram_label = \"M\""),
        Some("[ui]\ncpu_label = \"C\"\nram_label = \"R\""),
        &vars,
        || true,
    );
    assert_eq!(settings.labels.cpu(), Some("C"));
    assert_eq!(settings.labels.ram(), Some("M"));
    assert_eq!(settings.icons, IconSet::NerdFont);
}

#[test]
fn the_title_is_drawn_only_where_it_is_asked_for() {
    let labels = Labels::default();
    let spaces = vec![space(10.0, 512.0)];
    let off = Config {
        window_title_totals: false,
        ..Config::default()
    };
    assert_eq!(
        set_title_totals(
            &spaces,
            TOTAL,
            &off,
            text_style(&labels),
            || panic!("read the battery"),
            |_: &Vec<String>| panic!("read the drives"),
        ),
        None
    );
    let on = Config {
        battery: false,
        ..Config::default()
    };
    assert_eq!(
        set_title_totals(
            &spaces,
            TOTAL,
            &on,
            text_style(&labels),
            || panic!("read the battery"),
            |mounts: &Vec<String>| vec![drive(&mounts[0], 240.0, 512.0)],
        ),
        Some("spaces · cpu 10% · ram 3% · disk 53% 240G".to_string())
    );
}
