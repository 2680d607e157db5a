use std::collections::HashMap;

use space_usage::collect::{
    aggregate_families, branch_dirs, classify_panes, collect_spaces, git_branch,
    group_worktree_families, is_plugin_pane, measure, measured_pids, panes_by_workspace, snapshot,
    PaneRoles, Window, PSEUDO_AGENT,
};
use space_usage::double::Double;
use space_usage::model::{
    PaneInfo, SessionSnapshot, Space, WorkspaceInfo, WorktreeEntry, WorktreeListResult,
    WorktreeSource,
};
use space_usage::proc::ProcEntry;
use space_usage::units::Percent;

/// A double as the library holds it.
fn dbl(x: f64) -> Double {
    let bits = x.to_bits();
    let negative = x.is_sign_negative();
    let digits = bits & 0xf_ffff_ffff_ffff;
    match (bits >> 52) & 0x7ff {
        0x7ff if digits == 0 => Double::Infinite { negative },
        0x7ff => Double::NotANumber,
        0 => Double::Finite {
            negative,
            digits,
            power: 0,
        },
        exponent => Double::Finite {
            negative,
            digits: digits | 0x10_0000_0000_0000,
            power: (exponent - 1) as u16,
        },
    }
}

fn pct(x: f64) -> Percent {
    Percent { value: dbl(x) }
}

/// A pane as herdr reports one.
fn pane(pane_id: &str, workspace_id: &str, cwd: Option<&str>, agent: Option<&str>) -> PaneInfo {
    PaneInfo {
        pane_id: pane_id.to_string(),
        workspace_id: workspace_id.to_string(),
        cwd: cwd.map(str::to_string),
        agent: agent.map(str::to_string),
        tokens: None,
    }
}

/// A pane carrying metadata tokens of the given names.
fn pane_with_tokens(pane_id: &str, keys: &[&str]) -> PaneInfo {
    let mut p = pane(pane_id, "w1", None, None);
    p.tokens = Some(keys.iter().map(|k| k.to_string()).collect());
    p
}

// ---- pane bucketing + classification ------------------------------------

#[test]
fn panes_bucket_under_their_workspace_in_reported_order() {
    let panes = vec![
        pane("w1:p1", "w1", None, None),
        pane("w2:p1", "w2", None, None),
        pane("w1:p2", "w1", None, None),
    ];
    let w1: Vec<&str> = panes_by_workspace(&panes, "w1")
        .iter()
        .map(|p| &*p.pane_id)
        .collect();
    assert_eq!(w1, ["w1:p1", "w1:p2"], "order within a workspace is kept");
    assert_eq!(panes_by_workspace(&panes, "w2").len(), 1);
    assert!(panes_by_workspace(&panes, "w3").is_empty());
}

#[test]
fn classify_takes_the_first_non_empty_cwd() {
    let panes = [
        pane("p1", "w1", None, None),
        pane("p2", "w1", Some(""), None),
        pane("p3", "w1", Some("/repo"), None),
        pane("p4", "w1", Some("/other"), None),
    ];
    let refs: Vec<&PaneInfo> = panes.iter().collect();
    assert_eq!(classify_panes(&refs).cwd.as_deref(), Some("/repo"));
}

#[test]
fn classify_splits_pseudo_agent_and_spare_panes() {
    let panes = [
        pane("p1", "w1", None, Some(PSEUDO_AGENT)),
        pane("p2", "w1", None, Some("coder")),
        pane("p3", "w1", None, None),
        pane("p4", "w1", None, Some("")), // empty agent is a plain shell
    ];
    let refs: Vec<&PaneInfo> = panes.iter().collect();
    let roles = classify_panes(&refs);

    assert_eq!(roles.pseudo_panes, ["p1"]);
    assert_eq!(roles.agent_panes, ["p2"]);
    assert_eq!(roles.spare_panes, ["p3", "p4"]);
    assert_eq!(roles.cwd, None);
}

#[test]
fn classify_of_no_panes_is_all_empty() {
    assert_eq!(classify_panes(&Vec::new()), PaneRoles::default());
}

#[test]
fn classify_never_offers_another_plugins_pane_as_spare() {
    let panes = [
        pane_with_tokens("sidebar", &["herdr-sidebar-explorer", "herdr-sidebar-git"]),
        pane("shell", "w1", None, None),
    ];
    let refs: Vec<&PaneInfo> = panes.iter().collect();
    let roles = classify_panes(&refs);

    assert_eq!(roles.spare_panes, ["shell"]);
    assert!(roles.pseudo_panes.is_empty());
    assert!(roles.agent_panes.is_empty());
}

#[test]
fn classify_keeps_a_pane_carrying_only_our_usage_token_as_spare() {
    let panes = [pane_with_tokens("shell", &[PSEUDO_AGENT])];
    let refs: Vec<&PaneInfo> = panes.iter().collect();
    assert_eq!(classify_panes(&refs).spare_panes, ["shell"]);
}

#[test]
fn classify_prefers_the_real_agent_bucket_over_plugin_detection() {
    let mut p = pane_with_tokens("coder", &["llmtrim"]);
    p.agent = Some("coder".to_string());
    let refs: Vec<&PaneInfo> = [&p].to_vec();
    assert_eq!(classify_panes(&refs).agent_panes, ["coder"]);
}

#[test]
fn classify_misreads_a_foreign_usage_token_as_ours() {
    let panes = [pane_with_tokens("someone-elses", &[PSEUDO_AGENT])];
    let refs: Vec<&PaneInfo> = panes.iter().collect();
    assert_eq!(classify_panes(&refs).spare_panes, ["someone-elses"]);
}

#[test]
fn classify_treats_an_empty_token_map_as_a_plain_pane() {
    let panes = [pane_with_tokens("shell", &[])];
    let refs: Vec<&PaneInfo> = panes.iter().collect();
    assert_eq!(classify_panes(&refs).spare_panes, ["shell"]);
}

#[test]
fn classification_drops_only_plugin_panes() {
    let mut agent = pane("coder", "w1", None, None);
    agent.agent = Some("coder".to_string());
    let mut pseudo = pane("ours", "w1", None, None);
    pseudo.agent = Some(PSEUDO_AGENT.to_string());
    let panes = [
        agent,
        pseudo,
        pane("shell", "w1", None, None),
        pane_with_tokens("mine-only", &[PSEUDO_AGENT]),
        pane_with_tokens("theirs", &["herdr-sidebar-git"]),
    ];
    let refs: Vec<&PaneInfo> = panes.iter().collect();
    let roles = classify_panes(&refs);

    let mut bucketed: Vec<&str> = roles
        .agent_panes
        .iter()
        .chain(&roles.spare_panes)
        .chain(&roles.pseudo_panes)
        .map(String::as_str)
        .collect();
    bucketed.sort_unstable();
    assert_eq!(bucketed, ["coder", "mine-only", "ours", "shell"]);
    assert_eq!(bucketed.len() + 1, panes.len());
}

/// Build a measured [`Space`] with just the aggregate-relevant fields set.
fn space(id: &str, cpu: f64, ram_mb: f64, proc_count: usize, pane_count: usize) -> Space {
    Space {
        id: id.to_string(),
        label: id.to_string(),
        cpu: pct(cpu),
        ram_mb: dbl(ram_mb),
        proc_count,
        pane_count,
        ..Default::default()
    }
}

#[test]
fn aggregate_folds_child_into_parent_and_drops_it() {
    let parent = space("p", 10.0, 100.0, 3, 2);
    let mut child = space("c", 5.0, 50.0, 2, 1);
    child.label = "child".to_string();
    child.family_parent = Some("p".to_string());

    let out = aggregate_families(vec![parent, child]);

    assert_eq!(out.len(), 1, "the folded child is removed");
    let p = &out[0];
    assert_eq!(p.id, "p");
    assert_eq!(p.cpu, pct(15.0));
    assert_eq!(p.ram_mb, dbl(150.0));
    assert_eq!(p.proc_count, 5);
    assert_eq!(p.pane_count, 3);
    assert_eq!(p.worktree_labels, Some(vec!["child".to_string()]));
}

#[test]
fn aggregate_folds_multiple_children_preserving_label_order() {
    let parent = space("p", 0.0, 0.0, 0, 1);
    let mut c1 = space("c1", 1.0, 10.0, 1, 1);
    c1.label = "one".to_string();
    c1.family_parent = Some("p".to_string());
    let mut c2 = space("c2", 2.0, 20.0, 1, 1);
    c2.label = "two".to_string();
    c2.family_parent = Some("p".to_string());

    let out = aggregate_families(vec![parent, c1, c2]);

    assert_eq!(out.len(), 1);
    assert_eq!(out[0].cpu, pct(3.0));
    assert_eq!(out[0].ram_mb, dbl(30.0));
    assert_eq!(out[0].pane_count, 3);
    assert_eq!(
        out[0].worktree_labels,
        Some(vec!["one".to_string(), "two".to_string()]),
    );
}

#[test]
fn aggregate_drops_child_even_when_parent_is_missing() {
    let standalone = space("a", 1.0, 1.0, 1, 1);
    let mut orphan = space("o", 2.0, 2.0, 1, 1);
    orphan.family_parent = Some("ghost".to_string());

    let out = aggregate_families(vec![standalone, orphan]);

    assert_eq!(out.len(), 1);
    assert_eq!(out[0].id, "a");
}

#[test]
fn aggregate_leaves_standalone_spaces_untouched() {
    let out = aggregate_families(vec![space("a", 4.0, 8.0, 2, 2)]);
    assert_eq!(out.len(), 1);
    assert!(out[0].worktree_labels.is_none());
    assert_eq!(out[0].cpu, pct(4.0));
}

#[test]
fn git_branch_empty_for_none_or_blank_cwd() {
    let never = |_: &str| panic!("git was run");
    assert_eq!(git_branch(None, never), "");
    assert_eq!(git_branch(Some(""), never), "");
}

#[test]
fn git_branch_is_what_git_prints_trimmed() {
    let dir = |cwd: &str| {
        assert_eq!(cwd, "/repo");
        Some(b"feature/x\n".to_vec())
    };
    assert_eq!(git_branch(Some("/repo"), dir), "feature/x");
    assert_eq!(git_branch(Some("/repo"), |_: &str| None), "");
    assert_eq!(
        git_branch(Some("/repo"), |_: &str| Some("caf\u{e9}\n".as_bytes().to_vec())),
        "caf\u{e9}"
    );
    assert_eq!(
        git_branch(Some("/repo"), |_: &str| Some(vec![b'a', 0xff, b'b', b'\n'])),
        "a\u{fffd}b"
    );
}

#[test]
fn every_pane_but_another_plugins_is_placed_once() {
    assert!(is_plugin_pane(&pane_with_tokens("x", &["usage", "theirs"])));
    assert!(!is_plugin_pane(&pane_with_tokens("x", &["usage"])));
    assert!(!is_plugin_pane(&pane("x", "w1", None, None)));
}

// ---- spaces ------------------------------------------------------------------

fn session() -> SessionSnapshot {
    let workspace = |id: &str, label: &str, focused| WorkspaceInfo {
        workspace_id: id.to_string(),
        label: label.to_string(),
        focused,
    };
    SessionSnapshot {
        workspaces: vec![workspace("w1", "One", true), workspace("w2", "", false)],
        panes: vec![
            pane("w1:p1", "w1", Some("/repo"), None),
            pane("w2:p1", "w2", None, Some("coder")),
            pane("w1:p2", "w1", Some("/other"), Some(PSEUDO_AGENT)),
            pane("w9:p1", "w9", None, None),
        ],
    }
}

#[test]
fn a_snapshot_becomes_a_space_per_workspace() {
    let session = session();
    assert_eq!(
        branch_dirs(&session),
        vec![Some("/repo".to_string()), None]
    );
    let pids = vec![Some(10), Some(0), Some(12), None];
    let branches = vec!["main".to_string(), String::new()];
    let spaces = collect_spaces(&session, &pids, &branches);
    assert_eq!(spaces.len(), 2);
    assert_eq!(spaces[0].id, "w1");
    assert_eq!(spaces[0].label, "One");
    assert!(spaces[0].focused);
    assert_eq!(spaces[0].pane_count, 2);
    assert_eq!(spaces[0].branch, "main");
    assert_eq!(spaces[0].roots, [10, 12]);
    assert_eq!(spaces[0].spare_panes, ["w1:p1"]);
    assert_eq!(spaces[0].pseudo_panes, ["w1:p2"]);
    assert_eq!(spaces[1].label, "w2", "an unnamed workspace goes by its id");
    assert!(spaces[1].roots.is_empty());
    assert_eq!(spaces[1].agent_panes, ["w2:p1"]);
}

// ---- families ------------------------------------------------------------------

fn listing(key: &str, source: Option<&str>, open: &[Option<&str>]) -> Option<WorktreeListResult> {
    Some(WorktreeListResult {
        source: WorktreeSource {
            repo_key: key.to_string(),
            source_workspace_id: source.map(str::to_string),
        },
        worktrees: open
            .iter()
            .map(|id| WorktreeEntry {
                open_workspace_id: id.map(str::to_string),
            })
            .collect(),
    })
}

fn parents(spaces: &[Space]) -> Vec<Option<&str>> {
    spaces.iter().map(|s| s.family_parent.as_deref()).collect()
}

#[test]
fn open_worktrees_are_grouped_under_their_open_main_checkout() {
    let mut spaces = vec![
        space("main", 0.0, 0.0, 0, 1),
        space("wt", 0.0, 0.0, 0, 1),
        space("lone", 0.0, 0.0, 0, 1),
    ];
    let replies = vec![
        listing("/repo", Some("main"), &[Some("main"), Some("wt"), None, Some("closed")]),
        listing("/repo", Some("lone"), &[Some("wt")]),
        None,
    ];
    group_worktree_families(&mut spaces, &replies);
    assert_eq!(parents(&spaces), [None, Some("main"), None]);
}

#[test]
fn a_family_needs_its_main_checkout_open_and_a_repository() {
    let mut spaces = vec![space("a", 0.0, 0.0, 0, 1), space("b", 0.0, 0.0, 0, 1)];
    let replies = vec![
        listing("/repo", Some("gone"), &[Some("b")]),
        listing("", Some("a"), &[Some("b")]),
    ];
    group_worktree_families(&mut spaces, &replies);
    assert_eq!(parents(&spaces), [None, None]);
}

// ---- measuring -------------------------------------------------------------------

fn table(rows: &[(u32, u32, u64)]) -> HashMap<u32, ProcEntry> {
    rows.iter()
        .map(|&(pid, ppid, jiffies)| (pid, ProcEntry { ppid, jiffies }))
        .collect()
}

#[test]
fn a_space_is_measured_over_the_subtrees_of_its_roots() {
    let before = table(&[(10, 1, 100), (11, 10, 50), (12, 11, 900), (20, 1, 7)]);
    let after = table(&[
        (10, 1, 150),
        (11, 10, 100),
        (12, 11, 800),
        (13, 11, 500),
        (20, 1, 9999),
    ]);
    let window = Window {
        before: &before,
        after: &after,
        elapsed_ns: 2_000_000_000,
        clk_tck: 100,
        nproc: 4,
    };
    let mut spaces = vec![space("a", 0.0, 0.0, 0, 1), space("b", 0.0, 0.0, 0, 1)];
    spaces[0].roots = vec![10, 11];
    let mut counted: Vec<u32> = measured_pids(&spaces, &after).into_iter().collect();
    counted.sort_unstable();
    assert_eq!(counted, [10, 11, 12, 13]);

    let sizes: HashMap<u32, u64> = [(10, 5), (12, 7), (20, 1000)].into_iter().collect();
    measure(&mut spaces, &window, &sizes);
    assert_eq!(spaces[0].cpu, pct(12.5));
    assert_eq!(spaces[0].ram_mb, dbl(12.0 / 1_048_576.0));
    assert_eq!(spaces[0].proc_count, 4);
    assert_eq!(spaces[1].cpu, pct(0.0));
    assert_eq!(spaces[1].proc_count, 0);
}

#[test]
fn a_window_of_no_time_measures_no_cpu() {
    let before = table(&[(10, 1, 0)]);
    let after = table(&[(10, 1, 1000)]);
    let window = Window {
        before: &before,
        after: &after,
        elapsed_ns: 0,
        clk_tck: 100,
        nproc: 1,
    };
    let mut spaces = vec![space("a", 0.0, 0.0, 0, 1)];
    spaces[0].roots = vec![10];
    measure(&mut spaces, &window, &HashMap::new());
    assert_eq!(spaces[0].cpu, pct(0.0));
    assert_eq!(spaces[0].proc_count, 1);
}

#[test]
fn the_pipeline_groups_measures_and_folds() {
    let before = table(&[(10, 1, 0), (20, 1, 0)]);
    let after = table(&[(10, 1, 10), (20, 1, 30)]);
    let window = Window {
        before: &before,
        after: &after,
        elapsed_ns: 1_000_000_000,
        clk_tck: 100,
        nproc: 1,
    };
    let mut main = space("main", 0.0, 0.0, 0, 1);
    main.roots = vec![10];
    let mut worktree = space("wt", 0.0, 0.0, 0, 2);
    worktree.roots = vec![20];
    let replies = vec![
        listing("/repo", Some("main"), &[Some("wt")]),
        listing("/repo", Some("main"), &[Some("wt")]),
    ];
    let sizes: HashMap<u32, u64> = [(10, 3), (20, 4)].into_iter().collect();
    let out = snapshot(vec![main, worktree], &replies, &window, &sizes);
    assert_eq!(out.len(), 1);
    assert_eq!(out[0].cpu, pct(40.0));
    assert_eq!(out[0].ram_mb, dbl(7.0 / 1_048_576.0));
    assert_eq!(out[0].pane_count, 3);
    assert_eq!(out[0].worktree_labels, Some(vec!["wt".to_string()]));
}

#[test]
fn a_child_that_is_a_parent_gathers_before_it_folds() {
    let top = space("top", 1.0, 1.0, 1, 1);
    let mut leaf = space("leaf", 4.0, 4.0, 1, 1);
    leaf.family_parent = Some("middle".to_string());
    let mut middle = space("middle", 2.0, 2.0, 1, 1);
    middle.family_parent = Some("top".to_string());
    let out = aggregate_families(vec![top, leaf, middle]);
    assert_eq!(out.len(), 1);
    assert_eq!(out[0].cpu, pct(7.0));
    assert_eq!(out[0].ram_mb, dbl(7.0));
}

/// A space of the family of `parent`.
fn child_of(parent: &str, space: Space) -> Space {
    Space {
        family_parent: Some(parent.to_string()),
        ..space
    }
}

#[test]
fn a_nested_family_adds_up_in_every_order() {
    let family = || {
        [
            space("p", 10.0, 100.0, 3, 2),
            child_of("p", space("c", 5.0, 50.0, 2, 1)),
            child_of("c", space("g", 2.0, 20.0, 1, 1)),
        ]
    };
    for order in [
        [0, 1, 2],
        [0, 2, 1],
        [1, 0, 2],
        [1, 2, 0],
        [2, 0, 1],
        [2, 1, 0],
    ] {
        let listed: Vec<Space> = order.iter().map(|&i| family()[i].clone()).collect();
        let out = aggregate_families(listed);
        assert_eq!(out.len(), 1, "{order:?}");
        assert_eq!(out[0].id, "p");
        assert_eq!(out[0].cpu, pct(17.0), "{order:?}");
        assert_eq!(out[0].ram_mb, dbl(170.0), "{order:?}");
        assert_eq!(out[0].proc_count, 6, "{order:?}");
        assert_eq!(out[0].pane_count, 4, "{order:?}");
        assert_eq!(out[0].worktree_labels, Some(vec!["c".to_string()]));
    }
}

#[test]
fn a_deep_family_names_only_its_own_children() {
    let mut top = space("p", 1.0, 1.0, 1, 1);
    top.worktree_labels = Some(vec!["old".to_string()]);
    let out = aggregate_families(vec![
        child_of("c1", space("g1", 1.0, 1.0, 1, 1)),
        child_of("p", space("c1", 1.0, 1.0, 1, 1)),
        top,
        child_of("g1", space("deep", 1.0, 1.0, 1, 1)),
        child_of("p", space("c2", 1.0, 1.0, 1, 1)),
        space("alone", 9.0, 9.0, 9, 9),
    ]);
    assert_eq!(out.len(), 2);
    assert_eq!(out[0].pane_count, 5);
    assert_eq!(
        out[0].worktree_labels,
        Some(vec!["old".to_string(), "c1".to_string(), "c2".to_string()])
    );
    assert_eq!(out[1].id, "alone");
    assert_eq!(out[1].pane_count, 9);
    assert_eq!(out[1].worktree_labels, None);
}

#[test]
fn a_ring_of_parents_is_dropped_with_what_hangs_on_it() {
    let out = aggregate_families(vec![
        child_of("b", space("a", 1.0, 1.0, 1, 1)),
        child_of("a", space("b", 2.0, 2.0, 1, 1)),
        child_of("a", space("c", 4.0, 4.0, 1, 1)),
        child_of("self", space("self", 8.0, 8.0, 1, 1)),
        child_of("ghost", space("o", 16.0, 16.0, 1, 1)),
        child_of("o", space("under", 32.0, 32.0, 1, 1)),
        space("alone", 3.0, 3.0, 1, 1),
    ]);
    assert_eq!(out.len(), 1);
    assert_eq!(out[0].id, "alone");
    assert_eq!(out[0].cpu, pct(3.0));
    assert_eq!(out[0].pane_count, 1);
}

#[test]
fn load_is_measured_as_the_doubles_come_out() {
    let load = |ticks: u64, clk_tck: u64, elapsed_ns: u64, nproc: u64| {
        let entry = |jiffies| ProcEntry { ppid: 1, jiffies };
        let before: HashMap<u32, ProcEntry> = [(10, entry(0))].into_iter().collect();
        let after: HashMap<u32, ProcEntry> = [(10, entry(ticks))].into_iter().collect();
        let window = Window {
            before: &before,
            after: &after,
            elapsed_ns,
            clk_tck,
            nproc,
        };
        let mut spaces = vec![space("a", 0.0, 0.0, 0, 1)];
        spaces[0].roots = vec![10];
        measure(&mut spaces, &window, &HashMap::new());
        spaces[0].cpu
    };
    for (ticks, clk_tck, elapsed_ns, nproc) in [
        (7, 100, 1_000_000_000, 20),
        (1, 100, 300_123_457, 16),
        (123_456_789, 1_000_000_000, 5_000_700_001, 12),
        (30, 100, 300_000_000, 1),
        (u64::MAX, 1, 1, 1),
        (5, 100, 0, 1),
    ] {
        let elapsed = std::time::Duration::from_nanos(elapsed_ns).as_secs_f64();
        let want = if elapsed > 0.0 {
            100.0 * (ticks as f64 / clk_tck as f64) / elapsed / nproc as f64
        } else {
            0.0
        };
        assert_eq!(
            load(ticks, clk_tck, elapsed_ns, nproc),
            pct(want),
            "{ticks} {elapsed_ns}"
        );
    }
}
