use std::path::Path;

use space_usage::config::Mode;
use space_usage::herdr_config::{
    backup_path, backup_path_on, ensure_usage_row, is_rows_key, remove_usage_row, scan_brackets, strip_comment,
    table_name, with_usage_row, without_marked_blocks, write_config, Change, BEGIN, END,
    USAGE_ROW, USAGE_TOKEN,
};

/// herdr's built-in spaces rows, as `herdr --default-config` documents them
/// — one line, which is the shape a user gets by uncommenting that example.
const HERDR_DEFAULT: &str = "\
[ui]
sidebar_width = 32

[ui.sidebar.spaces]
rows = [[\"state_icon\", \"workspace\"], [\"branch\", \"git_status\"]]

[ui.toast]
delivery = \"off\"
";

/// Every `$usage` reference in `text`, ignoring commented-out ones.
fn usage_rows(text: &str) -> usize {
    text.split('\n')
        .filter(|line| strip_comment(line).contains(USAGE_TOKEN))
        .count()
}

// ---- adding the row ------------------------------------------------------

#[test]
fn a_default_herdr_config_gains_exactly_one_usage_row() {
    assert_eq!(usage_rows(HERDR_DEFAULT), 0);
    let out = with_usage_row(HERDR_DEFAULT, Mode::Sidebar).expect("must add a row");
    assert_eq!(usage_rows(&out), 1);
    assert!(out.contains("state_icon"), "{out}");
    assert!(out.contains("git_status"), "{out}");
    assert!(out.contains("[ui.toast]"), "{out}");
}

#[test]
fn a_single_line_array_is_split_and_keeps_its_separators() {
    let out = with_usage_row(HERDR_DEFAULT, Mode::Sidebar).unwrap();
    let rows: Vec<&str> = out
        .split('\n')
        .skip_while(|line| !line.contains("rows = ["))
        .take_while(|line| !line.trim().starts_with(']'))
        .collect();
    assert!(
        rows[0].trim_end().ends_with(','),
        "the row before ours needs a separator: {:?}",
        rows[0],
    );
    assert!(out.contains(&format!("  {USAGE_ROW}")), "{out}");
}

#[test]
fn a_multi_line_array_keeps_its_closing_bracket_on_its_own_line() {
    let text = "\
[ui.sidebar.spaces]
rows = [
  [\"state_icon\", \"workspace\"],
  [\"branch\", \"git_status\"],
]
";
    let out = with_usage_row(text, Mode::Sidebar).unwrap();
    assert_eq!(usage_rows(&out), 1);
    assert!(out.contains("\n]\n"), "{out}");
    assert_eq!(out.matches('[').count(), text.matches('[').count() + 1);
}

#[test]
fn an_absent_table_is_appended_whole_with_herdrs_own_defaults() {
    let out = with_usage_row("[ui]\nsidebar_width = 32\n", Mode::Sidebar).unwrap();
    assert!(out.contains("[ui.sidebar.spaces]"), "{out}");
    assert!(out.contains("state_icon"), "{out}");
    assert!(out.contains("git_status"), "{out}");
    assert_eq!(usage_rows(&out), 1);
    assert_eq!(out.matches("[ui.sidebar.spaces]").count(), 1, "{out}");
}

#[test]
fn an_empty_config_is_created_rather_than_skipped() {
    let out = with_usage_row("", Mode::Sidebar).unwrap();
    assert!(out.starts_with(BEGIN), "{out}");
    assert_eq!(usage_rows(&out), 1);
}

#[test]
fn a_table_without_a_rows_key_gets_one() {
    let out = with_usage_row("[ui.sidebar.spaces]\nrow_gap = 1\n", Mode::Sidebar).unwrap();
    assert_eq!(usage_rows(&out), 1);
    assert!(out.contains("row_gap = 1"), "{out}");
    assert!(out.contains("rows = ["), "{out}");
}

#[test]
fn agents_panel_mode_edits_the_agents_table_instead() {
    let out = with_usage_row(HERDR_DEFAULT, Mode::AgentsPanel).unwrap();
    assert!(out.contains("[ui.sidebar.agents]"), "{out}");
    assert!(
        out.contains("rows = [[\"state_icon\", \"workspace\"], [\"branch\", \"git_status\"]]"),
        "{out}",
    );
}

// ---- the guard -----------------------------------------------------------

#[test]
fn a_config_that_already_draws_usage_is_left_alone() {
    let text = "[ui.sidebar.spaces]\nrows = [[\"workspace\"], [\"$usage\"]]\n";
    assert_eq!(with_usage_row(text, Mode::Sidebar), None);
}

#[test]
fn running_it_twice_changes_nothing_the_second_time() {
    let once = with_usage_row(HERDR_DEFAULT, Mode::Sidebar).unwrap();
    assert_eq!(with_usage_row(&once, Mode::Sidebar), None);
}

#[test]
fn a_commented_out_usage_row_does_not_count_as_present() {
    let text = "[ui.sidebar.spaces]\nrows = [\n  [\"workspace\"],\n  # [\"$usage\"],\n]\n";
    let out = with_usage_row(text, Mode::Sidebar).expect("must add a live row");
    assert_eq!(usage_rows(&out), 1);
}

#[test]
fn a_usage_row_in_the_other_table_does_not_count() {
    let text = "\
[ui.sidebar.agents]
rows = [[\"agent\", \"$usage\"]]

[ui.sidebar.spaces]
rows = [[\"workspace\"]]
";
    let out = with_usage_row(text, Mode::Sidebar).expect("must add a spaces row");
    assert_eq!(usage_rows(&out), 2);
}

#[test]
fn a_commented_out_table_header_is_not_the_table() {
    let out = with_usage_row("# [ui.sidebar.spaces]\n# rows = []\n", Mode::Sidebar).unwrap();
    assert!(
        out.split('\n')
            .any(|line| line.trim() == "[ui.sidebar.spaces]"),
        "a real table header must be written: {out}",
    );
}

#[test]
fn an_unterminated_rows_array_is_left_alone() {
    let text = "[ui.sidebar.spaces]\nrows = [\n  [\"workspace\"],\n";
    assert_eq!(with_usage_row(text, Mode::Sidebar), None);
}

// ---- removing it ---------------------------------------------------------

#[test]
fn removal_restores_the_config_byte_for_byte() {
    for original in [
        "[ui]\nsidebar_width = 32\n",
        "[ui.sidebar.spaces]\nrows = [\n  [\"branch\"],\n]\n",
        "[ui.sidebar.spaces]\nrow_gap = 1\n",
    ] {
        let added = with_usage_row(original, Mode::Sidebar).expect("adds");
        let removed = without_marked_blocks(&added).expect("removes");
        assert_eq!(removed, original, "round trip changed the file");
    }
}

#[test]
fn removal_after_a_split_leaves_the_same_rows_and_no_trace_of_us() {
    let added = with_usage_row(HERDR_DEFAULT, Mode::Sidebar).expect("adds");
    let removed = without_marked_blocks(&added).expect("removes");

    assert_eq!(usage_rows(&removed), 0, "{removed}");
    assert!(
        !removed.contains(BEGIN) && !removed.contains(END),
        "{removed}"
    );
    assert!(
        removed.contains(r#"["state_icon", "workspace"]"#),
        "{removed}"
    );
    assert!(removed.contains(r#"["branch", "git_status"]"#), "{removed}");
    assert_eq!(removed.matches("rows = [").count(), 1, "{removed}");
    let again = with_usage_row(&removed, Mode::Sidebar).expect("adds again");
    assert_eq!(usage_rows(&again), 1, "{again}");
}

#[test]
fn removal_leaves_a_hand_written_usage_row_in_place() {
    let text = "[ui.sidebar.spaces]\nrows = [[\"workspace\"], [\"$usage\"]]\n";
    assert_eq!(without_marked_blocks(text), None);
}

#[test]
fn removal_of_an_unterminated_block_takes_the_marker_with_it() {
    let text = format!("[ui]\nx = 1\n{BEGIN}\nrows = [\n");
    let out = without_marked_blocks(&text).expect("removes");
    assert!(!out.contains(BEGIN), "{out}");
    assert_eq!(out, "[ui]\nx = 1\n");
}

#[test]
fn removal_is_a_no_op_on_a_config_we_never_touched() {
    assert_eq!(without_marked_blocks(HERDR_DEFAULT), None);
}

// ---- the pieces ----------------------------------------------------------

#[test]
fn bracket_scanning_ignores_brackets_inside_strings_and_comments() {
    let line = r##"  { token = "$git_dirty", fg = "#f9e2af" }, # ] not this one"##;
    let mut depth = 1;
    assert_eq!(scan_brackets(line, &mut depth), None);
    assert_eq!(depth, 1);

    let mut depth = 0;
    assert_eq!(scan_brackets("rows = [[\"a\"]]", &mut depth), Some(13));
}

#[test]
fn the_rows_key_is_matched_exactly() {
    assert!(is_rows_key("rows = ["));
    assert!(is_rows_key("  rows=[ "));
    assert!(!is_rows_key("rows_by_agent = {}"));
    assert!(!is_rows_key("row_gap = 0"));
}

#[test]
fn strip_comment_keeps_a_hash_inside_quotes() {
    assert_eq!(
        strip_comment(r##"fg = "#f9e2af" # note"##),
        r##"fg = "#f9e2af" "##,
    );
    assert_eq!(strip_comment("plain"), "plain");
    assert_eq!(strip_comment("# whole line").trim(), "");
}

#[test]
fn the_backup_is_plugin_scoped() {
    let backup = backup_path("/home/x/.config/herdr/config.toml");
    assert_eq!(
        backup,
        "/home/x/.config/herdr/config.toml.space-usage.bak",
    );
}

#[test]
fn adding_the_row_twice_is_adding_it_once_in_every_shape() {
    for original in [
        "",
        "\n",
        "[ui]\n",
        "[ui.sidebar.spaces]\n",
        "[ui.sidebar.spaces]\nrows = []\n",
        "[ui.sidebar.spaces] # mine\n  rows = [ [\"a\"],\n   [\"b\"]\t]\n[x]\n",
        "[ui.sidebar.agents]\nrows = [\n]\n",
    ] {
        for mode in [Mode::Sidebar, Mode::AgentsPanel] {
            let once = with_usage_row(original, mode).expect("adds");
            assert_eq!(with_usage_row(&once, mode), None, "{once}");
            assert_eq!(usage_rows(&once), usage_rows(original) + 1);
        }
    }
}

#[test]
fn a_split_line_is_all_that_an_add_and_a_remove_change() {
    let text = "[ui.sidebar.spaces]\n  rows = [[\"a\"], [\"b\"]] # tail\nafter = 1\n";
    let added = with_usage_row(text, Mode::Sidebar).expect("adds");
    let removed = without_marked_blocks(&added).expect("removes");
    assert_eq!(
        removed,
        "[ui.sidebar.spaces]\n  rows = [[\"a\"], [\"b\"],\n  ] # tail\nafter = 1\n",
    );
    assert!(with_usage_row(&removed, Mode::Sidebar).is_some());
    assert_eq!(without_marked_blocks(&removed), None);
}

#[test]
fn an_empty_config_does_not_come_back_empty() {
    let added = with_usage_row("", Mode::Sidebar).expect("adds");
    assert_eq!(without_marked_blocks(&added).as_deref(), Some("\n"));
}

#[test]
fn a_row_is_not_a_table_header() {
    assert_eq!(table_name("[ui.sidebar.spaces]"), Some("ui.sidebar.spaces"));
    assert_eq!(table_name("  [ ui ]  # note"), Some("ui"));
    assert_eq!(table_name("[\"state_icon\", \"workspace\"]"), None);
    assert_eq!(table_name("[]"), None);
    assert_eq!(table_name("# [ui]"), None);
    assert_eq!(table_name("[ui"), None);
}

#[test]
fn the_files_ends_follow_the_edits() {
    assert_eq!(
        ensure_usage_row(None, Mode::Sidebar),
        with_usage_row("", Mode::Sidebar)
    );
    assert_eq!(
        ensure_usage_row(Some("[ui.sidebar.spaces]\nrows = [[\"$usage\"]]"), Mode::Sidebar),
        None
    );
    assert_eq!(remove_usage_row(None), None);
    assert_eq!(
        remove_usage_row(Some(&format!("a = 1\n{BEGIN}\nb = 2\n{END}\nc = 3\n"))),
        Some("a = 1\nc = 3\n".to_string())
    );
    assert_eq!(write_config(false, "/c.toml", ""), None);
    assert_eq!(
        write_config(false, "/c.toml", "x"),
        Some("/c.toml.space-usage.bak".to_string())
    );
    assert!(Change::Written.needs_reload());
    assert!(!Change::Unchanged.needs_reload());
}

#[test]
fn a_path_without_a_file_name_still_gets_a_backup() {
    assert_eq!(backup_path("a/b/"), "a/b.space-usage.bak");
    assert_eq!(backup_path("a/b/."), "a/b.space-usage.bak");
    assert_eq!(backup_path("/"), "/.space-usage.bak");
    assert_eq!(backup_path(".."), "../.space-usage.bak");
    assert_eq!(backup_path(""), ".space-usage.bak");
}

#[test]
fn a_backup_stands_where_the_host_puts_a_file_beside_another() {
    for path in [
        "a/b/", "a/b/.", "/", "..", "", ".", "a/..", "a/../", "./b", "/b", "a//b", "a/b.c/./", "/.",
        "x/..b", "a/b..", "a\\b",
    ] {
        let from = Path::new(path);
        let mut name = from.file_name().unwrap_or_default().to_os_string();
        name.push(".space-usage.bak");
        assert_eq!(Path::new(&backup_path(path)), from.with_file_name(name), "{path}");
    }
}

#[test]
fn a_windows_backup_knows_both_separators() {
    let on = |path| backup_path_on(true, path);
    assert_eq!(on("C:\\x\\config.toml"), "C:\\x\\config.toml.space-usage.bak");
    assert_eq!(on("C:\\x/config.toml"), "C:\\x/config.toml.space-usage.bak");
    assert_eq!(on("x\\config.toml\\"), "x\\config.toml.space-usage.bak");
    assert_eq!(on("x\\.."), "x\\..\\.space-usage.bak");
    assert_eq!(on("C:\\"), "C:\\.space-usage.bak");
    assert_eq!(on("C:"), "C:.space-usage.bak");
    assert_eq!(on("C:x"), "C:x.space-usage.bak");
}
