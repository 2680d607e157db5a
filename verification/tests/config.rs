use space_usage::battery::{Battery, State};
use space_usage::config::{
    bootstrapped_flag, config_dir, config_home, default_disks, enabled_flag, herdr_config_path,
    is_pid_file, join_path, load_config, load_herdr_labels, non_empty, non_empty_env, parse_config,
    parse_config_for_test, parse_config_from, parse_disks, parse_herdr_labels,
    parse_herdr_labels_for_test, parse_kv_line, pid_file, pid_file_name, pid_files, plugin_id,
    read_wanted, section_name, state_dir, strip_quotes, system_disks, value_of, Config, Labels,
    Marker, Mode, RamDisplay, Wanted, LEGACY_PID_FILE, MAX_INTERVAL_SECONDS,
};
use space_usage::double::Double;
use space_usage::disk::{self, Disk};
use space_usage::icons::{IconSet, LocaleVars};
use space_usage::units::Percent;

/// A host with no locale set at all.
fn bare() -> LocaleVars {
    LocaleVars {
        lc_all: None,
        lc_ctype: None,
        lang: None,
    }
}

// ---- plugin config: parse_config ----------------------------------------

#[test]
fn config_empty_text_yields_documented_defaults() {
    let cfg = parse_config("");
    assert_eq!(cfg.mode, Mode::Sidebar);
    assert_eq!(cfg.interval_seconds, 5);
    assert!(cfg.window_title_totals);
    assert!(cfg.battery, "the battery cell is on unless opted out");
    assert_eq!(cfg.icons, "auto");
    assert!(cfg.disk, "the disk cell is on unless opted out");
    assert_eq!(cfg.disks, default_disks());
    assert_eq!(cfg.disks.len(), 1, "one cell by default: {:?}", cfg.disks);
    assert_eq!(cfg.disk_label, None);
}

#[test]
fn the_default_drive_is_the_root_filesystem() {
    let disks = default_disks();
    assert_eq!(disks, vec!["/".to_string()]);
    assert_eq!(system_disks(Some("D:")), vec!["D:".to_string()]);
    assert_eq!(system_disks(Some("")), vec!["C:".to_string()]);
    assert_eq!(system_disks(None), vec!["C:".to_string()]);
}

#[test]
fn config_mode_only_accepts_known_values() {
    assert_eq!(parse_config("mode = sidebar").mode, Mode::Sidebar);
    assert_eq!(parse_config("mode = agents-panel").mode, Mode::AgentsPanel);
    assert_eq!(parse_config("mode = bogus").mode, Mode::Sidebar);
}

#[test]
fn each_mode_names_the_table_that_renders_it() {
    let (spaces, spaces_rows) = Mode::Sidebar.sidebar_table();
    let (agents, agents_rows) = Mode::AgentsPanel.sidebar_table();
    assert_eq!(spaces, "ui.sidebar.spaces");
    assert_eq!(agents, "ui.sidebar.agents");
    assert_ne!(spaces, agents);
    assert!(spaces_rows.iter().any(|row| row.contains("git_status")));
    assert!(agents_rows.iter().any(|row| row.contains("agent")));
}

#[test]
fn config_quotes_are_stripped_from_values() {
    assert_eq!(parse_config("mode = \"sidebar\"").mode, Mode::Sidebar);
    assert_eq!(parse_config("mode = 'sidebar'").mode, Mode::Sidebar);
    assert_eq!(parse_config("mode = \"sidebar'").mode, Mode::Sidebar);
}

#[test]
fn config_interval_seconds_gates_on_ge_one() {
    assert_eq!(parse_config("interval_seconds = 12").interval_seconds, 12);
    assert_eq!(parse_config("interval_seconds = \"7\"").interval_seconds, 7);
    assert_eq!(parse_config("interval_seconds = 0").interval_seconds, 5);
    assert_eq!(parse_config("interval_seconds = -3").interval_seconds, 5);
    assert_eq!(parse_config("interval_seconds = fast").interval_seconds, 5);
}

#[test]
fn config_interval_seconds_is_clamped_to_the_ttl_ceiling() {
    assert_eq!(
        parse_config("interval_seconds = 28800").interval_seconds,
        MAX_INTERVAL_SECONDS,
    );
    assert_eq!(
        parse_config("interval_seconds = 999999").interval_seconds,
        MAX_INTERVAL_SECONDS,
    );
    assert_eq!(
        parse_config("interval_seconds = 1e30").interval_seconds,
        MAX_INTERVAL_SECONDS,
    );
}

#[test]
fn config_window_title_totals_false_only_on_literal_false() {
    assert!(!parse_config("window_title_totals = false").window_title_totals);
    assert!(!parse_config("window_title_totals = \"false\"").window_title_totals);
    assert!(parse_config("window_title_totals = true").window_title_totals);
    assert!(parse_config("window_title_totals = 0").window_title_totals);
}

#[test]
fn config_battery_false_only_on_literal_false() {
    assert!(!parse_config("battery = false").battery);
    assert!(!parse_config("battery = \"false\"").battery);
    assert!(parse_config("battery = true").battery);
    assert!(parse_config("battery = 0").battery);
}

// ---- plugin config: the drives -------------------------------------------

#[test]
fn config_disks_is_a_comma_separated_list_in_the_order_given() {
    assert_eq!(
        parse_config("disks = \"/, /home, /mnt/data\"").disks,
        vec!["/", "/home", "/mnt/data"],
        "the cells are drawn in the order the user listed them",
    );
    assert_eq!(parse_config("disks = /home").disks, vec!["/home"]);
    assert_eq!(parse_config("disks = \"C:, D:\"").disks, vec!["C:", "D:"]);
}

#[test]
fn config_disks_drops_blanks_and_repeats() {
    assert_eq!(
        parse_config("disks = \"/, ,/home,\"").disks,
        vec!["/", "/home"]
    );
    assert_eq!(parse_config("disks = \"/, /\"").disks, vec!["/"]);
}

#[test]
fn config_disks_blank_reads_as_unset_not_as_none() {
    let default = default_disks();
    assert_eq!(parse_config("disks = \"\"").disks, default);
    assert_eq!(parse_config("disks = \" , \"").disks, default);
}

#[test]
fn config_disk_false_only_on_literal_false() {
    assert!(!parse_config("disk = false").disk);
    assert!(!parse_config("disk = \"false\"").disk);
    assert!(parse_config("disk = true").disk);
    assert!(parse_config("disk = 0").disk);
}

#[test]
fn config_disk_false_takes_no_reading_at_all() {
    let cfg = parse_config("disk = false\ndisks = \"/, /home\"");
    assert_eq!(
        cfg.disk_readings(|_: &Vec<String>| panic!("asked a host about its drives")),
        Vec::new()
    );
    assert_eq!(cfg.disks, vec!["/", "/home"]);
}

#[test]
fn config_disk_readings_answer_for_the_selected_drives() {
    let root = "/";
    let cfg = parse_config(&format!("disks = \"{root}, /no-such-mount-point\""));
    let readings = cfg.disk_readings(|mounts: &Vec<String>| {
        disk::read(
            mounts
                .iter()
                .map(|mount| match mount.as_str() {
                    "/" => Some(Disk {
                        name: mount.clone(),
                        free_mb: Double::from_whole(1),
                        used_mb: Double::from_whole(1),
                        total_mb: Double::from_whole(2),
                    }),
                    _ => None,
                })
                .collect(),
        )
    });
    assert_eq!(readings.len(), 1, "{readings:?}");
    assert_eq!(readings[0].name, root);
    assert!(Double::nothing().below(readings[0].total_mb), "{readings:?}");
}

#[test]
fn the_disk_label_follows_herdrs_config_and_the_plugin_overrides_it() {
    let from_herdr = parse_herdr_labels("[ui]\ndisk_label = \"HERDR\"\n");
    assert_eq!(from_herdr.disk(), Some("HERDR"));
    assert_eq!(
        from_herdr.clone().with_overrides(&Config::default()).disk(),
        Some("HERDR"),
        "nothing set plugin-side leaves herdr's word standing",
    );

    let cfg = parse_config("disk_label = \"free\"");
    assert_eq!(cfg.disk_label.as_deref(), Some("free"));
    assert_eq!(from_herdr.with_overrides(&cfg).disk(), Some("free"));

    assert_eq!(
        Labels::default().with_overrides(&Config::default()).disk(),
        None,
    );
}

#[test]
fn config_battery_false_takes_no_reading_at_all() {
    let cfg = parse_config("battery = false");
    assert_eq!(cfg.battery_reading(|| panic!("asked a host for its battery")), None);
    let reading = Battery {
        percent: Percent::new(74),
        state: State::Full,
    };
    let cfg = parse_config("battery = true");
    assert_eq!(cfg.battery_reading(|| Some(reading)), Some(reading));
}

#[test]
fn config_icons_keeps_the_raw_tier_name() {
    assert_eq!(parse_config("icons = nerdfont").icons, "nerdfont");
    assert_eq!(parse_config("icons = \"Nerd-Font\"").icons, "Nerd-Font");
    assert_eq!(parse_config("icons = bogus").icons, "bogus");
    assert_eq!(
        parse_config("icons = nerdfont").icon_set(&bare(), || false),
        IconSet::NerdFont,
    );
    for found in [true, false] {
        assert!(matches!(
            parse_config("icons = bogus").icon_set(&bare(), || found),
            IconSet::Text | IconSet::NerdFont,
        ));
    }
}

#[test]
fn config_skips_comments_and_malformed_lines() {
    let text = "\
        # mode = agents-panel\n\
        not a config line\n\
        mode2 = agents-panel\n\
        interval_seconds = 9\n";
    let cfg = parse_config(text);
    assert_eq!(cfg.mode, Mode::Sidebar);
    assert_eq!(cfg.interval_seconds, 9);
}

// ---- herdr labels: [ui] gating + quotes ---------------------------------

#[test]
fn labels_are_unset_when_there_is_no_ui_section() {
    let labels = parse_herdr_labels("[server]\ncpu_label = \"NOPE\"\n");
    assert_eq!(labels.cpu(), None);
    assert_eq!(labels.ram(), None);
    assert_eq!(labels.battery(), None);
    assert_eq!(labels.disk(), None);
    assert_eq!(labels.cpu_word(), "cpu");
    assert_eq!(labels.ram_word(), "ram");
}

#[test]
fn the_plugin_config_owns_the_battery_label() {
    let cfg = parse_config("battery_label = \"\u{f241}\"");
    assert_eq!(cfg.battery_label.as_deref(), Some("\u{f241}"));

    let from_herdr = parse_herdr_labels("[ui]\nbattery_label = \"HERDR\"\n");
    assert_eq!(
        from_herdr.clone().with_overrides(&cfg).battery(),
        Some("\u{f241}")
    );

    let bare = Config::default();
    assert_eq!(from_herdr.with_overrides(&bare).battery(), Some("HERDR"));
}

#[test]
fn plugin_cpu_and_ram_label_overrides_win_per_key() {
    let herdr = parse_herdr_labels("[ui]\ncpu_label = \"H\"\nram_label = \"R\"\n");
    let cfg = parse_config("ram_label = 'M'\n");
    let labels = herdr.with_overrides(&cfg);
    assert_eq!(labels.cpu(), Some("H")); // untouched key keeps herdr's value
    assert_eq!(labels.ram(), Some("M"));

    let bare = parse_config("");
    assert_eq!(bare.cpu_label, None);
    assert_eq!(bare.ram_label, None);
}

#[test]
fn an_empty_plugin_label_is_name_nothing_not_unset() {
    let cfg = parse_config("cpu_label = \"\"\n");
    assert_eq!(cfg.cpu_label.as_deref(), Some(""));
    let labels = Labels::default().with_overrides(&cfg);
    assert_eq!(labels.cpu(), Some(""));
    assert_eq!(labels.ram(), None); // the other key stays unset

    assert_eq!(labels.cpu_word(), "cpu");

    let ram = Labels::default().with_overrides(&parse_config("ram_label = \"\"\n"));
    assert_eq!(ram.ram(), Some(""));
    assert_eq!(ram.ram_word(), "ram");
}

#[test]
fn every_plugin_label_reads_an_empty_value_the_same_way() {
    let cfg = parse_config("cpu_label = \"\"\nram_label = \"\"\nbattery_label = \"\"\n");
    assert_eq!(cfg.cpu_label.as_deref(), Some(""));
    assert_eq!(cfg.ram_label.as_deref(), Some(""));
    assert_eq!(cfg.battery_label.as_deref(), Some(""));

    let bare = parse_config("");
    assert_eq!(bare.battery_label, None);
}

#[test]
fn a_blank_disk_label_names_nothing_like_the_other_labels() {
    let cfg = parse_config("disk_label = \"\"\n");
    assert_eq!(cfg.disk_label.as_deref(), Some(""));
    let labels = parse_herdr_labels("[ui]\ndisk_label = \"HERDR\"\n");
    assert_eq!(labels.with_overrides(&cfg).disk(), Some(""));
    assert_eq!(parse_config("").disk_label, None);
}

#[test]
fn a_whole_interval_is_read_back_up_to_the_cap() {
    let cases = [
        ("1", 1),
        ("7", 7),
        ("28799", 28_799),
        ("28800", 28_800),
        ("28801", 28_800),
        ("99999999999999999999999999999999", 28_800),
    ];
    for (written, read) in cases {
        let cfg = parse_config(&format!("interval_seconds = {written}"));
        assert_eq!(cfg.interval_seconds, read, "{written}");
    }
}

#[test]
fn ram_display_defaults_to_percent_and_ignores_unknown_values() {
    assert_eq!(parse_config("").ram_display, RamDisplay::Percent);
    assert_eq!(
        parse_config("ram_display = \"both\"").ram_display,
        RamDisplay::Percent
    );
}

#[test]
fn ram_display_forgives_case_and_quoting_the_way_icons_does() {
    for text in [
        "ram_display = \"GB\"",
        "ram_display = \"Gb\"",
        "ram_display = \"ABSOLUTE\"",
        "ram_display = gb", // unquoted is legal in this parser
    ] {
        assert_eq!(
            parse_config(text).ram_display,
            RamDisplay::Absolute,
            "{text}"
        );
    }
    assert_eq!(
        parse_config("ram_display = \"PERCENT\"").ram_display,
        RamDisplay::Percent
    );
}

#[test]
fn ram_display_gb_and_absolute_both_select_the_absolute_form() {
    assert_eq!(
        parse_config("ram_display = \"gb\"").ram_display,
        RamDisplay::Absolute
    );
    assert_eq!(
        parse_config("ram_display = \"absolute\"").ram_display,
        RamDisplay::Absolute
    );
    assert_eq!(
        parse_config("ram_display = \"percent\"").ram_display,
        RamDisplay::Percent
    );
}

#[test]
fn an_empty_label_reads_as_unset_not_as_blank() {
    let labels = parse_herdr_labels("[ui]\ncpu_label = \"\"\nram_label = \"\"\n");
    assert_eq!(labels.cpu(), None);
    assert_eq!(labels.ram(), None);
    assert_eq!(labels.cpu_word(), "cpu");
    let filled = parse_herdr_labels("[ui]\ncpu_label = \"\u{f4bc}\"   # nf-oct-cpu\n");
    assert_eq!(filled.cpu(), Some("\u{f4bc}"));
}

#[test]
fn a_label_set_to_the_default_word_is_still_explicitly_set() {
    let labels = parse_herdr_labels("[ui]\ncpu_label = \"cpu\"\n");
    assert_eq!(labels.cpu(), Some("cpu"));
    assert_eq!(labels.ram(), None);
}

#[test]
fn labels_read_only_inside_ui_section() {
    let text = "\
        [ui]\n\
        cpu_label = \"C\"\n\
        ram_label = 'M'\n\
        battery_label = \"PWR\"\n\
        [ui.toast]\n\
        cpu_label = \"WRONG\"\n\
        ram_label = \"WRONG\"\n\
        battery_label = \"WRONG\"\n";
    let labels = parse_herdr_labels(text);
    assert_eq!(labels.cpu(), Some("C")); // from [ui], not [ui.toast]
    assert_eq!(labels.ram(), Some("M"));
    assert_eq!(labels.battery(), Some("PWR"));
}

#[test]
fn labels_ignored_before_ui_section() {
    let text = "\
        cpu_label = \"EARLY\"\n\
        [ui]\n\
        ram_label = \"R\"\n";
    let labels = parse_herdr_labels(text);
    assert_eq!(labels.cpu(), None); // key before any section is ignored
    assert_eq!(labels.ram(), Some("R"));
}

#[test]
fn labels_section_header_is_trimmed_before_matching() {
    let labels = parse_herdr_labels("[ ui ]\ncpu_label = X\n");
    assert_eq!(labels.cpu(), Some("X"));
}

// ---- state paths: one updater per session --------------------------------

#[test]
fn a_pid_file_is_named_for_one_session_only() {
    assert_eq!(pid_file_name("42c3c964"), "updater-42c3c964.pid");
    assert_ne!(pid_file_name("42c3c964"), pid_file_name("e60b12c5"));
}

#[test]
fn a_sweep_finds_every_sessions_claim_and_the_legacy_one() {
    let names: Vec<String> = [
        "enabled".to_string(),
        pid_file_name("bbbbbbbb"),
        LEGACY_PID_FILE.to_string(),
        "updater.pid.bak".to_string(),
        pid_file_name("aaaaaaaa"),
        "bootstrapped".to_string(),
        "updater-.pid".to_string(),
    ]
    .to_vec();
    assert_eq!(
        pid_files(&names),
        [
            "updater-.pid",
            "updater-aaaaaaaa.pid",
            "updater-bbbbbbbb.pid",
            LEGACY_PID_FILE,
        ],
    );
}

#[test]
fn a_state_dir_that_is_not_there_yields_no_claims() {
    assert!(pid_files(&Vec::new()).is_empty());
}

// ---- shared helpers ------------------------------------------------------

#[test]
fn strip_quotes_matches_js_semantics() {
    assert_eq!(strip_quotes("\"foo\""), "foo");
    assert_eq!(strip_quotes("'foo'"), "foo");
    assert_eq!(strip_quotes("\"foo"), "foo"); // leading only
    assert_eq!(strip_quotes("foo\""), "foo"); // trailing only
    assert_eq!(strip_quotes("\"foo'"), "foo"); // mismatched
    assert_eq!(strip_quotes("\""), ""); // lone quote collapses to empty
    assert_eq!(strip_quotes("bare"), "bare");
}

#[test]
fn parse_kv_line_strips_inline_comments_from_herdrs_own_config_style() {
    assert_eq!(
        parse_kv_line(r#"cpu_label = "X"   #  nf-oct-cpu"#),
        Some(("cpu_label", "X")),
    );
    assert_eq!(
        parse_kv_line("interval_seconds = 12  # seconds"),
        Some(("interval_seconds", "12")),
    );
    assert_eq!(
        parse_kv_line("mode = sidebar # why"),
        Some(("mode", "sidebar"))
    );
    assert_eq!(
        parse_kv_line(r##"cpu_label = "#1""##),
        Some(("cpu_label", "#1"))
    );
    assert_eq!(parse_kv_line(r#"cpu_label = """#), Some(("cpu_label", "")));
}

#[test]
fn parse_kv_line_rejects_bad_keys_and_empty_values() {
    assert_eq!(parse_kv_line("mode = sidebar"), Some(("mode", "sidebar")));
    assert_eq!(parse_kv_line("  spaced  =  v  "), Some(("spaced", "v")));
    assert_eq!(parse_kv_line("mode2 = x"), None); // digit in key
    assert_eq!(parse_kv_line("a b = x"), None); // space in key
    assert_eq!(parse_kv_line("noeq"), None); // no '='
    assert_eq!(parse_kv_line("mode =   "), None); // empty value
    assert_eq!(parse_kv_line("mode = a=b"), Some(("mode", "a=b")));
}

// ---- the rest of the module ----------------------------------------------

#[test]
fn interval_seconds_reads_every_way_a_number_is_written() {
    let interval = |value: &str| parse_config(&format!("interval_seconds = {value}")).interval_seconds;
    assert_eq!(interval("2.9"), 2);
    assert_eq!(interval("+7"), 7);
    assert_eq!(interval("1e1"), 10);
    assert_eq!(interval("1.5E2"), 150);
    assert_eq!(interval("120e-1"), 12);
    assert_eq!(interval("0.99"), 5);
    assert_eq!(interval("inf"), MAX_INTERVAL_SECONDS);
    assert_eq!(interval("-inf"), 5);
    assert_eq!(interval("nan"), 5);
    assert_eq!(interval("1.2.3"), 5);
    assert_eq!(interval("."), 5);
    assert_eq!(interval("5."), 5);
    assert_eq!(interval(".5e1"), 5);
}

#[test]
fn the_last_setting_of_a_key_wins() {
    let cfg = parse_config("interval_seconds = 9\nicons = text\ninterval_seconds = 11\n");
    assert_eq!(cfg.interval_seconds, 11);
    assert_eq!(cfg.icons, "text");
}

#[test]
fn a_quoted_setting_reads_back_as_it_was_written() {
    assert_eq!(
        parse_kv_line("battery_label = \" a # b = c \"  # note"),
        Some(("battery_label", " a # b = c ")),
    );
}

#[test]
fn files_that_cannot_be_read_leave_the_defaults() {
    assert_eq!(load_config(None).interval_seconds, 5);
    assert_eq!(load_config(Some("interval_seconds = 8")).interval_seconds, 8);
    assert_eq!(load_herdr_labels(None).cpu(), None);
    assert_eq!(
        load_herdr_labels(Some("[ui]\ncpu_label = C")).cpu(),
        Some("C")
    );
    assert_eq!(parse_config_for_test("disk = false").disk, false);
    assert_eq!(
        parse_herdr_labels_for_test("[ui]\nram_label = R").ram(),
        Some("R")
    );
    let base = Config {
        disks: system_disks(Some("D:")),
        ..Config::default()
    };
    let cfg = parse_config_from(base, "interval_seconds = 6");
    assert_eq!(cfg.disks, vec!["D:"]);
    assert_eq!(cfg.interval_seconds, 6);
}

#[test]
fn a_value_is_what_stands_in_quotes_or_before_a_comment() {
    assert_eq!(value_of(""), None);
    assert_eq!(value_of("\"\""), Some(""));
    assert_eq!(value_of("\"open"), Some("open"));
    assert_eq!(value_of("'a' b"), Some("a"));
    assert_eq!(value_of("bare # note"), Some("bare"));
    assert_eq!(value_of("# only"), None);
    assert_eq!(section_name("[ui] x"), Some("ui"));
    assert_eq!(section_name("[]"), None);
    assert_eq!(section_name("[open"), None);
    assert_eq!(section_name("ui"), None);
    assert_eq!(non_empty(""), None);
    assert_eq!(non_empty("x"), Some("x".to_string()));
    assert_eq!(parse_disks(" , "), None);
    assert_eq!(
        parse_disks("a,b , a"),
        Some(vec!["a".to_string(), "b".to_string()])
    );
}

#[test]
fn the_marker_has_three_states() {
    assert_eq!(read_wanted(Marker::Absent), Wanted::Undecided);
    assert_eq!(read_wanted(Marker::Text("0\n")), Wanted::Disabled);
    assert_eq!(read_wanted(Marker::Text("1\n")), Wanted::Enabled);
    assert_eq!(read_wanted(Marker::Text("garbled")), Wanted::Enabled);
    assert_eq!(read_wanted(Marker::Unreadable), Wanted::Enabled);
    assert!(Wanted::Undecided.wants_daemon());
    assert!(Wanted::Enabled.wants_daemon());
    assert!(!Wanted::Disabled.wants_daemon());
}

#[test]
fn paths_follow_the_environment_and_fall_back() {
    assert_eq!(non_empty_env(Some("")), None);
    assert_eq!(plugin_id(None), "ez-corp.space-usage");
    assert_eq!(plugin_id(Some("")), "ez-corp.space-usage");
    assert_eq!(plugin_id(Some("mine")), "mine");
    assert_eq!(state_dir(Some("/s"), "/tmp", "id"), "/s");
    assert_eq!(state_dir(None, "/tmp", "id"), "/tmp/id");
    assert_eq!(config_dir(None, "/tmp/", "id"), "/tmp/id-config");
    assert_eq!(config_dir(Some("/c"), "/tmp", "id"), "/c");
    assert_eq!(config_home(Some("A"), Some("/x"), Some("/h")), "A");
    assert_eq!(config_home(None, Some("/x"), Some("/h")), "/x");
    assert_eq!(config_home(None, Some(""), Some("/h")), "/h/.config");
    assert_eq!(config_home(None, None, None), ".config");
    assert_eq!(
        herdr_config_path("/h/.config"),
        "/h/.config/herdr/config.toml"
    );
    assert_eq!(pid_file("/s", "42c3c964"), "/s/updater-42c3c964.pid");
    assert_eq!(enabled_flag("/s"), "/s/enabled");
    assert_eq!(bootstrapped_flag("/s"), "/s/bootstrapped");
    assert_eq!(join_path("/a", "/b"), "/b");
    assert!(is_pid_file("updater.pid"));
    assert!(!is_pid_file("updater.pid.bak"));
}

#[test]
fn an_interval_is_read_as_the_nearest_double() {
    for (written, read) in [
        ("0.99999999999999999999", 1),
        ("0.9999999999999999", 5),
        ("1.9999999999999999999", 2),
        ("2e308", 28_800),
        ("1e-400", 5),
        ("nan", 5),
    ] {
        let cfg = parse_config(&format!("interval_seconds = {written}"));
        assert_eq!(cfg.interval_seconds, read, "{written}");
    }
}
