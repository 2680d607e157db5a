use space_usage::battery::{Battery, State};
use space_usage::config::{Config, Labels, RamDisplay};
use space_usage::double::Double;
use space_usage::disk::Disk;
use space_usage::icons::IconSet;
use space_usage::model::Space;
use space_usage::render::{
    battery_cell, battery_state_key, clock_text, disk_cell, disk_cells, footer_text, frame_text,
    frame_window, json_num_1dp, metric_row, ram_cell_of, render, render_json,
    render_styled, totals_row, unavailable_text, usage_row, JsonField, JsonNumber, JsonSpace,
    JsonValue, RowStyle, Style,
};
use space_usage::units::{compact_size, fmt_ram, Percent};

fn plain() -> Style {
    Style { color: false }
}

/// A double as the library holds it.
fn dbl(x: f64) -> Double {
    let bits = x.to_bits();
    let negative = x.is_sign_negative();
    let digits = bits & 0xf_ffff_ffff_ffff;
    match (bits >> 52) & 0x7ff {
        0x7ff if digits == 0 => Double::Infinite { negative },
        0x7ff => Double::NotANumber,
        0 => Double::Finite {
            negative,
            digits,
            power: 0,
        },
        exponent => Double::Finite {
            negative,
            digits: digits | 0x10_0000_0000_0000,
            power: (exponent - 1) as u16,
        },
    }
}

fn pct(x: f64) -> Percent {
    Percent { value: dbl(x) }
}

/// Megabytes.
fn mb(x: f64) -> Double {
    dbl(x)
}

/// The machine's RAM in these tests, in megabytes.
const TOTAL: Double = Double::Finite {
    negative: false,
    digits: 0x10_0000_0000_0000,
    power: 1036,
};

fn space(label: &str, focused: bool, cpu: f64, ram_mb: f64, panes: usize) -> Space {
    Space {
        id: label.to_string(),
        label: label.to_string(),
        focused,
        pane_count: panes,
        cpu: pct(cpu),
        ram_mb: mb(ram_mb),
        ..Default::default()
    }
}

fn bat(percent: f64, state: State) -> Battery {
    Battery {
        percent: pct(percent),
        state,
    }
}

/// A drive, its free and total size in GB, the way drives are quoted.
fn drive(name: &str, free_gb: f64, total_gb: f64) -> Disk {
    Disk {
        name: name.to_string(),
        free_mb: mb(free_gb * 1024.0),
        used_mb: mb((total_gb - free_gb) * 1024.0),
        total_mb: mb(total_gb * 1024.0),
    }
}

/// A value of the payload as JSON.
fn json_value(v: JsonValue) -> serde_json::Value {
    match v {
        JsonValue::Null => serde_json::Value::Null,
        JsonValue::Flag(b) => b.into(),
        JsonValue::Count(n) => n.into(),
        JsonValue::Number(JsonNumber::Whole(n)) => n.into(),
        JsonValue::Number(JsonNumber::Tenths(t)) => (t as f64 / 10.0).into(),
        JsonValue::Text(t) => t.into(),
        JsonValue::Texts(v) => v.clone().into(),
        JsonValue::Disks(v) => v.iter().map(|d| json_object(d.fields())).collect(),
    }
}

fn json_number(n: JsonNumber) -> serde_json::Value {
    json_value(JsonValue::Number(n))
}

fn json_object(fields: Vec<JsonField>) -> serde_json::Value {
    fields
        .into_iter()
        .map(|field| (field.key.to_string(), json_value(field.value)))
        .collect()
}

/// The payload as it is printed, the keys and their order as the rows give them.
fn payload(rows: &[JsonSpace]) -> String {
    let rows: Vec<serde_json::Value> = rows.iter().map(|row| json_object(row.fields())).collect();
    serde_json::to_string_pretty(&rows).expect("a payload")
}

/// The payload text of some spaces on a machine of known size.
fn json_text(spaces: &[Space], battery: Option<Battery>, disks: &[Disk]) -> String {
    payload(&render_json(&spaces.to_vec(), battery, &disks.to_vec(), TOTAL))
}

// ---- fmt_ram / compact_ram: MB below 1024, GB at/above -------------------

#[test]
fn fmt_ram_switches_unit_at_1024() {
    assert_eq!(fmt_ram(mb(0.0)), "0 MB");
    assert_eq!(fmt_ram(mb(512.4)), "512 MB"); // rounds to whole MB
    assert_eq!(fmt_ram(mb(1023.9)), "1024 MB");
    assert_eq!(fmt_ram(mb(1024.0)), "1.00 GB");
    assert_eq!(fmt_ram(mb(1536.0)), "1.50 GB");
}

#[test]
fn compact_size_switches_unit_at_1024() {
    assert_eq!(compact_size(mb(0.0)), "0M");
    assert_eq!(compact_size(mb(512.6)), "513M"); // rounds to whole MB
    assert_eq!(compact_size(mb(1023.4)), "1023M");
    assert_eq!(compact_size(mb(1024.0)), "1.0G");
    assert_eq!(compact_size(mb(1536.0)), "1.5G");
}

#[test]
fn compact_size_drops_the_decimal_once_the_figure_is_big() {
    assert_eq!(compact_size(mb(9.9 * 1024.0)), "9.9G");
    assert_eq!(compact_size(mb(10.0 * 1024.0)), "10G");
    assert_eq!(compact_size(mb(231.4 * 1024.0)), "231G");
    assert_eq!(compact_size(mb(1024.0 * 1024.0)), "1.0T");
    assert_eq!(compact_size(mb(18.0 * 1024.0 * 1024.0)), "18T");
}

// ---- narrow metric cells --------------------------------------------------

#[test]
fn ram_cell_rounds_exactly_as_ram_pct_does() {
    assert_eq!(
        ram_cell_of(IconSet::Text, None, mb(1024.0), RamDisplay::Percent, mb(16384.0)),
        "ram 6%"
    );
    assert_eq!(
        ram_cell_of(IconSet::Text, None, mb(250.0), RamDisplay::Percent, mb(10000.0)),
        "ram 3%"
    );
    assert_eq!(
        ram_cell_of(IconSet::Unicode, None, mb(1024.0), RamDisplay::Percent, mb(16384.0)),
        "ram ░6%",
    );
}

#[test]
fn ram_cell_falls_back_to_the_compact_absolute_without_a_total() {
    assert_eq!(
        ram_cell_of(IconSet::Unicode, None, mb(1536.0), RamDisplay::Percent, mb(0.0)),
        "ram 1.5G"
    );
    assert_eq!(
        ram_cell_of(IconSet::Text, None, mb(512.0), RamDisplay::Percent, mb(0.0)),
        "ram 512M"
    );
    assert_eq!(
        ram_cell_of(IconSet::Emoji, None, mb(0.0), RamDisplay::Percent, mb(-1.0)),
        "🧠0M"
    );
}

#[test]
fn ram_display_absolute_ignores_a_readable_total() {
    let cell = |icons| ram_cell_of(icons, None, mb(1536.0), RamDisplay::Absolute, mb(16384.0));
    assert_eq!(cell(IconSet::Text), "ram 1.5G");
    assert_eq!(cell(IconSet::Unicode), "ram 1.5G");
    assert_eq!(
        ram_cell_of(IconSet::Text, None, mb(512.0), RamDisplay::Absolute, mb(16384.0)),
        "ram 512M"
    );
}

#[test]
fn the_absolute_cell_keeps_each_tier_naming_but_drops_the_gauge() {
    let cell = |icons| ram_cell_of(icons, None, mb(1536.0), RamDisplay::Absolute, mb(16384.0));
    assert_eq!(cell(IconSet::Text), "ram 1.5G");
    assert_eq!(cell(IconSet::Unicode), "ram 1.5G");
    assert_eq!(cell(IconSet::NerdFont), "\u{efc5} 1.5G");
    assert_eq!(cell(IconSet::Emoji), "🧠1.5G");

    let labels = Labels::default();
    let row = |icons| {
        usage_row(
            pct(26.0),
            mb(1536.0),
            TOTAL,
            RowStyle::new(&labels, icons, RamDisplay::Absolute),
        )
    };
    assert_eq!(row(IconSet::NerdFont), "\u{f4bc} 26% · \u{efc5} 1.5G");
    assert_eq!(row(IconSet::Emoji), "💻26% · 🧠1.5G");
    assert_eq!(row(IconSet::Text), "cpu 26% · ram 1.5G");
}

#[test]
fn an_empty_ram_label_leaves_just_the_figure_in_the_absolute_cell() {
    assert_eq!(
        ram_cell_of(IconSet::Text, Some(""), mb(1536.0), RamDisplay::Absolute, mb(16384.0)),
        "1.5G"
    );
    assert_eq!(
        ram_cell_of(IconSet::Text, Some(""), mb(1536.0), RamDisplay::Percent, mb(0.0)),
        "1.5G"
    );
    for icons in [
        IconSet::Text,
        IconSet::Unicode,
        IconSet::NerdFont,
        IconSet::Emoji,
    ] {
        assert_eq!(
            ram_cell_of(icons, Some(""), mb(1536.0), RamDisplay::Absolute, mb(16384.0)),
            "1.5G",
            "{icons:?}"
        );
    }
}

#[test]
fn a_row_with_empty_labels_and_absolute_ram_is_just_the_figures() {
    let labels = Labels::new(Some(""), Some(""), None, None);
    let row = usage_row(
        pct(26.0),
        mb(1536.0),
        TOTAL,
        RowStyle::new(&labels, IconSet::Text, RamDisplay::Absolute),
    );
    assert_eq!(row, "26% · 1.5G");
}

#[test]
fn a_style_built_from_config_carries_that_configs_ram_form() {
    let labels = Labels::default();
    for ram_display in [RamDisplay::Percent, RamDisplay::Absolute] {
        let config = Config {
            ram_display,
            ..Config::default()
        };
        let style = RowStyle::from_config(&labels, IconSet::NerdFont, &config);
        assert_eq!(style.ram_display, ram_display);
        assert_eq!(style.icons, IconSet::NerdFont);
    }
}

#[test]
fn metric_row_omits_an_absent_battery_and_its_separator() {
    let cells = |battery: Option<&str>| {
        metric_row(
            "A".to_string(),
            "B".to_string(),
            battery.map(str::to_string),
            Vec::new(),
        )
    };
    assert_eq!(cells(None), "A · B"); // no dangling separator
    assert_eq!(cells(Some("C")), "A · B · C");
}

#[test]
fn a_narrow_row_is_cpu_then_ram_then_battery_then_disks() {
    let labels = Labels::default();
    let row = metric_row(
        IconSet::Unicode.cpu_cell(None, pct(26.0)),
        ram_cell_of(IconSet::Unicode, None, mb(1310.72), RamDisplay::Percent, mb(16384.0)),
        battery_cell(
            IconSet::Unicode,
            &labels,
            Some(bat(74.0, State::Discharging)),
        ),
        disk_cells(
            RowStyle::new(&labels, IconSet::Unicode, RamDisplay::Percent),
            &vec![drive("/", 240.0, 512.0)],
        ),
    );
    assert_eq!(row, "cpu ░26% · ram ░8% · bat ▓74% · disk ▒53% 240G");
}

// ---- disk cells ----------------------------------------------------------

/// The style the narrow surfaces use, with the percent RAM form.
fn unicode_style(labels: &Labels) -> RowStyle<'_> {
    RowStyle::new(labels, IconSet::Unicode, RamDisplay::Percent)
}

#[test]
fn a_disk_cell_shows_the_used_percent_then_the_free_size() {
    let cell = |icons| disk_cell(icons, None, None, &drive("/", 240.0, 512.0));
    assert_eq!(cell(IconSet::Text), "disk 53% 240G");
    assert_eq!(cell(IconSet::Unicode), "disk ▒53% 240G");
    assert_eq!(cell(IconSet::NerdFont), "\u{f0a0} 53% 240G");
    assert_eq!(cell(IconSet::Emoji), "💾53% 240G");
}

#[test]
fn a_nearly_full_drive_reads_alarming() {
    assert_eq!(
        disk_cell(IconSet::Unicode, None, None, &drive("/", 12.0, 512.0)),
        "disk █98% 12G",
    );
}

#[test]
fn one_drive_is_unnamed_and_several_name_themselves() {
    let labels = Labels::default();
    let style = RowStyle::new(&labels, IconSet::Text, RamDisplay::Percent);
    let one = disk_cells(style, &vec![drive("/", 240.0, 512.0)]);
    assert_eq!(one, vec!["disk 53% 240G"], "nothing to disambiguate");

    let many = disk_cells(
        style,
        &vec![drive("/", 240.0, 512.0), drive("/data", 600.0, 2048.0)],
    );
    assert_eq!(
        many,
        vec!["disk / 53% 240G", "disk /data 71% 600G"],
        "two cells that do not say which drive is which are two numbers \
         contradicting each other",
    );
}

#[test]
fn disk_cells_of_nothing_is_no_cells() {
    let labels = Labels::default();
    assert_eq!(
        disk_cells(unicode_style(&labels), &vec![]),
        Vec::<String>::new(),
    );
}

#[test]
fn a_custom_disk_label_replaces_the_tier_naming() {
    let labels = Labels::new(None, None, None, Some("free"));
    let style = RowStyle::new(&labels, IconSet::NerdFont, RamDisplay::Percent);
    assert_eq!(
        disk_cells(style, &vec![drive("/", 240.0, 512.0)]),
        vec!["free 53% 240G"],
    );
    let bare = Labels::new(None, None, None, Some(""));
    let bare_style = RowStyle::new(&bare, IconSet::NerdFont, RamDisplay::Percent);
    assert_eq!(
        disk_cells(bare_style, &vec![drive("/", 240.0, 512.0)]),
        vec!["53% 240G"],
    );
}

#[test]
fn metric_row_appends_a_cell_per_drive_after_the_battery() {
    let row = |disks: &[&str]| {
        metric_row(
            "A".to_string(),
            "B".to_string(),
            Some("C".to_string()),
            disks.iter().map(|d| d.to_string()).collect(),
        )
    };
    assert_eq!(row(&[]), "A · B · C"); // no drive read: no cell
    assert_eq!(row(&["D"]), "A · B · C · D");
    assert_eq!(row(&["D", "E"]), "A · B · C · D · E");
    assert_eq!(
        metric_row(
            "A".to_string(),
            "B".to_string(),
            None,
            vec!["D".to_string()],
        ),
        "A · B · D",
    );
}

// ---- render: the machine-wide drives live on the total line --------------

#[test]
fn render_puts_every_drive_on_the_total_line_only() {
    let spaces = vec![
        space("a", true, 1.0, 1.0, 1),
        space("b", false, 2.0, 2.0, 1),
    ];
    let out = render_styled(
        &spaces,
        &Labels::default(),
        IconSet::Unicode,
        None,
        &vec![drive("/", 240.0, 512.0), drive("/data", 600.0, 2048.0)],
        TOTAL,
        &plain(),
    );
    let total = out
        .split('\n')
        .next_back()
        .expect("a total line")
        .to_string();

    assert!(total.contains("disk / ▒53% 240G"), "total: {total}");
    assert!(total.contains("disk /data ▓71% 600G"), "total: {total}");
    assert_eq!(out.matches("disk").count(), 2, "{out}");
}

#[test]
fn render_orders_the_total_line_battery_then_drives() {
    let out = render_styled(
        &vec![space("a", true, 1.0, 1.0, 1)],
        &Labels::default(),
        IconSet::Text,
        Some(bat(74.0, State::Discharging)),
        &vec![drive("/", 240.0, 512.0)],
        TOTAL,
        &plain(),
    );
    let total = out
        .split('\n')
        .next_back()
        .expect("a total line")
        .to_string();
    assert!(
        total.ends_with("   bat 74%   disk 53% 240G"),
        "total: {total}",
    );
}

#[test]
fn render_without_a_drive_is_the_report_unchanged() {
    let spaces = vec![space("a", true, 1.0, 1.0, 1)];
    let report = |disks: &[Disk]| {
        render_styled(
            &spaces,
            &Labels::default(),
            IconSet::Unicode,
            None,
            &disks.to_vec(),
            TOTAL,
            &plain(),
        )
    };
    assert_eq!(
        report(&[drive("/", 240.0, 512.0)]).strip_suffix("   disk ▒53% 240G"),
        Some(report(&[]).as_str()),
    );
}

// ---- Style: gating + CPU thresholds --------------------------------------

#[test]
fn style_paints_only_when_colour_enabled() {
    assert_eq!(plain().bold("x"), "x");
    let colour = Style { color: true };
    assert_eq!(colour.bold("x"), "\x1b[1mx\x1b[0m");
    assert_eq!(colour.dim("x"), "\x1b[2mx\x1b[0m");
}

#[test]
fn style_cpu_colour_thresholds() {
    let c = Style { color: true };
    assert_eq!(c.cpu(pct(80.0), "H"), "\x1b[31mH\x1b[0m"); // >= 80 red
    assert_eq!(c.cpu(pct(79.9), "M"), "\x1b[33mM\x1b[0m"); // >= 40 yellow
    assert_eq!(c.cpu(pct(40.0), "M"), "\x1b[33mM\x1b[0m");
    assert_eq!(c.cpu(pct(39.9), "L"), "\x1b[32mL\x1b[0m"); // else green
    assert_eq!(c.cpu(pct(0.0), "L"), "\x1b[32mL\x1b[0m");
}

// ---- render: empty + populated -------------------------------------------

#[test]
fn render_empty_spaces() {
    let out = render_styled(
        &vec![],
        &Labels::default(),
        IconSet::Unicode,
        None,
        &vec![],
        TOTAL,
        &plain(),
    );
    assert_eq!(out, "  CPU / RAM per space\n\n  No spaces open.");
}

#[test]
fn render_lays_out_marker_branch_and_notes() {
    let mut focused = space("main", true, 5.0, 512.0, 2);
    focused.branch = "feature/x".to_string();
    let out = render_styled(
        &vec![focused],
        &Labels::default(),
        IconSet::Unicode,
        None,
        &vec![],
        TOTAL,
        &plain(),
    );
    let lines: Vec<&str> = out.split('\n').collect();

    assert_eq!(lines[0], "  CPU / RAM per space");
    assert_eq!(lines[1], "");
    assert_eq!(lines[2], "  ● main"); // focused marker + bold label
    assert_eq!(lines[3], "      feature/x"); // branch line
    assert!(lines[4].contains("cpu   5.0%"), "cpu cell: {}", lines[4]);
    assert!(lines[4].contains("· 2 panes"), "notes: {}", lines[4]);
    assert_eq!(lines[5], ""); // blank between space and total
    assert!(lines[6].starts_with("  ── total"), "total: {}", lines[6]);
}

#[test]
fn render_unfocused_uses_no_branch_and_singular_pane() {
    let out = render_styled(
        &vec![space("s", false, 0.0, 0.0, 1)],
        &Labels::default(),
        IconSet::Unicode,
        None,
        &vec![],
        TOTAL,
        &plain(),
    );
    let lines: Vec<&str> = out.split('\n').collect();
    assert_eq!(lines[2], "  ○ s"); // unfocused marker
    assert_eq!(lines[3], "      (no branch)");
    assert!(lines[4].contains("· 1 pane") && !lines[4].contains("panes"));
}

#[test]
fn render_shows_worktree_note() {
    let mut sp = space("repo", false, 0.0, 0.0, 3);
    sp.worktree_labels = Some(vec!["wt-a".to_string(), "wt-b".to_string()]);
    let out = render_styled(
        &vec![sp],
        &Labels::default(),
        IconSet::Unicode,
        None,
        &vec![],
        TOTAL,
        &plain(),
    );
    assert!(out.contains("· 3 panes · +2 worktrees"), "{out}");
}

#[test]
fn render_honours_custom_labels() {
    let labels = Labels::new(Some("CPU"), Some("MEM"), Some("PWR"), None);
    let out = render_styled(
        &vec![space("s", false, 1.0, 1.0, 1)],
        &labels,
        IconSet::Text,
        Some(bat(74.0, State::Discharging)),
        &vec![],
        TOTAL,
        &plain(),
    );
    assert!(out.contains("CPU"));
    assert!(out.contains("MEM"));
    assert!(out.contains("PWR 74%"), "{out}");
}

// ---- render: the machine-wide battery lives on the total line ------------

#[test]
fn render_puts_the_battery_on_the_total_line_only() {
    let spaces = vec![
        space("a", true, 1.0, 1.0, 1),
        space("b", false, 2.0, 2.0, 1),
    ];
    let out = render_styled(
        &spaces,
        &Labels::default(),
        IconSet::Unicode,
        Some(bat(74.0, State::Discharging)),
        &vec![],
        TOTAL,
        &plain(),
    );
    let lines: Vec<&str> = out.split('\n').collect();
    let total = lines.last().expect("a total line");

    assert!(total.contains("bat ▓74%"), "total: {total}");
    assert_eq!(out.matches("bat").count(), 1, "{out}");
}

#[test]
fn render_without_a_battery_is_the_report_unchanged() {
    let spaces = vec![space("a", true, 1.0, 1.0, 1)];
    let with = render_styled(
        &spaces,
        &Labels::default(),
        IconSet::Unicode,
        Some(bat(74.0, State::Discharging)),
        &vec![],
        TOTAL,
        &plain(),
    );
    let without = render_styled(
        &spaces,
        &Labels::default(),
        IconSet::Unicode,
        None,
        &vec![],
        TOTAL,
        &plain(),
    );
    assert_eq!(with.strip_suffix("   bat ▓74%"), Some(without.as_str()));
}

// ---- json: number shape + field ordering ---------------------------------

#[test]
fn json_num_collapses_whole_and_rounds_to_one_dp() {
    assert_eq!(serde_json::to_string(&json_number(json_num_1dp(dbl(12.0)))).unwrap(), "12");
    assert_eq!(serde_json::to_string(&json_number(json_num_1dp(dbl(0.0)))).unwrap(), "0");
    assert_eq!(serde_json::to_string(&json_number(json_num_1dp(dbl(100.0)))).unwrap(), "100");
    assert_eq!(serde_json::to_string(&json_number(json_num_1dp(dbl(5.14)))).unwrap(), "5.1");
    assert_eq!(serde_json::to_string(&json_number(json_num_1dp(dbl(5.16)))).unwrap(), "5.2");
}

#[test]
fn json_field_order_and_conditional_worktrees() {
    let mut a = space("w1", true, 12.0, 100.0, 2);
    a.branch = "main".to_string();
    a.proc_count = 7;
    a.worktree_labels = Some(vec!["child".to_string()]);
    let b = space("w2", false, 0.0, 0.0, 1); // no worktrees

    let out = json_text(
        &[a, b],
        Some(bat(74.0, State::Discharging)),
        &[drive("/", 240.0, 512.0)],
    );

    let order = [
        "workspace_id",
        "label",
        "branch",
        "focused",
        "panes",
        "processes",
        "cpu_percent",
        "ram_mb",
        "ram_percent",
        "includes_worktrees",
        "battery_percent",
        "battery_state",
        "disks",
    ];
    let mut last = 0;
    for key in order {
        let at = out
            .find(&format!("\"{key}\""))
            .unwrap_or_else(|| panic!("missing {key}"));
        assert!(at >= last, "key {key} out of order");
        last = at;
    }

    assert!(out.contains("\"cpu_percent\": 12,"), "{out}");
    assert!(out.contains("\"includes_worktrees\": ["), "{out}");
    assert!(out.contains("\"child\""), "{out}");

    let parsed: serde_json::Value = serde_json::from_str(&out).unwrap();
    assert!(parsed[1].get("includes_worktrees").is_none());
    assert!(parsed[0].get("ram_percent").is_some());
    assert!(parsed[1].get("ram_percent").is_some());
    for row in [&parsed[0], &parsed[1]] {
        assert_eq!(row["battery_percent"], 74.0);
        assert_eq!(row["battery_state"], "discharging");
    }
}

#[test]
fn json_carries_every_drive_with_named_figures() {
    let out = json_text(
        &[space("w1", true, 1.0, 1.0, 1)],
        None,
        &[drive("/", 240.0, 512.0), drive("/data", 600.0, 2048.0)],
    );
    let parsed: serde_json::Value = serde_json::from_str(&out).unwrap();
    let disks = parsed[0]["disks"].as_array().expect("a disks array");

    assert_eq!(disks.len(), 2, "{out}");
    assert_eq!(disks[0]["name"], "/");
    assert_eq!(disks[0]["free_mb"], 245_760.0); // 240 GB
    assert_eq!(disks[0]["used_mb"], 278_528.0); // 272 GB
    assert_eq!(disks[0]["total_mb"], 524_288.0); // 512 GB
    assert_eq!(disks[0]["used_percent"], 53.1);
    assert_eq!(disks[1]["name"], "/data");
    assert_eq!(disks[1]["used_percent"], 70.7);
}

#[test]
fn json_disks_is_an_empty_array_not_a_missing_key() {
    let out = json_text(&[space("w1", true, 1.0, 1.0, 1)], None, &[]);
    let parsed: serde_json::Value = serde_json::from_str(&out).unwrap();
    assert_eq!(
        parsed[0]["disks"],
        serde_json::Value::Array(Vec::new()),
        "{out}"
    );
    assert!(out.contains("\"disks\": []"), "{out}");
}

#[test]
fn json_battery_pair_is_null_without_a_reading() {
    let out = json_text(&[space("w1", true, 1.0, 1.0, 1)], None, &[]);
    let parsed: serde_json::Value = serde_json::from_str(&out).unwrap();
    assert!(parsed[0]["battery_percent"].is_null(), "{out}");
    assert!(parsed[0]["battery_state"].is_null(), "{out}");
    assert!(out.contains("\"battery_percent\": null"), "{out}");
}

#[test]
fn json_battery_state_is_lowercase_for_every_state() {
    let expected = [
        (State::Charging, "charging"),
        (State::Discharging, "discharging"),
        (State::Full, "full"),
        (State::NotCharging, "not_charging"),
        (State::Unknown, "unknown"),
    ];
    for (state, key) in expected {
        assert_eq!(battery_state_key(state), key);
        let out = json_text(
            &[space("w1", true, 0.0, 0.0, 1)],
            Some(bat(5.0, state)),
            &[],
        );
        let parsed: serde_json::Value = serde_json::from_str(&out).unwrap();
        assert_eq!(parsed[0]["battery_state"], key, "{out}");
    }
}

#[test]
fn json_battery_percent_rounds_like_every_other_number() {
    let out = json_text(
        &[space("w1", true, 0.0, 0.0, 1)],
        Some(bat(63.46, State::Full)),
        &[],
    );
    assert!(out.contains("\"battery_percent\": 63.5"), "{out}");
    let whole = json_text(
        &[space("w1", true, 0.0, 0.0, 1)],
        Some(bat(100.0, State::Full)),
        &[],
    );
    assert!(whole.contains("\"battery_percent\": 100,"), "{whole}");
}

#[test]
fn json_empty_payload_is_bare_brackets() {
    assert_eq!(json_text(&[], None, &[]), "[]");
}

// ---- the rest of the module ----------------------------------------------

#[test]
fn the_report_is_coloured_only_for_a_terminal_that_wants_it() {
    assert!(Style::detect(true, None).color);
    assert!(Style::detect(true, Some("")).color);
    assert!(!Style::detect(true, Some("1")).color);
    assert!(!Style::detect(false, None).color);
    let spaces = vec![space("a", true, 1.0, 1.0, 1)];
    let labels = Labels::default();
    let report = |terminal, no_color| {
        render(
            &spaces,
            &labels,
            IconSet::Text,
            None,
            &vec![],
            TOTAL,
            terminal,
            no_color,
        )
    };
    assert!(report(true, None).contains("\x1b[32m●\x1b[0m"));
    assert_eq!(report(true, Some("1")), report(false, None));
    assert!(!report(false, None).contains('\x1b'));
}

#[test]
fn a_space_is_three_lines_of_the_report() {
    let mut sp = space("main", true, 43.25, 1536.0, 1);
    sp.branch = "dev".to_string();
    sp.worktree_labels = Some(vec!["wt".to_string()]);
    let out = render_styled(
        &vec![sp],
        &Labels::default(),
        IconSet::Text,
        None,
        &vec![],
        TOTAL,
        &plain(),
    );
    assert_eq!(
        out,
        "  CPU / RAM per space\n\n  ● main\n      dev\n      cpu  43.2%   ram  1.50 GB (9%)   \
         · 1 pane · +1 worktree\n\n  ── total   cpu 43.2%   ram 1.50 GB (9%)",
    );
}

#[test]
fn a_total_that_is_unknown_leaves_no_percentage() {
    let out = render_styled(
        &vec![space("a", false, 0.0, 512.0, 2)],
        &Labels::default(),
        IconSet::Text,
        None,
        &vec![],
        dbl(0.0),
        &plain(),
    );
    assert!(out.ends_with("  ── total   cpu 0.0%   ram 512 MB"), "{out}");
    let rows = render_json(&vec![space("a", false, 0.0, 512.0, 2)], None, &vec![], dbl(0.0));
    assert_eq!(rows[0].ram_percent, None);
}

#[test]
fn the_totals_row_is_the_usage_row_and_the_machine_cells() {
    let labels = Labels::default();
    let style = RowStyle::new(&labels, IconSet::Unicode, RamDisplay::Percent);
    let usage = usage_row(pct(26.0), mb(1310.72), TOTAL, style);
    assert_eq!(usage, "cpu ░26% · ram ░8%");
    let totals = totals_row(
        pct(26.0),
        mb(1310.72),
        TOTAL,
        style,
        Some(bat(74.0, State::Charging)),
        &vec![drive("/", 240.0, 512.0)],
    );
    assert_eq!(totals, format!("{usage} · bat ▓74%+ · disk ▒53% 240G"));
}

#[test]
fn numbers_of_the_payload_keep_one_decimal() {
    assert_eq!(json_num_1dp(dbl(-0.05)), JsonNumber::Tenths(-1));
    assert_eq!(json_num_1dp(dbl(-3.0)), JsonNumber::Whole(-3));
    assert_eq!(json_num_1dp(dbl(1.25)), JsonNumber::Tenths(13));
    assert_eq!(json_num_1dp(dbl(512.0)), JsonNumber::Whole(512));
    assert_eq!(
        json_num_1dp(dbl(1e30)),
        JsonNumber::Whole(i64::MAX)
    );
}

#[test]
fn a_half_is_rounded_to_the_even_tenth_in_the_report() {
    assert_eq!(pct(0.25).text_1dp(), "0.2");
    assert_eq!(pct(0.75).text_1dp(), "0.8");
    assert_eq!(pct(-1.5).text_1dp(), "-1.5");
    assert_eq!(pct(99.96).text_1dp(), "100.0");
}

#[test]
fn a_frame_of_the_live_watch() {
    assert_eq!(
        footer_text(2500, "01:02:03", &plain()),
        "  refreshing every 2.5s · 01:02:03 · ctrl-c to quit"
    );
    assert_eq!(
        footer_text(2000, "t", &plain()),
        "  refreshing every 2s · t · ctrl-c to quit"
    );
    assert_eq!(
        footer_text(50, "t", &plain()),
        "  refreshing every 0.05s · t · ctrl-c to quit"
    );
    assert_eq!(clock_text(1, 20, 3), "01:20:03");
    assert_eq!(frame_text("b", "f"), "\x1b[2J\x1b[Hb\n\nf\n");
    assert_eq!(
        unavailable_text("gone", &plain()),
        "  herdr unavailable: gone"
    );
    assert_eq!(frame_window(true, 2000), 400);
    assert_eq!(frame_window(false, 2000), 2000);
}

#[test]
fn the_payload_keys_keep_their_names_and_places() {
    let keys = |row: &JsonSpace| -> Vec<&'static str> {
        row.fields().iter().map(|field| field.key).collect()
    };
    let mut parent = space("p", false, 1.0, 1.0, 1);
    parent.worktree_labels = Some(vec!["wt".to_string()]);
    let plain = space("q", false, 1.0, 1.0, 1);
    let rows = render_json(&vec![parent, plain], None, &vec![drive("/", 1.0, 2.0)], dbl(0.0));
    let every = [
        "workspace_id",
        "label",
        "branch",
        "focused",
        "panes",
        "processes",
        "cpu_percent",
        "ram_mb",
        "ram_percent",
        "includes_worktrees",
        "battery_percent",
        "battery_state",
        "disks",
    ];
    assert_eq!(keys(&rows[0]), every);
    let without: Vec<&str> = every
        .into_iter()
        .filter(|key| *key != "includes_worktrees")
        .collect();
    assert_eq!(keys(&rows[1]), without);
    assert_eq!(rows[1].fields()[8].value, JsonValue::Null);
    let disk: Vec<&str> = rows[0].disks[0].fields().iter().map(|f| f.key).collect();
    assert_eq!(
        disk,
        ["name", "used_percent", "free_mb", "used_mb", "total_mb"]
    );
}

#[test]
fn a_long_interval_is_spelt_as_its_double_is() {
    let style = plain();
    let mut all: Vec<u64> = vec![
        1,
        250,
        2000,
        2500,
        8_796_093_022_207_999,
        8_796_093_022_208_000,
        8_796_093_022_208_001,
        8_800_000_000_000_062,
        8_800_000_000_000_063,
        9_000_000_000_000_125,
        9_007_199_254_740_993,
        10_000_000_000_000_001,
        12_345_678_901_234_567,
        17_592_186_044_416_000,
        17_592_186_044_416_001,
        1_000_000_000_000_000_000,
        9_223_372_036_854_775_807,
        18_014_398_509_481_984_000,
        u64::MAX,
        u64::MAX - 1500,
    ];
    for n in 0..40u64 {
        all.push(8_796_093_022_208_000 + n * 62_500 + n % 3);
        all.push(n.wrapping_mul(0x9e37_79b9_7f4a_7c15) | 1 << 63);
        all.push((n.wrapping_mul(0x9e37_79b9_7f4a_7c15) >> 11) | 1 << 52);
    }
    for ms in all {
        let want = format!(
            "  refreshing every {}s · 12:00:00 · ctrl-c to quit",
            ms as f64 / 1000.0
        );
        assert_eq!(footer_text(ms, "12:00:00", &style), want, "{ms}");
    }
}

#[test]
fn every_figure_is_drawn_as_its_double_is() {
    for x in [0.05f64, 0.15, 0.25, 0.35, 0.45, 0.85, 12.35, 99.95, 100.05, 7.000000000000001 / 20.0] {
        assert_eq!(pct(x).text_1dp(), format!("{x:.1}"), "{x}");
        let rounded = (x * 10.0).round() / 10.0;
        let want = if rounded.fract() == 0.0 {
            JsonNumber::Whole(rounded as i64)
        } else {
            JsonNumber::Tenths((x * 10.0).round() as i64)
        };
        assert_eq!(json_num_1dp(dbl(x)), want, "{x}");
    }
    for bad in [f64::NAN, f64::INFINITY, f64::NEG_INFINITY] {
        assert_eq!(json_num_1dp(dbl(bad)), JsonNumber::Whole(0));
    }
    let loads = [0.1, 0.25, 0.7, 33.3];
    let spaces: Vec<Space> = loads
        .iter()
        .map(|&cpu| space("s", false, cpu, 0.1, 1))
        .collect();
    let report = render_styled(
        &spaces,
        &Labels::default(),
        IconSet::Text,
        None,
        &vec![],
        TOTAL,
        &plain(),
    );
    let total: f64 = loads.iter().fold(0.0, |sum, cpu| sum + cpu);
    assert!(report.contains(&format!("total   cpu {total:.1}%")), "{report}");
}

#[test]
fn sizes_are_drawn_as_their_doubles_are() {
    for x in [0.5f64, 1.5, 1023.5, 1024.0, 1029.12, 10_239.9, 10_240.0, 236_953.6, 1_048_575.5, 1e13, 9.2e18] {
        let wide = if x >= 1024.0 {
            format!("{:.2} GB", x / 1024.0)
        } else {
            format!("{} MB", x.round() as i64)
        };
        assert_eq!(fmt_ram(mb(x)), wide, "{x}");
        let (value, unit) = if x >= 1_048_576.0 {
            (x / 1_048_576.0, "T")
        } else {
            (x / 1024.0, "G")
        };
        let small = if x < 1024.0 {
            format!("{}M", x.round() as i64)
        } else if value >= 10.0 {
            format!("{}{unit}", value.round() as i64)
        } else {
            format!("{value:.1}{unit}")
        };
        assert_eq!(compact_size(mb(x)), small, "{x}");
    }
}
