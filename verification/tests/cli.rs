use space_usage::battery::{Battery, State};
use space_usage::cli::{
    has_flag, interval_ms, print_icon_preview, print_one_setting_hint, run, Command, ICON_TIERS,
};
use space_usage::config::{parse_config, Config, Labels};
use space_usage::icons::{resolve, IconSet, LocaleVars};
use space_usage::units::Percent;

fn bare() -> LocaleVars {
    LocaleVars {
        lc_all: None,
        lc_ctype: None,
        lang: None,
    }
}

fn args(list: &[&str]) -> Vec<String> {
    list.iter().map(|arg| arg.to_string()).collect()
}

#[test]
fn icon_tier_names_are_the_ones_the_config_accepts() {
    for (name, set) in ICON_TIERS {
        assert_eq!(resolve(Some(name), &bare(), || false), set, "{name}");
    }
}

#[test]
fn every_tier_is_previewed() {
    let previewed: Vec<IconSet> = ICON_TIERS.iter().map(|&(_, set)| set).collect();
    for set in [
        IconSet::Text,
        IconSet::Unicode,
        IconSet::NerdFont,
        IconSet::Emoji,
    ] {
        assert!(previewed.contains(&set), "{set:?} is missing from --icons");
    }
}

#[test]
fn the_preview_draws_the_sample_in_every_tier() {
    let lines = print_icon_preview(IconSet::Unicode, &Config::default(), &Labels::default());
    assert_eq!(lines[0], "");
    assert_eq!(
        lines[1],
        "  Icon tiers — 26% cpu, 8% ram, 74% battery charging, 53% disk used, drawn by each tier:"
    );
    assert_eq!(
        lines[3],
        "    text      cpu 26% · ram 8% · bat 74%+ · disk 53% 240G"
    );
    assert_eq!(
        lines[4],
        "    unicode   cpu ░26% · ram ░8% · bat ▓74%+ · disk ▒53% 240G   <- current"
    );
    assert_eq!(
        lines[5],
        "    nerdfont  \u{f4bc} 26% · \u{efc5} 8% · \u{f241} 74%+ · \u{f0a0} 53% 240G"
    );
    assert_eq!(lines[6], "    emoji     💻26% · 🧠8% · 🔋74%+ · 💾53% 240G");
    assert_eq!(lines.len(), 16);
    let gb = print_icon_preview(
        IconSet::Text,
        &parse_config("ram_display = gb"),
        &Labels::default(),
    );
    assert!(gb[1].contains("26% cpu, 1.5G ram,"), "{}", gb[1]);
}

#[test]
fn the_hint_shows_both_blocks_and_says_when_one_cannot_work() {
    let lines = print_one_setting_hint(IconSet::Emoji, &Config::default());
    let text = lines.join("\n");
    assert!(text.contains("      [ui]\n      cpu_label = \"💻\"\n      ram_label = \"🧠\"\n"));
    assert!(text.contains(
        "      battery_label = \"🔋\"\n      disk_label = \"💾\"\n      icons = \"text\"\n"
    ));
    assert!(!text.contains("NOTE"));
    let overridden = print_one_setting_hint(
        IconSet::Emoji,
        &parse_config("cpu_label = C\nram_label = \"\""),
    )
    .join("\n");
    assert!(overridden.contains("  NOTE: cpu_label and ram_label already set"));
}

#[test]
fn the_first_mode_in_precedence_wins() {
    assert_eq!(run(&args(&["--once", "--daemon"])), Command::Daemon);
    assert_eq!(run(&args(&["--toggle", "--disable"])), Command::Disable);
    assert_eq!(run(&args(&["--enable"])), Command::Enable);
    assert_eq!(run(&args(&["--toggle"])), Command::Toggle);
    assert_eq!(run(&args(&["--restore"])), Command::Restore);
    assert_eq!(run(&args(&["--json", "--icons"])), Command::Icons);
    assert_eq!(run(&args(&["--json", "--once"])), Command::Json);
    assert_eq!(run(&args(&["--once"])), Command::Once);
    assert_eq!(run(&args(&[])), Command::Interval(2000));
    assert!(has_flag(&args(&["a", "--b"]), "--b"));
    assert!(!has_flag(&args(&["a"]), "--b"));
}

#[test]
fn the_interval_is_positive_seconds() {
    let interval = |value: &str| interval_ms(&args(&["--interval", value]));
    assert_eq!(interval("5"), 5000);
    assert_eq!(interval("0.25"), 250);
    assert_eq!(interval("1e-9"), 0);
    assert_eq!(interval("0"), 2000);
    assert_eq!(interval("-1"), 2000);
    assert_eq!(interval("fast"), 2000);
    assert_eq!(interval("inf"), u64::MAX);
    assert_eq!(interval("nan"), 2000);
    assert_eq!(interval("1e40"), u64::MAX);
    assert_eq!(interval_ms(&args(&["--interval"])), 2000);
    assert_eq!(interval_ms(&args(&["x", "--interval", "3", "--interval", "9"])), 3000);
}

#[test]
fn a_cell_of_the_sample_is_the_cell_of_every_surface() {
    let charge = Battery {
        percent: Percent::new(74),
        state: State::Charging,
    };
    assert_eq!(IconSet::Text.battery_cell(None, charge), "bat 74%+");
}

#[test]
fn an_interval_is_worked_out_as_the_doubles_come_out() {
    for text in ["1.001", "0.3", "2.675", "1e-400", "4.9e-324", "2e308", "1e308", "0", "-1", "nan", "1e16", "0.0009"] {
        let want = text
            .parse::<f64>()
            .ok()
            .filter(|&n| n > 0.0)
            .map(|n| (n * 1000.0) as u64)
            .unwrap_or(2000);
        let args: Vec<String> = ["--interval", text].map(String::from).to_vec();
        assert_eq!(interval_ms(&args), want, "{text}");
    }
}
