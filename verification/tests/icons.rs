use space_usage::battery::{Battery, State};
use space_usage::config::{parse_config, parse_herdr_labels};
use space_usage::double::Double;
use space_usage::icons::{
    auto_detect, charge_mark, herdr_ui_snippet, is_utf8_locale, plugin_config_snippet, ramp_pick,
    resolve, IconSet, LocaleVars, Metric, EMOJI_BATTERY, EMOJI_CPU, EMOJI_DISK, EMOJI_RAM,
    GAUGE_RAMP, MARK_CHARGING, MARK_STEADY, NERD_BATTERY_RAMP, NERD_CPU, NERD_DISK, NERD_RAM,
};
use space_usage::units::Percent;

/// Every tier, so a new one cannot quietly skip the sweeps below.
const ALL_TIERS: [IconSet; 4] = [
    IconSet::Text,
    IconSet::Unicode,
    IconSet::NerdFont,
    IconSet::Emoji,
];

/// Every charge state.
const ALL_STATES: [State; 5] = [
    State::Charging,
    State::Discharging,
    State::Full,
    State::NotCharging,
    State::Unknown,
];

/// A double as the library holds it.
fn dbl(x: f64) -> Double {
    let bits = x.to_bits();
    let negative = x.is_sign_negative();
    let digits = bits & 0xf_ffff_ffff_ffff;
    match (bits >> 52) & 0x7ff {
        0x7ff if digits == 0 => Double::Infinite { negative },
        0x7ff => Double::NotANumber,
        0 => Double::Finite {
            negative,
            digits,
            power: 0,
        },
        exponent => Double::Finite {
            negative,
            digits: digits | 0x10_0000_0000_0000,
            power: (exponent - 1) as u16,
        },
    }
}

fn pct(x: f64) -> Percent {
    Percent { value: dbl(x) }
}

fn bat(percent: f64, state: State) -> Battery {
    Battery {
        percent: pct(percent),
        state,
    }
}

/// The locale variables a fixed table sets.
fn env_from(pairs: &[(&str, &str)]) -> LocaleVars {
    let get = |name: &str| {
        pairs
            .iter()
            .find(|(key, _)| *key == name)
            .map(|(_, value)| value.to_string())
    };
    LocaleVars {
        lc_all: get("LC_ALL"),
        lc_ctype: get("LC_CTYPE"),
        lang: get("LANG"),
    }
}

/// A host with no locale and no Nerd Font: the most conservative machine.
fn resolve_bare(configured: Option<&str>) -> IconSet {
    resolve(configured, &env_from(&[]), || false)
}

fn has_nerd() -> bool {
    true
}

fn no_nerd() -> bool {
    false
}

// ---- tier parsing --------------------------------------------------------

#[test]
fn every_tier_name_parses_to_its_tier() {
    assert_eq!(resolve_bare(Some("text")), IconSet::Text);
    assert_eq!(resolve_bare(Some("unicode")), IconSet::Unicode);
    assert_eq!(resolve_bare(Some("nerdfont")), IconSet::NerdFont);
    assert_eq!(resolve_bare(Some("emoji")), IconSet::Emoji);
}

#[test]
fn tier_names_ignore_case_whitespace_and_separators() {
    assert_eq!(resolve_bare(Some("  Unicode ")), IconSet::Unicode);
    assert_eq!(resolve_bare(Some("EMOJI")), IconSet::Emoji);
    assert_eq!(resolve_bare(Some("Nerd-Font")), IconSet::NerdFont);
    assert_eq!(resolve_bare(Some("nerd_font")), IconSet::NerdFont);
}

#[test]
fn auto_unknown_and_missing_all_fall_back_to_detection() {
    let utf8 = env_from(&[("LANG", "en_US.UTF-8")]);
    for configured in [None, Some("auto"), Some("bogus"), Some("")] {
        assert_eq!(resolve_bare(configured), IconSet::Text, "{configured:?}");
        assert_eq!(
            resolve(configured, &utf8, has_nerd),
            IconSet::NerdFont,
            "{configured:?}",
        );
    }
}

#[test]
fn auto_never_selects_the_unicode_gauge() {
    for utf8 in [true, false] {
        let env = if utf8 {
            env_from(&[("LANG", "en_US.UTF-8")])
        } else {
            env_from(&[("LANG", "C")])
        };
        for probe in [has_nerd, no_nerd] {
            assert_ne!(
                auto_detect(&env, probe),
                IconSet::Unicode,
                "auto picked the gauge (utf8={utf8})",
            );
        }
    }
    assert_eq!(resolve_bare(Some("unicode")), IconSet::Unicode);
}

// ---- locale auto-detection -----------------------------------------------

#[test]
fn auto_detect_prefers_lc_all_then_lc_ctype_then_lang() {
    let all_wins = env_from(&[
        ("LC_ALL", "C"),
        ("LC_CTYPE", "en_US.UTF-8"),
        ("LANG", "en_US.UTF-8"),
    ]);
    assert_eq!(auto_detect(&all_wins, has_nerd), IconSet::Text);

    let ctype_wins = env_from(&[("LC_CTYPE", "C"), ("LANG", "en_US.UTF-8")]);
    assert_eq!(auto_detect(&ctype_wins, has_nerd), IconSet::Text);

    let empty_falls_through = env_from(&[("LC_ALL", ""), ("LANG", "en_US.UTF-8")]);
    assert_eq!(
        auto_detect(&empty_falls_through, has_nerd),
        IconSet::NerdFont
    );

    let lang_only = env_from(&[("LANG", "en_US.UTF-8")]);
    assert_eq!(auto_detect(&lang_only, has_nerd), IconSet::NerdFont);
}

#[test]
fn a_utf8_locale_without_a_nerd_font_still_falls_back_to_text() {
    let utf8 = env_from(&[("LANG", "en_US.UTF-8")]);
    assert_eq!(auto_detect(&utf8, no_nerd), IconSet::Text);
}

#[test]
fn the_font_probe_is_skipped_entirely_on_a_non_utf8_locale() {
    let c_locale = env_from(&[("LANG", "C")]);
    let must_not_run = || panic!("font probe ran despite a non-UTF-8 locale");
    assert_eq!(auto_detect(&c_locale, must_not_run), IconSet::Text);
}

#[test]
fn utf8_is_recognised_however_it_is_spelled() {
    assert!(is_utf8_locale(Some("en_US.UTF-8")));
    assert!(is_utf8_locale(Some("en_US.utf8")));
    assert!(is_utf8_locale(Some("C.UTF-8")));
    assert!(is_utf8_locale(Some("de_DE.Utf-8")));
    assert!(is_utf8_locale(Some("ja_JP.UTF8")));
}

#[test]
fn non_utf8_locales_fall_back_to_text() {
    for locale in ["C", "POSIX", "en_US", "en_US.ISO-8859-1", ""] {
        assert_eq!(
            auto_detect(&env_from(&[("LANG", locale)]), has_nerd),
            IconSet::Text,
            "{locale:?}",
        );
    }
    assert_eq!(auto_detect(&env_from(&[]), has_nerd), IconSet::Text);
    assert!(!is_utf8_locale(None));
}

// ---- the level gauge ------------------------------------------------------

#[test]
fn gauge_ramp_steps_on_its_documented_boundaries() {
    let gauge = |p: f64| ramp_pick(&GAUGE_RAMP, pct(p));
    assert_eq!(gauge(0.0), '░');
    assert_eq!(gauge(33.0), '░');
    assert_eq!(gauge(33.9), '░');
    assert_eq!(gauge(34.0), '▒');
    assert_eq!(gauge(66.0), '▒');
    assert_eq!(gauge(67.0), '▓');
    assert_eq!(gauge(89.0), '▓');
    assert_eq!(gauge(90.0), '█');
    assert_eq!(gauge(100.0), '█');
}

#[test]
fn gauge_ramp_is_total_for_impossible_readings() {
    assert_eq!(ramp_pick(&GAUGE_RAMP, pct(-1.0)), '░');
    assert_eq!(ramp_pick(&GAUGE_RAMP, pct(-1e30)), '░');
    assert_eq!(ramp_pick(&GAUGE_RAMP, pct(101.0)), '█');
    assert_eq!(ramp_pick(&GAUGE_RAMP, pct(f64::INFINITY)), '█');
    assert_eq!(ramp_pick(&GAUGE_RAMP, pct(f64::NEG_INFINITY)), '░');
    assert_eq!(ramp_pick(&GAUGE_RAMP, pct(f64::NAN)), '░');
}

#[test]
fn ramp_tables_are_ordered_and_total() {
    for ramp in [&GAUGE_RAMP[..], &NERD_BATTERY_RAMP[..]] {
        for pair in ramp.windows(2) {
            assert!(pair[0].0 < pair[1].0, "bounds must ascend: {pair:?}");
        }
        assert_eq!(ramp.last().expect("non-empty").0, u64::MAX);
    }
}

#[test]
fn nerd_battery_glyph_tracks_the_charge_level() {
    let glyph = |p: f64| Metric::Battery.nerd_glyph(pct(p));
    assert_eq!(glyph(0.0), '\u{f244}');
    assert_eq!(glyph(14.9), '\u{f244}');
    assert_eq!(glyph(15.0), '\u{f243}');
    assert_eq!(glyph(40.0), '\u{f242}');
    assert_eq!(glyph(65.0), '\u{f241}');
    assert_eq!(glyph(74.0), '\u{f241}');
    assert_eq!(glyph(90.0), '\u{f240}');
    assert_eq!(glyph(100.0), '\u{f240}');
}

// ---- rendering, tier by tier ----------------------------------------------

#[test]
fn text_tier_is_words_and_numbers_only() {
    assert_eq!(IconSet::Text.cpu("cpu", pct(26.0)), "cpu 26%");
    assert_eq!(IconSet::Text.ram("ram", pct(8.0)), "ram 8%");
    assert_eq!(
        IconSet::Text.battery("bat", bat(74.0, State::Discharging)),
        "bat 74%",
    );
}

#[test]
fn unicode_tier_keeps_the_word_and_adds_a_gauge() {
    assert_eq!(IconSet::Unicode.cpu("cpu", pct(26.0)), "cpu ░26%");
    assert_eq!(IconSet::Unicode.ram("ram", pct(8.0)), "ram ░8%");
    assert_eq!(
        IconSet::Unicode.battery("bat", bat(74.0, State::Discharging)),
        "bat ▓74%",
    );
}

#[test]
fn nerdfont_tier_replaces_the_word_with_a_glyph() {
    assert_eq!(IconSet::NerdFont.cpu("cpu", pct(26.0)), "\u{f4bc} 26%");
    assert_eq!(IconSet::NerdFont.ram("ram", pct(8.0)), "\u{efc5} 8%");
    assert_eq!(
        IconSet::NerdFont.battery("bat", bat(74.0, State::Discharging)),
        "\u{f241} 74%",
    );
}

#[test]
fn emoji_tier_sits_flush_against_the_number() {
    assert_eq!(IconSet::Emoji.cpu("cpu", pct(26.0)), "💻26%");
    assert_eq!(IconSet::Emoji.ram("ram", pct(8.0)), "🧠8%");
    assert_eq!(
        IconSet::Emoji.battery("bat", bat(74.0, State::Discharging)),
        "🔋74%",
    );
}

#[test]
fn percentages_round_to_whole_and_survive_impossible_readings() {
    assert_eq!(IconSet::Text.cpu("cpu", pct(25.4)), "cpu 25%");
    assert_eq!(IconSet::Text.cpu("cpu", pct(25.5)), "cpu 26%");
    assert_eq!(IconSet::Text.cpu("cpu", pct(-3.0)), "cpu -3%");
    assert_eq!(IconSet::Unicode.cpu("cpu", pct(150.0)), "cpu █150%");
    assert_eq!(IconSet::Text.cpu("cpu", pct(f64::NAN)), "cpu 0%");
    assert_eq!(
        IconSet::Text.cpu("cpu", pct(1e30)),
        "cpu 9223372036854775807%"
    );
}

// ---- charge state ----------------------------------------------------------

#[test]
fn every_tier_renders_every_charge_state() {
    let expected = [
        (State::Charging, "+"),
        (State::Full, "="),
        (State::NotCharging, "="),
        (State::Discharging, ""),
        (State::Unknown, ""),
    ];
    for set in ALL_TIERS {
        for (state, mark) in expected {
            let line = set.battery("bat", bat(74.0, state));
            assert!(
                line.ends_with(&format!("74%{mark}")),
                "{set:?} / {state:?}: {line}",
            );
        }
    }
    assert_eq!(
        IconSet::Unicode.battery("bat", bat(74.0, State::Charging)),
        "bat ▓74%+",
    );
    assert_eq!(
        IconSet::Unicode.battery("bat", bat(100.0, State::Full)),
        "bat █100%=",
    );
    assert_eq!(charge_mark(State::Charging), Some(MARK_CHARGING));
    assert_eq!(charge_mark(State::Unknown), None);
}

// ---- labels ------------------------------------------------------------------

#[test]
fn a_custom_herdr_label_wins_in_every_tier() {
    for set in ALL_TIERS {
        let cpu = set.cpu("CPU", pct(26.0));
        let ram = set.ram("MEM", pct(8.0));
        let battery = set.battery("PWR", bat(74.0, State::Discharging));
        assert!(cpu.starts_with("CPU "), "{set:?}: {cpu}");
        assert!(ram.starts_with("MEM "), "{set:?}: {ram}");
        assert!(battery.starts_with("PWR "), "{set:?}: {battery}");
        assert!(cpu.ends_with("26%"), "{set:?}: {cpu}");
    }
    assert_eq!(IconSet::Text.cpu("CPU", pct(26.0)), "CPU 26%");
    assert_eq!(IconSet::Unicode.cpu("CPU", pct(26.0)), "CPU ░26%");
    assert_eq!(IconSet::NerdFont.cpu("CPU", pct(26.0)), "CPU \u{f4bc} 26%");
    assert_eq!(IconSet::Emoji.cpu("CPU", pct(26.0)), "CPU 💻26%");
}

#[test]
fn the_default_word_is_not_repeated_by_the_glyph_tiers() {
    assert_eq!(IconSet::Emoji.cpu("cpu", pct(26.0)), "💻26%");
    assert_eq!(IconSet::NerdFont.ram("ram", pct(8.0)), "\u{efc5} 8%");
    assert_eq!(
        IconSet::Emoji.battery("bat", bat(74.0, State::Discharging)),
        "🔋74%",
    );
    for set in ALL_TIERS {
        let line = set.cpu("", pct(26.0));
        assert!(!line.starts_with(' '), "{set:?}: {line:?}");
    }
}

#[test]
fn an_explicit_label_replaces_the_glyph_of_a_cell() {
    for set in [IconSet::Text, IconSet::NerdFont, IconSet::Emoji] {
        assert_eq!(set.cpu_cell(Some("CPU"), pct(26.0)), "CPU 26%");
        assert_eq!(set.ram_cell(Some(""), pct(8.0)), "8%");
        assert_eq!(
            set.battery_cell(Some("PWR"), bat(74.0, State::Charging)),
            "PWR 74%+"
        );
    }
    assert_eq!(IconSet::Unicode.cpu_cell(Some("CPU"), pct(26.0)), "CPU ░26%");
    assert_eq!(IconSet::NerdFont.cpu_cell(None, pct(26.0)), "\u{f4bc} 26%");
    assert_eq!(IconSet::Emoji.ram_absolute(None, "1.5G"), "🧠1.5G");
    assert_eq!(
        IconSet::Text.disk(None, Some("/data"), pct(71.0), "600G"),
        "disk /data 71% 600G"
    );
}

#[test]
fn a_cell_nothing_names_is_the_cell_under_the_default_word() {
    for set in ALL_TIERS {
        assert_eq!(set.cpu_cell(None, pct(26.0)), set.cpu("cpu", pct(26.0)));
        assert_eq!(set.ram_cell(None, pct(8.0)), set.ram("ram", pct(8.0)));
        assert_eq!(
            set.battery_cell(None, bat(14.0, State::Full)),
            set.battery("bat", bat(14.0, State::Full))
        );
    }
}

// ---- font safety ---------------------------------------------------------------

/// Every string a tier can produce: all metrics, every charge state, every step
/// of both ramps, and the awkward readings around them.
fn every_rendering(set: IconSet) -> Vec<String> {
    let impossible = [-1.0, -1e30, 100.5, 150.0, f64::NAN, f64::INFINITY];
    let sweep = (0..=100).map(f64::from).chain(impossible);
    let mut out = Vec::new();
    for percent in sweep {
        out.push(set.cpu(Metric::Cpu.default_word(), pct(percent)));
        out.push(set.ram(Metric::Ram.default_word(), pct(percent)));
        for state in ALL_STATES {
            out.push(set.battery(Metric::Battery.default_word(), bat(percent, state)));
        }
    }
    out
}

fn is_private_use(c: char) -> bool {
    (0xE000..=0xF8FF).contains(&(c as u32))
}

const VERIFIED_MONO_GLYPHS: [char; 11] =
    ['■', '□', '●', '○', '█', '░', '▒', '▓', '·', '│', '┼'];

#[test]
fn safe_tiers_emit_only_bmp_non_private_use_glyphs() {
    for set in [IconSet::Text, IconSet::Unicode] {
        for line in every_rendering(set) {
            for c in line.chars() {
                assert!((c as u32) <= 0xFFFF, "{set:?}: {line:?}");
                assert!(!is_private_use(c), "{set:?}: {line:?}");
                assert!(
                    c.is_ascii() || VERIFIED_MONO_GLYPHS.contains(&c),
                    "{set:?} emits unmeasured glyph {c} in {line:?}",
                );
            }
        }
    }
}

#[test]
fn safe_tier_glyph_tables_are_safe_at_the_source() {
    let safe_glyphs = GAUGE_RAMP
        .iter()
        .map(|&(_, glyph)| glyph)
        .chain([MARK_CHARGING, MARK_STEADY]);
    for c in safe_glyphs {
        assert!((c as u32) <= 0xFFFF);
        assert!(!is_private_use(c));
        assert!(c.is_ascii() || VERIFIED_MONO_GLYPHS.contains(&c));
    }
}

#[test]
fn opt_in_tiers_are_out_of_the_safe_range_by_construction() {
    for glyph in [NERD_CPU, NERD_RAM, NERD_DISK]
        .into_iter()
        .chain(NERD_BATTERY_RAMP.iter().map(|&(_, glyph)| glyph))
    {
        assert!(is_private_use(glyph));
    }
    for glyph in [EMOJI_CPU, EMOJI_RAM, EMOJI_BATTERY, EMOJI_DISK] {
        assert!((glyph as u32) > 0xFFFF);
    }
}

// ---- the blocks to paste ------------------------------------------------------------

#[test]
fn the_blocks_read_back_as_the_naming_they_offer() {
    let labels = parse_herdr_labels(&herdr_ui_snippet(IconSet::NerdFont).join("\n"));
    assert_eq!(labels.cpu(), Some("\u{f4bc}"));
    assert_eq!(labels.ram(), Some("\u{efc5}"));
    assert_eq!(labels.battery(), None);
    let config = parse_config(&plugin_config_snippet(IconSet::NerdFont).join("\n"));
    assert_eq!(config.battery_label.as_deref(), Some("\u{f241}"));
    assert_eq!(config.disk_label.as_deref(), Some("\u{f0a0}"));
    assert_eq!(config.icons, "text");
    assert_eq!(
        herdr_ui_snippet(IconSet::Text),
        ["[ui]", "cpu_label = \"cpu\"", "ram_label = \"ram\""]
    );
}
