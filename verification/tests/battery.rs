use space_usage::battery::sysfs::{self, Attributes, Charge, Supply};
use space_usage::battery::{checked_percent, pmset, power_status, Battery, State};
use space_usage::double::Double;
use space_usage::text::sorted_texts;
use space_usage::units::Percent;

/// A double as the library holds it.
fn dbl(x: f64) -> Double {
    let bits = x.to_bits();
    let negative = x.is_sign_negative();
    let digits = bits & 0xf_ffff_ffff_ffff;
    match (bits >> 52) & 0x7ff {
        0x7ff if digits == 0 => Double::Infinite { negative },
        0x7ff => Double::NotANumber,
        0 => Double::Finite {
            negative,
            digits,
            power: 0,
        },
        exponent => Double::Finite {
            negative,
            digits: digits | 0x10_0000_0000_0000,
            power: (exponent - 1) as u16,
        },
    }
}

fn pct(x: f64) -> Percent {
    Percent { value: dbl(x) }
}

fn supply(percent: f64, state: State, charge: Option<(f64, f64)>) -> Supply {
    Supply {
        percent: pct(percent),
        state,
        charge: charge.map(|(now, full)| Charge {
            now: dbl(now),
            full: dbl(full),
        }),
    }
}

/// Add an entry to a class tree: every attribute with the trailing newline the
/// kernel emits.
fn supply_dir(root: &mut Vec<(String, Attributes)>, name: &str, attrs: &[(&str, &str)]) {
    let get = |attr: &str| {
        attrs
            .iter()
            .find(|(key, _)| *key == attr)
            .map(|(_, value)| format!("{value}\n"))
    };
    root.push((
        name.to_string(),
        Attributes {
            kind: get("type"),
            scope: get("scope"),
            capacity: get("capacity"),
            status: get("status"),
            energy_now: get("energy_now"),
            energy_full: get("energy_full"),
            charge_now: get("charge_now"),
            charge_full: get("charge_full"),
        },
    ));
}

/// Read a class tree, its entries in the order of their names.
fn read_tree(root: &Vec<(String, Attributes)>) -> Option<Battery> {
    let names: Vec<String> = root.iter().map(|(name, _)| name.clone()).collect();
    let entries = sorted_texts(&names)
        .iter()
        .map(|name| {
            root.iter()
                .find(|(other, _)| other == name)
                .expect("an entry")
                .1
                .clone()
        })
        .collect();
    sysfs::read_from_root(&entries)
}

// ---- shared: the percentage gate ----------------------------------------

#[test]
fn checked_percent_clamps_the_range_and_rejects_non_numbers() {
    assert_eq!(checked_percent(dbl(42.5)), Some(pct(42.5)));
    assert_eq!(checked_percent(dbl(0.0)), Some(pct(0.0)));
    assert_eq!(checked_percent(dbl(100.0)), Some(pct(100.0)));
    assert_eq!(checked_percent(dbl(137.0)), Some(pct(100.0)));
    assert_eq!(checked_percent(dbl(-4.0)), Some(pct(0.0)));
    assert_eq!(checked_percent(dbl(f64::NAN)), None);
    assert_eq!(checked_percent(dbl(f64::INFINITY)), None);
    assert_eq!(checked_percent(dbl(f64::NEG_INFINITY)), None);
}

// ---- Linux: pure status + aggregation -----------------------------------

#[test]
fn sysfs_state_maps_every_kernel_status() {
    assert_eq!(sysfs::parse_state("Charging"), State::Charging);
    assert_eq!(sysfs::parse_state("Discharging"), State::Discharging);
    assert_eq!(sysfs::parse_state("Full"), State::Full);
    assert_eq!(sysfs::parse_state("Not charging"), State::NotCharging);
    assert_eq!(sysfs::parse_state("Unknown"), State::Unknown);
    assert_eq!(sysfs::parse_state(""), State::Unknown);
    assert_eq!(sysfs::parse_state("charging"), State::Unknown);
    assert_eq!(sysfs::parse_state("Whatever"), State::Unknown);
}

#[test]
fn sysfs_aggregate_of_nothing_is_no_battery() {
    assert_eq!(sysfs::aggregate(&Vec::new()), None);
}

#[test]
fn sysfs_aggregate_passes_a_single_pack_through() {
    let one = supply(63.0, State::Discharging, Some((6300.0, 10000.0)));
    assert_eq!(
        sysfs::aggregate(&vec![one]),
        Some(Battery {
            percent: pct(63.0),
            state: State::Discharging,
        })
    );
}

#[test]
fn sysfs_aggregate_sums_energy_across_unequal_packs() {
    let packs = [
        supply(90.0, State::Discharging, Some((18000.0, 20000.0))),
        supply(10.0, State::Discharging, Some((8000.0, 80000.0))),
    ];
    assert_eq!(sysfs::aggregate(&packs.to_vec()).unwrap().percent, pct(26.0));
}

#[test]
fn sysfs_aggregate_averages_capacity_when_any_pack_lacks_energy() {
    let packs = [
        supply(80.0, State::Full, Some((8000.0, 10000.0))),
        supply(20.0, State::Full, None),
    ];
    assert_eq!(sysfs::aggregate(&packs.to_vec()).unwrap().percent, pct(50.0));
}

#[test]
fn sysfs_aggregate_lets_charging_win() {
    let packs = [
        supply(50.0, State::Discharging, None),
        supply(50.0, State::Charging, None),
        supply(50.0, State::Full, None),
    ];
    assert_eq!(sysfs::aggregate(&packs.to_vec()).unwrap().state, State::Charging);
}

#[test]
fn sysfs_aggregate_prefers_discharging_over_a_full_pack() {
    let packs = [
        supply(100.0, State::Full, None),
        supply(30.0, State::Discharging, None),
    ];
    assert_eq!(sysfs::aggregate(&packs.to_vec()).unwrap().state, State::Discharging);
}

#[test]
fn sysfs_aggregate_falls_back_to_the_first_pack_state() {
    let packs = [
        supply(70.0, State::NotCharging, None),
        supply(70.0, State::Unknown, None),
    ];
    assert_eq!(sysfs::aggregate(&packs.to_vec()).unwrap().state, State::NotCharging);
}

#[test]
fn sysfs_aggregate_keeps_a_single_packs_own_percentage() {
    let one = supply(42.0, State::Full, Some((10.0, 100.0)));
    assert_eq!(sysfs::aggregate(&vec![one]).unwrap().percent, pct(42.0));
}

#[test]
fn sysfs_aggregate_survives_a_zero_capacity_pair() {
    let packs = [
        supply(44.0, State::Full, Some((0.0, 0.0))),
        supply(46.0, State::Full, Some((0.0, 0.0))),
    ];
    assert_eq!(sysfs::aggregate(&packs.to_vec()).unwrap().percent, pct(45.0));
}

#[test]
fn sysfs_aggregate_clamps_an_over_full_pack() {
    let packs = [
        supply(100.0, State::Full, Some((11000.0, 10000.0))),
        supply(100.0, State::Full, Some((10500.0, 10000.0))),
    ];
    assert_eq!(sysfs::aggregate(&packs.to_vec()).unwrap().percent, pct(100.0));
}

// ---- Linux: the real directory walk over a fixture tree -----------------

#[test]
fn sysfs_walk_reads_capacity_and_status_from_a_real_tree() {
    let mut root = Vec::new();
    supply_dir(
        &mut root,
        "BAT0",
        &[("type", "Battery"), ("capacity", "77"), ("status", "Full")],
    );

    assert_eq!(
        read_tree(&root),
        Some(Battery {
            percent: pct(77.0),
            state: State::Full,
        })
    );
}

#[test]
fn sysfs_walk_prefers_capacity_then_energy_then_charge() {
    let mut by_capacity = Vec::new();
    supply_dir(
        &mut by_capacity,
        "BAT0",
        &[
            ("type", "Battery"),
            ("capacity", "42"),
            ("energy_now", "10"),
            ("energy_full", "100"),
        ],
    );
    assert_eq!(read_tree(&by_capacity).unwrap().percent, pct(42.0));

    let mut by_energy = Vec::new();
    supply_dir(
        &mut by_energy,
        "BAT0",
        &[
            ("type", "Battery"),
            ("energy_now", "3000"),
            ("energy_full", "12000"),
            ("charge_now", "1"),
            ("charge_full", "2"),
        ],
    );
    assert_eq!(read_tree(&by_energy).unwrap().percent, pct(25.0));

    let mut by_charge = Vec::new();
    supply_dir(
        &mut by_charge,
        "BAT0",
        &[
            ("type", "Battery"),
            ("charge_now", "1500"),
            ("charge_full", "2000"),
        ],
    );
    assert_eq!(read_tree(&by_charge).unwrap().percent, pct(75.0));
}

#[test]
fn sysfs_walk_skips_mains_and_peripheral_batteries() {
    let mut root = Vec::new();
    supply_dir(&mut root, "AC", &[("type", "Mains"), ("online", "1")]);
    supply_dir(
        &mut root,
        "hidpp_battery_0",
        &[
            ("type", "Battery"),
            ("scope", "Device"),
            ("capacity", "40"),
            ("status", "Discharging"),
        ],
    );
    supply_dir(
        &mut root,
        "BAT0",
        &[
            ("type", "Battery"),
            ("capacity", "88"),
            ("status", "Charging"),
        ],
    );

    assert_eq!(
        read_tree(&root),
        Some(Battery {
            percent: pct(88.0),
            state: State::Charging,
        }),
        "only BAT0 counts — the adapter and the mouse are not the machine",
    );

    let mut peripherals_only = Vec::new();
    supply_dir(&mut peripherals_only, "AC", &[("type", "Mains")]);
    supply_dir(
        &mut peripherals_only,
        "hidpp_battery_0",
        &[("type", "Battery"), ("scope", "Device"), ("capacity", "40")],
    );
    assert_eq!(read_tree(&peripherals_only), None);
}

#[test]
fn sysfs_walk_sums_two_packs_from_a_real_tree() {
    let mut root = Vec::new();
    supply_dir(
        &mut root,
        "BAT0",
        &[
            ("type", "Battery"),
            ("energy_now", "18000"),
            ("energy_full", "20000"),
            ("status", "Discharging"),
        ],
    );
    supply_dir(
        &mut root,
        "BAT1",
        &[
            ("type", "Battery"),
            ("energy_now", "8000"),
            ("energy_full", "80000"),
            ("status", "Charging"),
        ],
    );

    assert_eq!(
        read_tree(&root),
        Some(Battery {
            percent: pct(26.0), // 26000 µWh of 100000 µWh
            state: State::Charging,
        })
    );
}

#[test]
fn sysfs_walk_skips_malformed_empty_and_missing_files() {
    let mut root = Vec::new();
    supply_dir(&mut root, "BAT0", &[("type", "Battery"), ("capacity", "n/a")]);
    supply_dir(&mut root, "BAT1", &[("type", ""), ("capacity", "50")]);
    supply_dir(&mut root, "BAT2", &[("capacity", "50")]);
    supply_dir(
        &mut root,
        "BAT3",
        &[
            ("type", "Battery"),
            ("energy_now", "10"),
            ("energy_full", "0"),
        ],
    );
    supply_dir(&mut root, "BAT4", &[("type", "Battery"), ("capacity", "nan")]);

    assert_eq!(read_tree(&root), None);
}

#[test]
fn sysfs_walk_clamps_both_ends() {
    let mut over = Vec::new();
    supply_dir(
        &mut over,
        "BAT0",
        &[
            ("type", "Battery"),
            ("energy_now", "11000"),
            ("energy_full", "10000"),
        ],
    );
    assert_eq!(read_tree(&over).unwrap().percent, pct(100.0));

    let mut under = Vec::new();
    supply_dir(&mut under, "BAT0", &[("type", "Battery"), ("capacity", "-5")]);
    assert_eq!(read_tree(&under).unwrap().percent, pct(0.0));
}

#[test]
fn sysfs_walk_of_an_empty_root_is_no_battery() {
    assert_eq!(read_tree(&Vec::new()), None);
}

// ---- macOS: the pmset parser --------------------------------------------

/// The `Now drawing from` header every `pmset -g batt` run prints first.
const PMSET_HEADER: &str = "Now drawing from 'AC Power'\n";

#[test]
fn pmset_parses_a_charging_laptop() {
    let out = format!(
        "{PMSET_HEADER} -InternalBattery-0 (id=12345)\t97%; charging; 1:23 remaining present: true\n"
    );
    assert_eq!(
        pmset::parse(&out),
        Some(Battery {
            percent: pct(97.0),
            state: State::Charging,
        })
    );
}

#[test]
fn pmset_parses_a_discharging_laptop() {
    let out = "Now drawing from 'Battery Power'\n \
               -InternalBattery-0 (id=12345)\t41%; discharging; 2:05 remaining present: true\n";
    assert_eq!(
        pmset::parse(out),
        Some(Battery {
            percent: pct(41.0),
            state: State::Discharging,
        })
    );
}

#[test]
fn pmset_charged_and_finishing_charge_are_both_full() {
    let charged = format!(
        "{PMSET_HEADER} -InternalBattery-0 (id=12345)\t100%; charged; 0:00 remaining present: true\n"
    );
    assert_eq!(
        pmset::parse(&charged),
        Some(Battery {
            percent: pct(100.0),
            state: State::Full,
        })
    );

    let finishing = format!(
        "{PMSET_HEADER} -InternalBattery-0 (id=12345)\t99%; finishing charge; 0:04 remaining present: true\n"
    );
    assert_eq!(
        pmset::parse(&finishing),
        Some(Battery {
            percent: pct(99.0),
            state: State::Full,
        })
    );
}

#[test]
fn pmset_ac_attached_is_not_charging() {
    let out = format!(
        "{PMSET_HEADER} -InternalBattery-0 (id=12345)\t80%; AC attached; not charging present: true\n"
    );
    assert_eq!(
        pmset::parse(&out),
        Some(Battery {
            percent: pct(80.0),
            state: State::NotCharging,
        })
    );
}

#[test]
fn pmset_unknown_state_word_still_reports_the_percentage() {
    let out = format!(
        "{PMSET_HEADER} -InternalBattery-0 (id=12345)\t55%; hibernating; 0:00 remaining present: true\n"
    );
    assert_eq!(
        pmset::parse(&out),
        Some(Battery {
            percent: pct(55.0),
            state: State::Unknown,
        })
    );
}

#[test]
fn pmset_desktop_output_has_no_battery() {
    assert_eq!(pmset::parse(PMSET_HEADER), None);
}

#[test]
fn pmset_absent_pack_is_no_battery() {
    let out = format!(
        "{PMSET_HEADER} -InternalBattery-0 (id=12345)\t0%; discharging; 0:00 remaining present: false\n"
    );
    assert_eq!(pmset::parse(&out), None);
}

#[test]
fn pmset_skips_an_absent_pack_and_takes_the_next_present_one() {
    let out = format!(
        "{PMSET_HEADER}\
         -InternalBattery-0 (id=12345)\t0%; discharging; 0:00 remaining present: false\n\
         -InternalBattery-1 (id=67890)\t64%; discharging; 3:11 remaining present: true\n"
    );
    assert_eq!(
        pmset::parse(&out),
        Some(Battery {
            percent: pct(64.0),
            state: State::Discharging,
        })
    );
}

#[test]
fn pmset_garbage_input_is_no_battery() {
    assert_eq!(pmset::parse(""), None);
    assert_eq!(pmset::parse("\n\n\t \n"), None);
    assert_eq!(pmset::parse("command not found: pmset"), None);
    assert_eq!(
        pmset::parse(" -InternalBattery-0 (id=12345)\t; charging; present: true"),
        None
    );
    assert_eq!(
        pmset::parse(" -InternalBattery-0 (id=12345)\tNaN%; charging; present: true"),
        None
    );
}

#[test]
fn pmset_clamps_an_over_hundred_percent_pack() {
    let out =
        format!("{PMSET_HEADER} -InternalBattery-0 (id=12345)\t103%; charged; present: true\n");
    assert_eq!(pmset::parse(&out).unwrap().percent, pct(100.0));
}

// ---- Windows: the SYSTEM_POWER_STATUS mapper ----------------------------

#[test]
fn windows_no_system_battery_flag_hides_the_metric() {
    assert_eq!(power_status::map(1, 128, 255), None);
    assert_eq!(power_status::map(1, 128 | 1, 100), None);
    assert_eq!(power_status::map(0, 128 | 8, 50), None);
}

#[test]
fn windows_unknown_flag_reports_the_percentage_with_an_unknown_state() {
    assert_eq!(
        power_status::map(1, 255, 73),
        Some(Battery {
            percent: pct(73.0),
            state: State::Unknown,
        })
    );
    assert_eq!(power_status::map(0, 255, 73).unwrap().state, State::Unknown);
}

#[test]
fn windows_unknown_percentage_hides_the_metric() {
    assert_eq!(power_status::map(0, 1, 255), None);
    assert_eq!(power_status::map(1, 8, 255), None);
}

#[test]
fn windows_ac_offline_is_discharging() {
    assert_eq!(
        power_status::map(0, 4, 17),
        Some(Battery {
            percent: pct(17.0),
            state: State::Discharging,
        })
    );
    assert_eq!(
        power_status::map(0, 1, 100).unwrap().state,
        State::Discharging
    );
}

#[test]
fn windows_ac_online_is_charging_until_it_is_full() {
    assert_eq!(
        power_status::map(1, 8, 64),
        Some(Battery {
            percent: pct(64.0),
            state: State::Charging,
        })
    );
    assert_eq!(
        power_status::map(1, 1, 100),
        Some(Battery {
            percent: pct(100.0),
            state: State::Full,
        })
    );
}

#[test]
fn windows_unknown_ac_line_is_unknown() {
    assert_eq!(
        power_status::map(255, 1, 30),
        Some(Battery {
            percent: pct(30.0),
            state: State::Unknown,
        })
    );
}

#[test]
fn the_first_pack_by_name_decides_without_a_signal() {
    let mut root = Vec::new();
    supply_dir(
        &mut root,
        "BAT1",
        &[("type", "Battery"), ("capacity", "40"), ("status", "Full")],
    );
    supply_dir(
        &mut root,
        "BAT0",
        &[("type", "Battery"), ("capacity", "41"), ("status", "Not charging")],
    );
    let reading = read_tree(&root).expect("a battery");
    assert_eq!(reading.state, State::NotCharging);
    assert_eq!(reading.percent, pct(40.5));
}

#[test]
fn pmset_output_is_read_as_bytes() {
    let out = b"Now drawing from 'AC Power'\n -InternalBattery-0 (id=\xff)\t97%; charging; 1:23 remaining present: true\n";
    assert_eq!(
        pmset::parse_output(&out.to_vec()),
        Some(Battery {
            percent: pct(97.0),
            state: State::Charging,
        })
    );
    assert_eq!(pmset::parse_output(&Vec::new()), None);
}

#[test]
fn a_charge_of_any_size_is_a_share_of_its_own_capacity() {
    let read = |now: &str, full: &str| {
        let mut root = Vec::new();
        supply_dir(
            &mut root,
            "BAT0",
            &[
                ("type", "Battery"),
                ("energy_now", now),
                ("energy_full", full),
            ],
        );
        read_tree(&root).map(|b| b.percent)
    };
    assert_eq!(read("1e25", "2e25"), Some(pct(50.0)));
    assert_eq!(read("1e300", "3e300"), Some(pct(100.0 * 1e300 / 3e300)));
    assert_eq!(read("1e-300", "3e-300"), Some(pct(100.0 * 1e-300 / 3e-300)));
    assert_eq!(read("1", "3"), Some(pct(100.0 * 1.0 / 3.0)));
    assert_eq!(read("1e308", "1.5e308"), None);
    assert_eq!(read("2e308", "3e308"), None);
}

#[test]
fn unequal_packs_are_summed_as_they_are_written() {
    let packs = vec![
        supply(90.0, State::Full, Some((0.1, 0.3))),
        supply(10.0, State::Full, Some((0.2, 0.7))),
    ];
    let joint = sysfs::aggregate(&packs).expect("a reading");
    assert_eq!(joint.percent, pct(100.0 * (0.1 + 0.2) / (0.3 + 0.7)));
    let bare = vec![
        supply(33.3, State::Full, None),
        supply(66.7, State::Full, None),
        supply(10.1, State::Full, None),
    ];
    let mean = sysfs::aggregate(&bare).expect("a reading");
    assert_eq!(mean.percent, pct((33.3 + 66.7 + 10.1) / 3.0));
}
