use space_usage::disk::{
    from_blocks, from_bytes, from_volume, normalize_mount, read, Disk,
};
use space_usage::double::Double;
use space_usage::units::Percent;

/// One gigabyte, in bytes.
const GB: f64 = 1024.0 * 1024.0 * 1024.0;

/// A double as the library holds it.
fn dbl(x: f64) -> Double {
    let bits = x.to_bits();
    let negative = x.is_sign_negative();
    let digits = bits & 0xf_ffff_ffff_ffff;
    match (bits >> 52) & 0x7ff {
        0x7ff if digits == 0 => Double::Infinite { negative },
        0x7ff => Double::NotANumber,
        0 => Double::Finite {
            negative,
            digits,
            power: 0,
        },
        exponent => Double::Finite {
            negative,
            digits: digits | 0x10_0000_0000_0000,
            power: (exponent - 1) as u16,
        },
    }
}

fn reading(name: &str, free: f64, used: f64, total: f64) -> Option<Disk> {
    from_bytes(name, dbl(free), dbl(used), dbl(total))
}

/// A double of the library as it is.
fn val(d: Double) -> f64 {
    match d {
        Double::NotANumber => f64::NAN,
        Double::Infinite { negative: true } => f64::NEG_INFINITY,
        Double::Infinite { negative: false } => f64::INFINITY,
        Double::Finite {
            negative,
            digits,
            power,
        } => {
            let exponent = if digits < 0x10_0000_0000_0000 { 0 } else { power as u64 + 1 };
            let sign = (negative as u64) << 63;
            f64::from_bits(sign | (exponent << 52) | (digits & 0xf_ffff_ffff_ffff))
        }
    }
}

fn percent(p: Percent) -> f64 {
    val(p.value)
}

#[test]
fn from_bytes_converts_to_mb_and_keeps_the_name() {
    let disk = reading("/", 231.0 * GB, 281.0 * GB, 512.0 * GB).expect("a readable fs");
    assert_eq!(disk.name, "/");
    assert_eq!(val(disk.free_mb), 231.0 * 1024.0);
    assert_eq!(val(disk.used_mb), 281.0 * 1024.0);
    assert_eq!(val(disk.total_mb), 512.0 * 1024.0);
    assert!((percent(disk.used_percent()) - 54.883).abs() < 0.01, "{disk:?}");
}

#[test]
fn used_percent_divides_by_what_the_user_can_touch_like_df_does() {
    let disk = reading("/", 382.0 * GB, 1372.0 * GB, 1832.0 * GB).expect("a readable fs");
    assert_eq!(percent(disk.used_percent()).round(), 78.0);
    assert_ne!((100.0 * val(disk.used_mb) / val(disk.total_mb)).round(), 78.0);
}

#[test]
fn used_percent_covers_both_ends_and_an_unusable_filesystem() {
    let disk = |free: f64, used: f64| {
        percent(
            reading("/", free * GB, used * GB, 512.0 * GB)
                .expect("a readable fs")
                .used_percent(),
        )
    };
    assert_eq!(disk(512.0, 0.0), 0.0, "an empty disk is 0% used");
    assert_eq!(disk(0.0, 512.0), 100.0, "a full disk is 100% used");
    assert_eq!(disk(0.0, 0.0), 0.0);
}

#[test]
fn from_bytes_rejects_a_filesystem_with_no_size() {
    assert_eq!(reading("/proc", 0.0, 0.0, 0.0), None);
    assert_eq!(reading("/weird", 10.0 * GB, 0.0, -1.0), None);
}

#[test]
fn from_bytes_rejects_non_numbers() {
    assert_eq!(reading("/", f64::NAN, 0.0, GB), None);
    assert_eq!(reading("/", GB, f64::NAN, GB), None);
    assert_eq!(reading("/", GB, 0.0, f64::NAN), None);
    assert_eq!(reading("/", f64::INFINITY, 0.0, GB), None);
    assert_eq!(reading("/", GB, 0.0, f64::INFINITY), None);
}

#[test]
fn from_bytes_pins_both_figures_into_the_size() {
    let over = reading("/", 600.0 * GB, 0.0, 512.0 * GB).expect("clamped, not dropped");
    assert_eq!(over.free_mb, over.total_mb);
    assert_eq!(percent(over.used_percent()), 0.0);

    let under = reading("/", -5.0 * GB, 600.0 * GB, 512.0 * GB).expect("clamped");
    assert_eq!(val(under.free_mb), 0.0);
    assert_eq!(under.used_mb, under.total_mb);
    assert_eq!(percent(under.used_percent()), 100.0);
}

#[test]
fn read_of_nothing_is_no_readings() {
    assert_eq!(read(Vec::new()), Vec::new());
}

#[test]
fn read_keeps_the_selection_order() {
    let a = reading("/a", GB, GB, 2.0 * GB);
    let b = reading("/b", GB, GB, 4.0 * GB);
    let names: Vec<String> = read(vec![b, None, a])
        .into_iter()
        .map(|d| d.name)
        .collect();
    assert_eq!(names, ["/b", "/a"]);
}

#[test]
fn a_filesystems_blocks_make_a_reading() {
    let disk = from_blocks("/", 4096, 512, 1000, 400, 350).expect("a readable fs");
    assert_eq!(val(disk.total_mb), 4_096_000.0 / 1_048_576.0);
    assert_eq!(val(disk.used_mb), 600.0 * 4096.0 / 1_048_576.0);
    assert_eq!(val(disk.free_mb), 350.0 * 4096.0 / 1_048_576.0);
    let unsized_fragments = from_blocks("/", 0, 512, 1000, 400, 350).expect("a readable fs");
    assert_eq!(val(unsized_fragments.total_mb), 512_000.0 / 1_048_576.0);
    assert_eq!(from_blocks("/proc", 4096, 4096, 0, 0, 0), None);
    let huge = from_blocks("/", u64::MAX, 0, u64::MAX, 0, 1).expect("a readable fs");
    assert_eq!(
        val(huge.total_mb),
        u64::MAX as f64 * u64::MAX as f64 / 1_048_576.0
    );
}

#[test]
fn a_volumes_counters_make_a_reading() {
    let disk = from_volume("C:", 30, 100, 40).expect("a readable volume");
    for (figure, bytes) in [(disk.free_mb, 30.0), (disk.used_mb, 60.0), (disk.total_mb, 100.0)] {
        assert_eq!(val(figure), bytes / 1_048_576.0);
    }
    assert_eq!(from_volume("C:", 0, 0, 0), None);
}

#[test]
fn a_bare_drive_letter_becomes_a_root_directory() {
    let normalize = normalize_mount;
    assert_eq!(normalize("C:"), "C:\\");
    assert_eq!(normalize("c"), "c:\\");
    assert_eq!(normalize(" D: "), "D:\\");
}

#[test]
fn a_real_path_is_passed_through_untouched() {
    let normalize = normalize_mount;
    assert_eq!(normalize("C:\\"), "C:\\");
    assert_eq!(normalize("D:\\data"), "D:\\data");
    assert_eq!(normalize("\\\\server\\share\\"), "\\\\server\\share\\");
    assert_eq!(normalize("/"), "/");
    assert_eq!(normalize("/home"), "/home");
    assert_eq!(normalize(""), "");
}

#[test]
fn a_mount_written_out_stays_as_it_is() {
    for mount in ["C:", "c", " /home ", ""] {
        let once = normalize_mount(mount);
        assert_eq!(normalize_mount(&once), once);
    }
}

#[test]
fn used_percent_is_worked_out_as_the_doubles_come_out() {
    for (free, used) in [(1.0, 3.0), (382.7, 1372.1), (1e-3, 7.0), (5e9, 1e10)] {
        let disk = reading("/", free * GB, used * GB, 1e12 * GB).expect("a readable fs");
        let (free_mb, used_mb) = (free * GB / 1_048_576.0, used * GB / 1_048_576.0);
        assert_eq!(
            percent(disk.used_percent()),
            (100.0 * used_mb / (used_mb + free_mb)).clamp(0.0, 100.0)
        );
    }
}

#[test]
fn a_drive_of_any_figures_is_clamped_as_doubles_are() {
    for free in [0.0, 1.0, -1.0, 1e308, f64::INFINITY, f64::NAN] {
        for used in [0.0, 1.0, -1.0, 1e308, f64::INFINITY, f64::NAN] {
            let disk = Disk {
                name: "/".to_string(),
                free_mb: dbl(free),
                used_mb: dbl(used),
                total_mb: dbl(1.0),
            };
            let usable = used + free;
            let want = if usable <= 0.0 {
                0.0
            } else {
                (100.0 * used / usable).clamp(0.0, 100.0)
            };
            assert_eq!(disk.used_percent().value, dbl(want), "{free} {used}");
        }
    }
}
