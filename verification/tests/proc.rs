use std::collections::{HashMap, HashSet};

use space_usage::double::Double;
use space_usage::proc::{nproc, ram_pct, rss_bytes, scan_proc, subtrees, ProcRow};
use space_usage::proc_linux::{parse_mem_total, parse_stat, parse_statm};
use space_usage::proc_macos::{
    self, c_str_field, image_name, list_pids, list_start, list_step, pick_name, task_ticks,
    Listing,
};
use space_usage::proc_windows::{
    self, cpu_ticks, filetime_ticks, process_image_name, ImageRow,
};
use space_usage::proc::ProcEntry;
use space_usage::units::in_megabytes;

fn diamond() -> HashMap<u32, Vec<u32>> {
    let mut kids: HashMap<u32, Vec<u32>> = HashMap::new();
    kids.insert(1, vec![2, 3]);
    kids.insert(2, vec![4]);
    kids.insert(3, vec![4]);
    kids.insert(4, vec![1]);
    kids.insert(999, vec![6]);
    kids
}

fn synthetic() -> HashMap<u32, ProcEntry> {
    [(1, 0), (2, 1), (3, 1), (4, 2), (5, 4), (6, 999)]
        .into_iter()
        .map(|(pid, ppid)| (pid, ProcEntry { ppid, jiffies: 0 }))
        .collect()
}

/// A double as the library holds it.
fn dbl(x: f64) -> Double {
    let bits = x.to_bits();
    let negative = x.is_sign_negative();
    let digits = bits & 0xf_ffff_ffff_ffff;
    match (bits >> 52) & 0x7ff {
        0x7ff if digits == 0 => Double::Infinite { negative },
        0x7ff => Double::NotANumber,
        0 => Double::Finite {
            negative,
            digits,
            power: 0,
        },
        exponent => Double::Finite {
            negative,
            digits: digits | 0x10_0000_0000_0000,
            power: (exponent - 1) as u16,
        },
    }
}

/// Megabytes.
fn mb(x: f64) -> Double {
    dbl(x)
}

#[test]
fn proc_macos_subtree_walks_descendants_with_dedup_and_cycle_safety() {
    let got = proc_macos::subtree(1, &diamond());
    assert_eq!(got, HashSet::from([1, 2, 3, 4]));
}

#[test]
fn proc_windows_subtree_walks_descendants_with_dedup_and_cycle_safety() {
    let got = proc_windows::subtree(1, &diamond());
    assert_eq!(got, HashSet::from([1, 2, 3, 4]));
}

#[test]
fn proc_macos_children_map_then_subtree_over_synthetic_procs() {
    let kids = proc_macos::children_map(&synthetic());
    assert_eq!(proc_macos::subtree(1, &kids), HashSet::from([1, 2, 3, 4, 5]));
}

#[test]
fn proc_windows_children_map_then_subtree_over_synthetic_procs() {
    let kids = proc_windows::children_map(&synthetic());
    assert_eq!(
        proc_windows::subtree(1, &kids),
        HashSet::from([1, 2, 3, 4, 5])
    );
}

#[test]
fn several_roots_share_one_walk() {
    assert_eq!(
        subtrees(&vec![2, 999, 7], &diamond()),
        HashSet::from([1, 2, 3, 4, 999, 6, 7])
    );
    assert_eq!(subtrees(&vec![], &diamond()), HashSet::new());
}

#[test]
fn proc_macos_ram_pct_math_rounds_and_guards_zero_total() {
    assert_eq!(ram_pct(mb(1024.0), mb(16384.0)), "6%");
    assert_eq!(ram_pct(mb(250.0), mb(10000.0)), "3%");
    assert_eq!(ram_pct(mb(16384.0), mb(16384.0)), "100%");
    assert_eq!(ram_pct(mb(512.0), mb(0.0)), "");
}

#[test]
fn proc_windows_ram_pct_math_rounds_and_guards_zero_total() {
    assert_eq!(proc_windows::ram_pct(mb(1024.0), mb(16384.0)), "6%");
    assert_eq!(proc_windows::ram_pct(mb(250.0), mb(10000.0)), "3%");
    assert_eq!(proc_windows::ram_pct(mb(16384.0), mb(16384.0)), "100%");
    assert_eq!(proc_windows::ram_pct(mb(512.0), mb(0.0)), "");
}

#[test]
fn cpu_unit_is_nanoseconds() {
    assert_eq!(proc_macos::clk_tck(), 1_000_000_000);
}

#[test]
fn a_file_time_counts_in_hundreds_of_nanoseconds() {
    assert_eq!(proc_windows::clk_tck(), 10_000_000);
    assert_eq!(filetime_ticks(1, 2), 4_294_967_298);
    assert_eq!(filetime_ticks(u32::MAX, u32::MAX), u64::MAX);
    assert_eq!(cpu_ticks(3, 4), 7);
    assert_eq!(cpu_ticks(u64::MAX, 4), u64::MAX);
    assert_eq!(task_ticks(3, 4), 7);
}

/// A fixed-width C string field holding `text`, NUL-padded, or flush to the edge
/// without a terminator when `text` is exactly `width` long.
fn field(text: &str, width: usize) -> Vec<i8> {
    let mut out: Vec<i8> = text.bytes().map(|b| b as i8).collect();
    out.resize(width, 0);
    out
}

#[test]
fn c_str_field_stops_at_nul_and_tolerates_no_terminator() {
    assert_eq!(c_str_field(&field("bash", 16)), "bash");
    assert_eq!(
        c_str_field(&field("exactly-16-chars", 16)),
        "exactly-16-chars"
    );
    let mut padded = field("zsh", 16);
    padded[8] = b'X' as i8;
    assert_eq!(c_str_field(&padded), "zsh");
    assert_eq!(c_str_field(&field("", 16)), "");
    assert_eq!(c_str_field(&field("caf\u{e9}", 16)), "caf\u{e9}");
    assert_eq!(c_str_field(&[b'a' as i8, -1, b'b' as i8]), "a\u{fffd}b");
}

#[test]
fn image_name_prefers_p_name_and_falls_back_to_comm() {
    assert_eq!(
        image_name(&field("space-usage", 32), &field("space-usage", 16)),
        Some("space-usage".to_string())
    );
    assert_eq!(
        image_name(&field("", 32), &field("kernel_task", 16)),
        Some("kernel_task".to_string())
    );
    assert_eq!(image_name(&field("", 32), &field("", 16)), None);
    assert_eq!(
        pick_name(String::new(), "comm".to_string()),
        Some("comm".to_string())
    );
}

#[test]
fn a_windows_image_name_is_read_out_of_the_snapshot() {
    let row = |pid, text: &str| ImageRow {
        pid,
        file: text.encode_utf16().chain([0, 88]).collect(),
    };
    let rows = vec![row(1, "a.exe"), row(7, "\u{1f50b}.exe")];
    assert_eq!(process_image_name(&rows, 1), Some("a.exe".to_string()));
    assert_eq!(
        process_image_name(&rows, 7),
        Some("\u{1f50b}.exe".to_string())
    );
    assert_eq!(process_image_name(&rows, u32::MAX), None);
}

#[test]
fn a_surrogate_without_its_partner_is_replaced() {
    let name = |file: &[u16]| {
        let rows = vec![ImageRow {
            pid: 3,
            file: file.to_vec(),
        }];
        process_image_name(&rows, 3)
    };
    assert_eq!(
        name(&[0xd83d, 0xdd0b, 0x61]),
        Some("\u{1f50b}a".to_string())
    );
    assert_eq!(name(&[0xd83d, 0x61]), Some("\u{fffd}a".to_string()));
    assert_eq!(name(&[0xdd0b, 0x61]), Some("\u{fffd}a".to_string()));
    assert_eq!(
        name(&[0xd83d, 0xd83d, 0xdd0b]),
        Some("\u{fffd}\u{1f50b}".to_string())
    );
    assert_eq!(name(&[0x61, 0xd83d]), Some("a\u{fffd}".to_string()));
    assert_eq!(
        name(&[0xdbff, 0xdfff, 0xe000]),
        Some("\u{10ffff}\u{e000}".to_string())
    );
}

#[test]
fn a_pid_buffer_that_comes_back_full_is_grown() {
    let mut at = list_start();
    at = list_step(at, 100);
    assert_eq!(
        at,
        Listing::Fill {
            capacity: 132,
            attempts: 3
        }
    );
    at = list_step(at, 132);
    assert_eq!(
        at,
        Listing::Size {
            capacity: 264,
            attempts: 3
        }
    );
    at = list_step(at, 101);
    at = list_step(at, 110);
    assert_eq!(at, Listing::Done { count: 110 });
    assert_eq!(list_step(list_start(), 0), Listing::Failed);
    assert_eq!(list_pids(&vec![3, 0, -1, 9, 4], 4), [3, 9]);

    let mut never = list_start();
    for _ in 0..4 {
        never = list_step(never, 1000);
        never = list_step(never, i32::MAX);
    }
    assert_eq!(list_step(never, 1000), Listing::Failed);
}

#[test]
fn a_listing_becomes_a_table_that_keeps_unreadable_times() {
    let row = |pid, ppid, ticks| ProcRow { pid, ppid, ticks };
    let table = scan_proc(&vec![
        row(0, Some(0), Some(9)),
        row(1, Some(0), None),
        row(2, None, Some(5)),
        row(3, Some(1), Some(5)),
    ]);
    assert_eq!(table.len(), 2);
    assert_eq!(
        table.get(&1),
        Some(&ProcEntry {
            ppid: 0,
            jiffies: 0
        })
    );
    assert_eq!(
        table.get(&3),
        Some(&ProcEntry {
            ppid: 1,
            jiffies: 5
        })
    );
    assert_eq!(nproc(0), 1);
    assert_eq!(nproc(8), 8);
    assert_eq!(rss_bytes(&vec![Some(3), None, Some(4)]), 7);
    assert_eq!(rss_bytes(&vec![Some(u64::MAX), Some(4)]), u64::MAX);
}

#[test]
fn the_text_under_proc_is_read() {
    let stat = "42 (a) b) (c) S 7 42 42 0 -1 4194304 1 2 3 4 150 25 0 0 20 0 1 0 9 1 2";
    assert_eq!(
        parse_stat(stat),
        Some(ProcEntry {
            ppid: 7,
            jiffies: 175
        })
    );
    assert_eq!(parse_stat("42 (a) S 7"), None);
    assert_eq!(parse_stat(""), None);
    assert_eq!(parse_statm("100 25 3 4 0 6 0\n", 4096), Some(102_400));
    assert_eq!(parse_statm("100", 4096), None);
    assert_eq!(
        parse_mem_total("MemFree: 1 kB\nMemTotal:       16384 kB\nMemTotal: 1 kB\n"),
        16_777_216
    );
    assert_eq!(parse_mem_total("MemFree: 1 kB\n"), 0);
}

#[test]
fn bytes_convert_to_mebibytes() {
    assert_eq!(in_megabytes(0), dbl(0.0));
    assert_eq!(in_megabytes(1024 * 1024), dbl(1.0));
    assert_eq!(in_megabytes(16 * 1024 * 1024 * 1024), dbl(16384.0)); // 16 GiB
    assert_eq!(in_megabytes(512 * 1024), dbl(0.5));
}
