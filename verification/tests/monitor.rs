use space_usage::monitor::{
    executable_names, resolve_among, resolve_with, start_failed, CANDIDATES, PORTABLE_CANDIDATES,
};

// ---- what to run ---------------------------------------------------------

#[test]
fn a_configured_monitor_wins_over_anything_installed() {
    let argv = resolve_with(Some("htop -t"), |_: &str| true).expect("configured");
    assert_eq!(argv, vec!["htop".to_string(), "-t".to_string()]);
}

#[test]
fn a_configured_monitor_is_run_even_when_it_is_not_installed() {
    let argv = resolve_with(Some("mymon"), |_: &str| false).expect("configured");
    assert_eq!(argv, vec!["mymon".to_string()]);
}

#[test]
fn a_blank_setting_reads_as_unset_rather_than_as_a_command() {
    for blank in ["", "   ", "\t"] {
        let argv = resolve_with(Some(blank), |p: &str| p == CANDIDATES[0]).expect("detected");
        assert_eq!(argv, vec![CANDIDATES[0].to_string()], "{blank:?}");
    }
}

#[test]
fn detection_takes_the_first_candidate_present() {
    let last = *CANDIDATES.last().expect("a candidate");
    assert_eq!(
        resolve_with(None, |_: &str| true).expect("detected"),
        vec![CANDIDATES[0].to_string()],
    );
    assert_eq!(
        resolve_with(None, |p: &str| p == last).expect("detected"),
        vec![last.to_string()],
    );
}

#[test]
fn nothing_installed_is_an_error_that_names_the_way_out() {
    let err = resolve_with(None, |_: &str| false)
        .expect_err("no monitor")
        .to_string();
    for candidate in CANDIDATES {
        assert!(err.contains(candidate), "{candidate} missing from: {err}");
    }
    assert!(err.contains("system_monitor"), "no way out in: {err}");
}

#[test]
fn the_message_names_what_was_looked_for() {
    assert_eq!(
        resolve_among(&PORTABLE_CANDIDATES, None, |_: &str| false),
        Err(
            "no system monitor installed — looked for btop, htop on PATH. Install one, or name \
             yours with `system_monitor = \"...\"` in the plugin's config.toml."
                .to_string()
        )
    );
    assert_eq!(
        start_failed(&vec!["htop".to_string(), "-t".to_string()], "no such file"),
        "cannot start `htop -t`: no such file"
    );
}

#[test]
fn an_executable_goes_by_its_bare_name_and_each_suffix() {
    assert_eq!(
        executable_names("btop", None),
        ["btop", "btop.COM", "btop.EXE", "btop.BAT", "btop.CMD"]
    );
    assert_eq!(
        executable_names("btop", Some(" .exe ;cmd;.")),
        ["btop", "btop.exe", "btop"]
    );
}
