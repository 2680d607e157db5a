//! What holds of every config text.

use vstd::arithmetic::power2::lemma_pow2_pos;
use vstd::prelude::*;

use crate::config::{
    claim_name, config_of, default_config, drives, herdr_labels, herdr_lines, is_key_char,
    key_value, lines_applied, names_pid_file, no_labels, section_of, setting_applied, ConfigView,
    Reading, MAX_INTERVAL_SECONDS,
};
use crate::double::{
    as_u64, lemma_whole, lemma_whole_back, lemma_worth_zero, less_than, one, whole, worth, Double,
    DIGITS_END,
};
use crate::number::{lemma_whole_number, number_of};
use crate::text::{
    digits, is_digit, is_white, lemma_digits_round_trip, lemma_find_at, lemma_split_concat,
    lemma_split_whole, lemma_trim_core, lemma_trim_end, lemma_trim_push_white, split, trim,
    trim_end, trim_start,
};

verus! {

/// What one line leaves untouched keeps a property that every setting keeps.
proof fn lemma_lines_keep(base: ConfigView, lines: Seq<Seq<char>>, p: spec_fn(ConfigView) -> bool)
    requires
        p(base),
        forall|c: ConfigView, k: Seq<char>, v: Seq<char>|
            p(c) ==> p(#[trigger] setting_applied(c, k, v)),
    ensures
        p(lines_applied(base, lines)),
    decreases lines.len(),
{
    if lines.len() > 0 {
        lemma_lines_keep(base, lines.drop_last(), p);
        let before = lines_applied(base, lines.drop_last());
        if let Some((k, v)) = key_value(lines.last()) {
            assert(p(setting_applied(before, k, v)));
        }
    }
}

/// Whatever the file says, the interval is at least a second and never past the
/// cap.
pub proof fn law_interval_is_in_range(text: Seq<char>)
    ensures
        1 <= config_of(text).interval_seconds <= MAX_INTERVAL_SECONDS,
{
    let p = |c: ConfigView| 1 <= c.interval_seconds <= MAX_INTERVAL_SECONDS;
    assert forall|c: ConfigView, k: Seq<char>, v: Seq<char>| p(c) implies p(
        #[trigger] setting_applied(c, k, v),
    ) by {
        if let Some(n) = number_of(v) {
            if !(n is NotANumber) && !less_than(n, whole(1)) {
                lemma_at_least_one(n);
            }
        }
    }
    lemma_lines_keep(default_config(), split(text, '\n'), p);
}

/// What is not below one holds a whole one.
proof fn lemma_at_least_one(n: Double)
    requires
        !(n is NotANumber),
        !less_than(n, whole(1)),
    ensures
        as_u64(n) >= 1,
{
    let u = one();
    lemma_pow2_pos(1074);
    lemma_whole(1);
    if let Double::Finite { negative, digits, power } = n {
        let w = worth(digits as int, power as int);
        lemma_worth_zero(digits as int, power as int);
        assert(w >= u);
        vstd::arithmetic::div_mod::lemma_div_is_ordered(u, w, u);
        vstd::arithmetic::div_mod::lemma_div_by_self(u);
    }
}

proof fn lemma_drives(parts: Seq<Seq<char>>)
    ensures
        drives(parts).no_duplicates(),
        forall|i: int| 0 <= i < drives(parts).len() ==> (#[trigger] drives(parts)[i]).len() > 0,
    decreases parts.len(),
{
    if parts.len() > 0 {
        lemma_drives(parts.drop_last());
        let before = drives(parts.drop_last());
        let drive = trim(parts.last());
        if drive.len() > 0 && !before.contains(drive) {
            let now = before.push(drive);
            assert forall|i: int, j: int| 0 <= i < now.len() && 0 <= j < now.len() && i != j
                implies now[i] != now[j] by {
                if i < before.len() && j < before.len() {
                    assert(before[i] != before[j]);
                } else if i < before.len() {
                    assert(before.contains(before[i]));
                } else {
                    assert(before.contains(before[j]));
                }
            }
        }
    }
}

/// Whatever the file says, there is a drive to show, none is blank, and none is
/// listed twice.
pub proof fn law_drives_are_distinct(text: Seq<char>)
    ensures
        config_of(text).disks.len() > 0,
        config_of(text).disks.no_duplicates(),
        forall|i: int|
            0 <= i < config_of(text).disks.len() ==> (#[trigger] config_of(text).disks[i]).len()
                > 0,
{
    let p = |c: ConfigView|
        c.disks.len() > 0 && c.disks.no_duplicates() && forall|i: int|
            0 <= i < c.disks.len() ==> (#[trigger] c.disks[i]).len() > 0;
    assert forall|c: ConfigView, k: Seq<char>, v: Seq<char>| p(c) implies p(
        #[trigger] setting_applied(c, k, v),
    ) by {
        lemma_drives(split(v, ','));
    }
    reveal_strlit("/");
    lemma_lines_keep(default_config(), split(text, '\n'), p);
}

proof fn lemma_lines_concat(base: ConfigView, a: Seq<Seq<char>>, b: Seq<Seq<char>>)
    ensures
        lines_applied(base, a + b) == lines_applied(lines_applied(base, a), b),
    decreases b.len(),
{
    if b.len() == 0 {
        assert(a + b =~= a);
    } else {
        lemma_lines_concat(base, a, b.drop_last());
        assert((a + b).drop_last() =~= a + b.drop_last());
        assert((a + b).last() == b.last());
    }
}

/// A file is read from the top down: what follows is read on top of what came
/// before, so the last setting of a key wins.
pub proof fn law_later_lines_win(first: Seq<char>, rest: Seq<char>)
    ensures
        config_of(first.push('\n') + rest) == lines_applied(config_of(first), split(rest, '\n')),
{
    lemma_split_concat(first, rest, '\n');
    lemma_lines_concat(default_config(), split(first, '\n'), split(rest, '\n'));
}

/// A setting written as `key = "value"` is read back as it was written, spaces
/// and comment marks and all.
pub proof fn law_quoted_setting_is_read_back(key: Seq<char>, value: Seq<char>, tail: Seq<char>)
    requires
        key.len() > 0,
        forall|i: int| 0 <= i < key.len() ==> is_key_char(#[trigger] key[i]),
        !value.contains('"'),
    ensures
        key_value(key + " = \""@ + value + "\""@ + tail) == Some((key, value)),
{
    reveal_strlit(" = \"");
    reveal_strlit("\"");
    let line = key + " = \""@ + value + "\""@ + tail;
    let n = key.len() as int;
    assert forall|j: int| 0 <= j < n + 1 implies line[j] != '=' by {
        if j < n {
            assert(line[j] == key[j]);
            assert(is_key_char(key[j]));
        }
    }
    assert(line[n + 1] == '=');
    lemma_find_at(line, '=', n + 1);
    assert(line.take(n + 1) =~= key.push(' '));
    lemma_trim_push_white(key, ' ');
    assert(is_key_char(key[0]));
    assert(is_key_char(key[n - 1]));
    lemma_trim_core(key);
    let right = line.skip(n + 2);
    assert(right[0] == ' ');
    assert(right[1] == '"');
    let rest = right.drop_first();
    assert(trim_start(rest) == rest);
    assert(trim_start(right) == rest);
    lemma_trim_end(rest);
    let kept = trim_end(rest);
    let m = value.len() as int;
    assert(rest[m + 1] == '"');
    if kept.len() <= m + 1 {
        assert(is_white(rest.skip(kept.len() as int)[m + 1 - kept.len()]));
    }
    assert(kept == rest.take(kept.len() as int));
    let body = kept.drop_first();
    assert forall|j: int| 0 <= j < m implies body[j] != '"' by {
        assert(body[j] == value[j]);
    }
    assert(body[m] == '"');
    lemma_find_at(body, '"', m);
    assert(body.take(m) =~= value);
}

/// A whole number of seconds is read back as written, up to the cap.
pub proof fn law_whole_interval_is_read_back(n: int)
    requires
        1 <= n,
    ensures
        config_of("interval_seconds = "@ + digits(n)).interval_seconds == if n
            < MAX_INTERVAL_SECONDS {
            n
        } else {
            MAX_INTERVAL_SECONDS as int
        },
{
    reveal_strlit("interval_seconds = ");
    reveal_strlit("interval_seconds");
    reveal_strlit("mode");
    reveal_strlit("#");
    let key = "interval_seconds"@;
    let d = digits(n);
    let line = "interval_seconds = "@ + d;
    lemma_digits_round_trip(n);
    assert forall|j: int| 0 <= j < d.len() implies is_digit(#[trigger] d[j]) by {}
    assert(line.take(16) =~= key);
    assert forall|j: int| 0 <= j < 16 implies is_key_char(#[trigger] key[j]) by {}
    assert forall|j: int| 0 <= j < line.len() implies line[j] != '\n' by {
        if j >= 19 {
            assert(line[j] == d[j - 19]);
        }
    }
    lemma_split_whole(line, '\n');
    let lines = seq![line];
    assert(lines.drop_last() =~= seq![]);
    assert(lines.last() == line);
    assert(lines_applied(default_config(), lines.drop_last()) == default_config());
    assert(!is_white(line[0]));
    assert(trim_start(line) == line);
    assert(line[17] == '=');
    lemma_find_at(line, '=', 17);
    assert(line.take(17) =~= key.push(' '));
    lemma_trim_push_white(key, ' ');
    lemma_trim_core(key);
    let right = line.skip(18);
    assert(right[0] == ' ');
    assert(right.drop_first() =~= d);
    assert(is_digit(d[0]) && is_digit(d.last()));
    lemma_trim_core(d);
    assert(trim_start(right) == d);
    assert forall|j: int| 0 <= j < d.len() implies d[j] != '#' by {}
    lemma_find_at(d, '#', d.len() as int);
    assert(d.take(d.len() as int) =~= d);
    assert(key_value(line) == Some((key, d)));
    lemma_whole_number(n);
    lemma_interval(n);
}

/// A whole number of seconds is at least one, and comes back out up to the cap.
proof fn lemma_interval(n: int)
    requires
        1 <= n,
    ensures
        !less_than(whole(n), whole(1)),
        !(whole(n) is NotANumber),
        as_u64(whole(n)) as int == n || n > MAX_INTERVAL_SECONDS && as_u64(whole(n))
            >= MAX_INTERVAL_SECONDS,
{
    let u = one();
    lemma_pow2_pos(1074);
    lemma_whole(n);
    lemma_whole(1);
    assert(n * u >= u) by (nonlinear_arith)
        requires
            n >= 1,
            u > 0,
    ;
    if n < DIGITS_END {
        lemma_whole_back(n);
    } else if let Double::Finite { negative, digits, power } = whole(n) {
        let w = worth(digits as int, power as int);
        assert(w >= 0x10_0000_0000_0000 * u) by (nonlinear_arith)
            requires
                2 * w >= n * u,
                n >= 0x20_0000_0000_0000,
                u > 0,
        ;
        vstd::arithmetic::div_mod::lemma_div_is_ordered(0x10_0000_0000_0000 * u, w, u);
        vstd::arithmetic::div_mod::lemma_div_multiples_vanish(0x10_0000_0000_0000, u);
        assert(u * 0x10_0000_0000_0000 == 0x10_0000_0000_0000 * u) by (nonlinear_arith);
    }
}

/// Each of the plugin's own labels is kept as written, a blank one too: naming
/// nothing is a setting, and leaving the key out is another.
pub proof fn law_plugin_labels_follow_one_rule(c: ConfigView, value: Seq<char>)
    ensures
        setting_applied(c, "cpu_label"@, value) == (ConfigView { cpu_label: Some(value), ..c }),
        setting_applied(c, "ram_label"@, value) == (ConfigView { ram_label: Some(value), ..c }),
        setting_applied(c, "battery_label"@, value) == (ConfigView {
            battery_label: Some(value),
            ..c
        }),
        setting_applied(c, "disk_label"@, value) == (ConfigView { disk_label: Some(value), ..c }),
{
    reveal_strlit("mode");
    reveal_strlit("interval_seconds");
    reveal_strlit("window_title_totals");
    reveal_strlit("ram_display");
    reveal_strlit("battery_label");
    reveal_strlit("cpu_label");
    reveal_strlit("ram_label");
    reveal_strlit("battery");
    reveal_strlit("disk_label");
    assert("cpu_label"@[0] == 'c');
    assert("ram_label"@[0] == 'r');
    assert("ram_label"@.len() != "ram_display"@.len());
    assert("battery_label"@[0] == 'b');
    assert("disk_label"@[0] == 'd');
}

/// Without a `[ui]` table nothing is named, whatever the other tables say.
pub proof fn law_labels_need_the_ui_table(text: Seq<char>)
    requires
        forall|i: int|
            0 <= i < split(text, '\n').len() ==> {
                let line = trim(#[trigger] split(text, '\n')[i]);
                section_of(line) matches Some(name) ==> trim(name) != "ui"@
            },
    ensures
        herdr_labels(text) == no_labels(),
{
    lemma_no_ui(split(text, '\n'));
}

proof fn lemma_no_ui(lines: Seq<Seq<char>>)
    requires
        forall|i: int|
            0 <= i < lines.len() ==> {
                let line = trim(#[trigger] lines[i]);
                section_of(line) matches Some(name) ==> trim(name) != "ui"@
            },
    ensures
        herdr_lines(lines) == (Reading { labels: no_labels(), in_ui: false }),
    decreases lines.len(),
{
    if lines.len() > 0 {
        let front = lines.drop_last();
        assert forall|i: int| 0 <= i < front.len() implies {
            let line = trim(#[trigger] front[i]);
            section_of(line) matches Some(name) ==> trim(name) != "ui"@
        } by {
            assert(front[i] == lines[i]);
        }
        lemma_no_ui(front);
        assert(lines.last() == lines[lines.len() - 1]);
    }
}

/// Two sessions never claim the same pid file, and every claim is one a sweep
/// finds.
pub proof fn law_sessions_claim_different_files(a: Seq<char>, b: Seq<char>)
    ensures
        claim_name(a) == claim_name(b) ==> a == b,
        names_pid_file(claim_name(a)),
{
    reveal_strlit("updater-");
    reveal_strlit(".pid");
    let x = claim_name(a);
    assert(x.subrange(0, 8) =~= "updater-"@);
    assert(x.subrange(x.len() - 4, x.len() as int) =~= ".pid"@);
    if claim_name(a) == claim_name(b) {
        assert(a =~= x.subrange(8, x.len() - 4));
        assert(b =~= claim_name(b).subrange(8, claim_name(b).len() - 4));
    }
}

} // verus!
