//! What the lines of a config file set.

use vstd::arithmetic::power2::{lemma_pow2_pos, pow2};
use vstd::prelude::*;
use vstd::string::*;

use crate::config::{
    config_base, config_of, decision, default_config, drives, herdr_line, herdr_lines, id_of,
    in_dir, is_key_char, key_value, line_applied, lines_applied, names_pid_file, overridden,
    pid_names, section_of, setting_applied, value_text, ConfigView, LabelsView, Marker, Mode,
    RamDisplay, Reading,
};
use crate::config_laws::law_quoted_setting_is_read_back;
use crate::double::{lemma_whole, lemma_worth_zero, one, Double};
use crate::number::number_of;
use crate::text::{
    ends_with, find, is_white, lemma_find, lemma_find_at, lemma_trim_core, lemma_trim_push_white,
    lower, split, starts_with, trim, trim_start,
};

verus! {

/// A setting as it is written: the key, and its value in quotes.
pub open spec fn written(key: Seq<char>, value: Seq<char>) -> Seq<char> {
    key + " = \""@ + value + "\""@
}

proof fn lemma_written(key: Seq<char>, value: Seq<char>)
    requires
        key.len() > 0,
        forall|i: int| 0 <= i < key.len() ==> is_key_char(#[trigger] key[i]),
        !value.contains('"'),
    ensures
        key_value(written(key, value)) == Some((key, value)),
        trim(written(key, value)) == written(key, value),
        !starts_with(written(key, value), "#"@),
        !starts_with(trim_start(written(key, value)), "#"@),
        section_of(written(key, value)) is None,
        forall|c: ConfigView| #[trigger]
            line_applied(c, written(key, value)) == setting_applied(c, key, value),
{
    let line = written(key, value);
    law_quoted_setting_is_read_back(key, value, seq![]);
    assert(line + Seq::<char>::empty() =~= line);
    reveal_strlit(" = \"");
    reveal_strlit("\"");
    reveal_strlit("#");
    assert(line[0] == key[0]);
    assert(is_key_char(key[0]));
    assert(line[line.len() - 1] == '"');
    lemma_trim_core(line);
    assert("#"@[0] == '#');
    assert(line.subrange(0, 1)[0] == key[0]);
}

proof fn lemma_keys()
    ensures
        "mode"@ == seq!['m', 'o', 'd', 'e'],
        "interval_seconds"@.len() == 16,
        "interval_seconds"@[0] == 'i',
        "window_title_totals"@.len() == 19,
        "window_title_totals"@[0] == 'w',
        "ram_display"@.len() == 11,
        "ram_display"@[0] == 'r',
        "battery_label"@.len() == 13,
        "battery_label"@[0] == 'b',
        "cpu_label"@.len() == 9,
        "cpu_label"@[0] == 'c',
        "ram_label"@.len() == 9,
        "ram_label"@[0] == 'r',
        "battery"@.len() == 7,
        "battery"@[0] == 'b',
        "disk_label"@.len() == 10,
        "disk_label"@[0] == 'd',
        "disk"@.len() == 4,
        "disk"@[0] == 'd',
        "disks"@.len() == 5,
        "disks"@[0] == 'd',
        "icons"@.len() == 5,
        "icons"@[0] == 'i',
{
    reveal_strlit("mode");
    reveal_strlit("interval_seconds");
    reveal_strlit("window_title_totals");
    reveal_strlit("ram_display");
    reveal_strlit("battery_label");
    reveal_strlit("cpu_label");
    reveal_strlit("ram_label");
    reveal_strlit("battery");
    reveal_strlit("disk_label");
    reveal_strlit("disk");
    reveal_strlit("disks");
    reveal_strlit("icons");
    assert("mode"@ =~= seq!['m', 'o', 'd', 'e']);
}

/// Whether a key is made of what keys are made of.
pub open spec fn plain_key(key: Seq<char>) -> bool {
    key.len() > 0 && forall|i: int|
        0 <= i < key.len() ==> 'a' <= #[trigger] key[i] <= 'z' || 'A' <= key[i] <= 'Z' || key[i]
            == '_'
}

proof fn lemma_plain_keys()
    ensures
        plain_key("mode"@),
        plain_key("interval_seconds"@),
        plain_key("window_title_totals"@),
        plain_key("ram_display"@),
        plain_key("battery_label"@),
        plain_key("cpu_label"@),
        plain_key("ram_label"@),
        plain_key("battery"@),
        plain_key("disk_label"@),
        plain_key("disk"@),
        plain_key("disks"@),
        plain_key("icons"@),
{
    reveal_strlit("mode");
    reveal_strlit("interval_seconds");
    reveal_strlit("window_title_totals");
    reveal_strlit("ram_display");
    reveal_strlit("battery_label");
    reveal_strlit("cpu_label");
    reveal_strlit("ram_label");
    reveal_strlit("battery");
    reveal_strlit("disk_label");
    reveal_strlit("disk");
    reveal_strlit("disks");
    reveal_strlit("icons");
}

/// A value may stand in either kind of quotes, with anything behind them, or bare
/// with a comment behind it: what is set is the value alone.
pub proof fn law_a_value_is_what_is_written(v: Seq<char>, q: char, tail: Seq<char>)
    requires
        v.len() > 0,
        !v.contains('#'),
        !v.contains('"'),
        !v.contains('\''),
        '!' <= v[0] <= '~',
        '!' <= v.last() <= '~',
        q == '"' || q == '\'',
    ensures
        value_text(seq![q] + v + seq![q] + tail) == Some(v),
        value_text(v) == Some(v),
        value_text(v + seq![' ', '#'] + tail) == Some(v),
        value_text(seq![]) is None,
{
    let quoted = seq![q] + v + seq![q] + tail;
    let body = quoted.drop_first();
    let n = v.len() as int;
    assert forall|j: int| 0 <= j < n implies body[j] != q by {
        assert(body[j] == v[j]);
        assert(v.contains(v[j]));
    }
    assert(body[n] == q);
    lemma_find_at(body, q, n);
    assert(body.take(n) =~= v);
    assert(v.contains(v[0]) && v.contains(v[n - 1]));
    lemma_trim_core(v);
    lemma_find(v, '#');
    assert(v.take(n) =~= v);
    let noted = v + seq![' ', '#'] + tail;
    assert forall|j: int| 0 <= j < n + 1 implies noted[j] != '#' by {
        if j < n {
            assert(noted[j] == v[j]);
            assert(v.contains(v[j]));
        }
    }
    assert(noted[n + 1] == '#');
    lemma_find_at(noted, '#', n + 1);
    assert(noted.take(n + 1) =~= v.push(' '));
    lemma_trim_push_white(v, ' ');
    assert(noted[0] == v[0]);
}

/// The mode is set by either of its two names, and by nothing else.
pub proof fn law_a_line_sets_the_mode(c: ConfigView, value: Seq<char>)
    requires
        !value.contains('"'),
    ensures
        line_applied(c, written("mode"@, value)) == (ConfigView {
            mode: if value == "sidebar"@ {
                Mode::Sidebar
            } else if value == "agents-panel"@ {
                Mode::AgentsPanel
            } else {
                c.mode
            },
            ..c
        }),
{
    lemma_plain_keys();
    lemma_written("mode"@, value);
}

/// A switch is off where its line says `false`, and on whatever else it says;
/// each line sets its own switch and nothing else.
pub proof fn law_a_line_sets_its_switch(c: ConfigView, value: Seq<char>)
    requires
        !value.contains('"'),
    ensures
        line_applied(c, written("window_title_totals"@, value)) == (ConfigView {
            window_title_totals: value != "false"@,
            ..c
        }),
        line_applied(c, written("battery"@, value)) == (ConfigView {
            battery: value != "false"@,
            ..c
        }),
        line_applied(c, written("disk"@, value)) == (ConfigView { disk: value != "false"@, ..c }),
{
    lemma_plain_keys();
    lemma_keys();
    lemma_written("window_title_totals"@, value);
    lemma_written("battery"@, value);
    lemma_written("disk"@, value);
}

/// RAM is shown as a size or as a percentage by the names of either, whatever
/// their case and the space around them; another name changes nothing.
pub proof fn law_a_line_sets_the_ram_display(c: ConfigView, value: Seq<char>)
    requires
        !value.contains('"'),
    ensures
        line_applied(c, written("ram_display"@, value)) == (ConfigView {
            ram_display: if lower(trim(value)) == "gb"@ || lower(trim(value)) == "absolute"@ {
                RamDisplay::Absolute
            } else if lower(trim(value)) == "percent"@ {
                RamDisplay::Percent
            } else {
                c.ram_display
            },
            ..c
        }),
{
    lemma_plain_keys();
    lemma_keys();
    lemma_written("ram_display"@, value);
}

/// A label line sets its own label and nothing else, to what it says, and the
/// line for the icons their tier.
pub proof fn law_a_line_sets_its_label(c: ConfigView, value: Seq<char>)
    requires
        !value.contains('"'),
    ensures
        line_applied(c, written("cpu_label"@, value)) == (ConfigView {
            cpu_label: Some(value),
            ..c
        }),
        line_applied(c, written("ram_label"@, value)) == (ConfigView {
            ram_label: Some(value),
            ..c
        }),
        line_applied(c, written("battery_label"@, value)) == (ConfigView {
            battery_label: Some(value),
            ..c
        }),
        line_applied(c, written("disk_label"@, value)) == (ConfigView {
            disk_label: Some(value),
            ..c
        }),
        line_applied(c, written("icons"@, value)) == (ConfigView { icons: value, ..c }),
{
    lemma_plain_keys();
    lemma_keys();
    lemma_written("cpu_label"@, value);
    lemma_written("ram_label"@, value);
    lemma_written("battery_label"@, value);
    lemma_written("disk_label"@, value);
    lemma_written("icons"@, value);
}

/// The interval is the whole seconds in what its line says, from one second up to
/// eight hours; what is less than a second, or no number, changes nothing.
pub proof fn law_a_line_sets_the_interval(c: ConfigView, value: Seq<char>)
    requires
        !value.contains('"'),
    ensures
        ({
            let now = line_applied(c, written("interval_seconds"@, value));
            &&& now == (ConfigView { interval_seconds: now.interval_seconds, ..c })
            &&& match number_of(value) {
                Some(Double::Finite { negative, digits, power }) => {
                    let units = digits * pow2(power as nat);
                    let step = pow2(1074) as int;
                    let n = now.interval_seconds;
                    if negative || units < step {
                        n == c.interval_seconds
                    } else if units < 28_800 * step {
                        n * step <= units < (n + 1) * step
                    } else {
                        n == 28_800
                    }
                },
                Some(Double::Infinite { negative }) => now.interval_seconds == if negative {
                    c.interval_seconds
                } else {
                    28_800
                },
                _ => now == c,
            }
        }),
{
    lemma_plain_keys();
    lemma_keys();
    lemma_written("interval_seconds"@, value);
    lemma_whole(1);
    let u = one();
    lemma_pow2_pos(1074);
    if let Some(x) = number_of(value) {
        if let Double::Finite { negative, digits, power } = x {
            let w = digits * pow2(power as nat);
            lemma_worth_zero(digits as int, power as int);
            assert(1 * u == u);
            let q = w / u;
            vstd::arithmetic::div_mod::lemma_fundamental_div_mod(w, u);
            vstd::arithmetic::div_mod::lemma_mod_bound(w, u);
            assert(u * q == q * u && (q + 1) * u == q * u + u) by (nonlinear_arith);
            assert(q < 28_800 <==> w < 28_800 * u) by (nonlinear_arith)
                requires
                    q * u <= w < q * u + u,
                    u > 0,
            ;
            assert(q >= 0) by (nonlinear_arith)
                requires
                    w >= 0,
                    w < q * u + u,
                    u > 0,
            ;
        }
    }
}

/// A drive is listed exactly where a part of the value names it, blanks aside, and
/// names that differ stand in the order they were written.
pub proof fn law_every_named_drive_is_listed(parts: Seq<Seq<char>>, drive: Seq<char>)
    ensures
        drives(parts).contains(drive) <==> drive.len() > 0 && exists|i: int|
            0 <= i < parts.len() && trim(#[trigger] parts[i]) == drive,
        (forall|i: int| 0 <= i < parts.len() ==> trim(#[trigger] parts[i]).len() > 0) && (forall|
            i: int,
            j: int,
        |
            0 <= i < j < parts.len() ==> trim(#[trigger] parts[i]) != trim(#[trigger] parts[j]))
            ==> drives(parts) == parts.map_values(|p: Seq<char>| trim(p)),
    decreases parts.len(),
{
    if parts.len() > 0 {
        let (front, last) = (parts.drop_last(), trim(parts.last()));
        let n = parts.len() - 1;
        let before = drives(front);
        law_every_named_drive_is_listed(front, drive);
        law_every_named_drive_is_listed(front, last);
        if drives(parts).contains(drive) {
            let k = choose|k: int| 0 <= k < drives(parts).len() && drives(parts)[k] == drive;
            if k < before.len() {
                assert(before[k] == drive);
                let i = choose|i: int| 0 <= i < front.len() && trim(#[trigger] front[i]) == drive;
                assert(trim(parts[i]) == drive);
            } else {
                assert(trim(parts[n]) == drive);
            }
        }
        if drive.len() > 0 && exists|i: int|
            0 <= i < parts.len() && trim(#[trigger] parts[i]) == drive {
            let i = choose|i: int| 0 <= i < parts.len() && trim(#[trigger] parts[i]) == drive;
            if i < n {
                assert(trim(front[i]) == drive);
                let k = choose|k: int| 0 <= k < before.len() && before[k] == drive;
                assert(drives(parts)[k] == drive);
            } else if !before.contains(last) {
                assert(drives(parts)[before.len() as int] == drive);
            }
        }
        if (forall|i: int| 0 <= i < parts.len() ==> trim(#[trigger] parts[i]).len() > 0) && (forall|
            i: int,
            j: int,
        |
            0 <= i < j < parts.len() ==> trim(#[trigger] parts[i]) != trim(#[trigger] parts[j])) {
            assert forall|i: int| 0 <= i < front.len() implies trim(#[trigger] front[i]).len()
                > 0 by {
                assert(trim(parts[i]).len() > 0);
            }
            assert forall|i: int, j: int| 0 <= i < j < front.len() implies trim(
                #[trigger] front[i],
            ) != trim(#[trigger] front[j]) by {
                assert(trim(parts[i]) != trim(parts[j]));
            }
            assert(trim(parts[n]).len() > 0);
            if before.contains(last) {
                let i = choose|i: int| 0 <= i < front.len() && trim(#[trigger] front[i]) == last;
                assert(trim(parts[i]) != trim(parts[n]));
            }
            assert(drives(parts) =~= parts.map_values(|p: Seq<char>| trim(p)));
        }
    } else {
        assert(drives(parts) =~= parts.map_values(|p: Seq<char>| trim(p)));
    }
}

/// The line for the drives lists those between its commas, and leaves the list as
/// it is where it names none.
pub proof fn law_a_line_sets_the_drives(c: ConfigView, value: Seq<char>)
    requires
        !value.contains('"'),
    ensures
        ({
            let named = exists|i: int|
                0 <= i < split(value, ',').len() && trim(#[trigger] split(value, ',')[i]).len() > 0;
            line_applied(c, written("disks"@, value)) == if named {
                ConfigView { disks: drives(split(value, ',')), ..c }
            } else {
                c
            }
        }),
{
    lemma_plain_keys();
    lemma_keys();
    lemma_written("disks"@, value);
    let parts = split(value, ',');
    let all = drives(parts);
    if exists|i: int| 0 <= i < parts.len() && trim(#[trigger] parts[i]).len() > 0 {
        let i = choose|i: int| 0 <= i < parts.len() && trim(#[trigger] parts[i]).len() > 0;
        law_every_named_drive_is_listed(parts, trim(parts[i]));
        assert(all.contains(trim(parts[i])));
        assert(all.len() > 0);
    } else if all.len() > 0 {
        assert(all.contains(all[0]));
        law_every_named_drive_is_listed(parts, all[0]);
    }
}

/// A key that is none of these changes nothing, whatever its value.
pub proof fn law_an_unknown_key_changes_nothing(c: ConfigView, key: Seq<char>, value: Seq<char>)
    requires
        plain_key(key),
        !value.contains('"'),
        key != "mode"@,
        key != "interval_seconds"@,
        key != "window_title_totals"@,
        key != "ram_display"@,
        key != "battery_label"@,
        key != "cpu_label"@,
        key != "ram_label"@,
        key != "battery"@,
        key != "disk_label"@,
        key != "disk"@,
        key != "disks"@,
        key != "icons"@,
    ensures
        line_applied(c, written(key, value)) == c,
{
    lemma_written(key, value);
}

/// A comment changes nothing, nor does a line that sets nothing.
pub proof fn law_a_comment_changes_nothing(c: ConfigView, line: Seq<char>)
    ensures
        line.len() > 0 && line[0] == '#' ==> line_applied(c, line) == c,
        !line.contains('=') ==> line_applied(c, line) == c,
{
    reveal_strlit("#");
    lemma_find(line, '=');
    if line.len() > 0 && line[0] == '#' {
        assert(!is_white('#'));
        assert(trim_start(line) == line);
        assert(line.subrange(0, 1) =~= "#"@);
    }
}

/// A file is read line by line from the defaults on.
pub proof fn law_a_file_is_read_line_by_line(text: Seq<char>)
    ensures
        config_of(text) == split(text, '\n').fold_left(
            ConfigView {
                mode: Mode::Sidebar,
                interval_seconds: 5,
                window_title_totals: true,
                battery: true,
                icons: "auto"@,
                ram_display: RamDisplay::Percent,
                battery_label: None,
                cpu_label: None,
                ram_label: None,
                disk: true,
                disks: seq!["/"@],
                disk_label: None,
            },
            |c: ConfigView, line: Seq<char>| line_applied(c, line),
        ),
{
    lemma_fold_lines(default_config(), split(text, '\n'));
}

/// So are the settings on top of whatever they stand on.
pub proof fn law_settings_are_read_line_by_line(base: ConfigView, lines: Seq<Seq<char>>)
    ensures
        lines_applied(base, lines) == lines.fold_left(
            base,
            |c: ConfigView, line: Seq<char>| line_applied(c, line),
        ),
{
    lemma_fold_lines(base, lines);
}

proof fn lemma_fold_lines(base: ConfigView, lines: Seq<Seq<char>>)
    ensures
        lines_applied(base, lines) == lines.fold_left(
            base,
            |c: ConfigView, line: Seq<char>| line_applied(c, line),
        ),
    decreases lines.len(),
{
    if lines.len() > 0 {
        lemma_fold_lines(base, lines.drop_last());
    }
}

// ---- herdr's own file -------------------------------------------------------------------------------

/// Herdr's file is read line by line, naming nothing and outside every table to
/// start with.
pub proof fn law_herdrs_file_is_read_line_by_line(lines: Seq<Seq<char>>)
    ensures
        herdr_lines(lines) == lines.fold_left(
            Reading {
                labels: LabelsView { cpu: None, ram: None, battery: None, disk: None },
                in_ui: false,
            },
            |r: Reading, line: Seq<char>| herdr_line(r, line),
        ),
    decreases lines.len(),
{
    if lines.len() > 0 {
        law_herdrs_file_is_read_line_by_line(lines.drop_last());
    }
}

/// A label line of the `[ui]` table sets its own label and nothing else, an empty
/// one taking it away; outside that table it sets nothing.
pub proof fn law_a_ui_line_sets_its_label(labels: LabelsView, value: Seq<char>)
    requires
        !value.contains('"'),
    ensures
        ({
            let said = if value.len() > 0 {
                Some(value)
            } else {
                None
            };
            let ui = Reading { labels, in_ui: true };
            let other = Reading { labels, in_ui: false };
            &&& herdr_line(ui, written("cpu_label"@, value)) == (Reading {
                labels: LabelsView { cpu: said, ..labels },
                in_ui: true,
            })
            &&& herdr_line(ui, written("ram_label"@, value)) == (Reading {
                labels: LabelsView { ram: said, ..labels },
                in_ui: true,
            })
            &&& herdr_line(ui, written("battery_label"@, value)) == (Reading {
                labels: LabelsView { battery: said, ..labels },
                in_ui: true,
            })
            &&& herdr_line(ui, written("disk_label"@, value)) == (Reading {
                labels: LabelsView { disk: said, ..labels },
                in_ui: true,
            })
            &&& herdr_line(other, written("cpu_label"@, value)) == other
            &&& herdr_line(other, written("ram_label"@, value)) == other
            &&& herdr_line(other, written("battery_label"@, value)) == other
            &&& herdr_line(other, written("disk_label"@, value)) == other
        }),
{
    lemma_plain_keys();
    lemma_keys();
    lemma_written("cpu_label"@, value);
    lemma_written("ram_label"@, value);
    lemma_written("battery_label"@, value);
    lemma_written("disk_label"@, value);
}

/// A table header opens its table and closes the one before: what follows is in
/// `[ui]` exactly where the last header says so.
pub proof fn law_a_header_opens_its_table(before: Reading, name: Seq<char>)
    requires
        name.len() > 0,
        !name.contains(']'),
    ensures
        herdr_line(before, seq!['['] + name + seq![']']) == (Reading {
            labels: before.labels,
            in_ui: trim(name) == seq!['u', 'i'],
        }),
{
    reveal_strlit("ui");
    reveal_strlit("#");
    assert("ui"@ =~= seq!['u', 'i']);
    let line = seq!['['] + name + seq![']'];
    assert(line[0] == '[' && line[line.len() - 1] == ']');
    lemma_trim_core(line);
    assert("#"@[0] == '#');
    assert(line.subrange(0, 1)[0] == '[');
    let rest = line.drop_first();
    assert(rest =~= name.push(']'));
    let n = name.len() as int;
    assert forall|j: int| 0 <= j < n implies rest[j] != ']' by {
        assert(rest[j] == name[j]);
        assert(name.contains(name[j]));
    }
    crate::text::lemma_find_at(rest, ']', n);
    assert(rest.take(n) =~= name);
}

/// The plugin's own labels win one by one over herdr's.
pub proof fn law_a_label_of_its_own_wins(under: LabelsView, config: ConfigView)
    ensures
        overridden(under, config).cpu == if config.cpu_label is Some {
            config.cpu_label
        } else {
            under.cpu
        },
        overridden(under, config).ram == if config.ram_label is Some {
            config.ram_label
        } else {
            under.ram
        },
        overridden(under, config).battery == if config.battery_label is Some {
            config.battery_label
        } else {
            under.battery
        },
        overridden(under, config).disk == if config.disk_label is Some {
            config.disk_label
        } else {
            under.disk
        },
{
}

// ---- places -----------------------------------------------------------------------------------------

/// A name inside a directory: one separator between them, however the directory
/// is written.
pub proof fn law_a_path_has_one_separator(dir: Seq<char>, name: Seq<char>)
    requires
        dir.len() > 0,
        name.len() > 0,
        name[0] != '/',
    ensures
        in_dir(dir, name) == if dir.last() == '/' {
            dir + name
        } else {
            dir + seq!['/'] + name
        },
        in_dir(seq![], name) == name,
        in_dir(dir, seq!['/'] + name) == seq!['/'] + name,
{
    reveal_strlit("/");
    assert("/"@ =~= seq!['/']);
    let n = dir.len() as int;
    assert(dir.subrange(n - 1, n) =~= seq![dir.last()]);
    assert(seq![dir.last()][0] == dir.last());
    if starts_with(name, "/"@) {
        assert(name.subrange(0, 1)[0] == '/');
    }
    let rooted = seq!['/'] + name;
    assert(rooted.subrange(0, 1) =~= "/"@);
    if ends_with(dir, "/"@) {
        assert(seq![dir.last()][0] == "/"@[0]);
    }
}

/// What the environment says wins where it says anything: the plugin's id, and the
/// directory configs are kept in.
pub proof fn law_the_environment_decides(
    id: Option<Seq<char>>,
    app_data: Option<Seq<char>>,
    xdg: Option<Seq<char>>,
    home: Seq<char>,
)
    ensures
        id_of(id) == if id is Some && id->0.len() > 0 {
            id->0
        } else {
            "ez-corp.space-usage"@
        },
        config_base(app_data, xdg, Some(home)) == if app_data is Some && app_data->0.len() > 0 {
            app_data->0
        } else if xdg is Some && xdg->0.len() > 0 {
            xdg->0
        } else {
            in_dir(home, ".config"@)
        },
{
}

/// The files a sweep goes through are those whose name is a claim's, in the order
/// given.
pub proof fn law_a_sweep_goes_through_every_claim(names: Seq<Seq<char>>)
    ensures
        pid_names(names) == names.filter(
            |name: Seq<char>|
                name == "updater.pid"@ || (starts_with(name, "updater-"@) && ends_with(
                    name,
                    ".pid"@,
                )),
        ),
    decreases names.len(),
{
    reveal(Seq::filter);
    let pick = |name: Seq<char>|
        name == "updater.pid"@ || (starts_with(name, "updater-"@) && ends_with(name, ".pid"@));
    if names.len() > 0 {
        law_a_sweep_goes_through_every_claim(names.drop_last());
        assert(pick(names.last()) == names_pid_file(names.last()));
    } else {
        assert(pid_names(names) =~= names.filter(pick));
    }
}

/// Only a marker that says nothing but `0` switches off, and only a missing one
/// leaves it open.
pub proof fn law_only_a_zero_switches_off(text: &str)
    ensures
        decision(Marker::Text(text)) is Disabled <==> trim(text@) == seq!['0'],
        decision(Marker::Text(text)) is Enabled <==> trim(text@) != seq!['0'],
        decision(Marker::Absent) is Undecided,
        decision(Marker::Unreadable) is Enabled,
{
    reveal_strlit("0");
    assert("0"@ =~= seq!['0']);
}

/// A line sets something only behind a key of letters and underscores and an equals
/// sign.
pub proof fn law_a_setting_has_a_plain_key(line: Seq<char>)
    ensures
        key_value(line) matches Some((key, value)) ==> plain_key(key) && line.contains('='),
        key_value(line) matches Some((key, value)) ==> exists|i: int|
            #![trigger line[i]]
            0 <= i < line.len() && line[i] == '=' && trim(line.take(i)) == key && (forall|j: int|
                0 <= j < i ==> line[j] != '=') && value_text(trim(line.skip(i + 1))) == Some(value),
{
    lemma_find(line, '=');
    if let Some((key, value)) = key_value(line) {
        let i = find(line, '=');
        assert(line[i] == '=');
        assert(line.take(i) == line.take(i));
        assert forall|k: int| 0 <= k < key.len() implies 'a' <= #[trigger] key[k] <= 'z' || 'A'
            <= key[k] <= 'Z' || key[k] == '_' by {
            assert(is_key_char(key[k]));
        }
    }
}

} // verus!
