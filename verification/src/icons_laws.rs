//! What holds of every cell a tier draws, and of the blocks it offers to paste.

use vstd::prelude::*;

use crate::battery::State;
use crate::config::{
    config_of, default_config, herdr_labels, herdr_lines, is_key_char, key_value, lines_applied,
    no_labels, section_of, ConfigView, LabelsView, Reading,
};
use crate::config_laws::law_quoted_setting_is_read_back;
use crate::icons::{
    detected, gauge_of, herdr_block, led_cell, level, mark_of, named_tier, naming, plugin_block,
    setting_line, spaced, tier_label, IconSet, LocaleVars, Metric,
};
use crate::text::{
    digits, free_of, int_digits, is_digit, join, lemma_digits_round_trip, lemma_split_join,
    lemma_trim_core, starts_with, trim, trim_start,
};
use crate::units::Percent;

verus! {

/// Detection picks words or Nerd Font pictures, and never the gauge or emoji.
pub proof fn law_detection_never_picks_the_gauge(vars: LocaleVars, nerd_font: bool)
    ensures
        detected(vars, nerd_font) == IconSet::Text || detected(vars, nerd_font)
            == IconSet::NerdFont,
        !nerd_font ==> detected(vars, nerd_font) == IconSet::Text,
{
}

/// A metric nothing names is drawn as under its default word.
pub proof fn law_default_word_names_nothing(
    set: IconSet,
    metric: Metric,
    percent: Percent,
    mark: Seq<char>,
)
    ensures
        led_cell(set, metric, metric.word(), percent, mark) == naming(set, metric, None, percent)
            + level(set, percent) + mark,
{
    reveal_strlit("cpu");
    reveal_strlit("ram");
    reveal_strlit("bat");
    reveal_strlit("disk");
    let cell = led_cell(set, metric, metric.word(), percent, mark);
    let none = Seq::<char>::empty();
    assert(cell =~= naming(set, metric, None, percent) + level(set, percent) + mark);
}

/// An explicit label replaces the tier's own naming, whatever the tier: the
/// picture is never drawn a second time.
pub proof fn law_label_replaces_the_glyph(
    a: IconSet,
    b: IconSet,
    metric: Metric,
    label: Seq<char>,
    percent: Percent,
)
    ensures
        naming(a, metric, Some(label), percent) == naming(b, metric, Some(label), percent),
        naming(a, metric, Some(label), percent) == spaced(label),
{
}

/// An empty label names nothing and leaves no stray space in front.
pub proof fn law_empty_label_leaves_the_figure(set: IconSet, metric: Metric, percent: Percent)
    ensures
        naming(set, metric, Some(Seq::<char>::empty()), percent) == Seq::<char>::empty(),
{
}

// ---- the font-safety contract ------------------------------------------------------------

/// Glyphs outside ASCII present in every default mono face.
pub open spec fn measured(c: char) -> bool {
    c == '░' || c == '▒' || c == '▓' || c == '█'
}

/// Whether text renders without any font installed.
pub open spec fn font_safe(s: Seq<char>) -> bool {
    forall|i: int| 0 <= i < s.len() ==> (#[trigger] s[i]) < '\u{80}' || measured(s[i])
}

proof fn lemma_safe_concat(a: Seq<char>, b: Seq<char>)
    requires
        font_safe(a),
        font_safe(b),
    ensures
        font_safe(a + b),
{
    let c = a + b;
    assert forall|i: int| 0 <= i < c.len() implies (#[trigger] c[i]) < '\u{80}' || measured(
        c[i],
    ) by {
        if i < a.len() {
            assert(a[i] < '\u{80}' || measured(a[i]));
        } else {
            assert(b[i - a.len()] < '\u{80}' || measured(b[i - a.len()]));
        }
    }
}

proof fn lemma_safe_number(n: int)
    ensures
        font_safe(int_digits(n)),
{
    let m = if n < 0 {
        -n
    } else {
        n
    };
    lemma_digits_round_trip(m);
    assert forall|i: int| 0 <= i < digits(m).len() implies (#[trigger] digits(m)[i]) < '\u{80}' by {
        assert(is_digit(digits(m)[i]));
    }
    if n < 0 {
        lemma_safe_concat(seq!['-'], digits(m));
    }
}

/// The two tiers that need no font draw only ASCII and the measured block
/// glyphs, for every metric, every reading and every charge state.
pub proof fn law_safe_tiers_need_no_font(
    set: IconSet,
    metric: Metric,
    percent: Percent,
    state: State,
)
    requires
        set == IconSet::Text || set == IconSet::Unicode,
    ensures
        font_safe(naming(set, metric, None, percent) + level(set, percent) + mark_of(state)),
        font_safe(led_cell(set, metric, metric.word(), percent, mark_of(state))),
{
    reveal_strlit("cpu");
    reveal_strlit("ram");
    reveal_strlit("bat");
    reveal_strlit("disk");
    reveal_strlit(" ");
    reveal_strlit("%");
    let name = naming(set, metric, None, percent);
    assert(name == metric.word() + " "@);
    assert(font_safe(metric.word()));
    assert(font_safe(" "@));
    lemma_safe_concat(metric.word(), " "@);
    lemma_safe_number(percent.whole());
    let gauge = if set == IconSet::Unicode {
        seq![gauge_of(percent)]
    } else {
        seq![]
    };
    assert(font_safe(gauge));
    lemma_safe_concat(gauge, int_digits(percent.whole()));
    lemma_safe_concat(gauge + int_digits(percent.whole()), "%"@);
    lemma_safe_concat(name, level(set, percent));
    assert(font_safe(mark_of(state)));
    lemma_safe_concat(name + level(set, percent), mark_of(state));
    law_default_word_names_nothing(set, metric, percent, mark_of(state));
}

// ---- the blocks read back -------------------------------------------------------------------

proof fn lemma_tier_label(set: IconSet, metric: Metric)
    ensures
        tier_label(set, metric).len() > 0,
        !tier_label(set, metric).contains('"'),
        !tier_label(set, metric).contains('\n'),
{
    reveal_strlit("cpu");
    reveal_strlit("ram");
    reveal_strlit("bat");
    reveal_strlit("disk");
}

/// A setting line is one line, and reads back as the setting it spells.
proof fn lemma_setting_line(key: Seq<char>, value: Seq<char>)
    requires
        key.len() > 0,
        forall|i: int| 0 <= i < key.len() ==> is_key_char(#[trigger] key[i]),
        !value.contains('"'),
        !value.contains('\n'),
    ensures
        key_value(setting_line(key, value)) == Some((key, value)),
        !setting_line(key, value).contains('\n'),
        trim(setting_line(key, value)) == setting_line(key, value),
        section_of(setting_line(key, value)) is None,
        !starts_with(setting_line(key, value), "#"@),
        !starts_with(trim_start(setting_line(key, value)), "#"@),
        setting_line(key, value).len() > 0,
{
    reveal_strlit(" = \"");
    reveal_strlit("\"");
    reveal_strlit("#");
    let line = setting_line(key, value);
    law_quoted_setting_is_read_back(key, value, seq![]);
    assert(line + Seq::<char>::empty() =~= line);
    assert(is_key_char(key[0]));
    assert(line[0] == key[0]);
    lemma_trim_core(line);
    assert forall|i: int| 0 <= i < line.len() implies line[i] != '\n' by {
        if i < key.len() {
            assert(is_key_char(key[i]));
        } else if key.len() + 4 <= i < line.len() - 1 {
            assert(line[i] == value[i - key.len() - 4]);
        }
    }
    assert(line.subrange(0, 1)[0] == line[0]);
}

/// The block offered for herdr's config, pasted there, names CPU and RAM the way
/// the tier does.
pub proof fn law_herdr_block_reads_back(set: IconSet)
    ensures
        herdr_labels(join(herdr_block(set), seq!['\n'])) == (LabelsView {
            cpu: Some(tier_label(set, Metric::Cpu)),
            ram: Some(tier_label(set, Metric::Ram)),
            battery: None,
            disk: None,
        }),
{
    reveal_strlit("[ui]");
    reveal_strlit("ui");
    reveal_strlit("#");
    reveal_strlit("cpu_label");
    reveal_strlit("ram_label");
    let lines = herdr_block(set);
    let cpu = tier_label(set, Metric::Cpu);
    let ram = tier_label(set, Metric::Ram);
    lemma_tier_label(set, Metric::Cpu);
    lemma_tier_label(set, Metric::Ram);
    lemma_setting_line("cpu_label"@, cpu);
    lemma_setting_line("ram_label"@, ram);
    assert(free_of(lines, '\n'));
    lemma_split_join(lines, '\n');
    let head = "[ui]"@;
    lemma_trim_core(head);
    let rest = head.drop_first();
    crate::text::lemma_find_at(rest, ']', 2);
    assert(rest.take(2) =~= "ui"@);
    lemma_trim_core("ui"@);
    assert(!starts_with(head, "#"@)) by {
        assert(head.subrange(0, 1)[0] == '[');
    }
    assert(lines.drop_last() =~= seq![lines[0], lines[1]]);
    assert(lines.drop_last().drop_last() =~= seq![lines[0]]);
    assert(lines.drop_last().drop_last().drop_last() =~= seq![]);
    reveal_with_fuel(herdr_lines, 4);
    assert(herdr_lines(seq![lines[0]]) == (Reading { labels: no_labels(), in_ui: true }));
    assert("cpu_label"@ != "ram_label"@) by {
        assert("cpu_label"@[0] != "ram_label"@[0]);
    }
}

/// The block offered for the plugin's config, pasted there, names the battery and
/// the drives the way the tier does, and leaves the naming to the labels.
pub proof fn law_plugin_block_reads_back(set: IconSet)
    ensures
        config_of(join(plugin_block(set), seq!['\n'])) == (ConfigView {
            battery_label: Some(tier_label(set, Metric::Battery)),
            disk_label: Some(tier_label(set, Metric::Disk)),
            icons: "text"@,
            ..default_config()
        }),
        named_tier(Some("text"@)) == Some(IconSet::Text),
{
    reveal_strlit("battery_label");
    reveal_strlit("disk_label");
    reveal_strlit("icons");
    reveal_strlit("text");
    reveal_strlit("mode");
    reveal_strlit("interval_seconds");
    reveal_strlit("window_title_totals");
    reveal_strlit("ram_display");
    reveal_strlit("cpu_label");
    reveal_strlit("ram_label");
    reveal_strlit("battery");
    reveal_strlit("disk");
    reveal_strlit("disks");
    let lines = plugin_block(set);
    let bat = tier_label(set, Metric::Battery);
    let disk = tier_label(set, Metric::Disk);
    lemma_tier_label(set, Metric::Battery);
    lemma_tier_label(set, Metric::Disk);
    lemma_setting_line("battery_label"@, bat);
    lemma_setting_line("disk_label"@, disk);
    lemma_setting_line("icons"@, "text"@);
    assert(free_of(lines, '\n'));
    lemma_split_join(lines, '\n');
    assert(lines.drop_last() =~= seq![lines[0], lines[1]]);
    assert(lines.drop_last().drop_last() =~= seq![lines[0]]);
    assert(lines.drop_last().drop_last().drop_last() =~= seq![]);
    reveal_with_fuel(lines_applied, 4);
    lemma_plain_name("text"@);
}

/// A name of small letters alone is its own canonical spelling.
pub(crate) proof fn lemma_plain_name(name: Seq<char>)
    requires
        name.len() > 0,
        forall|i: int| 0 <= i < name.len() ==> 'a' <= (#[trigger] name[i]) <= 'z',
    ensures
        crate::icons::folded(name) == name,
{
    lemma_trim_core(name);
    assert(crate::text::lower(name) =~= name);
    lemma_no_separators(name);
}

proof fn lemma_no_separators(s: Seq<char>)
    requires
        !s.contains('-'),
        !s.contains('_'),
    ensures
        crate::icons::without_separators(s) == s,
    decreases s.len(),
{
    if s.len() > 0 {
        let front = s.drop_last();
        assert(s[s.len() - 1] == s.last());
        assert forall|i: int| 0 <= i < front.len() implies front[i] != '-' && front[i] != '_' by {
            assert(s[i] == front[i]);
        }
        lemma_no_separators(front);
        assert(front.push(s.last()) =~= s);
    }
}

} // verus!
