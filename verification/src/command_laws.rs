//! What the command line asks for, and which tier and which monitor is picked.

use vstd::arithmetic::power2::{lemma_pow2_pos, pow2};
use vstd::prelude::*;
use vstd::string::*;

use crate::cli::{
    command_of, flag_index, hint_intro, hint_lines, indented, interval_asked, override_note,
    overriding_keys, preview_lines, tier_line, Command,
};
use crate::config::{LabelsView, RamDisplay};
use crate::double::{
    as_u64, lemma_whole, lemma_whole_back, less_than, one, product, whole, zero, Double,
};
use crate::icons::{
    deciding, detected, herdr_block, named_tier, plugin_block, setting_line, tier_label,
    utf8_locale, without_separators, IconSet, LocaleVars, Metric,
};
use crate::monitor::{configured_words, none_installed, suffixed};
use crate::number::{lemma_whole_number, number_of};
use crate::text::{digits, has_text, join, lower, trim, words};
use crate::units::pad_right;

verus! {

// ---- the command line -------------------------------------------------------------------------------

/// The flags, the first of which to be among the arguments decides.
pub open spec fn flags() -> Seq<(Seq<char>, Command)> {
    seq![
        ("--daemon"@, Command::Daemon),
        ("--enable"@, Command::Enable),
        ("--disable"@, Command::Disable),
        ("--toggle"@, Command::Toggle),
        ("--restore"@, Command::Restore),
        ("--icons"@, Command::Icons),
        ("--json"@, Command::Json),
        ("--once"@, Command::Once),
    ]
}

/// The first of the flags that is among the arguments decides, wherever it stands;
/// without any it is the live watch.
pub proof fn law_the_first_flag_decides(args: Seq<Seq<char>>, k: int)
    requires
        0 <= k <= 8,
        forall|j: int| 0 <= j < k ==> !args.contains((#[trigger] flags()[j]).0),
        k < 8 ==> args.contains(flags()[k].0),
    ensures
        k < 8 ==> command_of(args) == flags()[k].1,
        k == 8 ==> command_of(args) is Interval,
{
    let f = flags();
    assert(k > 0 ==> !args.contains(f[0].0));
    assert(k > 1 ==> !args.contains(f[1].0));
    assert(k > 2 ==> !args.contains(f[2].0));
    assert(k > 3 ==> !args.contains(f[3].0));
    assert(k > 4 ==> !args.contains(f[4].0));
    assert(k > 5 ==> !args.contains(f[5].0));
    assert(k > 6 ==> !args.contains(f[6].0));
    assert(k > 7 ==> !args.contains(f[7].0));
}

proof fn lemma_flag_index(args: Seq<Seq<char>>, flag: Seq<char>, k: int)
    requires
        0 <= k <= args.len(),
        forall|j: int| 0 <= j < k ==> #[trigger] args[j] != flag,
        k < args.len() ==> args[k] == flag,
    ensures
        flag_index(args, flag) == k,
    decreases k,
{
    if k > 0 {
        let rest = args.drop_first();
        assert(args[0] != flag);
        assert forall|j: int| 0 <= j < k - 1 implies #[trigger] rest[j] != flag by {
            assert(args[j + 1] != flag);
        }
        lemma_flag_index(rest, flag, k - 1);
    }
}

/// The live watch refreshes every so many seconds as are asked for behind the first
/// `--interval`, and every two where none are, or none that are above nothing.
pub proof fn law_the_interval_is_as_asked(args: Seq<Seq<char>>, k: int, n: int)
    requires
        0 <= k <= args.len(),
        forall|j: int| 0 <= j < k ==> #[trigger] args[j] != "--interval"@,
        k < args.len() ==> args[k] == "--interval"@,
        0 <= n,
        1000 * n < 0x20_0000_0000_0000,
    ensures
        k + 1 < args.len() && args[k + 1] == digits(n) ==> interval_asked(args) == if n > 0 {
            1000 * n
        } else {
            2000
        },
        k + 1 >= args.len() ==> interval_asked(args) == 2000,
        k + 1 < args.len() && number_of(args[k + 1]) is None ==> interval_asked(args) == 2000,
{
    lemma_flag_index(args, "--interval"@, k);
    lemma_whole_number(n);
    lemma_whole(n);
    let u = one();
    lemma_pow2_pos(1074);
    assert((n * u) * 1000 == (1000 * n) * u) by (nonlinear_arith);
    assert(product(whole(n), 1000) == whole(1000 * n));
    lemma_whole_back(1000 * n);
    assert(0 * pow2(0) == 0);
    assert(n * u > 0 <==> n > 0) by (nonlinear_arith)
        requires
            n >= 0,
            u > 0,
    ;
    assert(less_than(zero(false), whole(n)) <==> n > 0);
}

/// Part of a second counts too: the interval is the milliseconds in whatever is
/// asked for that is above nothing.
pub proof fn law_the_interval_is_in_milliseconds(args: Seq<Seq<char>>, k: int, x: Double)
    requires
        0 <= k < args.len() - 1,
        forall|j: int| 0 <= j < k ==> #[trigger] args[j] != "--interval"@,
        args[k] == "--interval"@,
        number_of(args[k + 1]) == Some(x),
    ensures
        interval_asked(args) == if less_than(zero(false), x) {
            as_u64(product(x, 1000))
        } else {
            2000
        },
{
    lemma_flag_index(args, "--interval"@, k);
}

/// The line of a tier in the preview begins with its name in a column of its own,
/// and says so where the tier is the one in use.
pub proof fn law_the_preview_marks_the_tier_in_use(
    name: Seq<char>,
    set: IconSet,
    current: IconSet,
    labels: LabelsView,
    display: RamDisplay,
)
    ensures
        ({
            let row = crate::cli::sample_row(set, labels, display);
            tier_line(name, set, current, labels, display) == "    "@ + pad_right(name, 10, ' ') + row
                + if set == current {
                "   <- current"@
            } else {
                seq![]
            }
        }),
{
    reveal_strlit("");
    assert(""@ =~= seq![]);
}

/// The keys that stand in the way are those that are set, and nothing is said where
/// none is; the lines of a block are each set in.
pub proof fn law_the_hint_names_what_is_in_the_way(lines: Seq<Seq<char>>, i: int)
    requires
        0 <= i < lines.len(),
    ensures
        overriding_keys(true, true) == seq!["cpu_label"@, "ram_label"@],
        overriding_keys(true, false) == seq!["cpu_label"@],
        overriding_keys(false, true) == seq!["ram_label"@],
        override_note(overriding_keys(false, false)).len() == 0,
        override_note(overriding_keys(true, false)).len() > 0,
        override_note(overriding_keys(false, true)).len() > 0,
        override_note(overriding_keys(true, true)).len() > 0,
        indented(lines).len() == lines.len(),
        indented(lines)[i] == "      "@ + lines[i],
{
    assert(overriding_keys(true, true) =~= seq!["cpu_label"@, "ram_label"@]);
    assert(overriding_keys(true, false) =~= seq!["cpu_label"@]);
    assert(overriding_keys(false, true) =~= seq!["ram_label"@]);
    assert(overriding_keys(false, false) =~= seq![]);
}

// ---- the tier ---------------------------------------------------------------------------------------

proof fn lemma_without_separators(s: Seq<char>)
    ensures
        without_separators(s) == s.filter(|c: char| c != '-' && c != '_'),
    decreases s.len(),
{
    reveal(Seq::filter);
    if s.len() > 0 {
        lemma_without_separators(s.drop_last());
    } else {
        assert(without_separators(s) =~= s.filter(|c: char| c != '-' && c != '_'));
    }
}

/// A tier is picked by its name, whatever its case, the space around it and the
/// dashes in it; anything else names none.
pub proof fn law_a_tier_is_picked_by_name(name: Seq<char>)
    ensures
        ({
            let plain = lower(trim(name)).filter(|c: char| c != '-' && c != '_');
            &&& named_tier(Some(name)) == Some(IconSet::Text) <==> plain == "text"@
            &&& named_tier(Some(name)) == Some(IconSet::Unicode) <==> plain == "unicode"@
            &&& named_tier(Some(name)) == Some(IconSet::NerdFont) <==> plain == "nerdfont"@
            &&& named_tier(Some(name)) == Some(IconSet::Emoji) <==> plain == "emoji"@
        }),
        named_tier(None) is None,
{
    lemma_without_separators(lower(trim(name)));
    reveal_strlit("text");
    reveal_strlit("unicode");
    reveal_strlit("nerdfont");
    reveal_strlit("emoji");
    assert("text"@.len() == 4);
    assert("unicode"@.len() == 7);
    assert("nerdfont"@.len() == 8);
    assert("emoji"@.len() == 5);
}

/// Whether a variable is set to anything.
pub open spec fn is_set(v: Option<String>) -> bool {
    v is Some && v->0@.len() > 0
}

/// The first locale variable that is set decides whether pictures can be shown at
/// all, by naming UTF-8 either way it is spelt; they are where a font for them is
/// there too.
pub proof fn law_the_first_locale_decides(vars: LocaleVars, nerd_font: bool)
    ensures
        deciding(vars) == if is_set(vars.lc_all) {
            Some(vars.lc_all->0@)
        } else if is_set(vars.lc_ctype) {
            Some(vars.lc_ctype->0@)
        } else if is_set(vars.lang) {
            Some(vars.lang->0@)
        } else {
            None
        },
        utf8_locale(deciding(vars)) <==> deciding(vars) is Some && (has_text(
            lower(deciding(vars)->0),
            "utf-8"@,
        ) || has_text(lower(deciding(vars)->0), "utf8"@)),
        detected(vars, nerd_font) is NerdFont <==> nerd_font && utf8_locale(deciding(vars)),
        detected(vars, nerd_font) is Text <==> !(nerd_font && utf8_locale(deciding(vars))),
{
}

// ---- the monitor ------------------------------------------------------------------------------------

/// The words of a configured command are the command, and a program goes by its
/// name with each suffix of the list that is one, in order.
pub proof fn law_a_program_has_every_suffix(program: Seq<char>, parts: Seq<Seq<char>>)
    ensures
        suffixed(program, parts) == parts.filter_map(
            |part: Seq<char>|
                if trim(part).len() == 0 || trim(part)[0] != '.' {
                    None
                } else if trim(part).len() == 1 {
                    Some(program)
                } else {
                    Some(program + trim(part))
                },
        ),
        configured_words(Some(program)) == words(program),
        configured_words(None).len() == 0,
    decreases parts.len(),
{
    reveal(Seq::filter_map);
    let f = |part: Seq<char>|
        if trim(part).len() == 0 || trim(part)[0] != '.' {
            None
        } else if trim(part).len() == 1 {
            Some(program)
        } else {
            Some(program + trim(part))
        };
    if parts.len() > 0 {
        law_a_program_has_every_suffix(program, parts.drop_last());
    }
    assert(suffixed(program, parts) =~= parts.filter_map(f));
}

/// Nothing found to run is said with everything that was looked for.
pub proof fn law_what_was_looked_for_is_named(candidates: Seq<Seq<char>>)
    ensures
        none_installed(candidates) == "no system monitor installed — looked for "@ + join(
            candidates,
            ", "@,
        )
            + " on PATH. Install one, or name yours with `system_monitor = \"...\"` in the plugin's config.toml."@,
{
}

/// The preview has a line for every tier, in order, and the hint has both blocks to
/// paste, each line of them set in.
pub proof fn law_the_preview_has_every_tier(
    current: IconSet,
    labels: LabelsView,
    display: RamDisplay,
    cpu_set: bool,
    ram_set: bool,
)
    ensures
        preview_lines(current, labels, display).subrange(3, 7) == seq![
            tier_line("text"@, IconSet::Text, current, labels, display),
            tier_line("unicode"@, IconSet::Unicode, current, labels, display),
            tier_line("nerdfont"@, IconSet::NerdFont, current, labels, display),
            tier_line("emoji"@, IconSet::Emoji, current, labels, display),
        ],
        ({
            let note = override_note(overriding_keys(cpu_set, ram_set));
            let lines = hint_lines(current, cpu_set, ram_set);
            let n = (hint_intro().len() + note.len()) as int;
            &&& lines.subrange(hint_intro().len() as int, n) == note
            &&& lines.subrange(n + 2, n + 5) == indented(herdr_block(current))
            &&& lines.subrange(lines.len() - 4, lines.len() - 1) == indented(plugin_block(current))
        }),
        herdr_block(current) == seq![
            "[ui]"@,
            setting_line("cpu_label"@, tier_label(current, Metric::Cpu)),
            setting_line("ram_label"@, tier_label(current, Metric::Ram)),
        ],
        plugin_block(current) == seq![
            setting_line("battery_label"@, tier_label(current, Metric::Battery)),
            setting_line("disk_label"@, tier_label(current, Metric::Disk)),
            setting_line("icons"@, "text"@),
        ],
{
    let note = override_note(overriding_keys(cpu_set, ram_set));
    let lines = hint_lines(current, cpu_set, ram_set);
    let n = (hint_intro().len() + note.len()) as int;
    assert(preview_lines(current, labels, display).subrange(3, 7) =~= seq![
        tier_line("text"@, IconSet::Text, current, labels, display),
        tier_line("unicode"@, IconSet::Unicode, current, labels, display),
        tier_line("nerdfont"@, IconSet::NerdFont, current, labels, display),
        tier_line("emoji"@, IconSet::Emoji, current, labels, display),
    ]);
    assert(lines.subrange(hint_intro().len() as int, n) =~= note);
    assert(lines.subrange(n + 2, n + 5) =~= indented(herdr_block(current)));
    assert(lines.subrange(lines.len() - 4, lines.len() - 1) =~= indented(plugin_block(current)));
}

} // verus!
