//! The command line: which mode the flags select, and the text of the icon
//! preview.

use vstd::arithmetic::power2::{lemma_pow2_adds, lemma_pow2_pos, pow2};
use vstd::prelude::*;
use vstd::string::*;

use crate::battery::{lemma_clamped, Battery, State};
use crate::config::{Config, Labels, LabelsView, RamDisplay};
use crate::disk::{lemma_even_share, lemma_megabytes, Disk, DiskView};
use crate::icons::{
    herdr_block, herdr_ui_snippet, named_tier, plugin_block, plugin_config_snippet, IconSet,
};
use crate::icons_laws::lemma_plain_name;
use crate::double::{
    as_u64, double_of, lemma_exact, lemma_sizes, lemma_whole, lemma_whole_back, less_than, one,
    product, whole, zero, Double, DIGITS_END,
};
use crate::number::{number_of, parse_number};
use crate::render::{
    battery_text, cpu_text, disk_cell, drive_text, metric_row, ram_cell_of, ram_text, row_text,
};
use crate::text::{glued, join, joined, same};
use crate::units::{in_megabytes, megabytes, pad_right, padded_right, percent, share, Percent};
use crate::views::{lemma_texts_push, texts};

verus! {

broadcast use lemma_texts_push;

// ---- modes ----------------------------------------------------------------------------------

/// Default live-watch refresh window, in milliseconds.
pub const DEFAULT_INTERVAL_MS: u64 = 2000;

/// What a command line asks for.
#[derive(Debug, Clone, Copy, PartialEq, Eq, Structural)]
pub enum Command {
    /// Run the updater loop.
    Daemon,
    /// Start the updater.
    Enable,
    /// Stop the updater and clear statuses.
    Disable,
    /// One or the other, by the updater's state.
    Toggle,
    /// Bring the updater back after a restart.
    Restore,
    /// Preview every icon tier.
    Icons,
    /// Print the machine-readable payload.
    Json,
    /// Print a single report.
    Once,
    /// Watch live, redrawing every so many milliseconds.
    Interval(u64),
}

/// Index of the first argument that is `flag`, or the number of arguments.
pub open spec fn flag_index(args: Seq<Seq<char>>, flag: Seq<char>) -> int
    decreases args.len(),
{
    if args.len() == 0 || args[0] == flag {
        0
    } else {
        1 + flag_index(args.drop_first(), flag)
    }
}

/// Milliseconds in a positive number of seconds, held within range.
pub open spec fn milliseconds(seconds: Option<Double>) -> Option<u64> {
    match seconds {
        Some(n) => if less_than(zero(false), n) {
            Some(as_u64(product(n, 1000)))
        } else {
            None
        },
        None => None,
    }
}

/// The refresh window `--interval N` asks for, the default where it is missing,
/// no number, or not positive.
pub open spec fn interval_asked(args: Seq<Seq<char>>) -> u64 {
    let i = flag_index(args, "--interval"@);
    match milliseconds(
        if i + 1 < args.len() {
            number_of(args[i + 1])
        } else {
            None
        },
    ) {
        Some(ms) => ms,
        None => DEFAULT_INTERVAL_MS,
    }
}

/// What the arguments ask for: the first of the modes, in their order of
/// precedence, whose flag is among them, and the live watch without any.
pub open spec fn command_of(args: Seq<Seq<char>>) -> Command {
    if args.contains("--daemon"@) {
        Command::Daemon
    } else if args.contains("--enable"@) {
        Command::Enable
    } else if args.contains("--disable"@) {
        Command::Disable
    } else if args.contains("--toggle"@) {
        Command::Toggle
    } else if args.contains("--restore"@) {
        Command::Restore
    } else if args.contains("--icons"@) {
        Command::Icons
    } else if args.contains("--json"@) {
        Command::Json
    } else if args.contains("--once"@) {
        Command::Once
    } else {
        Command::Interval(interval_asked(args))
    }
}

/// True if `flag` appears anywhere in `args`.
pub fn has_flag(args: &Vec<String>, flag: &str) -> (r: bool)
    ensures
        r == texts(args@).contains(flag@),
{
    crate::text::holds(args, flag)
}

/// Parse `--interval N` (seconds) into milliseconds, falling back to the default
/// for a missing, non-numeric, or non-positive value.
pub fn interval_ms(args: &Vec<String>) -> (r: u64)
    ensures
        r == interval_asked(texts(args@)),
{
    let ghost all = texts(args@);
    let mut i: usize = 0;
    assert(all.skip(0) =~= all);
    while i < args.len() && !same(args[i].as_str(), "--interval")
        invariant
            i <= args.len(),
            all == texts(args@),
            flag_index(all, "--interval"@) == i + flag_index(all.skip(i as int), "--interval"@),
        decreases args.len() - i,
    {
        assert(all.skip(i as int).drop_first() =~= all.skip(i + 1));
        i += 1;
    }
    assert(flag_index(all, "--interval"@) == i);
    if i >= args.len() || i + 1 >= args.len() {
        return DEFAULT_INTERVAL_MS;
    }
    match parse_number(args[i + 1].as_str()) {
        Some(n) => if Double::nothing().below(n) {
            n.times(1000).to_u64()
        } else {
            DEFAULT_INTERVAL_MS
        },
        None => DEFAULT_INTERVAL_MS,
    }
}

/// The mode the arguments select.
pub fn run(args: &Vec<String>) -> (r: Command)
    ensures
        r == command_of(texts(args@)),
{
    if has_flag(args, "--daemon") {
        Command::Daemon
    } else if has_flag(args, "--enable") {
        Command::Enable
    } else if has_flag(args, "--disable") {
        Command::Disable
    } else if has_flag(args, "--toggle") {
        Command::Toggle
    } else if has_flag(args, "--restore") {
        Command::Restore
    } else if has_flag(args, "--icons") {
        Command::Icons
    } else if has_flag(args, "--json") {
        Command::Json
    } else if has_flag(args, "--once") {
        Command::Once
    } else {
        Command::Interval(interval_ms(args))
    }
}

// ---- the icon preview --------------------------------------------------------------------------

/// Every icon tier with the name the config takes for it.
pub const ICON_TIERS: [(&'static str, IconSet); 4] = [
    ("text", IconSet::Text),
    ("unicode", IconSet::Unicode),
    ("nerdfont", IconSet::NerdFont),
    ("emoji", IconSet::Emoji),
];

/// Sample CPU load, in percent.
pub const SAMPLE_CPU: u64 = 26;

/// Sample RAM figure: 1536 MB.
pub const SAMPLE_RAM: u64 = 1_610_612_736;

/// The machine total it is eight percent of: 19200 MB.
pub const SAMPLE_MEM_TOTAL: u64 = 20_132_659_200;

/// Sample battery charge, in percent.
pub const SAMPLE_BATTERY: u64 = 74;

/// Sample drive: 240 GB free, 272 GB used, 512 GB in all.
pub const SAMPLE_FREE: u64 = 257_698_037_760;

pub const SAMPLE_USED: u64 = 292_057_776_128;

pub const SAMPLE_TOTAL: u64 = 549_755_813_888;

pub open spec fn sample_battery() -> Battery {
    Battery { percent: percent(SAMPLE_BATTERY as int), state: State::Charging }
}

pub open spec fn sample_drive() -> DiskView {
    DiskView {
        name: "/"@,
        free_mb: megabytes(SAMPLE_FREE as int),
        used_mb: megabytes(SAMPLE_USED as int),
        total_mb: megabytes(SAMPLE_TOTAL as int),
    }
}

fn sample_disk() -> (r: Disk)
    ensures
        r@ == sample_drive(),
{
    Disk {
        name: "/".to_owned(),
        free_mb: in_megabytes(SAMPLE_FREE),
        used_mb: in_megabytes(SAMPLE_USED),
        total_mb: in_megabytes(SAMPLE_TOTAL),
    }
}

/// The sample reading drawn by one tier, under the user's own labels.
pub open spec fn sample_row(set: IconSet, labels: LabelsView, display: RamDisplay) -> Seq<char> {
    row_text(
        cpu_text(set, labels.cpu, percent(SAMPLE_CPU as int)),
        ram_text(
            set,
            labels.ram,
            megabytes(SAMPLE_RAM as int),
            display,
            megabytes(SAMPLE_MEM_TOTAL as int),
        ),
        seq![battery_text(set, labels.battery, sample_battery())],
        seq![drive_text(set, labels.disk, None, sample_drive())],
    )
}

/// One line of the preview: the tier's name, its row, and whether it is the one
/// in use.
pub open spec fn tier_line(
    name: Seq<char>,
    set: IconSet,
    current: IconSet,
    labels: LabelsView,
    display: RamDisplay,
) -> Seq<char> {
    "    "@ + pad_right(name, 10, ' ') + sample_row(set, labels, display) + if set == current {
        "   <- current"@
    } else {
        ""@
    }
}

/// What the preview is headed with.
pub open spec fn preview_heading(display: RamDisplay) -> Seq<char> {
    "  Icon tiers — 26% cpu, "@ + ram_text(
        IconSet::Text,
        Some(""@),
        megabytes(SAMPLE_RAM as int),
        display,
        megabytes(SAMPLE_MEM_TOTAL as int),
    ) + " ram, 74% battery charging, 53% disk used, drawn by each tier:"@
}

/// The lines of the preview.
pub open spec fn preview_lines(
    current: IconSet,
    labels: LabelsView,
    display: RamDisplay,
) -> Seq<Seq<char>> {
    seq![
        ""@,
        preview_heading(display),
        ""@,
        tier_line("text"@, IconSet::Text, current, labels, display),
        tier_line("unicode"@, IconSet::Unicode, current, labels, display),
        tier_line("nerdfont"@, IconSet::NerdFont, current, labels, display),
        tier_line("emoji"@, IconSet::Emoji, current, labels, display),
        ""@,
        "  text and unicode need no font installed. nerdfont needs a Nerd Font"@,
        "  and emoji needs a colour emoji font — if a row above came out as boxes"@,
        "  or blanks, that tier is not available here."@,
        ""@,
        "  Choose one with `icons = \"<tier>\"` in the plugin's config.toml. The"@,
        "  default, `auto`, uses a Nerd Font when it finds one installed and plain"@,
        "  text otherwise."@,
        ""@,
    ]
}

fn push_tier(
    lines: &mut Vec<String>,
    name: &str,
    set: IconSet,
    current: IconSet,
    labels: &Labels,
    display: RamDisplay,
)
    ensures
        texts(final(lines)@) == texts(old(lines)@).push(
            tier_line(name@, set, current, labels@, display),
        ),
{
    let disk = sample_disk();
    let mut drives: Vec<String> = Vec::new();
    drives.push(disk_cell(set, labels.disk(), None, &disk));
    assert(texts(drives@) =~= seq![drive_text(set, labels@.disk, None, sample_drive())]);
    let charge = Battery { percent: Percent::new(SAMPLE_BATTERY), state: State::Charging };
    let row = metric_row(
        set.cpu_cell(labels.cpu(), Percent::new(SAMPLE_CPU)),
        ram_cell_of(
            set,
            labels.ram(),
            in_megabytes(SAMPLE_RAM),
            display,
            in_megabytes(SAMPLE_MEM_TOTAL),
        ),
        Some(set.battery_cell(labels.battery(), charge)),
        drives,
    );
    let mut line = glued("    ", padded_right(name, 10, ' ').as_str());
    line.append(row.as_str());
    if set == current {
        line.append("   <- current");
    } else {
        line.append("");
    }
    lines.push(line);
}

/// The icon preview: the same sample reading drawn by all four tiers, so the user
/// can see which glyphs their own terminal and font produce.
///
/// The rows go through the same functions every surface does, with the user's
/// labels and RAM form.
pub fn print_icon_preview(current: IconSet, config: &Config, labels: &Labels) -> (r: Vec<String>)
    ensures
        texts(r@) == preview_lines(current, labels@, config.ram_display),
{
    let display = config.ram_display;
    let mut lines: Vec<String> = Vec::new();
    lines.push("".to_owned());
    let mut heading = glued(
        "  Icon tiers — 26% cpu, ",
        ram_cell_of(
            IconSet::Text,
            Some(""),
            in_megabytes(SAMPLE_RAM),
            display,
            in_megabytes(SAMPLE_MEM_TOTAL),
        ).as_str(),
    );
    heading.append(" ram, 74% battery charging, 53% disk used, drawn by each tier:");
    lines.push(heading);
    lines.push("".to_owned());
    push_tier(&mut lines, ICON_TIERS[0].0, ICON_TIERS[0].1, current, labels, display);
    push_tier(&mut lines, ICON_TIERS[1].0, ICON_TIERS[1].1, current, labels, display);
    push_tier(&mut lines, ICON_TIERS[2].0, ICON_TIERS[2].1, current, labels, display);
    push_tier(&mut lines, ICON_TIERS[3].0, ICON_TIERS[3].1, current, labels, display);
    lines.push("".to_owned());
    lines.push("  text and unicode need no font installed. nerdfont needs a Nerd Font".to_owned());
    lines.push(
        "  and emoji needs a colour emoji font — if a row above came out as boxes".to_owned(),
    );
    lines.push("  or blanks, that tier is not available here.".to_owned());
    lines.push("".to_owned());
    lines.push(
        "  Choose one with `icons = \"<tier>\"` in the plugin's config.toml. The".to_owned(),
    );
    lines.push(
        "  default, `auto`, uses a Nerd Font when it finds one installed and plain".to_owned(),
    );
    lines.push("  text otherwise.".to_owned());
    lines.push("".to_owned());
    assert(texts(lines@) =~= preview_lines(current, labels@, display));
    lines
}

/// The keys the plugin's own config sets, which win over herdr's.
pub open spec fn overriding_keys(cpu_set: bool, ram_set: bool) -> Seq<Seq<char>> {
    (if cpu_set {
        seq!["cpu_label"@]
    } else {
        seq![]
    }) + if ram_set {
        seq!["ram_label"@]
    } else {
        seq![]
    }
}

/// What is said when the plugin's own config already names CPU or RAM: the block
/// for herdr's config could not take effect.
pub open spec fn override_note(keys: Seq<Seq<char>>) -> Seq<Seq<char>> {
    if keys.len() == 0 {
        seq![]
    } else {
        seq![
            "  NOTE: "@ + join(keys, " and "@)
                + " already set in the plugin's config.toml, which wins over"@,
            "  herdr's. Remove it there for the block below to reach these rows."@,
            ""@,
        ]
    }
}

/// Lines set in by the width of a block.
pub open spec fn indented(lines: Seq<Seq<char>>) -> Seq<Seq<char>> {
    lines.map_values(|l: Seq<char>| "      "@ + l)
}

pub open spec fn hint_intro() -> Seq<Seq<char>> {
    seq![
        "  One setting for both: herdr's own sidebar system-usage header reads"@,
        "  `cpu_label` / `ram_label` from ITS config, and this plugin honours the"@,
        "  same keys — an explicit label replaces the tier's glyph rather than"@,
        "  stacking with it. Set them once and the header and these rows agree."@,
        ""@,
    ]
}

pub open spec fn hint_middle() -> Seq<Seq<char>> {
    seq![
        ""@,
        "  ..and this in the plugin's config.toml — herdr draws neither a battery"@,
        "  nor a disk, so it has no key for either, and `icons = \"text\"` simply"@,
        "  says the labels are doing the naming now:"@,
        ""@,
    ]
}

/// The lines that explain the settings shared with herdr's own header.
pub open spec fn hint_lines(current: IconSet, cpu_set: bool, ram_set: bool) -> Seq<Seq<char>> {
    hint_intro() + override_note(overriding_keys(cpu_set, ram_set)) + seq![
        "  For the tier above, put this in herdr's config.toml:"@,
        ""@,
    ] + indented(herdr_block(current)) + hint_middle() + indented(plugin_block(current)) + seq![
        ""@,
    ]
}

fn intro_lines() -> (r: Vec<String>)
    ensures
        texts(r@) == hint_intro(),
{
    let mut r: Vec<String> = Vec::new();
    r.push("  One setting for both: herdr's own sidebar system-usage header reads".to_owned());
    r.push("  `cpu_label` / `ram_label` from ITS config, and this plugin honours the".to_owned());
    r.push("  same keys — an explicit label replaces the tier's glyph rather than".to_owned());
    r.push("  stacking with it. Set them once and the header and these rows agree.".to_owned());
    r.push("".to_owned());
    assert(texts(r@) =~= hint_intro());
    r
}

fn push_middle(lines: &mut Vec<String>)
    ensures
        texts(final(lines)@) == texts(old(lines)@) + hint_middle(),
{
    let ghost start = texts(lines@);
    lines.push("".to_owned());
    lines.push(
        "  ..and this in the plugin's config.toml — herdr draws neither a battery".to_owned(),
    );
    lines.push(
        "  nor a disk, so it has no key for either, and `icons = \"text\"` simply".to_owned(),
    );
    lines.push("  says the labels are doing the naming now:".to_owned());
    lines.push("".to_owned());
    assert(texts(lines@) =~= start + hint_middle());
}

fn push_note(lines: &mut Vec<String>, config: &Config)
    ensures
        texts(final(lines)@) == texts(old(lines)@) + override_note(
            overriding_keys(config@.cpu_label is Some, config@.ram_label is Some),
        ),
{
    let ghost start = texts(lines@);
    let mut keys: Vec<String> = Vec::new();
    if config.cpu_label.is_some() {
        keys.push("cpu_label".to_owned());
    }
    if config.ram_label.is_some() {
        keys.push("ram_label".to_owned());
    }
    let ghost want = overriding_keys(config@.cpu_label is Some, config@.ram_label is Some);
    assert(texts(keys@) =~= want);
    assert(texts(keys@).len() == keys@.len());
    if keys.len() > 0 {
        let mut note = glued("  NOTE: ", joined(&keys, " and ").as_str());
        note.append(" already set in the plugin's config.toml, which wins over");
        lines.push(note);
        lines.push(
            "  herdr's. Remove it there for the block below to reach these rows.".to_owned(),
        );
        lines.push("".to_owned());
    }
    assert(texts(lines@) =~= start + override_note(want));
}

fn push_indented(lines: &mut Vec<String>, block: &Vec<String>)
    ensures
        texts(final(lines)@) == texts(old(lines)@) + indented(texts(block@)),
{
    let ghost start = texts(lines@);
    let ghost all = indented(texts(block@));
    let mut i: usize = 0;
    assert(start + all.take(0) =~= start);
    while i < block.len()
        invariant
            i <= block.len(),
            all == indented(texts(block@)),
            texts(lines@) == start + all.take(i as int),
        decreases block.len() - i,
    {
        lines.push(glued("      ", block[i].as_str()));
        i += 1;
        assert(all.take(i as int) =~= all.take(i - 1).push(all[i - 1]));
        assert(texts(lines@) =~= start + all.take(i as int));
    }
    assert(all.take(i as int) =~= all);
}

/// The edits that keep herdr's own sidebar header in step with these rows.
///
/// Two blocks, and which file each goes in is the point: herdr knows the CPU and
/// RAM labels and nothing else here.
pub fn print_one_setting_hint(current: IconSet, config: &Config) -> (r: Vec<String>)
    ensures
        texts(r@) == hint_lines(current, config@.cpu_label is Some, config@.ram_label is Some),
{
    let mut lines = intro_lines();
    push_note(&mut lines, config);
    let ghost noted = texts(lines@);
    lines.push("  For the tier above, put this in herdr's config.toml:".to_owned());
    lines.push("".to_owned());
    assert(texts(lines@) =~= noted + seq![
        "  For the tier above, put this in herdr's config.toml:"@,
        ""@,
    ]);
    push_indented(&mut lines, &herdr_ui_snippet(current));
    push_middle(&mut lines);
    push_indented(&mut lines, &plugin_config_snippet(current));
    let ghost blocks = texts(lines@);
    lines.push("".to_owned());
    assert(texts(lines@) =~= blocks + seq![""@]);
    lines
}

/// Every name the preview prints is one the config accepts for that tier.
pub proof fn law_preview_names_are_accepted(k: int)
    requires
        0 <= k < ICON_TIERS@.len(),
    ensures
        named_tier(Some(ICON_TIERS@[k].0@)) == Some(ICON_TIERS@[k].1),
{
    reveal_strlit("text");
    reveal_strlit("unicode");
    reveal_strlit("nerdfont");
    reveal_strlit("emoji");
    lemma_plain_name("text"@);
    lemma_plain_name("unicode"@);
    lemma_plain_name("nerdfont"@);
    lemma_plain_name("emoji"@);
    assert("unicode"@ != "nerdfont"@);
}

/// The figures in the preview's heading are those of the sample its rows draw.
pub proof fn law_preview_heading_names_the_sample()
    ensures
        percent(SAMPLE_CPU as int).whole() == 26,
        sample_battery().percent.whole() == 74,
        sample_drive().used_share().whole() == 53,
        share(megabytes(SAMPLE_RAM as int), megabytes(SAMPLE_MEM_TOTAL as int)) == whole(8),
{
    lemma_whole_back(26);
    lemma_whole_back(74);
    let u = one();
    lemma_pow2_pos(1074);
    let (ram, all) = (SAMPLE_RAM as int, SAMPLE_MEM_TOTAL as int);
    assert(100 * ram * u == (8 * u) * all) by (nonlinear_arith)
        requires
            100 * ram == 8 * all,
    ;
    lemma_even_share(ram, all, 8 * u);
    lemma_megabytes(all);
    lemma_sample_drive();
}

proof fn lemma_sample_drive()
    ensures
        sample_drive().used_share().whole() == 53,
{
    let u = one();
    let g = pow2(1071) as int;
    let p = pow2(1054) as int;
    lemma_pow2_pos(1074);
    lemma_pow2_pos(1071);
    lemma_pow2_pos(1054);
    lemma_pow2_adds(3, 1071);
    vstd::arithmetic::power2::lemma2_to64();
    let (used, free) = (SAMPLE_USED as int, SAMPLE_FREE as int);
    let all = used + free;
    lemma_megabytes(used);
    lemma_megabytes(free);
    lemma_megabytes(all);
    assert(used * p + free * p == all * p && used * p > 0 && free * p > 0) by (nonlinear_arith)
        requires
            all == used + free,
            used > 0,
            free > 0,
            p > 0,
    ;
    assert(100 * used * u == (425 * g) * all) by (nonlinear_arith)
        requires
            u == 8 * g,
            800 * used == 425 * all,
    ;
    lemma_even_share(used, all, 425 * g);
    lemma_pow2_adds(53, 1071);
    lemma_sizes();
    assert(425 * g < DIGITS_END * g) by (nonlinear_arith)
        requires
            g > 0,
    ;
    vstd::arithmetic::div_mod::lemma_fundamental_div_mod_converse(425 * g, g, 425, 0);
    lemma_exact(false, 425 * g, 1071);
    lemma_whole(100);
    assert(0 * pow2(0) == 0);
    let value = double_of(false, 425 * g, 1);
    lemma_clamped(value);
    assert(2 * (425 * g) + u == 53 * (2 * u) + 10 * g);
    vstd::arithmetic::div_mod::lemma_fundamental_div_mod_converse(
        2 * (425 * g) + u,
        2 * u,
        53,
        10 * g,
    );
}

} // verus!
