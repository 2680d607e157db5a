//! Human and machine-readable rendering.
//!
//! Every surface's metric cells are assembled here, the narrow ones of the
//! sidebar and the icon preview among them, so there is one place that decides
//! what a metric looks like and the surfaces cannot drift apart.

use vstd::prelude::*;
use vstd::string::*;

use crate::battery::{Battery, State};
use crate::big::Big;
use crate::config::{word_for, Config, Labels, LabelsView, RamDisplay, DEFAULT_CPU_LABEL, DEFAULT_RAM_LABEL};
use crate::disk::{disk_views, Disk, DiskView};
use crate::double::{
    as_i64, big_text, is_whole, less_than, product, quotient, rounded, shortest, sum, whole, zero,
    Double,
};
use crate::icons::{disk_text, level, mark_of, naming, IconSet, Metric};
use crate::model::{clone_opt_texts, opt_texts, space_views, Space, SpaceView};
use crate::proc::{ram_pct, ram_share};
use crate::text::{digits, glued, join, joined, number_text};
use crate::units::{
    at_least, compact_size, fmt_ram, is_positive, nothing, pad_left, padded_digits, padded_left,
    share, share_of, small_size, wide_size, Percent,
};
use crate::views::{lemma_texts_push, opt_str, opt_text, texts};

verus! {

broadcast use lemma_texts_push;

// ---- styling -------------------------------------------------------------------------------

/// Paint gate: colours only where the output is a terminal that wants them.
#[derive(Debug, Clone, Copy, PartialEq, Eq, Structural)]
pub struct Style {
    pub color: bool,
}

/// `s` wrapped in a colour code, where colour is on.
pub open spec fn painted(color: bool, code: Seq<char>, s: Seq<char>) -> Seq<char> {
    if color {
        "\x1b["@ + code + "m"@ + s + "\x1b[0m"@
    } else {
        s
    }
}

/// The colour of a CPU load: red from 80 percent, yellow from 40, else green.
pub open spec fn cpu_code(load: Percent) -> Seq<char> {
    if at_least(load, 80) {
        "31"@
    } else if at_least(load, 40) {
        "33"@
    } else {
        "32"@
    }
}

impl Style {
    /// Colour on a terminal, unless the environment asks for none; an empty
    /// request is no request.
    pub fn detect(is_terminal: bool, no_color: Option<&str>) -> (r: Self)
        ensures
            r.color == (is_terminal && !(opt_str(no_color) matches Some(v) && v.len() > 0)),
    {
        let asked = match no_color {
            Some(v) => !v.is_empty(),
            None => false,
        };
        Style { color: is_terminal && !asked }
    }

    /// Wrap `s` in a colour code when colour is enabled, else return it plain.
    pub fn paint(&self, code: &str, s: &str) -> (r: String)
        ensures
            r@ == painted(self.color, code@, s@),
    {
        if self.color {
            let mut r = glued("\x1b[", code);
            r.append("m");
            r.append(s);
            r.append("\x1b[0m");
            r
        } else {
            s.to_owned()
        }
    }

    pub fn dim(&self, s: &str) -> (r: String)
        ensures
            r@ == painted(self.color, "2"@, s@),
    {
        self.paint("2", s)
    }

    pub fn bold(&self, s: &str) -> (r: String)
        ensures
            r@ == painted(self.color, "1"@, s@),
    {
        self.paint("1", s)
    }

    pub fn green(&self, s: &str) -> (r: String)
        ensures
            r@ == painted(self.color, "32"@, s@),
    {
        self.paint("32", s)
    }

    pub fn yellow(&self, s: &str) -> (r: String)
        ensures
            r@ == painted(self.color, "33"@, s@),
    {
        self.paint("33", s)
    }

    pub fn red(&self, s: &str) -> (r: String)
        ensures
            r@ == painted(self.color, "31"@, s@),
    {
        self.paint("31", s)
    }

    /// Colour `s` by CPU load, on the share-of-machine scale.
    pub fn cpu(&self, v: Percent, s: &str) -> (r: String)
        ensures
            r@ == painted(self.color, cpu_code(v), s@),
    {
        if v.reaches(80) {
            self.red(s)
        } else if v.reaches(40) {
            self.yellow(s)
        } else {
            self.green(s)
        }
    }
}

// ---- narrow metric cells ------------------------------------------------------------------------

/// Separator between the cells of a narrow metric row.
pub const CELL_SEPARATOR: &'static str = " · ";

/// Everything that decides how a narrow row looks: the naming, the glyph
/// vocabulary, and the form the RAM figure takes.
#[derive(Debug, Clone, Copy)]
pub struct RowStyle<'a> {
    pub labels: &'a Labels,
    pub icons: IconSet,
    pub ram_display: RamDisplay,
}

impl<'a> RowStyle<'a> {
    /// Build a style from its parts.
    pub fn new(labels: &'a Labels, icons: IconSet, ram_display: RamDisplay) -> (r: Self)
        ensures
            r.labels@ == labels@,
            r.icons == icons,
            r.ram_display == ram_display,
    {
        RowStyle { labels, icons, ram_display }
    }

    /// The style a config asks for, with the tier already resolved.
    pub fn from_config(labels: &'a Labels, icons: IconSet, config: &Config) -> (r: Self)
        ensures
            r.labels@ == labels@,
            r.icons == icons,
            r.ram_display == config.ram_display,
    {
        RowStyle::new(labels, icons, config.ram_display)
    }
}

/// The text of a RAM cell: the share of the machine's total, or the figure
/// itself where that is asked for or there is no total to be a share of.
pub open spec fn ram_text(
    icons: IconSet,
    label: Option<Seq<char>>,
    mb: Double,
    display: RamDisplay,
    mem_total: Double,
) -> Seq<char> {
    if display == RamDisplay::Percent && less_than(zero(false), mem_total) {
        let p = Percent { value: share(mb, mem_total) };
        naming(icons, Metric::Ram, label, p) + level(icons, p)
    } else {
        naming(icons, Metric::Ram, label, nothing()) + small_size(mb)
    }
}

/// The narrow RAM cell, given the machine's total (zero when it is unknown).
pub fn ram_cell_of(
    icons: IconSet,
    label: Option<&str>,
    mb: Double,
    display: RamDisplay,
    mem_total: Double,
) -> (r: String)
    ensures
        r@ == ram_text(icons, opt_str(label), mb, display, mem_total),
{
    if display == RamDisplay::Percent && is_positive(mem_total) {
        icons.ram_cell(label, share_of(mb, mem_total))
    } else {
        icons.ram_absolute(label, compact_size(mb).as_str())
    }
}

/// The text of a battery cell.
pub open spec fn battery_text(icons: IconSet, label: Option<Seq<char>>, b: Battery) -> Seq<char> {
    naming(icons, Metric::Battery, label, b.percent) + level(icons, b.percent) + mark_of(b.state)
}

/// The battery cells of a row: one, or none when there is no reading.
pub open spec fn battery_texts(
    icons: IconSet,
    label: Option<Seq<char>>,
    reading: Option<Battery>,
) -> Seq<Seq<char>> {
    match reading {
        Some(b) => seq![battery_text(icons, label, b)],
        None => seq![],
    }
}

/// The battery cell, or nothing when there is no reading to show.
pub fn battery_cell(icons: IconSet, labels: &Labels, reading: Option<Battery>) -> (r: Option<
    String,
>)
    ensures
        match (reading, opt_text(r)) {
            (Some(b), Some(text)) => text == battery_text(icons, labels@.battery, b),
            (None, None) => true,
            _ => false,
        },
{
    match reading {
        Some(b) => Some(icons.battery_cell(labels.battery(), b)),
        None => None,
    }
}

/// The text of one drive's cell.
pub open spec fn drive_text(
    icons: IconSet,
    label: Option<Seq<char>>,
    mount: Option<Seq<char>>,
    d: DiskView,
) -> Seq<char> {
    disk_text(
        icons,
        label,
        mount,
        d.used_share(),
        small_size(d.free_mb),
    )
}

/// The cells of several drives: each names its mount when there is more than one.
pub open spec fn drive_texts(
    icons: IconSet,
    label: Option<Seq<char>>,
    disks: Seq<DiskView>,
) -> Seq<Seq<char>> {
    disks.map_values(
        |d: DiskView|
            drive_text(
                icons,
                label,
                if disks.len() > 1 {
                    Some(d.name)
                } else {
                    None
                },
                d,
            ),
    )
}

/// One drive's cell: the percentage used, then the size still free.
pub fn disk_cell(icons: IconSet, label: Option<&str>, mount: Option<&str>, reading: &Disk) -> (r:
    String)
    ensures
        r@ == drive_text(icons, opt_str(label), opt_str(mount), reading@),
{
    icons.disk(label, mount, reading.used_percent(), compact_size(reading.free_mb).as_str())
}

/// A cell per drive, in the order the user listed them.
pub fn disk_cells(style: RowStyle, disks: &Vec<Disk>) -> (r: Vec<String>)
    ensures
        texts(r@) == drive_texts(style.icons, style.labels@.disk, disk_views(disks@)),
{
    let named = disks.len() > 1;
    let ghost all = drive_texts(style.icons, style.labels@.disk, disk_views(disks@));
    let mut r: Vec<String> = Vec::new();
    let mut i: usize = 0;
    assert(texts(r@) =~= all.take(0));
    while i < disks.len()
        invariant
            i <= disks.len(),
            named == (disks.len() > 1),
            all == drive_texts(style.icons, style.labels@.disk, disk_views(disks@)),
            texts(r@) == all.take(i as int),
        decreases disks.len() - i,
    {
        let mount: Option<&str> = if named {
            Some(disks[i].name.as_str())
        } else {
            None
        };
        r.push(disk_cell(style.icons, style.labels.disk(), mount, &disks[i]));
        i += 1;
        assert(all.take(i as int) =~= all.take(i - 1).push(all[i - 1]));
    }
    assert(all.take(i as int) =~= all);
    r
}

/// The text of a narrow row.
pub open spec fn row_text(
    cpu: Seq<char>,
    ram: Seq<char>,
    battery: Seq<Seq<char>>,
    disks: Seq<Seq<char>>,
) -> Seq<char> {
    join(seq![cpu, ram] + battery + disks, CELL_SEPARATOR@)
}

/// An optional cell as a list of cells.
pub open spec fn cell_list(cell: Option<Seq<char>>) -> Seq<Seq<char>> {
    match cell {
        Some(c) => seq![c],
        None => seq![],
    }
}

/// Join the cells of one narrow row. An absent battery leaves no cell and no
/// separator, and so does a drive that could not be read.
pub fn metric_row(cpu: String, ram: String, battery: Option<String>, disks: Vec<String>) -> (r:
    String)
    ensures
        r@ == row_text(cpu@, ram@, cell_list(opt_text(battery)), texts(disks@)),
{
    let ghost want = seq![cpu@, ram@] + cell_list(opt_text(battery)) + texts(disks@);
    let mut cells: Vec<String> = Vec::new();
    cells.push(cpu);
    cells.push(ram);
    if let Some(b) = battery {
        cells.push(b);
    }
    assert(texts(cells@) =~= seq![cpu@, ram@] + cell_list(opt_text(battery)));
    let end: usize = cells.len();
    let cells = crate::text::replaced(&cells, end, end, &disks);
    assert(texts(cells@) =~= want);
    joined(&cells, CELL_SEPARATOR)
}

/// The two cells both narrow rows start with.
pub open spec fn cpu_text(icons: IconSet, label: Option<Seq<char>>, cpu: Percent) -> Seq<char> {
    naming(icons, Metric::Cpu, label, cpu) + level(icons, cpu)
}

/// One space's narrow row: what the sidebar card and the agents panel show.
///
/// It takes no battery and no disk: both are single readings for the whole
/// machine, and repeating them on every space would read as if each had its own.
pub fn usage_row(cpu: Percent, ram: Double, mem_total: Double, style: RowStyle) -> (r: String)
    ensures
        r@ == row_text(
            cpu_text(style.icons, style.labels@.cpu, cpu),
            ram_text(style.icons, style.labels@.ram, ram, style.ram_display, mem_total),
            seq![],
            seq![],
        ),
{
    let cells: Vec<String> = Vec::new();
    assert(texts(cells@) =~= seq![]);
    metric_row(
        style.icons.cpu_cell(style.labels.cpu(), cpu),
        ram_cell_of(style.icons, style.labels.ram(), ram, style.ram_display, mem_total),
        None,
        cells,
    )
}

/// The all-space totals as a narrow row, with the machine's one battery and its
/// drives. This is the window title.
pub fn totals_row(
    cpu: Percent,
    ram: Double,
    mem_total: Double,
    style: RowStyle,
    battery: Option<Battery>,
    disks: &Vec<Disk>,
) -> (r: String)
    ensures
        r@ == row_text(
            cpu_text(style.icons, style.labels@.cpu, cpu),
            ram_text(style.icons, style.labels@.ram, ram, style.ram_display, mem_total),
            battery_texts(style.icons, style.labels@.battery, battery),
            drive_texts(style.icons, style.labels@.disk, disk_views(disks@)),
        ),
{
    let charge = battery_cell(style.icons, style.labels, battery);
    metric_row(
        style.icons.cpu_cell(style.labels.cpu(), cpu),
        ram_cell_of(style.icons, style.labels.ram(), ram, style.ram_display, mem_total),
        charge,
        disk_cells(style, disks),
    )
}

// ---- the report --------------------------------------------------------------------------------

/// A count and its noun: `1 pane`, `2 panes`.
pub open spec fn counted(n: int, noun: Seq<char>) -> Seq<char> {
    digits(n) + " "@ + noun + if n == 1 {
        ""@
    } else {
        "s"@
    }
}

fn count_text(n: usize, noun: &str) -> (r: String)
    ensures
        r@ == counted(n as int, noun@),
{
    let mut r = number_text(n as u128);
    r.append(" ");
    r.append(noun);
    if n != 1 {
        r.append("s");
    } else {
        r.append("");
    }
    r
}

/// A percentage in brackets, nothing where there is none.
pub open spec fn bracketed(pct: Seq<char>) -> Seq<char> {
    if pct.len() == 0 {
        pct
    } else {
        " ("@ + pct + ")"@
    }
}

fn in_brackets(pct: &str) -> (r: String)
    ensures
        r@ == bracketed(pct@),
{
    if pct.is_empty() {
        pct.to_owned()
    } else {
        glued(glued(" (", pct).as_str(), ")")
    }
}

/// The notes behind a space's figures.
pub open spec fn notes_text(s: SpaceView) -> Seq<char> {
    "· "@ + counted(s.pane_count as int, "pane"@) + match s.worktree_labels {
        Some(labels) => " · +"@ + counted(labels.len() as int, "worktree"@),
        None => ""@,
    }
}

/// The four lines of one space.
pub open spec fn space_lines(
    s: SpaceView,
    labels: LabelsView,
    mem_total: Double,
    color: bool,
) -> Seq<Seq<char>> {
    let marker = if s.focused {
        painted(color, "32"@, "●"@)
    } else {
        painted(color, "2"@, "○"@)
    };
    let branch = if s.branch.len() == 0 {
        "(no branch)"@
    } else {
        s.branch
    };
    let cpu = painted(
        color,
        cpu_code(s.cpu),
        pad_left(s.cpu.one_decimal() + "%"@, 6, ' '),
    );
    let pct = ram_share(s.ram_mb, mem_total);
    let pct_text = if pct.len() == 0 {
        pct
    } else {
        painted(color, "2"@, bracketed(pct))
    };
    seq![
        "  "@ + marker + " "@ + painted(color, "1"@, s.label),
        "      "@ + painted(color, "2"@, branch),
        "      "@ + word_for(labels.cpu, DEFAULT_CPU_LABEL@) + " "@ + cpu + "   "@ + word_for(
            labels.ram,
            DEFAULT_RAM_LABEL@,
        ) + " "@ + pad_left(wide_size(s.ram_mb), 8, ' ') + pct_text + "   "@ + painted(
            color,
            "2"@,
            notes_text(s),
        ),
        ""@,
    ]
}

/// The lines of every space, in order.
pub open spec fn all_space_lines(
    spaces: Seq<SpaceView>,
    labels: LabelsView,
    mem_total: Double,
    color: bool,
) -> Seq<Seq<char>>
    decreases spaces.len(),
{
    if spaces.len() == 0 {
        seq![]
    } else {
        all_space_lines(spaces.drop_last(), labels, mem_total, color) + space_lines(
            spaces.last(),
            labels,
            mem_total,
            color,
        )
    }
}

/// CPU over all spaces.
pub open spec fn total_cpu(spaces: Seq<SpaceView>) -> Double
    decreases spaces.len(),
{
    if spaces.len() == 0 {
        zero(false)
    } else {
        sum(total_cpu(spaces.drop_last()), spaces.last().cpu.value)
    }
}

/// RAM over all spaces, in megabytes.
pub open spec fn total_ram(spaces: Seq<SpaceView>) -> Double
    decreases spaces.len(),
{
    if spaces.len() == 0 {
        zero(false)
    } else {
        sum(total_ram(spaces.drop_last()), spaces.last().ram_mb)
    }
}

/// Cells, each with the gap of the total line in front of it.
pub open spec fn gapped(cells: Seq<Seq<char>>) -> Seq<char>
    decreases cells.len(),
{
    if cells.len() == 0 {
        seq![]
    } else {
        gapped(cells.drop_last()) + "   "@ + cells.last()
    }
}

/// The total line: CPU and RAM over all spaces, then the machine's own cells.
pub open spec fn total_line(
    spaces: Seq<SpaceView>,
    labels: LabelsView,
    cells: Seq<Seq<char>>,
    mem_total: Double,
    color: bool,
) -> Seq<char> {
    let cpu = Percent { value: total_cpu(spaces) };
    let ram = total_ram(spaces);
    painted(
        color,
        "2"@,
        "  ── total   "@ + word_for(labels.cpu, DEFAULT_CPU_LABEL@) + " "@ + cpu.one_decimal()
            + "%   "@ + word_for(labels.ram, DEFAULT_RAM_LABEL@) + " "@ + wide_size(ram)
            + bracketed(ram_share(ram, mem_total)) + gapped(cells),
    )
}

/// The lines of the report.
pub open spec fn report_lines(
    spaces: Seq<SpaceView>,
    labels: LabelsView,
    icons: IconSet,
    battery: Option<Battery>,
    disks: Seq<DiskView>,
    mem_total: Double,
    color: bool,
) -> Seq<Seq<char>> {
    let head = seq![painted(color, "1"@, "  CPU / RAM per space"@), ""@];
    if spaces.len() == 0 {
        head.push(painted(color, "2"@, "  No spaces open."@))
    } else {
        let cells = battery_texts(icons, labels.battery, battery) + drive_texts(
            icons,
            labels.disk,
            disks,
        );
        (head + all_space_lines(spaces, labels, mem_total, color)).push(
            total_line(spaces, labels, cells, mem_total, color),
        )
    }
}

/// Append the four lines of one space.
fn push_space_lines(
    lines: &mut Vec<String>,
    sp: &Space,
    labels: &Labels,
    mem_total: Double,
    style: &Style,
)
    ensures
        texts(final(lines)@) == texts(old(lines)@) + space_lines(
            sp@,
            labels@,
            mem_total,
            style.color,
        ),
{
    let ghost before = texts(lines@);
    let marker = if sp.focused {
        style.green("●")
    } else {
        style.dim("○")
    };
    let branch = if sp.branch.as_str().is_empty() {
        "(no branch)"
    } else {
        sp.branch.as_str()
    };
    let mut first = glued("  ", marker.as_str());
    first.append(" ");
    first.append(style.bold(sp.label.as_str()).as_str());

    let second = glued("      ", style.dim(branch).as_str());

    let cell = padded_left(glued(sp.cpu.text_1dp().as_str(), "%").as_str(), 6, ' ');
    let ram = padded_left(fmt_ram(sp.ram_mb).as_str(), 8, ' ');
    let pct = ram_pct(sp.ram_mb, mem_total);
    let pct_text = if pct.as_str().is_empty() {
        pct
    } else {
        style.dim(in_brackets(pct.as_str()).as_str())
    };
    let mut notes = glued("· ", count_text(sp.pane_count, "pane").as_str());
    let ghost note_head = notes@;
    match &sp.worktree_labels {
        Some(worktrees) => {
            notes.append(" · +");
            notes.append(count_text(worktrees.len(), "worktree").as_str());
            assert(notes@ =~= note_head + (" · +"@ + counted(worktrees@.len() as int, "worktree"@)));
            assert(texts(worktrees@).len() == worktrees@.len());
        },
        None => {
            notes.append("");
        },
    }
    assert(notes@ == notes_text(sp@));
    let mut third = glued("      ", labels.cpu_word());
    third.append(" ");
    third.append(style.cpu(sp.cpu, cell.as_str()).as_str());
    third.append("   ");
    third.append(labels.ram_word());
    third.append(" ");
    third.append(ram.as_str());
    third.append(pct_text.as_str());
    third.append("   ");
    third.append(style.dim(notes.as_str()).as_str());

    lines.push(first);
    lines.push(second);
    lines.push(third);
    lines.push("".to_owned());
    assert(texts(lines@) =~= before + space_lines(sp@, labels@, mem_total, style.color));
}

fn with_gaps(cells: &Vec<String>) -> (r: String)
    ensures
        r@ == gapped(texts(cells@)),
{
    let mut r = String::new();
    let mut i: usize = 0;
    assert(r@ =~= gapped(texts(cells@).take(0)));
    while i < cells.len()
        invariant
            i <= cells.len(),
            r@ == gapped(texts(cells@).take(i as int)),
        decreases cells.len() - i,
    {
        assert(texts(cells@).take(i + 1).drop_last() =~= texts(cells@).take(i as int));
        r.append("   ");
        r.append(cells[i].as_str());
        i += 1;
    }
    assert(texts(cells@).take(i as int) =~= texts(cells@));
    r
}

/// The per-space report with the paint gate given.
///
/// The battery and the drives land on the total line and nowhere else: each is
/// one figure for the whole machine.
pub fn render_styled(
    spaces: &Vec<Space>,
    labels: &Labels,
    icons: IconSet,
    battery: Option<Battery>,
    disks: &Vec<Disk>,
    mem_total: Double,
    style: &Style,
) -> (r: String)
    ensures
        r@ == join(
            report_lines(
                space_views(spaces@),
                labels@,
                icons,
                battery,
                disk_views(disks@),
                mem_total,
                style.color,
            ),
            "\n"@,
        ),
{
    let ghost all = space_views(spaces@);
    let mut lines: Vec<String> = Vec::new();
    lines.push(style.bold("  CPU / RAM per space"));
    lines.push("".to_owned());
    let ghost head = seq![painted(style.color, "1"@, "  CPU / RAM per space"@), ""@];
    assert(texts(lines@) =~= head);
    if spaces.len() == 0 {
        lines.push(style.dim("  No spaces open."));
        return joined(&lines, "\n");
    }
    let mut cpu = Percent::none();
    let mut ram = Double::nothing();
    let mut i: usize = 0;
    assert(all.take(0) =~= seq![]);
    assert(head + all_space_lines(all.take(0), labels@, mem_total, style.color) =~= head);
    while i < spaces.len()
        invariant
            i <= spaces.len(),
            all == space_views(spaces@),
            cpu.value == total_cpu(all.take(i as int)),
            ram == total_ram(all.take(i as int)),
            texts(lines@) == head + all_space_lines(
                all.take(i as int),
                labels@,
                mem_total,
                style.color,
            ),
        decreases spaces.len() - i,
    {
        assert(all.take(i + 1).drop_last() =~= all.take(i as int));
        assert(all[i as int] == spaces@[i as int]@);
        let ghost before = texts(lines@);
        cpu = cpu.plus(spaces[i].cpu);
        ram = ram.plus(spaces[i].ram_mb);
        push_space_lines(&mut lines, &spaces[i], labels, mem_total, style);
        assert(texts(lines@) =~= head + all_space_lines(
            all.take(i + 1),
            labels@,
            mem_total,
            style.color,
        ));
        i += 1;
    }
    assert(all.take(i as int) =~= all);

    let mut charge: Vec<String> = Vec::new();
    if let Some(cell) = battery_cell(icons, labels, battery) {
        charge.push(cell);
    }
    assert(texts(charge@) =~= battery_texts(icons, labels@.battery, battery));
    let drives = disk_cells(RowStyle::new(labels, icons, RamDisplay::Percent), disks);
    let count: usize = charge.len();
    let cells = crate::text::replaced(&charge, count, count, &drives);
    assert(texts(cells@) =~= battery_texts(icons, labels@.battery, battery) + drive_texts(
        icons,
        labels@.disk,
        disk_views(disks@),
    ));

    let mut total = glued("  ── total   ", labels.cpu_word());
    total.append(" ");
    total.append(cpu.text_1dp().as_str());
    total.append("%   ");
    total.append(labels.ram_word());
    total.append(" ");
    total.append(fmt_ram(ram).as_str());
    total.append(in_brackets(ram_pct(ram, mem_total).as_str()).as_str());
    total.append(with_gaps(&cells).as_str());
    lines.push(style.dim(total.as_str()));
    joined(&lines, "\n")
}

/// Format the per-space CPU / RAM report as a multi-line string, coloured where
/// the terminal wants it.
pub fn render(
    spaces: &Vec<Space>,
    labels: &Labels,
    icons: IconSet,
    battery: Option<Battery>,
    disks: &Vec<Disk>,
    mem_total: Double,
    is_terminal: bool,
    no_color: Option<&str>,
) -> (r: String)
    ensures
        r@ == join(
            report_lines(
                space_views(spaces@),
                labels@,
                icons,
                battery,
                disk_views(disks@),
                mem_total,
                is_terminal && !(opt_str(no_color) matches Some(v) && v.len() > 0),
            ),
            "\n"@,
        ),
{
    let style = Style::detect(is_terminal, no_color);
    render_styled(spaces, labels, icons, battery, disks, mem_total, &style)
}

// ---- the machine-readable payload ---------------------------------------------------------------

/// A number of the payload: one decimal, a whole value collapsed to an integer.
#[derive(Debug, Clone, Copy, PartialEq, Eq, Structural)]
pub enum JsonNumber {
    Whole(i64),
    Tenths(i64),
}

/// A figure to one decimal, a half away from zero, a whole one collapsed to an
/// integer; nothing where it is no finite number.
pub open spec fn number_1dp(x: Double) -> JsonNumber {
    let tenths = rounded(product(x, 10));
    let value = quotient(tenths, whole(10));
    if !(value is Finite) {
        JsonNumber::Whole(0)
    } else if is_whole(value) {
        JsonNumber::Whole(as_i64(value))
    } else {
        JsonNumber::Tenths(as_i64(tenths))
    }
}

/// Round a figure to one decimal, then collapse a whole result to an integer.
pub fn json_num_1dp(x: Double) -> (r: JsonNumber)
    ensures
        r == number_1dp(x),
{
    let tenths = x.times(10).nearest_whole();
    let value = tenths.over(Double::from_whole(10));
    if !value.is_finite() {
        JsonNumber::Whole(0)
    } else if value.is_integral() {
        JsonNumber::Whole(value.to_i64())
    } else {
        JsonNumber::Tenths(tenths.to_i64())
    }
}

/// The wire spelling of a charge state.
pub open spec fn state_key(state: State) -> Seq<char> {
    match state {
        State::Charging => "charging"@,
        State::Discharging => "discharging"@,
        State::Full => "full"@,
        State::NotCharging => "not_charging"@,
        State::Unknown => "unknown"@,
    }
}

pub fn battery_state_key(state: State) -> (r: &'static str)
    ensures
        r@ == state_key(state),
{
    match state {
        State::Charging => "charging",
        State::Discharging => "discharging",
        State::Full => "full",
        State::NotCharging => "not_charging",
        State::Unknown => "unknown",
    }
}

/// One drive inside a [`JsonSpace`].
#[derive(Debug, Clone, PartialEq, Eq)]
pub struct JsonDisk {
    pub name: String,
    pub used_percent: JsonNumber,
    pub free_mb: JsonNumber,
    pub used_mb: JsonNumber,
    pub total_mb: JsonNumber,
}

/// What a [`JsonDisk`] says, in plain values.
pub struct JsonDiskView {
    pub name: Seq<char>,
    pub used_percent: JsonNumber,
    pub free_mb: JsonNumber,
    pub used_mb: JsonNumber,
    pub total_mb: JsonNumber,
}

impl View for JsonDisk {
    type V = JsonDiskView;

    open spec fn view(&self) -> JsonDiskView {
        JsonDiskView {
            name: self.name@,
            used_percent: self.used_percent,
            free_mb: self.free_mb,
            used_mb: self.used_mb,
            total_mb: self.total_mb,
        }
    }
}

/// One entry of the payload, fields in the order they are emitted.
#[derive(Debug, Clone, PartialEq, Eq)]
pub struct JsonSpace {
    pub workspace_id: String,
    pub label: String,
    pub branch: String,
    pub focused: bool,
    pub panes: usize,
    pub processes: usize,
    pub cpu_percent: JsonNumber,
    pub ram_mb: JsonNumber,
    /// `None` when the machine's total is unknown.
    pub ram_percent: Option<JsonNumber>,
    /// Present only for spaces that folded in worktree children.
    pub includes_worktrees: Option<Vec<String>>,
    /// Machine-wide battery charge, repeated on every row.
    pub battery_percent: Option<JsonNumber>,
    pub battery_state: Option<String>,
    /// Space on each selected drive, machine-wide and repeated on every row.
    pub disks: Vec<JsonDisk>,
}

/// What a [`JsonSpace`] says, in plain values.
pub struct JsonSpaceView {
    pub workspace_id: Seq<char>,
    pub label: Seq<char>,
    pub branch: Seq<char>,
    pub focused: bool,
    pub panes: usize,
    pub processes: usize,
    pub cpu_percent: JsonNumber,
    pub ram_mb: JsonNumber,
    pub ram_percent: Option<JsonNumber>,
    pub includes_worktrees: Option<Seq<Seq<char>>>,
    pub battery_percent: Option<JsonNumber>,
    pub battery_state: Option<Seq<char>>,
    pub disks: Seq<JsonDiskView>,
}

/// What a list of payload drives says.
pub open spec fn json_disk_views(v: Seq<JsonDisk>) -> Seq<JsonDiskView> {
    v.map_values(|d: JsonDisk| d@)
}

impl View for JsonSpace {
    type V = JsonSpaceView;

    open spec fn view(&self) -> JsonSpaceView {
        JsonSpaceView {
            workspace_id: self.workspace_id@,
            label: self.label@,
            branch: self.branch@,
            focused: self.focused,
            panes: self.panes,
            processes: self.processes,
            cpu_percent: self.cpu_percent,
            ram_mb: self.ram_mb,
            ram_percent: self.ram_percent,
            includes_worktrees: opt_texts(self.includes_worktrees),
            battery_percent: self.battery_percent,
            battery_state: opt_text(self.battery_state),
            disks: json_disk_views(self.disks@),
        }
    }
}

/// The payload entry of one drive.
pub open spec fn disk_entry(d: DiskView) -> JsonDiskView {
    JsonDiskView {
        name: d.name,
        used_percent: number_1dp(d.used_share().value),
        free_mb: number_1dp(d.free_mb),
        used_mb: number_1dp(d.used_mb),
        total_mb: number_1dp(d.total_mb),
    }
}

/// The payload entry of one space.
pub open spec fn space_entry(
    s: SpaceView,
    battery: Option<Battery>,
    disks: Seq<DiskView>,
    mem_total: Double,
) -> JsonSpaceView {
    JsonSpaceView {
        workspace_id: s.id,
        label: s.label,
        branch: s.branch,
        focused: s.focused,
        panes: s.pane_count,
        processes: s.proc_count,
        cpu_percent: number_1dp(s.cpu.value),
        ram_mb: number_1dp(s.ram_mb),
        ram_percent: if less_than(zero(false), mem_total) {
            Some(
                number_1dp(share(s.ram_mb, mem_total)),
            )
        } else {
            None
        },
        includes_worktrees: s.worktree_labels,
        battery_percent: match battery {
            Some(b) => Some(number_1dp(b.percent.value)),
            None => None,
        },
        battery_state: match battery {
            Some(b) => Some(state_key(b.state)),
            None => None,
        },
        disks: disks.map_values(|d: DiskView| disk_entry(d)),
    }
}

/// What a payload says.
pub open spec fn json_views(v: Seq<JsonSpace>) -> Seq<JsonSpaceView> {
    v.map_values(|s: JsonSpace| s@)
}

fn json_disks(disks: &Vec<Disk>) -> (r: Vec<JsonDisk>)
    ensures
        json_disk_views(r@) == disk_views(disks@).map_values(|d: DiskView| disk_entry(d)),
{
    let ghost want = disk_views(disks@).map_values(|d: DiskView| disk_entry(d));
    let mut r: Vec<JsonDisk> = Vec::new();
    let mut i: usize = 0;
    assert(json_disk_views(r@) =~= want.take(0));
    while i < disks.len()
        invariant
            i <= disks.len(),
            want == disk_views(disks@).map_values(|d: DiskView| disk_entry(d)),
            json_disk_views(r@) == want.take(i as int),
        decreases disks.len() - i,
    {
        let d = &disks[i];
        let ghost before = r@;
        let entry = JsonDisk {
            name: d.name.clone(),
            used_percent: json_num_1dp(d.used_percent().value),
            free_mb: json_num_1dp(d.free_mb),
            used_mb: json_num_1dp(d.used_mb),
            total_mb: json_num_1dp(d.total_mb),
        };
        assert(entry@ == want[i as int]);
        r.push(entry);
        assert(json_disk_views(r@) =~= json_disk_views(before).push(entry@));
        i += 1;
        assert(want.take(i as int) =~= want.take(i - 1).push(want[i - 1]));
    }
    assert(want.take(i as int) =~= want);
    r
}

/// The rows of the machine-readable payload, one per space.
///
/// The battery and the drives are machine-wide readings copied onto every row:
/// the payload's top level is an array of spaces.
pub fn render_json(
    spaces: &Vec<Space>,
    battery: Option<Battery>,
    disks: &Vec<Disk>,
    mem_total: Double,
) -> (r: Vec<JsonSpace>)
    ensures
        json_views(r@) == space_views(spaces@).map_values(
            |s: SpaceView| space_entry(s, battery, disk_views(disks@), mem_total),
        ),
{
    let ghost want = space_views(spaces@).map_values(
        |s: SpaceView| space_entry(s, battery, disk_views(disks@), mem_total),
    );
    let mut r: Vec<JsonSpace> = Vec::new();
    let mut i: usize = 0;
    assert(json_views(r@) =~= want.take(0));
    while i < spaces.len()
        invariant
            i <= spaces.len(),
            want == space_views(spaces@).map_values(
                |s: SpaceView| space_entry(s, battery, disk_views(disks@), mem_total),
            ),
            json_views(r@) == want.take(i as int),
        decreases spaces.len() - i,
    {
        let s = &spaces[i];
        let ghost before = r@;
        let entry = JsonSpace {
            workspace_id: s.id.clone(),
            label: s.label.clone(),
            branch: s.branch.clone(),
            focused: s.focused,
            panes: s.pane_count,
            processes: s.proc_count,
            cpu_percent: json_num_1dp(s.cpu.value),
            ram_mb: json_num_1dp(s.ram_mb),
            ram_percent: if is_positive(mem_total) {
                Some(json_num_1dp(share_of(s.ram_mb, mem_total).value))
            } else {
                None
            },
            includes_worktrees: clone_opt_texts(&s.worktree_labels),
            battery_percent: match battery {
                Some(b) => Some(json_num_1dp(b.percent.value)),
                None => None,
            },
            battery_state: match battery {
                Some(b) => Some(battery_state_key(b.state).to_owned()),
                None => None,
            },
            disks: json_disks(disks),
        };
        assert(want[i as int] == space_entry(s@, battery, disk_views(disks@), mem_total));
        assert(entry@ == want[i as int]);
        r.push(entry);
        assert(json_views(r@) =~= json_views(before).push(entry@));
        i += 1;
        assert(want.take(i as int) =~= want.take(i - 1).push(want[i - 1]));
    }
    assert(want.take(i as int) =~= want);
    r
}

// ---- the payload's keys -----------------------------------------------------------------------

/// A value of the payload.
#[derive(Debug, Clone, Copy, PartialEq, Eq)]
pub enum JsonValue<'a> {
    Null,
    Flag(bool),
    Count(usize),
    Number(JsonNumber),
    Text(&'a str),
    Texts(&'a Vec<String>),
    Disks(&'a Vec<JsonDisk>),
}

/// What a [`JsonValue`] says, in plain values.
pub enum JsonValueView {
    Null,
    Flag(bool),
    Count(usize),
    Number(JsonNumber),
    Text(Seq<char>),
    Texts(Seq<Seq<char>>),
    Disks(Seq<JsonDiskView>),
}

impl<'a> View for JsonValue<'a> {
    type V = JsonValueView;

    open spec fn view(&self) -> JsonValueView {
        match self {
            JsonValue::Null => JsonValueView::Null,
            JsonValue::Flag(b) => JsonValueView::Flag(*b),
            JsonValue::Count(n) => JsonValueView::Count(*n),
            JsonValue::Number(n) => JsonValueView::Number(*n),
            JsonValue::Text(t) => JsonValueView::Text(t@),
            JsonValue::Texts(v) => JsonValueView::Texts(texts(v@)),
            JsonValue::Disks(v) => JsonValueView::Disks(json_disk_views(v@)),
        }
    }
}

/// A key of the payload with its value.
#[derive(Debug, Clone, Copy, PartialEq, Eq)]
pub struct JsonField<'a> {
    pub key: &'static str,
    pub value: JsonValue<'a>,
}

/// What a [`JsonField`] says, in plain values.
pub struct JsonFieldView {
    pub key: Seq<char>,
    pub value: JsonValueView,
}

impl<'a> View for JsonField<'a> {
    type V = JsonFieldView;

    open spec fn view(&self) -> JsonFieldView {
        JsonFieldView { key: self.key@, value: self.value@ }
    }
}

/// What a list of fields says.
pub open spec fn field_views(v: Seq<JsonField>) -> Seq<JsonFieldView> {
    v.map_values(|f: JsonField| f@)
}

/// A number, or null where there is none.
pub open spec fn number_or_null(n: Option<JsonNumber>) -> JsonValueView {
    match n {
        Some(n) => JsonValueView::Number(n),
        None => JsonValueView::Null,
    }
}

/// A text, or null where there is none.
pub open spec fn text_or_null(t: Option<Seq<char>>) -> JsonValueView {
    match t {
        Some(t) => JsonValueView::Text(t),
        None => JsonValueView::Null,
    }
}

/// The keys of a drive's entry with their values, in the order they are emitted.
pub open spec fn disk_fields(d: JsonDiskView) -> Seq<JsonFieldView> {
    seq![
        JsonFieldView { key: "name"@, value: JsonValueView::Text(d.name) },
        JsonFieldView { key: "used_percent"@, value: JsonValueView::Number(d.used_percent) },
        JsonFieldView { key: "free_mb"@, value: JsonValueView::Number(d.free_mb) },
        JsonFieldView { key: "used_mb"@, value: JsonValueView::Number(d.used_mb) },
        JsonFieldView { key: "total_mb"@, value: JsonValueView::Number(d.total_mb) },
    ]
}

/// The keys of a space's entry with their values, in the order they are emitted:
/// a space without folded worktrees has no key for them, and every other key is
/// always there.
pub open spec fn space_fields(s: JsonSpaceView) -> Seq<JsonFieldView> {
    seq![
        JsonFieldView { key: "workspace_id"@, value: JsonValueView::Text(s.workspace_id) },
        JsonFieldView { key: "label"@, value: JsonValueView::Text(s.label) },
        JsonFieldView { key: "branch"@, value: JsonValueView::Text(s.branch) },
        JsonFieldView { key: "focused"@, value: JsonValueView::Flag(s.focused) },
        JsonFieldView { key: "panes"@, value: JsonValueView::Count(s.panes) },
        JsonFieldView { key: "processes"@, value: JsonValueView::Count(s.processes) },
        JsonFieldView { key: "cpu_percent"@, value: JsonValueView::Number(s.cpu_percent) },
        JsonFieldView { key: "ram_mb"@, value: JsonValueView::Number(s.ram_mb) },
        JsonFieldView { key: "ram_percent"@, value: number_or_null(s.ram_percent) },
    ] + (match s.includes_worktrees {
        Some(labels) => seq![
            JsonFieldView { key: "includes_worktrees"@, value: JsonValueView::Texts(labels) },
        ],
        None => seq![],
    }) + seq![
        JsonFieldView { key: "battery_percent"@, value: number_or_null(s.battery_percent) },
        JsonFieldView { key: "battery_state"@, value: text_or_null(s.battery_state) },
        JsonFieldView { key: "disks"@, value: JsonValueView::Disks(s.disks) },
    ]
}

fn opt_number(n: Option<JsonNumber>) -> (r: JsonValue<'static>)
    ensures
        r@ == number_or_null(n),
{
    match n {
        Some(n) => JsonValue::Number(n),
        None => JsonValue::Null,
    }
}

impl JsonDisk {
    /// The keys of this entry with their values, in the order they are emitted.
    pub fn fields(&self) -> (r: Vec<JsonField<'_>>)
        ensures
            field_views(r@) == disk_fields(self@),
    {
        let r = vec![
            JsonField { key: "name", value: JsonValue::Text(self.name.as_str()) },
            JsonField { key: "used_percent", value: JsonValue::Number(self.used_percent) },
            JsonField { key: "free_mb", value: JsonValue::Number(self.free_mb) },
            JsonField { key: "used_mb", value: JsonValue::Number(self.used_mb) },
            JsonField { key: "total_mb", value: JsonValue::Number(self.total_mb) },
        ];
        assert(field_views(r@) =~= disk_fields(self@));
        r
    }
}

impl JsonSpace {
    /// The keys of this entry with their values, in the order they are emitted.
    pub fn fields(&self) -> (r: Vec<JsonField<'_>>)
        ensures
            field_views(r@) == space_fields(self@),
    {
        let mut r = vec![
            JsonField { key: "workspace_id", value: JsonValue::Text(self.workspace_id.as_str()) },
            JsonField { key: "label", value: JsonValue::Text(self.label.as_str()) },
            JsonField { key: "branch", value: JsonValue::Text(self.branch.as_str()) },
            JsonField { key: "focused", value: JsonValue::Flag(self.focused) },
            JsonField { key: "panes", value: JsonValue::Count(self.panes) },
            JsonField { key: "processes", value: JsonValue::Count(self.processes) },
            JsonField { key: "cpu_percent", value: JsonValue::Number(self.cpu_percent) },
            JsonField { key: "ram_mb", value: JsonValue::Number(self.ram_mb) },
            JsonField { key: "ram_percent", value: opt_number(self.ram_percent) },
        ];
        if let Some(labels) = &self.includes_worktrees {
            r.push(JsonField { key: "includes_worktrees", value: JsonValue::Texts(labels) });
        }
        r.push(JsonField { key: "battery_percent", value: opt_number(self.battery_percent) });
        let state = match &self.battery_state {
            Some(state) => JsonValue::Text(state.as_str()),
            None => JsonValue::Null,
        };
        r.push(JsonField { key: "battery_state", value: state });
        r.push(JsonField { key: "disks", value: JsonValue::Disks(&self.disks) });
        assert(field_views(r@) =~= space_fields(self@));
        r
    }
}

// ---- the live watch ---------------------------------------------------------------------------

/// CPU sample window of the one-shot modes, in milliseconds.
pub const SNAPSHOT_WINDOW_MS: u64 = 300;

/// Short first-frame window, so the live watch draws almost immediately.
pub const FIRST_FRAME_WINDOW_MS: u64 = 400;

/// Hides the cursor while the watch runs.
pub const HIDE_CURSOR: &'static str = "\x1b[?25l";

/// Shows it again.
pub const SHOW_CURSOR: &'static str = "\x1b[?25h";

/// `s` without the zeros it ends with.
pub open spec fn without_zeros(s: Seq<char>) -> Seq<char>
    decreases s.len(),
{
    if s.len() > 0 && s.last() == '0' {
        without_zeros(s.drop_last())
    } else {
        s
    }
}

/// Thousandths with their point: `2`, `2.5`, `0.25`.
pub open spec fn thousandths_text(n: int) -> Seq<char> {
    if n % 1000 == 0 {
        digits(n / 1000)
    } else {
        digits(n / 1000) + "."@ + without_zeros(padded_digits(n % 1000, 3))
    }
}

/// Below this many milliseconds each has a double of its own as seconds.
pub const EXACT_MS: u64 = 8_796_093_022_208_000;

/// Milliseconds as seconds, as the double of them is spelt: with the fewest digits
/// that read back.
pub open spec fn seconds_text(ms: int) -> Seq<char> {
    if ms < EXACT_MS {
        thousandths_text(ms)
    } else {
        thousandths_text(shortest(quotient(whole(ms), whole(1000)), 20))
    }
}

fn spell_thousandths(n: &Big) -> (r: String)
    ensures
        r@ == thousandths_text(n@),
{
    let (q, rest) = n.divided(1000);
    let whole = big_text(&q);
    if rest == 0 {
        return whole;
    }
    let fraction = padded_left(number_text(rest as u128).as_str(), 3, '0');
    let text = fraction.as_str();
    let cs = crate::text::chars_of(text);
    let mut n: usize = cs.len();
    assert(text@.take(n as int) =~= text@);
    while n > 0 && cs[n - 1] == '0'
        invariant
            n <= cs.len(),
            cs@ == text@,
            without_zeros(text@.take(n as int)) == without_zeros(text@),
        decreases n,
    {
        assert(text@.take(n as int).drop_last() =~= text@.take(n - 1));
        n -= 1;
    }
    let kept = text.substring_char(0, n);
    assert(kept@ =~= text@.take(n as int));
    let mut r = whole;
    r.append(".");
    r.append(kept);
    r
}

fn seconds(ms: u64) -> (r: String)
    ensures
        r@ == seconds_text(ms as int),
{
    if ms < EXACT_MS {
        spell_thousandths(&Big::small(ms))
    } else {
        let value = Double::from_whole(ms).over(Double::from_whole(1000));
        spell_thousandths(&value.shortest_thousandths(20))
    }
}

/// The line under a frame of the live watch.
pub fn footer_text(interval_ms: u64, time: &str, style: &Style) -> (r: String)
    ensures
        r@ == painted(
            style.color,
            "2"@,
            "  refreshing every "@ + seconds_text(interval_ms as int) + "s · "@ + time@
                + " · ctrl-c to quit"@,
        ),
{
    let mut line = glued("  refreshing every ", seconds(interval_ms).as_str());
    line.append("s · ");
    line.append(time);
    line.append(" · ctrl-c to quit");
    style.dim(line.as_str())
}

/// One frame of the live watch: the screen cleared, the body, and its footer.
pub fn frame_text(body: &str, footer: &str) -> (r: String)
    ensures
        r@ == "\x1b[2J\x1b[H"@ + body@ + "\n\n"@ + footer@ + "\n"@,
{
    let mut r = glued("\x1b[2J\x1b[H", body);
    r.append("\n\n");
    r.append(footer);
    r.append("\n");
    r
}

/// What a frame shows when herdr cannot be reached.
pub fn unavailable_text(error: &str, style: &Style) -> (r: String)
    ensures
        r@ == painted(style.color, "31"@, "  herdr unavailable:"@) + " "@ + error@,
{
    glued(glued(style.red("  herdr unavailable:").as_str(), " ").as_str(), error)
}

/// The sample window of a frame: short for the first, the interval from then on.
pub fn frame_window(first: bool, interval_ms: u64) -> (r: u64)
    ensures
        r == if first {
            FIRST_FRAME_WINDOW_MS
        } else {
            interval_ms
        },
{
    if first {
        FIRST_FRAME_WINDOW_MS
    } else {
        interval_ms
    }
}

/// A wall-clock time as `HH:MM:SS`.
pub fn clock_text(hour: u32, minute: u32, second: u32) -> (r: String)
    ensures
        r@ == padded_digits(hour as int, 2) + ":"@ + padded_digits(minute as int, 2) + ":"@
            + padded_digits(second as int, 2),
{
    let mut r = padded_left(number_text(hour as u128).as_str(), 2, '0');
    r.append(":");
    r.append(padded_left(number_text(minute as u128).as_str(), 2, '0').as_str());
    r.append(":");
    r.append(padded_left(number_text(second as u128).as_str(), 2, '0').as_str());
    r
}

} // verus!
