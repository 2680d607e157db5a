//! How the lines of the report read.

use vstd::arithmetic::power2::{lemma_pow2_pos, pow2};
use vstd::prelude::*;
use vstd::string::*;

use crate::battery::Battery;
use crate::config::{word_for, LabelsView, DEFAULT_CPU_LABEL, DEFAULT_RAM_LABEL};
use crate::disk::DiskView;
use crate::cell_laws::law_a_share_is_the_nearest_percent;
use crate::double::{zero, Double};
use crate::icons::IconSet;
use crate::measure_laws::lemma_bytes;
use crate::model::SpaceView;
use crate::proc::ram_share;
use crate::render::{
    all_space_lines, battery_texts, counted, cpu_code, drive_texts, gapped, notes_text, painted,
    report_lines, seconds_text, space_lines, thousandths_text, total_cpu, total_line, total_ram,
    without_zeros,
};
use crate::text::{digit_char, digits};
use crate::units::{megabytes, pad_left, pad_right, padded_digits, wide_size, Percent};

verus! {

/// Text is filled up in front, or behind, to the width asked for, and longer text
/// stays as it is.
pub proof fn law_padding_fills_up(s: Seq<char>, width: int, fill: char)
    ensures
        pad_left(s, width, fill) == Seq::new(
            if s.len() < width {
                (width - s.len()) as nat
            } else {
                0
            },
            |i: int| fill,
        ) + s,
        pad_right(s, width, fill) == s + Seq::new(
            if s.len() < width {
                (width - s.len()) as nat
            } else {
                0
            },
            |i: int| fill,
        ),
    decreases width - s.len(),
{
    if s.len() < width {
        law_padding_fills_up(seq![fill] + s, width, fill);
        law_padding_fills_up(s.push(fill), width, fill);
        let n = (width - s.len()) as nat;
        let all = Seq::new(n, |i: int| fill);
        let fewer = Seq::new((n - 1) as nat, |i: int| fill);
        assert(fewer + (seq![fill] + s) =~= all + s);
        assert(s.push(fill) + fewer =~= s + all);
    } else {
        assert(Seq::new(0, |i: int| fill) + s =~= s);
        assert(s + Seq::new(0, |i: int| fill) =~= s);
    }
}

/// A count is followed by its noun, in the plural unless it is one.
pub proof fn law_one_is_singular(n: int, noun: Seq<char>)
    requires
        0 <= n,
    ensures
        counted(n, noun) == if n == 1 {
            "1 "@ + noun
        } else {
            digits(n) + " "@ + noun + "s"@
        },
{
    if n == 1 {
        reveal_strlit("1 ");
        reveal_strlit(" ");
        reveal_strlit("");
        reveal_with_fuel(digits, 2);
        assert(digits(1) =~= seq!['1']);
        assert(counted(n, noun) =~= "1 "@ + noun);
    }
}

/// What is noted of a space: how many panes it has, and how many worktrees were
/// folded into it where any were.
pub proof fn law_notes_count_panes_and_worktrees(s: SpaceView)
    ensures
        notes_text(s) == "· "@ + counted(s.pane_count as int, "pane"@) + match s.worktree_labels {
            Some(labels) => " · +"@ + counted(labels.len() as int, "worktree"@),
            None => seq![],
        },
{
    reveal_strlit("");
    assert(""@ =~= seq![]);
}

/// A label, or the word for the metric where it is missing or empty.
pub open spec fn called(label: Option<Seq<char>>, word: Seq<char>) -> Seq<char> {
    if label is None || label->0 == Seq::<char>::empty() {
        word
    } else {
        label->0
    }
}

proof fn lemma_called(labels: LabelsView)
    ensures
        called(labels.cpu, "cpu"@) == word_for(labels.cpu, DEFAULT_CPU_LABEL@),
        called(labels.ram, "ram"@) == word_for(labels.ram, DEFAULT_RAM_LABEL@),
{
    if let Some(word) = labels.cpu {
        assert(word.len() == 0 ==> word =~= seq![]);
    }
    if let Some(word) = labels.ram {
        assert(word.len() == 0 ==> word =~= seq![]);
    }
}

/// A space takes four lines of the report: its mark and label, its branch, its
/// figures with their names, and an empty one.
pub proof fn law_a_space_takes_four_lines(
    s: SpaceView,
    labels: LabelsView,
    mem_total: Double,
)
    ensures
        ({
            let lines = space_lines(s, labels, mem_total, false);
            &&& lines.len() == 4
            &&& lines[0] == "  "@ + (if s.focused {
                "●"@
            } else {
                "○"@
            }) + " "@ + s.label
            &&& lines[1] == "      "@ + (if s.branch.len() == 0 {
                "(no branch)"@
            } else {
                s.branch
            })
            &&& lines[2] == "      "@ + called(labels.cpu, "cpu"@) + " "@ + pad_left(
                s.cpu.one_decimal() + "%"@,
                6,
                ' ',
            ) + "   "@ + called(labels.ram, "ram"@) + " "@ + pad_left(
                wide_size(s.ram_mb),
                8,
                ' ',
            ) + (if ram_share(s.ram_mb, mem_total).len() == 0 {
                seq![]
            } else {
                " ("@ + ram_share(s.ram_mb, mem_total) + ")"@
            }) + "   "@ + notes_text(s)
            &&& lines[3].len() == 0
        }),
{
    reveal_strlit("");
    let pct = ram_share(s.ram_mb, mem_total);
    if pct.len() == 0 {
        assert(pct =~= seq![]);
    }
    lemma_called(labels);
}

/// Colour adds to a line and takes nothing from it: the mark is green on the
/// focused space and dim on another, the label bold, the load by its level, and
/// the rest dim.
pub proof fn law_colour_only_paints(s: SpaceView, labels: LabelsView, mem_total: Double)
    requires
        ram_share(s.ram_mb, mem_total).len() > 0,
    ensures
        ({
            let lines = space_lines(s, labels, mem_total, true);
            &&& lines[0] == "  "@ + (if s.focused {
                painted(true, "32"@, "●"@)
            } else {
                painted(true, "2"@, "○"@)
            }) + " "@ + painted(true, "1"@, s.label)
            &&& lines[1] == "      "@ + painted(
                true,
                "2"@,
                if s.branch.len() == 0 {
                    "(no branch)"@
                } else {
                    s.branch
                },
            )
            &&& lines[2] == "      "@ + called(labels.cpu, "cpu"@) + " "@ + painted(
                true,
                cpu_code(s.cpu),
                pad_left(s.cpu.one_decimal() + "%"@, 6, ' '),
            ) + "   "@ + called(labels.ram, "ram"@) + " "@ + pad_left(
                wide_size(s.ram_mb),
                8,
                ' ',
            ) + painted(
                true,
                "2"@,
                " ("@ + ram_share(s.ram_mb, mem_total) + ")"@,
            ) + "   "@ + painted(true, "2"@, notes_text(s))
        }),
{
    lemma_called(labels);
}

/// Every space has its own four lines, in the order of the spaces.
pub proof fn law_every_space_has_its_lines(
    spaces: Seq<SpaceView>,
    labels: LabelsView,
    mem_total: Double,
    color: bool,
    i: int,
    k: int,
)
    requires
        0 <= i < spaces.len(),
        0 <= k < 4,
    ensures
        all_space_lines(spaces, labels, mem_total, color).len() == 4 * spaces.len(),
        all_space_lines(spaces, labels, mem_total, color)[4 * i + k] == space_lines(
            spaces[i],
            labels,
            mem_total,
            color,
        )[k],
    decreases spaces.len(),
{
    let front = spaces.drop_last();
    let before = all_space_lines(front, labels, mem_total, color);
    if front.len() == 0 {
        assert(before.len() == 0);
    } else {
        let j = if i < front.len() {
            i
        } else {
            0
        };
        law_every_space_has_its_lines(front, labels, mem_total, color, j, k);
    }
}

/// The report has a heading, then the lines of every space, then the total; with
/// no space it says so and has no total.
pub proof fn law_the_report_has_every_space_and_the_total(
    spaces: Seq<SpaceView>,
    labels: LabelsView,
    icons: IconSet,
    battery: Option<Battery>,
    disks: Seq<DiskView>,
    mem_total: Double,
)
    ensures
        ({
            let lines = report_lines(spaces, labels, icons, battery, disks, mem_total, false);
            &&& lines[0] == "  CPU / RAM per space"@
            &&& lines[1].len() == 0
            &&& spaces.len() == 0 ==> lines.len() == 3 && lines[2] == "  No spaces open."@
            &&& spaces.len() > 0 ==> lines.subrange(2, lines.len() - 1) == all_space_lines(
                spaces,
                labels,
                mem_total,
                false,
            ) && lines.last() == total_line(
                spaces,
                labels,
                battery_texts(icons, labels.battery, battery) + drive_texts(
                    icons,
                    labels.disk,
                    disks,
                ),
                mem_total,
                false,
            )
        }),
{
    reveal_strlit("");
    let lines = report_lines(spaces, labels, icons, battery, disks, mem_total, false);
    if spaces.len() > 0 {
        assert(lines.subrange(2, lines.len() - 1) =~= all_space_lines(
            spaces,
            labels,
            mem_total,
            false,
        ));
    }
}

proof fn lemma_gapped(cells: Seq<Seq<char>>)
    ensures
        gapped(cells) == cells.fold_left(
            Seq::<char>::empty(),
            |line: Seq<char>, cell: Seq<char>| line + "   "@ + cell,
        ),
    decreases cells.len(),
{
    if cells.len() > 0 {
        lemma_gapped(cells.drop_last());
    }
}

/// The total line has the load and the RAM over all spaces, its share of the
/// machine, and then every cell of the machine's own, a gap before each.
pub proof fn law_the_total_line_adds_up(
    spaces: Seq<SpaceView>,
    labels: LabelsView,
    cells: Seq<Seq<char>>,
    mem_total: Double,
)
    ensures
        total_line(spaces, labels, cells, mem_total, false) == "  ── total   "@ + called(
            labels.cpu,
            "cpu"@,
        ) + " "@ + (Percent { value: total_cpu(spaces) }).one_decimal() + "%   "@ + called(
            labels.ram,
            "ram"@,
        ) + " "@ + wide_size(total_ram(spaces)) + (if ram_share(
            total_ram(spaces),
            mem_total,
        ).len() == 0 {
            seq![]
        } else {
            " ("@ + ram_share(total_ram(spaces), mem_total) + ")"@
        }) + cells.fold_left(
            Seq::<char>::empty(),
            |line: Seq<char>, cell: Seq<char>| line + "   "@ + cell,
        ),
        total_line(spaces, labels, cells, mem_total, true) == painted(
            true,
            "2"@,
            total_line(spaces, labels, cells, mem_total, false),
        ),
{
    lemma_gapped(cells);
    lemma_called(labels);
    let pct = ram_share(total_ram(spaces), mem_total);
    if pct.len() == 0 {
        assert(pct =~= seq![]);
    }
}

proof fn lemma_three_digits(a: int, b: int, c: int)
    requires
        0 <= a < 10,
        0 <= b < 10,
        0 <= c < 10,
    ensures
        padded_digits(100 * a + 10 * b + c, 3) == seq![digit_char(a), digit_char(b), digit_char(c)],
{
    let r = 100 * a + 10 * b + c;
    let want = seq![digit_char(a), digit_char(b), digit_char(c)];
    assert(digit_char(0) == '0');
    assert(pad_left(want, 3, '0') == want);
    assert(r >= 10 ==> r / 10 == 10 * a + b && r % 10 == c);
    if r >= 100 {
        assert(digits(a) == seq![digit_char(a)]);
        assert((r / 10) / 10 == a && (r / 10) % 10 == b);
        assert(digits(r / 10) == digits(a).push(digit_char(b)));
        assert(digits(r) == digits(r / 10).push(digit_char(c)));
        assert(digits(r) =~= want);
    } else if r >= 10 {
        assert(a == 0);
        assert(digits(b) == seq![digit_char(b)]);
        assert(digits(r) == digits(b).push(digit_char(c)));
        assert(seq!['0'] + digits(r) =~= want);
        assert(pad_left(digits(r), 3, '0') == pad_left(seq!['0'] + digits(r), 3, '0'));
    } else {
        assert(a == 0 && b == 0);
        let (d, e) = (digits(r), seq!['0'] + digits(r));
        assert(d == seq![digit_char(c)]);
        assert(seq!['0'] + e =~= want);
        assert(pad_left(d, 3, '0') == pad_left(e, 3, '0'));
        assert(pad_left(e, 3, '0') == pad_left(seq!['0'] + e, 3, '0'));
    }
}

/// Thousandths are written as they are read: the whole part, and behind a point as
/// many decimals as are needed; and so are the seconds in so many milliseconds.
pub proof fn law_thousandths_need_no_zeros(units: int, tenth: int, hundredth: int, thousandth: int)
    requires
        0 <= units,
        0 <= tenth < 10,
        0 <= hundredth < 10,
        0 <= thousandth < 10,
    ensures
        ({
            let n = 1000 * units + 100 * tenth + 10 * hundredth + thousandth;
            let a = ('0' as int + tenth) as char;
            let b = ('0' as int + hundredth) as char;
            let c = ('0' as int + thousandth) as char;
            let text = digits(units) + if thousandth > 0 {
                seq!['.', a, b, c]
            } else if hundredth > 0 {
                seq!['.', a, b]
            } else if tenth > 0 {
                seq!['.', a]
            } else {
                seq![]
            };
            thousandths_text(n) == text && (n < 8_796_093_022_208_000 ==> seconds_text(n) == text)
        }),
{
    let n = 1000 * units + 100 * tenth + 10 * hundredth + thousandth;
    let r = 100 * tenth + 10 * hundredth + thousandth;
    assert(n / 1000 == units && n % 1000 == r);
    let (a, b, c) = (digit_char(tenth), digit_char(hundredth), digit_char(thousandth));
    reveal_strlit(".");
    assert("."@ =~= seq!['.']);
    let text = padded_digits(r, 3);
    lemma_three_digits(tenth, hundredth, thousandth);
    assert(digit_char(0) == '0');
    assert(seq![a, b, c].drop_last() =~= seq![a, b]);
    assert(seq![a, b].drop_last() =~= seq![a]);
    assert(a == '0' <==> tenth == 0);
    assert(b == '0' <==> hundredth == 0);
    assert(c == '0' <==> thousandth == 0);
    assert(thousandth == 0 ==> without_zeros(text) == without_zeros(seq![a, b]));
    assert(hundredth == 0 ==> without_zeros(seq![a, b]) == without_zeros(seq![a]));
    if r == 0 {
        assert(digits(units) + Seq::<char>::empty() =~= digits(units));
    } else {
        let kept = without_zeros(text);
        if thousandth > 0 {
            assert(kept =~= seq![a, b, c]);
            assert(digits(units) + "."@ + kept =~= digits(units) + seq!['.', a, b, c]);
        } else if hundredth > 0 {
            assert(kept =~= seq![a, b]);
            assert(digits(units) + "."@ + kept =~= digits(units) + seq!['.', a, b]);
        } else {
            assert(kept =~= seq![a]);
            assert(digits(units) + "."@ + kept =~= digits(units) + seq!['.', a]);
        }
    }
}

/// The share of the machine is a whole percent, the nearest, a half upwards, and
/// nothing is said of it where the total is unknown.
pub proof fn law_the_share_is_a_whole_percent(part: int, total: int)
    requires
        0 <= part <= total,
        0 < total < 0x2000_0000_0000,
    ensures
        ram_share(megabytes(part), megabytes(total)) == digits(
            (200 * part + total) / (2 * total),
        ) + seq!['%'],
        ram_share(megabytes(part), zero(false)).len() == 0,
{
    reveal_strlit("%");
    assert("%"@ =~= seq!['%']);
    law_a_share_is_the_nearest_percent(part, total);
    vstd::arithmetic::div_mod::lemma_div_pos_is_pos(200 * part + total, 2 * total);
    lemma_bytes(total);
    let g = pow2(1054) as int;
    lemma_pow2_pos(1054);
    assert(total * g > 0) by (nonlinear_arith)
        requires
            total > 0,
            g > 0,
    ;
    assert(0 * pow2(0) == 0);
}

} // verus!
