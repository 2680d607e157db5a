//! What holds of the surfaces taken together.

use vstd::prelude::*;

use crate::battery::Battery;
use crate::config::LabelsView;
use crate::double::Double;
use crate::disk::DiskView;
use crate::icons::IconSet;
use crate::model::SpaceView;
use crate::render::{
    all_space_lines, battery_texts, drive_texts, gapped, painted, report_lines, row_text,
    total_line, CELL_SEPARATOR,
};
use crate::text::join;

verus! {

/// Cells, each with the row separator in front of it.
pub open spec fn separated_cells(cells: Seq<Seq<char>>) -> Seq<char>
    decreases cells.len(),
{
    if cells.len() == 0 {
        seq![]
    } else {
        separated_cells(cells.drop_last()) + CELL_SEPARATOR@ + cells.last()
    }
}

proof fn lemma_join_more(front: Seq<Seq<char>>, cells: Seq<Seq<char>>)
    requires
        front.len() > 0,
    ensures
        join(front + cells, CELL_SEPARATOR@) == join(front, CELL_SEPARATOR@) + separated_cells(
            cells,
        ),
    decreases cells.len(),
{
    if cells.len() == 0 {
        assert(front + cells =~= front);
        assert(join(front, CELL_SEPARATOR@) + separated_cells(cells) =~= join(
            front,
            CELL_SEPARATOR@,
        ));
    } else {
        lemma_join_more(front, cells.drop_last());
        assert((front + cells).drop_last() =~= front + cells.drop_last());
        assert(join(front + cells, CELL_SEPARATOR@) =~= join(front, CELL_SEPARATOR@)
            + separated_cells(cells));
    }
}

/// The totals row is the usage row with the machine's own cells behind it: the
/// two agree on CPU and RAM, and without those cells they are the same.
pub proof fn law_totals_row_extends_the_usage_row(
    cpu: Seq<char>,
    ram: Seq<char>,
    battery: Seq<Seq<char>>,
    disks: Seq<Seq<char>>,
)
    ensures
        row_text(cpu, ram, battery, disks) == row_text(cpu, ram, seq![], seq![])
            + separated_cells(battery + disks),
{
    let front = seq![cpu, ram];
    lemma_join_more(front, battery + disks);
    assert(front + battery + disks =~= front + (battery + disks));
    assert(front + Seq::<Seq<char>>::empty() + Seq::<Seq<char>>::empty() =~= front);
}

/// The battery and the drives only ever add to the report: without them it is the
/// same report, byte for byte, and with them their cells stand at its end.
pub proof fn law_machine_cells_are_additive(
    spaces: Seq<SpaceView>,
    labels: LabelsView,
    icons: IconSet,
    battery: Option<Battery>,
    disks: Seq<DiskView>,
    mem_total: Double,
)
    requires
        spaces.len() > 0,
    ensures
        join(report_lines(spaces, labels, icons, battery, disks, mem_total, false), "\n"@)
            == join(
            report_lines(spaces, labels, icons, None, seq![], mem_total, false),
            "\n"@,
        ) + gapped(
            battery_texts(icons, labels.battery, battery) + drive_texts(
                icons,
                labels.disk,
                disks,
            ),
        ),
{
    let none = Seq::<Seq<char>>::empty();
    let cells = battery_texts(icons, labels.battery, battery) + drive_texts(
        icons,
        labels.disk,
        disks,
    );
    let no_cells = battery_texts(icons, labels.battery, None) + drive_texts(
        icons,
        labels.disk,
        seq![],
    );
    assert(no_cells =~= none);
    let front = seq![painted(false, "1"@, "  CPU / RAM per space"@), ""@] + all_space_lines(
        spaces,
        labels,
        mem_total,
        false,
    );
    let with = total_line(spaces, labels, cells, mem_total, false);
    let without = total_line(spaces, labels, none, mem_total, false);
    assert(with =~= without + gapped(cells));
    assert(front.push(with).drop_last() =~= front);
    assert(front.push(without).drop_last() =~= front);
    assert(join(front.push(with), "\n"@) =~= join(front.push(without), "\n"@) + gapped(cells));
}

} // verus!
