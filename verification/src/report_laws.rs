//! What the report and the payload say of the spaces they are given.

use vstd::arithmetic::power2::{lemma_pow2_pos, pow2};
use vstd::prelude::*;
use vstd::string::*;

use crate::battery::{Battery, State};
use crate::disk::DiskView;
use crate::double::{
    lemma_double_of_zero, lemma_whole, less_than, one, product, quotient, sum, whole, zero, Double,
    DIGITS_END,
};
use crate::figure_laws::{
    apart, law_a_share_is_rounded_to_the_nearest_tenth, law_a_whole_figure_is_kept,
    law_ram_is_rounded_to_the_nearest_tenth, tenths_in,
};
use crate::measure_laws::lemma_bytes;
use crate::model::SpaceView;
use crate::render::{
    disk_fields, number_1dp, space_entry, space_fields, total_cpu, total_ram, JsonDiskView,
    JsonFieldView, JsonNumber, JsonSpaceView, JsonValueView,
};
use crate::units::{megabytes, Percent};

verus! {

// ---- totals -------------------------------------------------------------------------------------

pub(crate) proof fn lemma_whole_sum(a: int, b: int)
    requires
        0 <= a,
        0 <= b,
        a + b < DIGITS_END,
    ensures
        sum(whole(a), whole(b)) == whole(a + b),
{
    lemma_whole(a);
    lemma_whole(b);
    let u = one();
    assert(a * u + b * u == (a + b) * u) by (nonlinear_arith);
    lemma_pow2_pos(1074);
    assert(0 <= (a + b) * u) by (nonlinear_arith)
        requires
            0 <= a + b,
            u > 0,
    ;
}

pub(crate) proof fn lemma_bytes_sum(a: int, b: int)
    requires
        0 <= a,
        0 <= b,
        a + b < DIGITS_END,
    ensures
        sum(megabytes(a), megabytes(b)) == megabytes(a + b),
{
    lemma_bytes(a);
    lemma_bytes(b);
    lemma_bytes(a + b);
    let u = pow2(1054) as int;
    assert(a * u + b * u == (a + b) * u) by (nonlinear_arith);
    lemma_pow2_pos(1054);
    assert(0 <= (a + b) * u) by (nonlinear_arith)
        requires
            0 <= a + b,
            u > 0,
    ;
}

pub(crate) proof fn lemma_added_up(m: Seq<int>)
    requires
        forall|i: int| 0 <= i < m.len() ==> 0 <= #[trigger] m[i],
    ensures
        0 <= m.fold_left(0int, |t: int, x: int| t + x),
    decreases m.len(),
{
    if m.len() > 0 {
        assert forall|i: int| 0 <= i < m.drop_last().len() implies 0 <= #[trigger] m.drop_last()[i] by {
            assert(m[i] >= 0);
        }
        lemma_added_up(m.drop_last());
        assert(m[m.len() - 1] >= 0);
    }
}

/// The totals start from nothing, and each further space adds its own figures to
/// them.
pub proof fn law_each_space_adds_to_the_totals(spaces: Seq<SpaceView>, s: SpaceView)
    ensures
        total_cpu(seq![]) == zero(false),
        total_ram(seq![]) == zero(false),
        total_cpu(spaces.push(s)) == sum(total_cpu(spaces), s.cpu.value),
        total_ram(spaces.push(s)) == sum(total_ram(spaces), s.ram_mb),
{
    assert(spaces.push(s).drop_last() =~= spaces);
}

/// The RAM over all spaces is the sum of what each has, whole megabytes adding up
/// to whole ones.
pub proof fn law_total_ram_adds_every_space(spaces: Seq<SpaceView>, mb: Seq<int>)
    requires
        mb.len() == spaces.len(),
        forall|i: int| 0 <= i < mb.len() ==> 0 <= #[trigger] mb[i],
        forall|i: int| 0 <= i < mb.len() ==> spaces[i].ram_mb == whole(#[trigger] mb[i]),
        mb.fold_left(0int, |t: int, x: int| t + x) < 0x20_0000_0000_0000,
    ensures
        total_ram(spaces) == whole(mb.fold_left(0int, |t: int, x: int| t + x)),
    decreases spaces.len(),
{
    if spaces.len() == 0 {
        lemma_double_of_zero(false, 1);
        assert(0 * one() == 0);
    } else {
        let (fewer, front) = (spaces.drop_last(), mb.drop_last());
        assert forall|i: int| 0 <= i < front.len() implies fewer[i].ram_mb == whole(
            #[trigger] front[i],
        ) && 0 <= front[i] by {
            assert(spaces[i].ram_mb == whole(mb[i]) && 0 <= mb[i]);
        }
        let n = mb.len() - 1;
        assert(spaces[n].ram_mb == whole(mb[n]) && 0 <= mb[n]);
        lemma_added_up(front);
        law_total_ram_adds_every_space(fewer, front);
        lemma_whole_sum(front.fold_left(0int, |t: int, x: int| t + x), mb[n]);
    }
}

/// The RAM over all spaces is the sum of what each has, to the byte.
pub proof fn law_total_ram_adds_every_byte(spaces: Seq<SpaceView>, bytes: Seq<int>)
    requires
        bytes.len() == spaces.len(),
        forall|i: int| 0 <= i < bytes.len() ==> 0 <= #[trigger] bytes[i],
        forall|i: int| 0 <= i < bytes.len() ==> spaces[i].ram_mb == megabytes(#[trigger] bytes[i]),
        bytes.fold_left(0int, |t: int, x: int| t + x) < 0x20_0000_0000_0000,
    ensures
        total_ram(spaces) == megabytes(bytes.fold_left(0int, |t: int, x: int| t + x)),
    decreases spaces.len(),
{
    if spaces.len() == 0 {
        lemma_bytes(0);
        lemma_double_of_zero(false, 1);
        assert(0 * pow2(1054) == 0);
    } else {
        let (fewer, front) = (spaces.drop_last(), bytes.drop_last());
        assert forall|i: int| 0 <= i < front.len() implies fewer[i].ram_mb == megabytes(
            #[trigger] front[i],
        ) && 0 <= front[i] by {
            assert(spaces[i].ram_mb == megabytes(bytes[i]) && 0 <= bytes[i]);
        }
        let n = bytes.len() - 1;
        assert(spaces[n].ram_mb == megabytes(bytes[n]) && 0 <= bytes[n]);
        lemma_added_up(front);
        law_total_ram_adds_every_byte(fewer, front);
        lemma_bytes_sum(front.fold_left(0int, |t: int, x: int| t + x), bytes[n]);
    }
}

/// The load over all spaces is the sum of what each has, whole percents adding up
/// to whole ones.
pub proof fn law_total_cpu_adds_every_space(spaces: Seq<SpaceView>, percents: Seq<int>)
    requires
        percents.len() == spaces.len(),
        forall|i: int| 0 <= i < percents.len() ==> 0 <= #[trigger] percents[i],
        forall|i: int|
            0 <= i < percents.len() ==> spaces[i].cpu.value == whole(#[trigger] percents[i]),
        percents.fold_left(0int, |t: int, x: int| t + x) < 0x20_0000_0000_0000,
    ensures
        total_cpu(spaces) == whole(percents.fold_left(0int, |t: int, x: int| t + x)),
    decreases spaces.len(),
{
    if spaces.len() == 0 {
        lemma_double_of_zero(false, 1);
        assert(0 * one() == 0);
    } else {
        let (fewer, front) = (spaces.drop_last(), percents.drop_last());
        assert forall|i: int| 0 <= i < front.len() implies fewer[i].cpu.value == whole(
            #[trigger] front[i],
        ) && 0 <= front[i] by {
            assert(spaces[i].cpu.value == whole(percents[i]) && 0 <= percents[i]);
        }
        let n = percents.len() - 1;
        assert(spaces[n].cpu.value == whole(percents[n]) && 0 <= percents[n]);
        lemma_added_up(front);
        law_total_cpu_adds_every_space(fewer, front);
        lemma_whole_sum(front.fold_left(0int, |t: int, x: int| t + x), percents[n]);
    }
}

// ---- the payload --------------------------------------------------------------------------------

/// In the payload a space's RAM is a percentage of the machine's memory: the
/// number of tenths of a percent nearest to `100 * ram / total`, never above a
/// hundred where the space fits the machine, nothing where it has nothing, a
/// hundred where it has all of it and fifty where it has half.
pub proof fn law_ram_percent_is_the_share_of_the_machine(
    s: SpaceView,
    battery: Option<Battery>,
    disks: Seq<DiskView>,
    ram: int,
    total: int,
)
    requires
        0 <= ram <= total,
        0 < total,
        100 * total < 0x20_0000_0000_0000,
        s.ram_mb == megabytes(ram),
    ensures
        space_entry(s, battery, disks, megabytes(total)).ram_percent matches Some(n) && ({
            let t = tenths_in(n);
            &&& 0 <= t <= 1000
            &&& 0x200_0000_0000 * (2 * apart(t * total, 1000 * ram)) <= total * 0x200_0000_0001
            &&& total < 0x200_0000_0000 ==> 2 * apart(t * total, 1000 * ram) <= total
            &&& ram == 0 ==> n == JsonNumber::Whole(0)
            &&& ram == total ==> n == JsonNumber::Whole(100)
            &&& 2 * ram == total ==> n == JsonNumber::Whole(50)
            &&& forall|p: int| 100 * ram == #[trigger] (p * total) ==> n == JsonNumber::Whole(p as i64)
        }),
{
    law_a_share_is_rounded_to_the_nearest_tenth(ram, total);
    lemma_bytes(total);
    let entry = space_entry(s, battery, disks, megabytes(total));
    let g = pow2(1054) as int;
    lemma_pow2_pos(1054);
    assert(total * g > 0) by (nonlinear_arith)
        requires
            total > 0,
            g > 0,
    ;
    assert(0 * pow2(0) == 0);
    assert(less_than(zero(false), megabytes(total)));
    let n = entry.ram_percent->Some_0;
    let t = tenths_in(n);
    assert forall|p: int| 100 * ram == #[trigger] (p * total) implies n == JsonNumber::Whole(
        p as i64,
    ) by {
        let off = apart(t * total, 1000 * ram);
        assert(t == 10 * p) by (nonlinear_arith)
            requires
                off == apart(t * total, 1000 * ram),
                100 * ram == p * total,
                total > 0,
                0x200_0000_0000 * (2 * off) <= total * 0x200_0000_0001,
        ;
    }
    assert(ram == total ==> 100 * ram == 100 * total);
    assert(2 * ram == total ==> 100 * ram == 50 * total);
    assert(ram == 0 ==> 100 * ram == 0 * total);
}

/// Where the machine's memory is unknown there is no share of it.
pub proof fn law_no_total_is_no_share(
    s: SpaceView,
    battery: Option<Battery>,
    disks: Seq<DiskView>,
)
    ensures
        space_entry(s, battery, disks, zero(false)).ram_percent is None,
        space_entry(s, battery, disks, whole(0)).ram_percent is None,
        space_entry(s, battery, disks, Double::NotANumber).ram_percent is None,
{
    lemma_double_of_zero(false, 1);
    assert(0 * one() == 0);
}

/// An entry of the payload is about its own space: who it is, where it stands,
/// how many panes and processes it has, its load and RAM to the nearest tenth.
pub proof fn law_an_entry_is_about_its_space(
    s: SpaceView,
    battery: Option<Battery>,
    disks: Seq<DiskView>,
    mem_total: Double,
    bytes: int,
    load: int,
)
    requires
        0 <= bytes,
        100 * bytes < 0x20_0000_0000_0000,
        s.ram_mb == megabytes(bytes),
        0 <= load,
        100 * load < 0x20_0000_0000_0000,
        s.cpu.value == whole(load),
    ensures
        ({
            let entry = space_entry(s, battery, disks, mem_total);
            &&& entry.workspace_id == s.id
            &&& entry.label == s.label
            &&& entry.branch == s.branch
            &&& entry.focused == s.focused
            &&& entry.panes == s.pane_count
            &&& entry.processes == s.proc_count
            &&& entry.includes_worktrees == s.worktree_labels
            &&& entry.cpu_percent == JsonNumber::Whole(load as i64)
            &&& tenths_in(entry.ram_mb) == (20 * bytes + 1_048_576) / 2_097_152
        }),
{
    law_a_whole_figure_is_kept(load);
    law_ram_is_rounded_to_the_nearest_tenth(bytes);
}

/// Every figure of an entry is rounded as it is, to one decimal and no further.
pub proof fn law_an_entry_rounds_each_figure_once(
    s: SpaceView,
    battery: Battery,
    disks: Seq<DiskView>,
    mem_total: Double,
)
    ensures
        ({
            let entry = space_entry(s, Some(battery), disks, mem_total);
            &&& entry.cpu_percent == number_1dp(s.cpu.value)
            &&& entry.ram_mb == number_1dp(s.ram_mb)
            &&& entry.battery_percent == Some(number_1dp(battery.percent.value))
            &&& less_than(zero(false), mem_total) ==> entry.ram_percent == Some(
                number_1dp(quotient(product(s.ram_mb, 100), mem_total)),
            )
            &&& !less_than(zero(false), mem_total) ==> entry.ram_percent is None
        }),
{
}

/// The machine's battery and drives stand on every entry: the charge as it is and
/// its state by name, and each drive in order under its own name.
pub proof fn law_an_entry_carries_the_machine(
    s: SpaceView,
    charge: int,
    state: State,
    disks: Seq<DiskView>,
    mem_total: Double,
    i: int,
)
    requires
        0 <= charge <= 100,
        0 <= i < disks.len(),
    ensures
        ({
            let entry = space_entry(
                s,
                Some(Battery { percent: Percent { value: whole(charge) }, state }),
                disks,
                mem_total,
            );
            let without = space_entry(s, None, disks, mem_total);
            &&& entry.battery_percent == Some(JsonNumber::Whole(charge as i64))
            &&& entry.battery_state == Some(
                match state {
                    State::Charging => "charging"@,
                    State::Discharging => "discharging"@,
                    State::Full => "full"@,
                    State::NotCharging => "not_charging"@,
                    State::Unknown => "unknown"@,
                },
            )
            &&& without.battery_percent is None && without.battery_state is None
            &&& entry.disks.len() == disks.len()
            &&& entry.disks[i].name == disks[i].name
            &&& entry.disks[i].used_percent == number_1dp(disks[i].used_share().value)
            &&& entry.disks[i].free_mb == number_1dp(disks[i].free_mb)
            &&& entry.disks[i].used_mb == number_1dp(disks[i].used_mb)
            &&& entry.disks[i].total_mb == number_1dp(disks[i].total_mb)
        }),
{
    law_a_whole_figure_is_kept(charge);
}

/// The keys an entry is written with.
pub open spec fn keys(fields: Seq<JsonFieldView>) -> Seq<Seq<char>> {
    fields.map_values(|f: JsonFieldView| f.key)
}

/// An entry has the same keys in the same order whatever it says, but for the
/// worktrees, whose key is there only where some were folded in; and each key has
/// its own value.
pub proof fn law_the_payload_has_these_keys(s: JsonSpaceView)
    ensures
        ({
            let f = space_fields(s);
            let folded = s.includes_worktrees is Some;
            let end: int = if folded {
                10
            } else {
                9
            };
            &&& f.len() == end + 3
            &&& keys(f) == seq![
                "workspace_id"@,
                "label"@,
                "branch"@,
                "focused"@,
                "panes"@,
                "processes"@,
                "cpu_percent"@,
                "ram_mb"@,
                "ram_percent"@,
            ] + (if folded {
                seq!["includes_worktrees"@]
            } else {
                seq![]
            }) + seq!["battery_percent"@, "battery_state"@, "disks"@]
            &&& f[0].value == JsonValueView::Text(s.workspace_id)
            &&& f[1].value == JsonValueView::Text(s.label)
            &&& f[2].value == JsonValueView::Text(s.branch)
            &&& f[3].value == JsonValueView::Flag(s.focused)
            &&& f[4].value == JsonValueView::Count(s.panes)
            &&& f[5].value == JsonValueView::Count(s.processes)
            &&& f[6].value == JsonValueView::Number(s.cpu_percent)
            &&& f[7].value == JsonValueView::Number(s.ram_mb)
            &&& match s.ram_percent {
                Some(n) => f[8].value == JsonValueView::Number(n),
                None => f[8].value is Null,
            }
            &&& folded ==> f[9].value == JsonValueView::Texts(s.includes_worktrees->Some_0)
            &&& match s.battery_percent {
                Some(n) => f[end].value == JsonValueView::Number(n),
                None => f[end].value is Null,
            }
            &&& match s.battery_state {
                Some(t) => f[end + 1].value == JsonValueView::Text(t),
                None => f[end + 1].value is Null,
            }
            &&& f[end + 2].value == JsonValueView::Disks(s.disks)
        }),
{
    let f = space_fields(s);
    assert(keys(f) =~= seq![
        "workspace_id"@,
        "label"@,
        "branch"@,
        "focused"@,
        "panes"@,
        "processes"@,
        "cpu_percent"@,
        "ram_mb"@,
        "ram_percent"@,
    ] + (if s.includes_worktrees is Some {
        seq!["includes_worktrees"@]
    } else {
        seq![]
    }) + seq!["battery_percent"@, "battery_state"@, "disks"@]);
}

/// A drive's entry has the same keys in the same order, each with its own value.
pub proof fn law_a_drive_has_these_keys(d: JsonDiskView)
    ensures
        keys(disk_fields(d)) == seq!["name"@, "used_percent"@, "free_mb"@, "used_mb"@, "total_mb"@],
        disk_fields(d)[0].value == JsonValueView::Text(d.name),
        disk_fields(d)[1].value == JsonValueView::Number(d.used_percent),
        disk_fields(d)[2].value == JsonValueView::Number(d.free_mb),
        disk_fields(d)[3].value == JsonValueView::Number(d.used_mb),
        disk_fields(d)[4].value == JsonValueView::Number(d.total_mb),
{
    assert(keys(disk_fields(d)) =~= seq![
        "name"@,
        "used_percent"@,
        "free_mb"@,
        "used_mb"@,
        "total_mb"@,
    ]);
}

} // verus!
