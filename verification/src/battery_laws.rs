//! What the batteries of a machine come to.

use vstd::arithmetic::power2::{lemma_pow2_pos, pow2};
use vstd::prelude::*;
use vstd::string::*;

use crate::battery::pmset::{battery_line, first_percent, first_reading, line_reading, state_field};
use crate::battery::power_status::reading;
use crate::battery::sysfs::{
    any_in, attr, entry_supplies, entry_supply, joint_percent, joint_reading, pair, percent_sum,
    ratio, summed, Attributes, Charge, Supply,
};
use crate::battery::{lemma_clamped, percent_of, Battery, State};
use crate::double::{
    double_of, lemma_double_of_zero, lemma_even_quotient, lemma_monotone, lemma_whole,
    lemma_whole_quotient, lemma_worth_zero, less_than, one, product, sum, whole, zero, Double,
    DIGITS_END,
};
use crate::number::{lemma_whole_number, number_of};
use crate::report_laws::{lemma_added_up, lemma_whole_sum};
use crate::text::{
    digits, has_text, is_digit, is_white, lemma_digits_round_trip, lemma_split_concat,
    lemma_split_pieces, lemma_split_whole, lower, split, trim, white_pieces,
};
use crate::units::Percent;
use crate::views::opt_text;

verus! {

// ---- one figure -----------------------------------------------------------------------------------

/// A whole percentage is kept up to a hundred, and a hundred from there.
pub proof fn law_a_charge_is_pinned(n: int)
    requires
        0 <= n < 0x20_0000_0000_0000,
    ensures
        percent_of(whole(n)) == Some(
            Percent {
                value: whole(
                    if n <= 100 {
                        n
                    } else {
                        100
                    },
                ),
            },
        ),
        percent_of(Double::NotANumber) is None,
        forall|negative: bool| percent_of(Double::Infinite { negative }) is None,
{
    lemma_whole(n);
    lemma_whole(100);
    lemma_pow2_pos(1074);
    assert(0 * pow2(0) == 0);
    let u = one();
    assert(0 <= n * u && (n <= 100 <==> n * u <= 100 * u)) by (nonlinear_arith)
        requires
            0 <= n,
            u > 0,
    ;
}

/// Whatever a host says, a charge that is shown lies between nothing and a
/// hundred, and one that does already is shown as it is.
pub proof fn law_a_shown_charge_is_in_range(value: Double)
    ensures
        percent_of(value) is Some <==> value is Finite,
        value is Finite ==> (percent_of(value) matches Some(p) && ({
            &&& !less_than(p.value, zero(false))
            &&& !less_than(whole(100), p.value)
            &&& less_than(value, zero(false)) ==> p.value == zero(false)
            &&& less_than(whole(100), value) ==> p.value == whole(100)
            &&& !less_than(value, zero(false)) && !less_than(whole(100), value) ==> p.value == value
        })),
{
    lemma_clamped(value);
    lemma_whole(100);
    lemma_pow2_pos(1074);
    assert(0 * pow2(0) == 0);
}

// ---- several packs --------------------------------------------------------------------------------

proof fn lemma_summed(supplies: Seq<Supply>, now: Seq<int>, full: Seq<int>)
    requires
        now.len() == supplies.len(),
        full.len() == supplies.len(),
        forall|i: int| 0 <= i < now.len() ==> 0 <= #[trigger] now[i],
        forall|i: int| 0 <= i < full.len() ==> 0 <= #[trigger] full[i],
        forall|i: int|
            0 <= i < supplies.len() ==> (#[trigger] supplies[i]).charge == Some(
                Charge { now: whole(now[i]), full: whole(full[i]) },
            ),
        now.fold_left(0int, |t: int, x: int| t + x) < DIGITS_END,
        full.fold_left(0int, |t: int, x: int| t + x) < DIGITS_END,
    ensures
        summed(supplies) == Some(
            Charge {
                now: whole(now.fold_left(0int, |t: int, x: int| t + x)),
                full: whole(full.fold_left(0int, |t: int, x: int| t + x)),
            },
        ),
    decreases supplies.len(),
{
    if supplies.len() == 0 {
        lemma_double_of_zero(false, 1);
        assert(0 * one() == 0);
    } else {
        let n = supplies.len() - 1;
        let (fewer, a, b) = (supplies.drop_last(), now.drop_last(), full.drop_last());
        assert forall|i: int| 0 <= i < a.len() implies 0 <= #[trigger] a[i] by {
            assert(now[i] >= 0);
        }
        assert forall|i: int| 0 <= i < b.len() implies 0 <= #[trigger] b[i] by {
            assert(full[i] >= 0);
        }
        assert forall|i: int| 0 <= i < fewer.len() implies (#[trigger] fewer[i]).charge == Some(
            Charge { now: whole(a[i]), full: whole(b[i]) },
        ) by {
            assert(supplies[i].charge == Some(Charge { now: whole(now[i]), full: whole(full[i]) }));
        }
        assert(now[n] >= 0 && full[n] >= 0);
        assert(supplies[n].charge == Some(Charge { now: whole(now[n]), full: whole(full[n]) }));
        lemma_added_up(a);
        lemma_added_up(b);
        lemma_summed(fewer, a, b);
        lemma_whole_sum(a.fold_left(0int, |t: int, x: int| t + x), now[n]);
        lemma_whole_sum(b.fold_left(0int, |t: int, x: int| t + x), full[n]);
    }
}

/// Packs that report what they hold are weighed by it: together they are at the
/// share that all they hold is of all they can hold.
pub proof fn law_packs_weigh_by_what_they_hold(supplies: Seq<Supply>, now: Seq<int>, full: Seq<int>)
    requires
        supplies.len() >= 2,
        now.len() == supplies.len(),
        full.len() == supplies.len(),
        forall|i: int| 0 <= i < now.len() ==> 0 <= #[trigger] now[i],
        forall|i: int| 0 <= i < full.len() ==> 0 <= #[trigger] full[i],
        forall|i: int|
            0 <= i < supplies.len() ==> (#[trigger] supplies[i]).charge == Some(
                Charge { now: whole(now[i]), full: whole(full[i]) },
            ),
        100 * now.fold_left(0int, |t: int, x: int| t + x) < 0x20_0000_0000_0000,
        0 < full.fold_left(0int, |t: int, x: int| t + x) < 0x20_0000_0000_0000,
        now.fold_left(0int, |t: int, x: int| t + x) <= full.fold_left(
            0int,
            |t: int, x: int| t + x,
        ),
    ensures
        joint_reading(supplies) matches Some(b) && ({
            let held = now.fold_left(0int, |t: int, x: int| t + x);
            let room = full.fold_left(0int, |t: int, x: int| t + x);
            &&& b.percent.value == double_of(false, (100 * held) * pow2(1074), room)
            &&& forall|p: int| 100 * held == #[trigger] (p * room) ==> b.percent.value == whole(p)
        }),
{
    let held = now.fold_left(0int, |t: int, x: int| t + x);
    let room = full.fold_left(0int, |t: int, x: int| t + x);
    lemma_added_up(now);
    lemma_summed(supplies, now, full);
    let u = one();
    lemma_pow2_pos(1074);
    lemma_whole(held);
    lemma_whole(room);
    lemma_whole(100 * held);
    assert((held * u) * 100 == (100 * held) * u) by (nonlinear_arith);
    assert(0 < room * u) by (nonlinear_arith)
        requires
            0 < room,
            u > 0,
    ;
    assert(0 * pow2(0) == 0);
    assert(product(whole(held), 100) == whole(100 * held));
    lemma_whole_quotient(100 * held, room);
    let value = double_of(false, (100 * held) * u, room);
    assert(joint_percent(supplies) == value);
    assert(0 <= (100 * held) * u <= (100 * u) * room) by (nonlinear_arith)
        requires
            0 <= held <= room,
            u > 0,
    ;
    lemma_even_quotient(false, 100 * u, room);
    lemma_whole(100);
    lemma_monotone((100 * held) * u, (100 * u) * room, room);
    if let Double::Finite { negative, digits, power } = value {
        lemma_worth_zero(digits as int, power as int);
    }
    assert forall|p: int| 100 * held == #[trigger] (p * room) implies value == whole(p) by {
        assert((100 * held) * u == (p * u) * room) by (nonlinear_arith)
            requires
                100 * held == p * room,
        ;
        assert(0 <= p) by (nonlinear_arith)
            requires
                100 * held == p * room,
                held >= 0,
                room > 0,
        ;
        assert(0 <= p * u) by (nonlinear_arith)
            requires
                0 <= p,
                u > 0,
        ;
        lemma_even_quotient(false, p * u, room);
    }
}

proof fn lemma_no_sum(supplies: Seq<Supply>, k: int)
    requires
        0 <= k < supplies.len(),
        supplies[k].charge is None,
    ensures
        summed(supplies) is None,
    decreases supplies.len(),
{
    if k < supplies.len() - 1 {
        lemma_no_sum(supplies.drop_last(), k);
    }
}

proof fn lemma_percent_sum(supplies: Seq<Supply>, percents: Seq<int>)
    requires
        percents.len() == supplies.len(),
        forall|i: int| 0 <= i < percents.len() ==> 0 <= #[trigger] percents[i] <= 100,
        forall|i: int|
            0 <= i < supplies.len() ==> (#[trigger] supplies[i]).percent.value == whole(percents[i]),
        100 * supplies.len() < DIGITS_END,
    ensures
        percent_sum(supplies) == whole(percents.fold_left(0int, |t: int, x: int| t + x)),
        0 <= percents.fold_left(0int, |t: int, x: int| t + x) <= 100 * supplies.len(),
    decreases supplies.len(),
{
    if supplies.len() == 0 {
        lemma_double_of_zero(false, 1);
        assert(0 * one() == 0);
    } else {
        let n = supplies.len() - 1;
        let (fewer, front) = (supplies.drop_last(), percents.drop_last());
        assert forall|i: int| 0 <= i < front.len() implies 0 <= #[trigger] front[i] <= 100 by {
            assert(0 <= percents[i] <= 100);
        }
        assert forall|i: int| 0 <= i < fewer.len() implies (#[trigger] fewer[i]).percent.value
            == whole(front[i]) by {
            assert(supplies[i].percent.value == whole(percents[i]));
        }
        assert(0 <= percents[n] <= 100 && supplies[n].percent.value == whole(percents[n]));
        lemma_percent_sum(fewer, front);
        lemma_whole_sum(front.fold_left(0int, |t: int, x: int| t + x), percents[n]);
    }
}

/// Where a pack does not report what it holds, every pack counts alike: together
/// they are at the mean of their percentages.
pub proof fn law_packs_without_a_charge_are_averaged(
    supplies: Seq<Supply>,
    percents: Seq<int>,
    k: int,
)
    requires
        supplies.len() >= 2,
        100 * supplies.len() < 0x20_0000_0000_0000,
        0 <= k < supplies.len(),
        supplies[k].charge is None,
        percents.len() == supplies.len(),
        forall|i: int| 0 <= i < percents.len() ==> 0 <= #[trigger] percents[i] <= 100,
        forall|i: int|
            0 <= i < supplies.len() ==> (#[trigger] supplies[i]).percent.value == whole(percents[i]),
    ensures
        joint_reading(supplies) matches Some(b) && b.percent.value == double_of(
            false,
            percents.fold_left(0int, |t: int, x: int| t + x) * pow2(1074),
            supplies.len() as int,
        ),
{
    let all = percents.fold_left(0int, |t: int, x: int| t + x);
    let n = supplies.len() as int;
    lemma_no_sum(supplies, k);
    lemma_percent_sum(supplies, percents);
    lemma_whole_quotient(all, n);
    let u = one();
    lemma_pow2_pos(1074);
    let value = double_of(false, all * u, n);
    assert(joint_percent(supplies) == value);
    assert(0 <= all * u <= (100 * u) * n) by (nonlinear_arith)
        requires
            0 <= all <= 100 * n,
            u > 0,
    ;
    lemma_even_quotient(false, 100 * u, n);
    lemma_whole(100);
    lemma_monotone(all * u, (100 * u) * n, n);
    assert(0 * pow2(0) == 0);
    if let Double::Finite { negative, digits, power } = value {
        lemma_worth_zero(digits as int, power as int);
    }
}

/// No pack is no reading, one keeps its own figure and state, and of several any
/// that charges makes the machine charge, else any that discharges makes it
/// discharge, else the first decides.
pub proof fn law_any_pack_decides_the_state(supplies: Seq<Supply>)
    ensures
        supplies.len() == 0 ==> joint_reading(supplies) is None,
        supplies.len() == 1 && supplies[0].percent.value is Finite && !less_than(
            supplies[0].percent.value,
            zero(false),
        ) && !less_than(whole(100), supplies[0].percent.value) ==> joint_reading(supplies) == Some(
            Battery { percent: supplies[0].percent, state: supplies[0].state },
        ),
        joint_reading(supplies) matches Some(b) ==> ({
            let charging = exists|i: int|
                0 <= i < supplies.len() && (#[trigger] supplies[i]).state is Charging;
            let discharging = exists|i: int|
                0 <= i < supplies.len() && (#[trigger] supplies[i]).state is Discharging;
            &&& b.state is Charging <==> charging
            &&& !charging ==> (b.state is Discharging <==> discharging)
            &&& !charging && !discharging ==> b.state == supplies[0].state
        }),
{
    if let Some(b) = joint_reading(supplies) {
        if any_in(supplies, State::Charging) {
            let i = choose|i: int|
                0 <= i < supplies.len() && (#[trigger] supplies[i]).state == State::Charging;
            assert(supplies[i].state is Charging);
        } else {
            assert(forall|i: int|
                0 <= i < supplies.len() ==> !((#[trigger] supplies[i]).state is Charging));
            if any_in(supplies, State::Discharging) {
                let i = choose|i: int|
                    0 <= i < supplies.len() && (#[trigger] supplies[i]).state == State::Discharging;
                assert(supplies[i].state is Discharging);
            } else {
                assert(forall|i: int|
                    0 <= i < supplies.len() ==> !((#[trigger] supplies[i]).state is Discharging));
            }
        }
    }
}

/// The packs are those among the entries that stand for one, in the order of the
/// entries.
pub proof fn law_every_battery_entry_counts(entries: Seq<Attributes>)
    ensures
        entry_supplies(entries) == entries.filter_map(|a: Attributes| entry_supply(a)),
    decreases entries.len(),
{
    reveal(Seq::filter_map);
    let f = |a: Attributes| entry_supply(a);
    if entries.len() > 0 {
        law_every_battery_entry_counts(entries.drop_last());
        assert(entry_supplies(entries) =~= entries.filter_map(f));
    } else {
        assert(entry_supplies(entries) =~= entries.filter_map(f));
    }
}

/// What a text attribute says: its contents without the white space around them.
pub open spec fn says(contents: Option<String>, word: Seq<char>) -> bool {
    contents matches Some(text) && trim(text@) == word && word.len() > 0
}

/// An entry stands for a pack exactly where it is a battery, is not a device's
/// own, and reports a percentage: the kernel's own where it has one, else what its
/// energy is of the energy it can hold, else the same of its charge. A status the
/// kernel names is its state.
pub proof fn law_a_battery_entry_is_read(a: Attributes, n: int, now: int, full: int)
    requires
        0 <= n <= 100,
        0 <= now <= full,
        0 < full,
        100 * full < 0x20_0000_0000_0000,
    ensures
        !says(a.kind, "Battery"@) ==> entry_supply(a) is None,
        says(a.scope, "Device"@) ==> entry_supply(a) is None,
        says(a.kind, "Battery"@) && !says(a.scope, "Device"@) ==> {
            &&& says(a.capacity, digits(n)) ==> (entry_supply(a) matches Some(s) && s.percent.value
                == whole(n))
            &&& a.capacity is None && says(a.energy_now, digits(now)) && says(
                a.energy_full,
                digits(full),
            ) ==> (entry_supply(a) matches Some(s) && s.percent.value == double_of(
                false,
                (100 * now) * pow2(1074),
                full,
            ) && s.charge == Some(Charge { now: whole(now), full: whole(full) }))
            &&& a.capacity is None && a.energy_now is None && says(a.charge_now, digits(now))
                && says(a.charge_full, digits(full)) ==> (entry_supply(a) matches Some(s)
                && s.percent.value == double_of(false, (100 * now) * pow2(1074), full) && s.charge
                == Some(Charge { now: whole(now), full: whole(full) }))
            &&& a.capacity is None && (a.energy_now is None || a.energy_full is None) && (
            a.charge_now is None || a.charge_full is None) ==> entry_supply(a) is None
            &&& entry_supply(a) matches Some(s) ==> {
                &&& says(a.status, "Charging"@) <==> s.state is Charging
                &&& says(a.status, "Discharging"@) <==> s.state is Discharging
                &&& says(a.status, "Full"@) <==> s.state is Full
                &&& says(a.status, "Not charging"@) <==> s.state is NotCharging
            }
        },
{
    lemma_words();
    lemma_whole_number(n);
    lemma_whole_number(now);
    lemma_whole_number(full);
    lemma_whole(n);
    lemma_whole(now);
    lemma_whole(full);
    law_a_charge_is_pinned(n);
    let u = one();
    lemma_pow2_pos(1074);
    lemma_whole(100 * now);
    assert((now * u) * 100 == (100 * now) * u) by (nonlinear_arith);
    assert(product(whole(now), 100) == whole(100 * now));
    lemma_whole_quotient(100 * now, full);
    let value = double_of(false, (100 * now) * u, full);
    let c = Charge { now: whole(now), full: whole(full) };
    assert(ratio(c) == value);
    assert(0 < full * u) by (nonlinear_arith)
        requires
            0 < full,
            u > 0,
    ;
    assert(0 * pow2(0) == 0);
    assert(less_than(zero(false), whole(full)));
    assert(0 <= (100 * now) * u <= (100 * u) * full) by (nonlinear_arith)
        requires
            0 <= now <= full,
            u > 0,
    ;
    lemma_even_quotient(false, 100 * u, full);
    lemma_whole(100);
    lemma_monotone((100 * now) * u, (100 * u) * full, full);
    if let Double::Finite { negative, digits, power } = value {
        lemma_worth_zero(digits as int, power as int);
    }
    assert(percent_of(value) == Some(Percent { value }));
    assert(says(a.kind, "Battery"@) <==> attr(opt_text(a.kind)) == Some("Battery"@));
    assert(says(a.scope, "Device"@) <==> attr(opt_text(a.scope)) == Some("Device"@));
    if says(a.energy_now, digits(now)) && says(a.energy_full, digits(full)) {
        assert(pair(opt_text(a.energy_now), opt_text(a.energy_full)) == Some(c));
    }
    if says(a.charge_now, digits(now)) && says(a.charge_full, digits(full)) {
        assert(pair(opt_text(a.charge_now), opt_text(a.charge_full)) == Some(c));
    }
}

/// The kernel's own percentage is the pack's, decimals and all, pinned between
/// nothing and a hundred; one that is no finite number gives way to what the pack
/// holds.
pub proof fn law_the_kernels_percentage_is_the_packs(a: Attributes, text: Seq<char>)
    requires
        says(a.kind, "Battery"@),
        !says(a.scope, "Device"@),
        says(a.capacity, text),
    ensures
        number_of(text) matches Some(x) ==> x is Finite ==> (entry_supply(a) matches Some(s)
            && Some(s.percent) == percent_of(x)),
        !(number_of(text) matches Some(x) && x is Finite) ==> entry_supply(a) == entry_supply(
            Attributes { capacity: None, ..a },
        ),
{
    lemma_words();
}

/// Each further pack adds its percentage to the mean, and its charge to the sum.
pub proof fn law_each_pack_adds_its_own(supplies: Seq<Supply>, s: Supply)
    ensures
        percent_sum(seq![]) == zero(false),
        percent_sum(supplies.push(s)) == sum(percent_sum(supplies), s.percent.value),
        summed(seq![]) == Some(Charge { now: zero(false), full: zero(false) }),
        summed(supplies) matches Some(all) ==> s.charge matches Some(c) ==> summed(
            supplies.push(s),
        ) == Some(Charge { now: sum(all.now, c.now), full: sum(all.full, c.full) }),
        s.charge is None ==> summed(supplies.push(s)) is None,
{
    assert(supplies.push(s).drop_last() =~= supplies);
}

proof fn lemma_words()
    ensures
        "Battery"@.len() > 0,
        "Device"@.len() > 0,
        "Charging"@.len() == 8,
        "Discharging"@.len() == 11,
        "Full"@.len() == 4,
        "Not charging"@.len() == 12,
{
    reveal_strlit("Battery");
    reveal_strlit("Device");
    reveal_strlit("Charging");
    reveal_strlit("Discharging");
    reveal_strlit("Full");
    reveal_strlit("Not charging");
}

// ---- what a Mac prints ----------------------------------------------------------------------------

/// The first token that is a number with a percent sign behind it is the charge.
pub proof fn law_the_first_percentage_is_the_charge(tokens: Seq<Seq<char>>, k: int, n: int)
    requires
        0 <= k < tokens.len(),
        0 <= n,
        tokens[k] == digits(n) + seq!['%'],
        forall|j: int| 0 <= j < k ==> !(#[trigger] tokens[j]).contains('%'),
    ensures
        first_percent(tokens) == Some(whole(n)),
    decreases k,
{
    if k == 0 {
        assert(tokens[0].drop_last() =~= digits(n));
        lemma_whole_number(n);
    } else {
        let t = tokens[0];
        if t.len() > 0 && t.last() == '%' {
            assert(t[t.len() - 1] == '%');
            assert(t.contains('%'));
        }
        let rest = tokens.drop_first();
        assert forall|j: int| 0 <= j < k - 1 implies !(#[trigger] rest[j]).contains('%') by {
            assert(!tokens[j + 1].contains('%'));
        }
        law_the_first_percentage_is_the_charge(rest, k - 1, n);
    }
}

/// Pieces on either side of white space are pieces of the whole.
pub(crate) proof fn lemma_white_pieces(a: Seq<char>, w: char, b: Seq<char>)
    requires
        is_white(w),
    ensures
        white_pieces(a.push(w) + b) == white_pieces(a) + white_pieces(b),
        white_pieces(b).len() >= 1,
    decreases b.len(),
{
    if b.len() == 0 {
        assert(b =~= seq![]);
        assert(a.push(w) + b =~= a.push(w));
        assert(a.push(w).drop_last() =~= a);
        assert(white_pieces(a) + white_pieces(b) =~= white_pieces(a).push(seq![]));
    } else {
        let all = a.push(w) + b;
        lemma_white_pieces(a, w, b.drop_last());
        assert(all.drop_last() =~= a.push(w) + b.drop_last());
        assert(all.last() == b.last());
        assert(white_pieces(all) =~= white_pieces(a) + white_pieces(b));
    }
}

/// A piece holds only what the text holds.
proof fn lemma_piece_chars(s: Seq<char>, c: char)
    requires
        !s.contains(c),
    ensures
        white_pieces(s).len() >= 1,
        forall|i: int| 0 <= i < white_pieces(s).len() ==> !(#[trigger] white_pieces(s)[i]).contains(c),
    decreases s.len(),
{
    if s.len() > 0 {
        let front = s.drop_last();
        assert(!front.contains(c)) by {
            if front.contains(c) {
                let i = choose|i: int| 0 <= i < front.len() && front[i] == c;
                assert(s[i] == c);
            }
        }
        lemma_piece_chars(front, c);
        let before = white_pieces(front);
        assert(s[s.len() - 1] == s.last());
        assert forall|i: int| 0 <= i < white_pieces(s).len() implies !(
        #[trigger] white_pieces(s)[i]).contains(c) by {
            if is_white(s.last()) {
                if i < before.len() {
                    assert(white_pieces(s)[i] == before[i]);
                }
            } else if i < before.len() - 1 {
                assert(white_pieces(s)[i] == before[i]);
            } else {
                let piece = before.last();
                assert(white_pieces(s)[i] == piece.push(s.last()));
                if piece.push(s.last()).contains(c) {
                    let j = choose|j: int| 0 <= j <= piece.len() && piece.push(s.last())[j] == c;
                    if j < piece.len() {
                        assert(before[before.len() - 1].contains(c)) by {
                            assert(piece[j] == c);
                        }
                    }
                }
            }
        }
    }
}

/// Text free of white space is one piece.
pub(crate) proof fn lemma_one_piece(s: Seq<char>)
    requires
        forall|i: int| 0 <= i < s.len() ==> !is_white(#[trigger] s[i]),
    ensures
        white_pieces(s) == seq![s],
    decreases s.len(),
{
    if s.len() > 0 {
        let front = s.drop_last();
        assert forall|i: int| 0 <= i < front.len() implies !is_white(#[trigger] front[i]) by {
            assert(!is_white(s[i]));
        }
        lemma_one_piece(front);
        assert(!is_white(s[s.len() - 1]));
        assert(front.push(s.last()) =~= s);
        assert(white_pieces(s) =~= seq![s]);
    }
}

/// And so is one with decimals.
pub proof fn law_the_first_percentage_may_have_decimals(
    tokens: Seq<Seq<char>>,
    k: int,
    figure: Seq<char>,
)
    requires
        0 <= k < tokens.len(),
        number_of(figure) is Some,
        tokens[k] == figure + seq!['%'],
        forall|j: int| 0 <= j < k ==> !(#[trigger] tokens[j]).contains('%'),
    ensures
        first_percent(tokens) == number_of(figure),
    decreases k,
{
    if k == 0 {
        assert(tokens[0].drop_last() =~= figure);
    } else {
        let t = tokens[0];
        if t.len() > 0 && t.last() == '%' {
            assert(t[t.len() - 1] == '%');
            assert(t.contains('%'));
        }
        let rest = tokens.drop_first();
        assert forall|j: int| 0 <= j < k - 1 implies !(#[trigger] rest[j]).contains('%') by {
            assert(!tokens[j + 1].contains('%'));
        }
        law_the_first_percentage_may_have_decimals(rest, k - 1, figure);
    }
}

/// A battery line of a Mac reads as printed: the percentage behind the name, then
/// the state, whatever follows.
pub proof fn law_a_macs_battery_line_is_read(
    name: Seq<char>,
    gap: char,
    n: int,
    word: Seq<char>,
    rest: Seq<char>,
)
    requires
        gap == ' ' || gap == '\t',
        !name.contains(';'),
        !name.contains('%'),
        !word.contains(';'),
        0 <= n < 0x20_0000_0000_0000,
        !has_text(
            name.push(gap) + (digits(n) + seq!['%']) + seq![';'] + word + seq![';'] + rest,
            "present: false"@,
        ),
    ensures
        line_reading(
            name.push(gap) + (digits(n) + seq!['%']) + seq![';'] + word + seq![';'] + rest,
        ) == Some(
            Battery {
                percent: Percent {
                    value: whole(
                        if n <= 100 {
                            n
                        } else {
                            100
                        },
                    ),
                },
                state: state_field(word),
            },
        ),
{
    let token = digits(n) + seq!['%'];
    let first = name.push(gap) + token;
    let line = first + seq![';'] + word + seq![';'] + rest;
    lemma_digits_round_trip(n);
    assert forall|i: int| 0 <= i < token.len() implies !is_white(#[trigger] token[i]) && token[i]
        != ';' by {
        if i < digits(n).len() {
            assert(is_digit(digits(n)[i]));
        }
    }
    assert(!first.contains(';')) by {
        if first.contains(';') {
            let i = choose|i: int| 0 <= i < first.len() && first[i] == ';';
            if i < name.len() {
                assert(name[i] == ';');
            } else if i > name.len() {
                assert(first[i] == token[i - name.len() - 1]);
            }
        }
    }
    let tail = word.push(';') + rest;
    assert(line =~= first.push(';') + tail);
    lemma_split_concat(first, tail, ';');
    lemma_split_whole(first, ';');
    lemma_split_concat(word, rest, ';');
    lemma_split_whole(word, ';');
    lemma_split_pieces(rest, ';');
    let fields = split(line, ';');
    assert(fields[0] == first);
    assert(fields[1] == word);
    lemma_white_pieces(name, gap, token);
    lemma_one_piece(token);
    lemma_piece_chars(name, '%');
    let tokens = white_pieces(first);
    let k = white_pieces(name).len() as int;
    assert(tokens[k] == token);
    assert forall|j: int| 0 <= j < k implies !(#[trigger] tokens[j]).contains('%') by {
        assert(tokens[j] == white_pieces(name)[j]);
    }
    law_the_first_percentage_is_the_charge(tokens, k, n);
    law_a_charge_is_pinned(n);
}

/// Only a line about an internal battery is read, and a pack that is not there
/// has no reading.
pub proof fn law_other_lines_are_not_read(line: Seq<char>)
    ensures
        battery_line(line) is Some ==> ({
            let bare = trim(line);
            let head = "-InternalBattery"@;
            head.len() <= bare.len() && bare.take(head.len() as int) == head && !has_text(
                bare,
                "present: false"@,
            )
        }),
        battery_line(line) is Some ==> battery_line(line) == line_reading(trim(line)),
{
    let (bare, head) = (trim(line), "-InternalBattery"@);
    if head.len() <= bare.len() {
        assert(bare.take(head.len() as int) =~= bare.subrange(0, head.len() as int));
    }
}

/// The words a Mac has for a state, whatever their case and the space around them.
pub proof fn law_a_macs_words_are_states(field: Seq<char>)
    ensures
        ({
            let word = lower(trim(field));
            &&& state_field(field) is Charging <==> word == "charging"@
            &&& state_field(field) is Discharging <==> word == "discharging"@
            &&& state_field(field) is Full <==> word == "charged"@ || word == "finishing charge"@
            &&& state_field(field) is NotCharging <==> word == "ac attached"@
        }),
{
    reveal_strlit("charging");
    reveal_strlit("discharging");
    reveal_strlit("charged");
    reveal_strlit("finishing charge");
    reveal_strlit("ac attached");
    assert("charging"@.len() == 8);
    assert("discharging"@.len() == 11);
    assert("charged"@.len() == 7);
    assert("finishing charge"@.len() == 16);
    assert("ac attached"@.len() == 11);
    assert("ac attached"@[0] == 'a');
    assert("discharging"@[0] == 'd');
}

/// The reading is that of the first line that gives one.
pub proof fn law_the_first_battery_line_is_read(lines: Seq<Seq<char>>)
    ensures
        match first_reading(lines) {
            Some(b) => exists|k: int|
                #![trigger lines[k]]
                0 <= k < lines.len() && battery_line(lines[k]) == Some(b) && forall|j: int|
                    0 <= j < k ==> battery_line(#[trigger] lines[j]) is None,
            None => forall|j: int| 0 <= j < lines.len() ==> battery_line(#[trigger] lines[j]) is None,
        },
    decreases lines.len(),
{
    if lines.len() > 0 {
        let rest = lines.drop_first();
        if battery_line(lines[0]) is None {
            law_the_first_battery_line_is_read(rest);
            match first_reading(rest) {
                Some(b) => {
                    let k = choose|k: int|
                        #![trigger rest[k]]
                        0 <= k < rest.len() && battery_line(rest[k]) == Some(b) && forall|j: int|
                            0 <= j < k ==> battery_line(#[trigger] rest[j]) is None;
                    assert(lines[k + 1] == rest[k]);
                    assert forall|j: int| 0 <= j < k + 1 implies battery_line(
                        #[trigger] lines[j],
                    ) is None by {
                        if j > 0 {
                            assert(rest[j - 1] == lines[j]);
                        }
                    }
                },
                None => {
                    assert forall|j: int| 0 <= j < lines.len() implies battery_line(
                        #[trigger] lines[j],
                    ) is None by {
                        if j > 0 {
                            assert(rest[j - 1] == lines[j]);
                        }
                    }
                },
            }
        }
    }
}

// ---- what a Windows host reports ------------------------------------------------------------------

/// The three fields of a Windows host: no battery or no percentage is no reading;
/// the percentage is pinned at a hundred; off the line it discharges, on it it
/// charges until it is full, and where the host does not know, nor does the
/// reading.
pub proof fn law_power_status_is_read(ac_line: u8, battery_flag: u8, life_percent: u8)
    ensures
        reading(ac_line, battery_flag, life_percent) is None <==> (128 <= battery_flag < 255)
            || life_percent == 255,
        reading(ac_line, battery_flag, life_percent) matches Some(b) ==> {
            &&& b.percent.value == whole(
                if life_percent < 100 {
                    life_percent as int
                } else {
                    100
                },
            )
            &&& b.state is Discharging <==> battery_flag != 255 && ac_line == 0
            &&& b.state is Charging <==> battery_flag != 255 && ac_line == 1 && life_percent < 100
            &&& b.state is Full <==> battery_flag != 255 && ac_line == 1 && life_percent >= 100
            &&& !(b.state is NotCharging)
        },
{
    assert(battery_flag & 128 != 0 <==> battery_flag >= 128) by (bit_vector);
}

} // verus!
