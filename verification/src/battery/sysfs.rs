//! The `power_supply` class of a Linux host.

use vstd::prelude::*;
use vstd::string::*;

use crate::battery::{checked_percent, in_range, percent_of, Battery, State};
use crate::double::{less_than, product, quotient, sum, whole, zero, Double};
use crate::number::{number_of, parse_number};
use crate::text::{same, trim, trimmed};
use crate::units::{is_positive, Percent};
use crate::views::{opt_str, opt_text};

verus! {

/// The class directory every power supply registers under.
pub const ROOT: &'static str = "/sys/class/power_supply";

/// The attribute files of one `power_supply` entry, each as its contents where
/// it could be read.
#[derive(Debug, Clone)]
pub struct Attributes {
    pub kind: Option<String>,
    pub scope: Option<String>,
    pub capacity: Option<String>,
    pub status: Option<String>,
    pub energy_now: Option<String>,
    pub energy_full: Option<String>,
    pub charge_now: Option<String>,
    pub charge_full: Option<String>,
}

/// What is in a pack and what it can hold, in the driver's unit.
#[derive(Debug, Clone, Copy, PartialEq, Eq, Structural)]
pub struct Charge {
    pub now: Double,
    pub full: Double,
}

/// One `power_supply` entry that passed the battery filter.
#[derive(Debug, Clone, Copy, PartialEq, Eq, Structural)]
pub struct Supply {
    /// Charge percentage, already pinned to 0..=100.
    pub percent: Percent,
    pub state: State,
    /// Kept so a host with several packs can be weighed by real capacity.
    pub charge: Option<Charge>,
}

impl Supply {
    pub open spec fn well_formed(self) -> bool {
        in_range(self.percent.value) && (self.charge matches Some(c) ==> less_than(
            zero(false),
            c.full,
        ))
    }
}

/// Trimmed contents of an attribute, absent when missing or blank.
pub open spec fn attr(contents: Option<Seq<char>>) -> Option<Seq<char>> {
    match contents {
        Some(text) => if trim(text).len() > 0 {
            Some(trim(text))
        } else {
            None
        },
        None => None,
    }
}

/// An attribute as a finite number.
pub open spec fn figure(contents: Option<Seq<char>>) -> Option<Double> {
    match attr(contents) {
        Some(text) => match number_of(text) {
            Some(n) => if n is Finite {
                Some(n)
            } else {
                None
            },
            None => None,
        },
        None => None,
    }
}

/// Two attributes as a charge, when both are numbers and the second is positive.
pub open spec fn pair(now: Option<Seq<char>>, full: Option<Seq<char>>) -> Option<Charge> {
    match (figure(now), figure(full)) {
        (Some(now), Some(full)) => if less_than(zero(false), full) {
            Some(Charge { now, full })
        } else {
            None
        },
        _ => None,
    }
}

/// A charge as a percentage.
pub open spec fn ratio(c: Charge) -> Double {
    quotient(product(c.now, 100), c.full)
}

/// The kernel's `status` attribute as a state.
pub open spec fn status_state(status: Seq<char>) -> State {
    if status == "Charging"@ {
        State::Charging
    } else if status == "Discharging"@ {
        State::Discharging
    } else if status == "Full"@ {
        State::Full
    } else if status == "Not charging"@ {
        State::NotCharging
    } else {
        State::Unknown
    }
}

/// The charge an entry reports: the energy pair, else the charge pair.
pub open spec fn entry_charge(a: Attributes) -> Option<Charge> {
    match pair(opt_text(a.energy_now), opt_text(a.energy_full)) {
        Some(c) => Some(c),
        None => pair(opt_text(a.charge_now), opt_text(a.charge_full)),
    }
}

/// The percentage an entry reports: the kernel's own, else the ratio of its
/// charge.
pub open spec fn entry_percent(a: Attributes) -> Option<Double> {
    match figure(opt_text(a.capacity)) {
        Some(n) => Some(n),
        None => match entry_charge(a) {
            Some(c) => Some(ratio(c)),
            None => None,
        },
    }
}

/// The supply an entry stands for: none when it is no system battery, or reports
/// nothing that makes a percentage.
pub open spec fn entry_supply(a: Attributes) -> Option<Supply> {
    if attr(opt_text(a.kind)) != Some("Battery"@) || attr(opt_text(a.scope)) == Some("Device"@) {
        None
    } else {
        match entry_percent(a) {
            Some(n) => match percent_of(n) {
                Some(percent) => Some(
                    Supply {
                        percent,
                        state: match attr(opt_text(a.status)) {
                            Some(status) => status_state(status),
                            None => State::Unknown,
                        },
                        charge: entry_charge(a),
                    },
                ),
                None => None,
            },
            None => None,
        }
    }
}

/// Trimmed contents of an attribute, or `None` when it is missing or blank.
fn read_attr(contents: &Option<String>) -> (r: Option<&str>)
    ensures
        opt_str(r) == attr(opt_text(*contents)),
{
    match contents {
        Some(text) => {
            let kept = trimmed(text.as_str());
            if kept.is_empty() {
                None
            } else {
                Some(kept)
            }
        },
        None => None,
    }
}

/// An attribute as a finite number: one that is not would poison every sum it
/// joins.
fn read_number(contents: &Option<String>) -> (r: Option<Double>)
    ensures
        r == figure(opt_text(*contents)),
{
    match read_attr(contents) {
        Some(text) => match parse_number(text) {
            Some(n) => if n.is_finite() {
                Some(n)
            } else {
                None
            },
            None => None,
        },
        None => None,
    }
}

fn read_pair(now: &Option<String>, full: &Option<String>) -> (r: Option<Charge>)
    ensures
        r == pair(opt_text(*now), opt_text(*full)),
{
    match (read_number(now), read_number(full)) {
        (Some(now), Some(full)) => if is_positive(full) {
            Some(Charge { now, full })
        } else {
            None
        },
        _ => None,
    }
}

/// A charge as a percentage.
fn ratio_percent(c: Charge) -> (r: Double)
    ensures
        r == ratio(c),
{
    c.now.times(100).over(c.full)
}

/// Read one entry, or `None` when it is not a system battery, or reports nothing
/// that makes a percentage.
///
/// A wireless mouse registers as a battery too, with a device scope: announcing
/// it as the machine's battery is worse than showing nothing.
pub fn read_supply(entry: &Attributes) -> (r: Option<Supply>)
    ensures
        r == entry_supply(*entry),
        r matches Some(s) ==> s.well_formed(),
{
    match read_attr(&entry.kind) {
        Some(kind) => if !same(kind, "Battery") {
            return None;
        },
        None => {
            return None;
        },
    }
    if let Some(scope) = read_attr(&entry.scope) {
        if same(scope, "Device") {
            return None;
        }
    }
    let charge = match read_pair(&entry.energy_now, &entry.energy_full) {
        Some(c) => Some(c),
        None => read_pair(&entry.charge_now, &entry.charge_full),
    };
    let figure = match read_number(&entry.capacity) {
        Some(n) => n,
        None => match charge {
            Some(c) => ratio_percent(c),
            None => {
                return None;
            },
        },
    };
    let state = match read_attr(&entry.status) {
        Some(status) => parse_state(status),
        None => State::Unknown,
    };
    match checked_percent(figure) {
        Some(percent) => Some(Supply { percent, state, charge }),
        None => None,
    }
}

/// Map the kernel's `status` attribute onto a [`State`]; anything outside its
/// vocabulary is unknown rather than a guess.
pub fn parse_state(status: &str) -> (r: State)
    ensures
        r == status_state(status@),
{
    if same(status, "Charging") {
        State::Charging
    } else if same(status, "Discharging") {
        State::Discharging
    } else if same(status, "Full") {
        State::Full
    } else if same(status, "Not charging") {
        State::NotCharging
    } else {
        State::Unknown
    }
}

// ---- several packs as one -----------------------------------------------------------

/// What all packs hold together, when each reports a charge.
pub open spec fn summed(supplies: Seq<Supply>) -> Option<Charge>
    decreases supplies.len(),
{
    if supplies.len() == 0 {
        Some(Charge { now: zero(false), full: zero(false) })
    } else {
        match (summed(supplies.drop_last()), supplies.last().charge) {
            (Some(all), Some(c)) => Some(
                Charge { now: sum(all.now, c.now), full: sum(all.full, c.full) },
            ),
            _ => None,
        }
    }
}

/// The percentages of all packs together.
pub open spec fn percent_sum(supplies: Seq<Supply>) -> Double
    decreases supplies.len(),
{
    if supplies.len() == 0 {
        zero(false)
    } else {
        sum(percent_sum(supplies.drop_last()), supplies.last().percent.value)
    }
}

/// The mean of the percentages.
pub open spec fn percent_mean(supplies: Seq<Supply>) -> Double {
    quotient(percent_sum(supplies), whole(supplies.len() as int))
}

/// The percentage of several packs: that of their summed charge where there is a
/// capacity to be a share of, else the mean.
pub open spec fn joint_percent(supplies: Seq<Supply>) -> Double {
    match summed(supplies) {
        Some(c) => if less_than(zero(false), c.full) {
            ratio(c)
        } else {
            percent_mean(supplies)
        },
        None => percent_mean(supplies),
    }
}

pub open spec fn any_in(supplies: Seq<Supply>, state: State) -> bool {
    exists|i: int| 0 <= i < supplies.len() && (#[trigger] supplies[i]).state == state
}

/// The one reading several packs make.
///
/// Charging wins, because any pack drawing power means the machine is charging;
/// then discharging; with no signal either way the first pack decides.
pub open spec fn joint_reading(supplies: Seq<Supply>) -> Option<Battery> {
    if supplies.len() == 0 {
        None
    } else {
        match percent_of(
            if supplies.len() == 1 {
                supplies[0].percent.value
            } else {
                joint_percent(supplies)
            },
        ) {
            Some(percent) => Some(
                Battery {
                    percent,
                    state: if any_in(supplies, State::Charging) {
                        State::Charging
                    } else if any_in(supplies, State::Discharging) {
                        State::Discharging
                    } else {
                        supplies[0].state
                    },
                },
            ),
            None => None,
        }
    }
}

/// The summed charge, or `None` when any pack is missing its own: mixing a real
/// capacity with a bare percentage would weigh the packs wrong.
fn summed_charge(supplies: &Vec<Supply>) -> (r: Option<Charge>)
    ensures
        r == summed(supplies@),
{
    let none = Double::nothing();
    let mut all = Charge { now: none, full: none };
    let mut i: usize = 0;
    assert(supplies@.take(0) =~= seq![]);
    while i < supplies.len()
        invariant
            i <= supplies.len(),
            summed(supplies@.take(i as int)) == Some(all),
        decreases supplies.len() - i,
    {
        assert(supplies@.take(i + 1).drop_last() =~= supplies@.take(i as int));
        match supplies[i].charge {
            Some(c) => {
                all = Charge { now: all.now.plus(c.now), full: all.full.plus(c.full) };
            },
            None => {
                proof {
                    lemma_summed_none(supplies@, i + 1);
                }
                return None;
            },
        }
        i += 1;
    }
    assert(supplies@.take(i as int) =~= supplies@);
    Some(all)
}

/// One pack without a charge leaves the sum without one.
proof fn lemma_summed_none(supplies: Seq<Supply>, i: int)
    requires
        0 <= i <= supplies.len(),
        summed(supplies.take(i)) is None,
    ensures
        summed(supplies) is None,
    decreases supplies.len() - i,
{
    if i == supplies.len() {
        assert(supplies.take(i) =~= supplies);
    } else {
        assert(supplies.take(i + 1).drop_last() =~= supplies.take(i));
        lemma_summed_none(supplies, i + 1);
    }
}

/// Mean of the percentages.
fn average_percent(supplies: &Vec<Supply>) -> (r: Double)
    ensures
        r == percent_mean(supplies@),
{
    let mut all = Percent::none();
    let mut i: usize = 0;
    assert(supplies@.take(0) =~= seq![]);
    while i < supplies.len()
        invariant
            i <= supplies.len(),
            all.value == percent_sum(supplies@.take(i as int)),
        decreases supplies.len() - i,
    {
        assert(supplies@.take(i + 1).drop_last() =~= supplies@.take(i as int));
        all = all.plus(supplies[i].percent);
        i += 1;
    }
    assert(supplies@.take(i as int) =~= supplies@);
    all.value.over(Double::from_whole(supplies.len() as u64))
}

fn has_state(supplies: &Vec<Supply>, state: State) -> (r: bool)
    ensures
        r == any_in(supplies@, state),
{
    let mut i: usize = 0;
    while i < supplies.len()
        invariant
            i <= supplies.len(),
            forall|j: int| 0 <= j < i ==> (#[trigger] supplies@[j]).state != state,
        decreases supplies.len() - i,
    {
        if supplies[i].state == state {
            return true;
        }
        i += 1;
    }
    false
}

/// Fold every battery on the host into the one reading the surfaces show.
///
/// One pack keeps its own figure. Past that, when every pack reports a charge
/// the totals are summed: a 90% small pack beside a 10% large one is not at 50%.
/// Otherwise the percentages are averaged, which is all the data allows.
pub fn aggregate(supplies: &Vec<Supply>) -> (r: Option<Battery>)
    ensures
        r == joint_reading(supplies@),
        r matches Some(b) ==> b.well_formed(),
{
    if supplies.len() == 0 {
        return None;
    }
    let figure = if supplies.len() == 1 {
        supplies[0].percent.value
    } else {
        match summed_charge(supplies) {
            Some(c) => if is_positive(c.full) {
                ratio_percent(c)
            } else {
                average_percent(supplies)
            },
            None => average_percent(supplies),
        }
    };
    let state = if has_state(supplies, State::Charging) {
        State::Charging
    } else if has_state(supplies, State::Discharging) {
        State::Discharging
    } else {
        supplies[0].state
    };
    match checked_percent(figure) {
        Some(percent) => Some(Battery { percent, state }),
        None => None,
    }
}

/// The supplies among the entries, in the order given.
pub open spec fn entry_supplies(entries: Seq<Attributes>) -> Seq<Supply>
    decreases entries.len(),
{
    if entries.len() == 0 {
        seq![]
    } else {
        match entry_supply(entries.last()) {
            Some(s) => entry_supplies(entries.drop_last()).push(s),
            None => entry_supplies(entries.drop_last()),
        }
    }
}

/// Every battery among the entries of the class, folded into one reading.
///
/// Entries come in the order of their names, so the same pack decides on every
/// scan.
pub fn read_from_root(entries: &Vec<Attributes>) -> (r: Option<Battery>)
    ensures
        r == joint_reading(entry_supplies(entries@)),
        r matches Some(b) ==> b.well_formed(),
{
    let mut supplies: Vec<Supply> = Vec::new();
    let mut i: usize = 0;
    assert(supplies@ =~= entry_supplies(entries@.take(0)));
    while i < entries.len()
        invariant
            i <= entries.len(),
            supplies@ == entry_supplies(entries@.take(i as int)),
        decreases entries.len() - i,
    {
        assert(entries@.take(i + 1).drop_last() =~= entries@.take(i as int));
        if let Some(s) = read_supply(&entries[i]) {
            supplies.push(s);
        }
        i += 1;
    }
    assert(entries@.take(i as int) =~= entries@);
    aggregate(&supplies)
}

} // verus!
