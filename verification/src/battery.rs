//! Battery presence and charge state.
//!
//! `None` is a first-class answer: a desktop, a server or a virtual machine has
//! no battery, and the metric has to disappear rather than render a fabricated
//! 0%.

use vstd::arithmetic::power2::{lemma_pow2_pos, pow2};
use vstd::prelude::*;

use crate::double::{lemma_whole, less_than, one, whole, zero, Double};
use crate::units::{nothing, percent, Percent};

pub mod pmset;
pub mod power_status;
pub mod sysfs;

verus! {

/// Charge state as reported by the host.
#[derive(Debug, Clone, Copy, PartialEq, Eq, Structural)]
pub enum State {
    Charging,
    Discharging,
    Full,
    NotCharging,
    Unknown,
}

/// A machine-wide battery reading.
#[derive(Debug, Clone, Copy, PartialEq, Eq, Structural)]
pub struct Battery {
    /// Charge percentage, 0..=100.
    pub percent: Percent,
    pub state: State,
}

/// Whether a figure is one that can be rendered: between nothing and a hundred.
pub open spec fn in_range(value: Double) -> bool {
    value is Finite && !less_than(value, zero(false)) && !less_than(whole(100), value)
}

impl Battery {
    /// Whether the charge is one a battery can have.
    pub open spec fn well_formed(self) -> bool {
        in_range(self.percent.value)
    }
}

/// A figure pinned between nothing and a hundred; what is no number stays so.
pub open spec fn clamped(value: Double) -> Percent {
    if less_than(value, zero(false)) {
        nothing()
    } else if less_than(whole(100), value) {
        percent(100)
    } else {
        Percent { value }
    }
}

/// A figure pinned into what can be rendered, or nothing where it is no finite
/// number.
pub open spec fn percent_of(value: Double) -> Option<Percent> {
    if value is Finite {
        Some(clamped(value))
    } else {
        None
    }
}

/// What can be rendered stays as it is, and every other number is pinned into it.
pub(crate) proof fn lemma_clamped(value: Double)
    ensures
        !(value is NotANumber) ==> in_range(clamped(value).value),
        in_range(value) ==> clamped(value) == (Percent { value }),
{
    lemma_whole(100);
    lemma_pow2_pos(1074);
    assert(0 * pow2(0) == 0);
    assert(100 * one() > 0);
}

/// Pin a figure between nothing and a hundred.
pub fn clamp_percent(value: Double) -> (r: Percent)
    ensures
        r == clamped(value),
{
    if value.below(Double::nothing()) {
        Percent::none()
    } else if Double::from_whole(100).below(value) {
        Percent::new(100)
    } else {
        Percent { value }
    }
}

/// The single gate every percentage goes through: pin it, or reject what is not a
/// finite number. Hosts do lie: a freshly calibrated pack reports more than it
/// holds, a dying one less than nothing.
pub fn checked_percent(value: Double) -> (r: Option<Percent>)
    ensures
        r == percent_of(value),
        r matches Some(p) ==> in_range(p.value),
{
    proof {
        lemma_clamped(value);
    }
    if value.is_finite() {
        Some(clamp_percent(value))
    } else {
        None
    }
}

} // verus!
