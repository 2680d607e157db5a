//! What the three power status fields of a Windows host stand for.

use vstd::arithmetic::power2::{lemma_pow2_pos, pow2};
use vstd::prelude::*;

use crate::battery::{in_range, Battery, State};
use crate::double::{lemma_whole, one, whole};
use crate::units::{percent, Percent};

verus! {

/// Battery flag bit meaning the machine has no battery at all.
pub const NO_SYSTEM_BATTERY: u8 = 128;

/// Battery flag sentinel for "status unknown".
pub const FLAG_UNKNOWN: u8 = 255;

/// Percentage sentinel for "percentage unknown".
pub const PERCENT_UNKNOWN: u8 = 255;

/// Line status: running on battery.
pub const AC_OFFLINE: u8 = 0;

/// Line status: plugged in.
pub const AC_ONLINE: u8 = 1;

/// The percentage the host reports, pinned at a hundred.
pub open spec fn life(life_percent: u8) -> u8 {
    if life_percent > 100 {
        100
    } else {
        life_percent
    }
}

/// The state three fields stand for.
pub open spec fn line_state(ac_line: u8, battery_flag: u8, life_percent: u8) -> State {
    if battery_flag == FLAG_UNKNOWN {
        State::Unknown
    } else if ac_line == AC_OFFLINE {
        State::Discharging
    } else if ac_line == AC_ONLINE {
        if life_percent >= 100 {
            State::Full
        } else {
            State::Charging
        }
    } else {
        State::Unknown
    }
}

/// The reading three fields stand for.
pub open spec fn reading(ac_line: u8, battery_flag: u8, life_percent: u8) -> Option<Battery> {
    if (battery_flag != FLAG_UNKNOWN && battery_flag & NO_SYSTEM_BATTERY != 0) || life_percent
        == PERCENT_UNKNOWN {
        None
    } else {
        Some(
            Battery {
                percent: percent(life(life_percent) as int),
                state: line_state(ac_line, battery_flag, life_percent),
            },
        )
    }
}

/// Turn the three fields into a reading.
///
/// The unknown sentinel has the no-battery bit set, so it is ruled out before
/// the bit is tested: a laptop that momentarily cannot read its battery is not
/// a desktop.
pub fn map(ac_line: u8, battery_flag: u8, life_percent: u8) -> (r: Option<Battery>)
    ensures
        r == reading(ac_line, battery_flag, life_percent),
        r matches Some(b) ==> b.well_formed(),
{
    let flag_unknown = battery_flag == FLAG_UNKNOWN;
    if !flag_unknown && battery_flag & NO_SYSTEM_BATTERY != 0 {
        return None;
    }
    if life_percent == PERCENT_UNKNOWN {
        return None;
    }
    let whole: u8 = if life_percent > 100 {
        100
    } else {
        life_percent
    };
    let state = if flag_unknown {
        State::Unknown
    } else if ac_line == AC_OFFLINE {
        State::Discharging
    } else if ac_line == AC_ONLINE {
        if whole >= 100 {
            State::Full
        } else {
            State::Charging
        }
    } else {
        State::Unknown
    };
    proof {
        lemma_life(whole);
    }
    Some(Battery { percent: Percent::new(whole as u64), state })
}

/// A whole number up to a hundred can be rendered.
proof fn lemma_life(n: u8)
    requires
        n <= 100,
    ensures
        in_range(whole(n as int)),
{
    lemma_whole(n as int);
    lemma_whole(100);
    lemma_pow2_pos(1074);
    assert(0 * pow2(0) == 0);
    assert(0 <= n * one() <= 100 * one()) by (nonlinear_arith)
        requires
            0 <= n <= 100,
            one() > 0,
    ;
}

} // verus!
