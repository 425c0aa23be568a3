//! The per-tick control policy: telemetry history, candidate-speed
//! computation with safety overrides, and the hysteresis filter.

use vstd::prelude::*;
use crate::curve::{Breakpoint, FanSpeedTable, lookup_spec};
use crate::window::{CircleBuf, filled, seq_max, seq_sum};

verus! {

/// What one tick learned from the telemetry source.
#[derive(Clone, Copy, Debug, PartialEq, Eq, Structural)]
pub enum Telemetry {
    /// Temperature in whole degrees and power draw/limit in source units
    /// (any unit, as long as both use the same one).
    Reading { temp: u8, power_usage: u32, power_limit: u32 },
    /// The source failed; the tick falls back to maximum cooling.
    Unavailable,
}

/// Power draw over power limit, in thousandths, truncating; saturates at
/// the largest representable ratio, and a zero limit counts as full load.
pub open spec fn ratio_spec(usage: u32, limit: u32) -> int {
    if limit == 0 {
        1000
    } else if usage * 1000 / (limit as int) > 0xFFFF_FFFF {
        0xFFFF_FFFF
    } else {
        usage * 1000 / (limit as int)
    }
}

/// Computes `ratio_spec` exactly.
pub fn power_ratio_millis(usage: u32, limit: u32) -> (r: u32)
    ensures
        r as int == ratio_spec(usage, limit),
{
    if limit == 0 {
        1000
    } else {
        let q: u64 = (usage as u64) * 1000 / (limit as u64);
        if q > 0xFFFF_FFFF {
            u32::MAX
        } else {
            q as u32
        }
    }
}

/// The candidate duty cycle for the current histories: full speed when any
/// recent temperature reached 77, otherwise the curve's speed for the mean
/// power ratio, raised by 50 (saturating) when any recent temperature
/// reached 72.
pub open spec fn candidate_spec(t: Seq<Breakpoint>, temps: Seq<u8>, powers: Seq<u32>) -> int {
    let mt = seq_max(temps);
    if mt >= 77 {
        255
    } else {
        let base = lookup_spec(t, seq_sum(powers) / (powers.len() as int));
        if mt >= 72 {
            if base + 50 > 255 {
                255
            } else {
                base + 50
            }
        } else {
            base
        }
    }
}

/// Whether a candidate is withheld: within 12 steps of the previously
/// commanded speed, except that a transition into 0 or into 255 is always
/// let through; nothing is withheld before the first command.
pub open spec fn suppress_spec(prev: Option<u8>, cand: int) -> bool {
    match prev {
        Option::None => false,
        Option::Some(p) => {
            let d = if cand >= p { cand - p } else { p - cand };
            d <= 12 && !(p != 0 && cand == 0) && !(p != 255 && cand == 255)
        },
    }
}

/// The tick's outcome for a candidate: the duty cycle to command, or
/// nothing when the hysteresis filter withholds it.
pub open spec fn decision_spec(prev: Option<u8>, cand: int) -> Option<u8> {
    if suppress_spec(prev, cand) {
        Option::None
    } else {
        Option::Some(cand as u8)
    }
}

/// Computes `suppress_spec`'s negation exactly.
pub fn should_command(prev: Option<u8>, candidate: u8) -> (r: bool)
    ensures
        r == !suppress_spec(prev, candidate as int),
{
    match prev {
        Option::None => true,
        Option::Some(p) => {
            let d = if candidate >= p {
                candidate - p
            } else {
                p - candidate
            };
            !(d <= 12 && !(p != 0 && candidate == 0) && !(p != 255 && candidate == 255))
        },
    }
}

/// The state the controller carries from tick to tick.
pub struct ControlLoop {
    /// The calibration curve, fixed for the life of the loop.
    pub curve: FanSpeedTable,
    /// The last N temperature samples.
    pub temps: CircleBuf<u8>,
    /// The last N power ratios, in thousandths.
    pub powers: CircleBuf<u32>,
    /// The last duty cycle the actuator accepted; None before the first.
    pub prev_speed: Option<u8>,
}

impl ControlLoop {
    pub open spec fn wf(&self) -> bool {
        &&& self.curve.wf()
        &&& self.temps@.len() == self.powers@.len()
        &&& 0 < self.temps@.len() <= 0xFFFF_FFFF
    }

    /// The temperature history after folding in reading `t`.
    pub open spec fn temps_after(&self, t: Telemetry) -> Seq<u8> {
        match t {
            Telemetry::Unavailable => self.temps@,
            Telemetry::Reading { temp, .. } => self.temps@.update(
                self.temps.cursor() % (self.temps@.len() as int),
                temp,
            ),
        }
    }

    /// The power-ratio history after folding in reading `t`.
    pub open spec fn powers_after(&self, t: Telemetry) -> Seq<u32> {
        match t {
            Telemetry::Unavailable => self.powers@,
            Telemetry::Reading { power_usage, power_limit, .. } => self.powers@.update(
                self.powers.cursor() % (self.powers@.len() as int),
                ratio_spec(power_usage, power_limit) as u32,
            ),
        }
    }

    /// The candidate speed a tick derives from reading `t`: the fail-safe
    /// 255 when telemetry is unavailable, the history-based candidate
    /// otherwise.
    pub open spec fn candidate_for(&self, t: Telemetry) -> int {
        match t {
            Telemetry::Unavailable => 255,
            Telemetry::Reading { .. } => candidate_spec(
                self.curve@,
                self.temps_after(t),
                self.powers_after(t),
            ),
        }
    }

    /// A fresh controller: both windows have `capacity` slots, seeded with
    /// the initial reading, and nothing has been commanded yet.
    pub fn new(
        curve: FanSpeedTable,
        capacity: usize,
        temp: u8,
        power_usage: u32,
        power_limit: u32,
    ) -> (r: ControlLoop)
        requires
            curve.wf(),
            0 < capacity <= 0xFFFF_FFFF,
        ensures
            r.wf(),
            r.curve == curve,
            r.temps@ == Seq::new(capacity as nat, |i: int| temp),
            r.powers@ == Seq::new(
                capacity as nat,
                |i: int| (ratio_spec(power_usage, power_limit) as u32),
            ),
            r.temps.cursor() == 0,
            r.powers.cursor() == 0,
            r.prev_speed is None,
    {
        let ratio = power_ratio_millis(power_usage, power_limit);
        let temps = CircleBuf::new(filled(temp, capacity));
        let powers = CircleBuf::new(filled(ratio, capacity));
        ControlLoop { curve, temps, powers, prev_speed: None }
    }

    /// One control tick: fold the reading into the histories (failed reads
    /// leave them untouched), compute the candidate duty cycle, and run it
    /// through the hysteresis filter.  Returns the duty cycle to command,
    /// or None when this tick commands nothing.  The previously commanded
    /// speed changes only through `command_succeeded`.
    pub fn tick(&mut self, t: Telemetry) -> (r: Option<u8>)
        requires
            old(self).wf(),
        ensures
            final(self).wf(),
            final(self).curve == old(self).curve,
            final(self).prev_speed == old(self).prev_speed,
            final(self).temps@ == old(self).temps_after(t),
            final(self).powers@ == old(self).powers_after(t),
            r == decision_spec(old(self).prev_speed, old(self).candidate_for(t)),
    {
        let ghost pre = *self;
        let candidate: u8 = match t {
            Telemetry::Unavailable => 255,
            Telemetry::Reading { temp, power_usage, power_limit } => {
                let ratio = power_ratio_millis(power_usage, power_limit);
                self.temps.push(temp);
                self.powers.push(ratio);
                let max_temp = self.temps.max();
                if max_temp >= 77 {
                    255
                } else {
                    let avg = self.powers.mean();
                    let base = self.curve.lookup_speed(avg as i64);
                    proof {
                        crate::curve::lemma_bracket(pre.curve@, crate::curve::clamp_load(avg as int));
                        crate::curve::lemma_interp_bounds(
                            crate::curve::lower_point(pre.curve@, crate::curve::clamp_load(avg as int)),
                            crate::curve::upper_point(pre.curve@, crate::curve::clamp_load(avg as int)),
                            crate::curve::clamp_load(avg as int),
                        );
                    }
                    if max_temp >= 72 {
                        if base > 205 {
                            255
                        } else {
                            base + 50
                        }
                    } else {
                        base
                    }
                }
            },
        };
        assert(candidate as int == pre.candidate_for(t));
        if should_command(self.prev_speed, candidate) {
            Some(candidate)
        } else {
            None
        }
    }

    /// Records that the actuator accepted `speed`; after a failed write the
    /// caller leaves the state alone instead, so the speed is offered again.
    pub fn command_succeeded(&mut self, speed: u8)
        ensures
            final(self).curve == old(self).curve,
            final(self).temps == old(self).temps,
            final(self).powers == old(self).powers,
            final(self).prev_speed == Some(speed),
    {
        self.prev_speed = Some(speed);
    }
}

/// The safety cutoff dominates: a history that has seen 77 degrees yields
/// the full-speed candidate no matter what the power history holds.
pub proof fn lemma_safety_cutoff(t: Seq<Breakpoint>, temps: Seq<u8>, powers: Seq<u32>)
    requires
        seq_max(temps) >= 77,
    ensures
        candidate_spec(t, temps, powers) == 255,
{
}

/// The thermal-margin boost: between 72 and 76 degrees the candidate is the
/// curve's speed plus 50, saturating at 255.
pub proof fn lemma_thermal_boost(t: Seq<Breakpoint>, temps: Seq<u8>, powers: Seq<u32>)
    requires
        72 <= seq_max(temps) < 77,
    ensures
        ({
            let base = lookup_spec(t, seq_sum(powers) / (powers.len() as int));
            candidate_spec(t, temps, powers) == if base + 50 > 255 { 255int } else { base + 50 }
        }),
{
}

/// A tick that saw telemetry fail decides on full speed, and that decision
/// is withheld only when full speed was already the last command.
pub proof fn lemma_failsafe_always_commanded(prev: Option<u8>)
    ensures
        decision_spec(prev, 255) == if prev == Some(255u8) {
            Option::<u8>::None
        } else {
            Option::Some(255u8)
        },
{
}

} // verus!
