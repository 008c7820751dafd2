//! The pressure ledger: the pressure that each request has put on the full
//! cache and on the suffix cache, in credit units.

use vstd::prelude::*;
use crate::cost::RequestFullOrSuffix;

verus! {

/// What a [`PressureTracker`] stands for in contracts.
pub struct PressureTrackerView {
    pub full_pressure: Seq<u64>,
    pub suffix_pressure: Seq<u64>,
}

/// The pressure that a request leaves in the ledger: none on a hit.
pub open spec fn pressed(pressure: u64, is_hit: bool) -> u64 {
    if is_hit {
        0
    } else {
        pressure
    }
}

/// The ledger after the pressure of a request has been logged.
pub open spec fn pressure_logged(
    v: PressureTrackerView,
    pressure: u64,
    tag: RequestFullOrSuffix,
) -> PressureTrackerView {
    match tag {
        RequestFullOrSuffix::Full(is_hit) => PressureTrackerView {
            full_pressure: v.full_pressure.push(pressed(pressure, is_hit)),
            ..v
        },
        RequestFullOrSuffix::Suff(is_hit) => PressureTrackerView {
            suffix_pressure: v.suffix_pressure.push(pressed(pressure, is_hit)),
            ..v
        },
    }
}

/// The pressure ledger of a run.
#[derive(Debug)]
pub struct PressureTracker {
    full_pressure: Vec<u64>,
    suffix_pressure: Vec<u64>,
}

impl View for PressureTracker {
    type V = PressureTrackerView;

    closed spec fn view(&self) -> PressureTrackerView {
        PressureTrackerView {
            full_pressure: self.full_pressure@,
            suffix_pressure: self.suffix_pressure@,
        }
    }
}

impl PressureTracker {
    /// An empty ledger.
    pub fn new() -> (tracker: PressureTracker)
        ensures
            tracker@ == (PressureTrackerView {
                full_pressure: Seq::empty(),
                suffix_pressure: Seq::empty(),
            }),
    {
        let tracker = PressureTracker { full_pressure: Vec::new(), suffix_pressure: Vec::new() };
        proof {
            assert(tracker@.full_pressure =~= Seq::<u64>::empty());
            assert(tracker@.suffix_pressure =~= Seq::<u64>::empty());
        }
        tracker
    }

    /// Logs the pressure of a request: none on a hit, `pressure` on a fault.
    pub fn log(&mut self, pressure: u64, request_type: RequestFullOrSuffix)
        ensures
            final(self)@ == pressure_logged(old(self)@, pressure, request_type),
    {
        match request_type {
            RequestFullOrSuffix::Full(is_hit) => {
                self.full_pressure.push(if is_hit { 0 } else { pressure });
            },
            RequestFullOrSuffix::Suff(is_hit) => {
                self.suffix_pressure.push(if is_hit { 0 } else { pressure });
            },
        }
    }

    /// The pressures on the full cache, request by request.
    pub fn full_pressures(&self) -> (pressures: &Vec<u64>)
        ensures
            pressures@ == self@.full_pressure,
    {
        &self.full_pressure
    }

    /// The pressures on the suffix cache, request by request.
    pub fn suffix_pressures(&self) -> (pressures: &Vec<u64>)
        ensures
            pressures@ == self@.suffix_pressure,
    {
        &self.suffix_pressure
    }

    /// Takes the ledger apart.
    pub fn into_parts(self) -> (parts: (Vec<u64>, Vec<u64>))
        ensures
            parts.0@ == self@.full_pressure,
            parts.1@ == self@.suffix_pressure,
    {
        (self.full_pressure, self.suffix_pressure)
    }
}

} // verus!
