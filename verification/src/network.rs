//! The element vocabulary the readers map source records onto.

use vstd::prelude::*;

verus! {

/// The primary energy source of a generating unit.
#[derive(Clone, Copy, Debug, PartialEq, Eq, Structural)]
pub enum GeneratorEnergySource {
    Hydro,
    Nuclear,
    Wind,
    Solar,
    Thermal,
    Other,
}

/// The load flow role of a bus.
#[derive(Clone, Copy, Debug, PartialEq, Eq, Structural)]
pub enum BusType {
    Pq,
    Pv,
    Ref,
    Isolated,
}

/// The kind of a switching device.
#[derive(Clone, Copy, Debug, PartialEq, Eq, Structural)]
pub enum SwitchKind {
    Breaker,
    Disconnector,
    LoadBreakSwitch,
}

/// The pole of a DC terminal.
#[derive(Clone, Copy, Debug, PartialEq, Eq, Structural)]
pub enum DcPolarity {
    Positive,
    Middle,
    Negative,
}

/// A field a source stated no value for, so that a reader left it out.
#[derive(Clone, Copy, Debug, PartialEq, Eq, Structural)]
pub enum OmittedFieldName {
    ActivePower,
    ReactivePower,
    VoltageSetpoint,
    RatedApparentPower,
    ShuntConductancePerSection,
}

} // verus!
