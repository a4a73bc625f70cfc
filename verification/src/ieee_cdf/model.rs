//! The tables a CDF case reads into, and the findings the reader records.
//!
//! Real quantities keep the text the case spells them with: a consumer
//! parses each with `str::parse::<f64>`, which the reader has checked
//! succeeds on a finite value.

use vstd::prelude::*;

use crate::network::BusType;

verus! {

/// The stable code of a finding.
#[derive(Clone, Copy, Debug, PartialEq, Eq, Structural)]
pub enum FindingCode {
    /// A failure that ends the read.
    ParseMalformed,
    /// A mandatory field is missing from a short record.
    RecordTruncated,
    /// The source breaks the format; the reader worked around it.
    SourceMalformed,
    /// Source data the tables do not hold.
    RetainedSourceOnly,
    /// A value the format does not state was assumed.
    ValueDefaulted,
    /// A code outside the documented set was replaced.
    ValueSubstituted,
}

impl FindingCode {
    pub open spec fn text(self) -> Seq<char> {
        match self {
            FindingCode::ParseMalformed => "PARSE.IEEE_CDF.MALFORMED"@,
            FindingCode::RecordTruncated => "READ.IEEE_CDF.RECORD_TRUNCATED"@,
            FindingCode::SourceMalformed => "READ.IEEE_CDF.SOURCE_MALFORMED"@,
            FindingCode::RetainedSourceOnly => "READ.IEEE_CDF.RETAINED_SOURCE_ONLY"@,
            FindingCode::ValueDefaulted => "READ.IEEE_CDF.VALUE_DEFAULTED"@,
            FindingCode::ValueSubstituted => "READ.IEEE_CDF.VALUE_SUBSTITUTED"@,
        }
    }

    /// The code as findings print it.
    pub fn code(&self) -> (r: &'static str)
        ensures
            r@ == self.text(),
    {
        match self {
            FindingCode::ParseMalformed => "PARSE.IEEE_CDF.MALFORMED",
            FindingCode::RecordTruncated => "READ.IEEE_CDF.RECORD_TRUNCATED",
            FindingCode::SourceMalformed => "READ.IEEE_CDF.SOURCE_MALFORMED",
            FindingCode::RetainedSourceOnly => "READ.IEEE_CDF.RETAINED_SOURCE_ONLY",
            FindingCode::ValueDefaulted => "READ.IEEE_CDF.VALUE_DEFAULTED",
            FindingCode::ValueSubstituted => "READ.IEEE_CDF.VALUE_SUBSTITUTED",
        }
    }

    /// Whether the finding is an error rather than a warning.
    pub fn is_error(&self) -> (r: bool)
        ensures
            r == (*self == FindingCode::ParseMalformed),
    {
        match self {
            FindingCode::ParseMalformed => true,
            _ => false,
        }
    }
}

/// One finding: its code, its message, and the byte range of the record it
/// locates, when the reader knows where the text sits.
pub struct Finding {
    pub code: FindingCode,
    pub message: String,
    pub span: Option<(u64, u64)>,
}

pub struct FindingV {
    pub code: FindingCode,
    pub message: Seq<char>,
    pub span: Option<(u64, u64)>,
}

impl View for Finding {
    type V = FindingV;

    open spec fn view(&self) -> FindingV {
        FindingV { code: self.code, message: self.message@, span: self.span }
    }
}

/// The views of a list of findings.
pub open spec fn findings_view(fs: Seq<Finding>) -> Seq<FindingV> {
    fs.map_values(|f: Finding| f@)
}

/// One physical line: its 1-based number and the byte range of its text
/// without the line break.
#[derive(Clone, Copy, Debug, PartialEq, Eq, Structural)]
pub struct Line {
    pub number: usize,
    pub start: usize,
    pub end: usize,
}

/// A bus.
pub struct CdfBus {
    pub id: usize,
    pub kind: BusType,
    pub base_kv: String,
    pub vm: String,
    pub va: String,
    pub area: usize,
    pub zone: usize,
    pub name: Option<String>,
    /// `(vmax, vmin)` when the record bounds the voltage; otherwise the
    /// model's 1.1 and 0.9 p.u. apply.
    pub voltage_limits: Option<(String, String)>,
}

pub struct CdfBusV {
    pub id: usize,
    pub kind: BusType,
    pub base_kv: Seq<char>,
    pub vm: Seq<char>,
    pub va: Seq<char>,
    pub area: usize,
    pub zone: usize,
    pub name: Option<Seq<char>>,
    pub voltage_limits: Option<(Seq<char>, Seq<char>)>,
}

pub open spec fn opt_view(o: Option<String>) -> Option<Seq<char>> {
    match o {
        Some(s) => Some(s@),
        None => None,
    }
}

pub open spec fn pair_view(o: Option<(String, String)>) -> Option<(Seq<char>, Seq<char>)> {
    match o {
        Some((a, b)) => Some((a@, b@)),
        None => None,
    }
}

impl View for CdfBus {
    type V = CdfBusV;

    open spec fn view(&self) -> CdfBusV {
        CdfBusV {
            id: self.id,
            kind: self.kind,
            base_kv: self.base_kv@,
            vm: self.vm@,
            va: self.va@,
            area: self.area,
            zone: self.zone,
            name: opt_view(self.name),
            voltage_limits: pair_view(self.voltage_limits),
        }
    }
}

/// A load at a bus, in MW and MVAr.
pub struct CdfLoad {
    pub bus: usize,
    pub p: String,
    pub q: String,
}

pub struct CdfLoadV {
    pub bus: usize,
    pub p: Seq<char>,
    pub q: Seq<char>,
}

impl View for CdfLoad {
    type V = CdfLoadV;

    open spec fn view(&self) -> CdfLoadV {
        CdfLoadV { bus: self.bus, p: self.p@, q: self.q@ }
    }
}

/// A shunt at a bus, stated in per unit on the case base: its MW and MVAr
/// are `g` and `b` times the case's MVA base.
pub struct CdfShunt {
    pub bus: usize,
    pub g: String,
    pub b: String,
}

pub struct CdfShuntV {
    pub bus: usize,
    pub g: Seq<char>,
    pub b: Seq<char>,
}

impl View for CdfShunt {
    type V = CdfShuntV;

    open spec fn view(&self) -> CdfShuntV {
        CdfShuntV { bus: self.bus, g: self.g@, b: self.b@ }
    }
}

/// A generator. The format states no active power limits or machine base:
/// `pmin` is 0 MW, `pmax` 9999 MW, and `mbase` the case's MVA base.
pub struct CdfGenerator {
    pub bus: usize,
    pub pg: String,
    pub qg: String,
    pub vg: String,
    pub qmax: String,
    pub qmin: String,
    pub pmin: String,
    pub pmax: String,
    pub mbase: String,
    pub voltage_regulation_on: bool,
    pub regulated_bus: Option<usize>,
}

pub struct CdfGeneratorV {
    pub bus: usize,
    pub pg: Seq<char>,
    pub qg: Seq<char>,
    pub vg: Seq<char>,
    pub qmax: Seq<char>,
    pub qmin: Seq<char>,
    pub pmin: Seq<char>,
    pub pmax: Seq<char>,
    pub mbase: Seq<char>,
    pub voltage_regulation_on: bool,
    pub regulated_bus: Option<usize>,
}

impl View for CdfGenerator {
    type V = CdfGeneratorV;

    open spec fn view(&self) -> CdfGeneratorV {
        CdfGeneratorV {
            bus: self.bus,
            pg: self.pg@,
            qg: self.qg@,
            vg: self.vg@,
            qmax: self.qmax@,
            qmin: self.qmin@,
            pmin: self.pmin@,
            pmax: self.pmax@,
            mbase: self.mbase@,
            voltage_regulation_on: self.voltage_regulation_on,
            regulated_bus: self.regulated_bus,
        }
    }
}

/// The quantity a regulating transformer controls.
#[derive(Clone, Copy, Debug, PartialEq, Eq, Structural)]
pub enum ControlMode {
    Voltage,
    ReactiveFlow,
    ActiveFlow,
}

/// The control block of a regulating transformer (types 2 through 4); it
/// is enabled and on the case's MVA base.
pub struct CdfControl {
    pub mode: ControlMode,
    pub enabled: bool,
    pub mva_base: String,
    pub controlled_bus: Option<usize>,
    /// `(tap_min, tap_max)`: the stated limits, the phase shifter's
    /// `-180`/`180` degree window, or `None` for the control block's own
    /// default window.
    pub tap_limits: Option<(String, String)>,
    /// `(band_min, band_max)`: the stated band, else the PSS/E default
    /// 0.9 to 1.1.
    pub band: (String, String),
    /// The step size when it is positive and the tap limits are stated; the
    /// tap position count is then `round((tap_max - tap_min) / step) + 1`.
    pub step: Option<String>,
    /// The tap position count when no step is used: the PSS/E default 33.
    pub ntp: Option<u32>,
}

pub struct CdfControlV {
    pub mode: ControlMode,
    pub enabled: bool,
    pub mva_base: Seq<char>,
    pub controlled_bus: Option<usize>,
    pub tap_limits: Option<(Seq<char>, Seq<char>)>,
    pub band: (Seq<char>, Seq<char>),
    pub step: Option<Seq<char>>,
    pub ntp: Option<u32>,
}

impl View for CdfControl {
    type V = CdfControlV;

    open spec fn view(&self) -> CdfControlV {
        CdfControlV {
            mode: self.mode,
            enabled: self.enabled,
            mva_base: self.mva_base@,
            controlled_bus: self.controlled_bus,
            tap_limits: pair_view(self.tap_limits),
            band: (self.band.0@, self.band.1@),
            step: opt_view(self.step),
            ntp: self.ntp,
        }
    }
}

/// A branch: a line when its turns ratio is zero, else a transformer.
pub struct CdfBranch {
    pub from: usize,
    pub to: usize,
    pub r: String,
    pub x: String,
    pub b: String,
    pub rate_a: String,
    pub rate_b: String,
    pub rate_c: String,
    pub tap: String,
    pub shift: String,
    /// The circuit number when it is not 1.
    pub circuit: Option<i64>,
    pub control: Option<CdfControl>,
}

pub struct CdfBranchV {
    pub from: usize,
    pub to: usize,
    pub r: Seq<char>,
    pub x: Seq<char>,
    pub b: Seq<char>,
    pub rate_a: Seq<char>,
    pub rate_b: Seq<char>,
    pub rate_c: Seq<char>,
    pub tap: Seq<char>,
    pub shift: Seq<char>,
    pub circuit: Option<i64>,
    pub control: Option<CdfControlV>,
}

impl View for CdfBranch {
    type V = CdfBranchV;

    open spec fn view(&self) -> CdfBranchV {
        CdfBranchV {
            from: self.from,
            to: self.to,
            r: self.r@,
            x: self.x@,
            b: self.b@,
            rate_a: self.rate_a@,
            rate_b: self.rate_b@,
            rate_c: self.rate_c@,
            tap: self.tap@,
            shift: self.shift@,
            circuit: self.circuit,
            control: match self.control {
                Some(c) => Some(c@),
                None => None,
            },
        }
    }
}

/// An interchange area.
pub struct CdfArea {
    pub number: usize,
    pub slack_bus: Option<usize>,
    pub net_interchange: String,
    pub tolerance: String,
    pub name: Option<String>,
}

pub struct CdfAreaV {
    pub number: usize,
    pub slack_bus: Option<usize>,
    pub net_interchange: Seq<char>,
    pub tolerance: Seq<char>,
    pub name: Option<Seq<char>>,
}

impl View for CdfArea {
    type V = CdfAreaV;

    open spec fn view(&self) -> CdfAreaV {
        CdfAreaV {
            number: self.number,
            slack_bus: self.slack_bus,
            net_interchange: self.net_interchange@,
            tolerance: self.tolerance@,
            name: opt_view(self.name),
        }
    }
}

} // verus!
