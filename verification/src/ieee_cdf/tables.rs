//! The tables a CDF read fills, and the decisions shared by the record
//! decoders.

use std::collections::HashMap;

use vstd::prelude::*;

use super::model::{
    CdfArea, CdfAreaV, CdfBranch, CdfBranchV, CdfBus, CdfBusV, CdfGenerator, CdfGeneratorV, CdfLoad,
    CdfLoadV, CdfShunt, CdfShuntV, Line,
};
use super::read::{GotV, Got, numeric, zero_text};
use crate::decimal::{real_is_positive, real_is_zero, real_less, real_value, value_lt};

verus! {

broadcast use vstd::std_specs::hash::group_hash_axioms;

/// Which table row a bus reference read before every bus is known belongs
/// to.
#[derive(Clone, Copy, PartialEq, Eq, Structural)]
pub enum Target {
    GeneratorRemote(usize),
    BranchControl(usize),
    AreaSlack(usize),
}

/// A generator, control, or area reference to resolve once every bus is
/// read.
#[derive(Clone, Copy, PartialEq, Eq, Structural)]
pub struct Pending {
    pub line: Line,
    pub bus: usize,
    pub target: Target,
}

/// What the file level findings count.
#[derive(Clone, Copy, PartialEq, Eq, Structural)]
pub struct Counts {
    pub loss_zones: usize,
    pub tie_lines: usize,
    pub defaulted_voltage_limits: usize,
    pub unregulated_limits: usize,
    pub unity_taps: usize,
    pub defaulted_tap_limits: usize,
    pub defaulted_bands: usize,
    pub defaulted_steps: usize,
    pub retained_area_fields: usize,
}

/// The tables under construction.
pub struct Tables {
    pub buses: Vec<CdfBus>,
    pub bus_lines: HashMap<usize, Line>,
    pub loads: Vec<CdfLoad>,
    pub shunts: Vec<CdfShunt>,
    pub generators: Vec<CdfGenerator>,
    pub branches: Vec<CdfBranch>,
    pub branch_lines: Vec<Line>,
    pub areas: Vec<CdfArea>,
    pub pending: Vec<Pending>,
    pub counts: Counts,
    /// The case's MVA base as the title card spells it.
    pub base: Vec<char>,
}

pub struct TablesV {
    pub buses: Seq<CdfBusV>,
    pub bus_lines: Map<usize, Line>,
    pub loads: Seq<CdfLoadV>,
    pub shunts: Seq<CdfShuntV>,
    pub generators: Seq<CdfGeneratorV>,
    pub branches: Seq<CdfBranchV>,
    pub branch_lines: Seq<Line>,
    pub areas: Seq<CdfAreaV>,
    pub pending: Seq<Pending>,
    pub counts: Counts,
    pub base: Seq<char>,
}

pub open spec fn views<T: View>(s: Seq<T>) -> Seq<T::V> {
    s.map_values(|x: T| x@)
}

impl View for Tables {
    type V = TablesV;

    open spec fn view(&self) -> TablesV {
        TablesV {
            buses: views(self.buses@),
            bus_lines: self.bus_lines@,
            loads: views(self.loads@),
            shunts: views(self.shunts@),
            generators: views(self.generators@),
            branches: views(self.branches@),
            branch_lines: self.branch_lines@,
            areas: views(self.areas@),
            pending: self.pending@,
            counts: self.counts,
            base: self.base@,
        }
    }
}

pub open spec fn empty_counts() -> Counts {
    Counts {
        loss_zones: 0,
        tie_lines: 0,
        defaulted_voltage_limits: 0,
        unregulated_limits: 0,
        unity_taps: 0,
        defaulted_tap_limits: 0,
        defaulted_bands: 0,
        defaulted_steps: 0,
        retained_area_fields: 0,
    }
}

pub open spec fn empty_tables(base: Seq<char>) -> TablesV {
    TablesV {
        buses: Seq::empty(),
        bus_lines: Map::empty(),
        loads: Seq::empty(),
        shunts: Seq::empty(),
        generators: Seq::empty(),
        branches: Seq::empty(),
        branch_lines: Seq::empty(),
        areas: Seq::empty(),
        pending: Seq::empty(),
        counts: empty_counts(),
        base,
    }
}

impl Tables {
    pub fn new(base: Vec<char>) -> (t: Tables)
        ensures
            t@ == empty_tables(base@),
    {
        let t = Tables {
            buses: Vec::new(),
            bus_lines: HashMap::new(),
            loads: Vec::new(),
            shunts: Vec::new(),
            generators: Vec::new(),
            branches: Vec::new(),
            branch_lines: Vec::new(),
            areas: Vec::new(),
            pending: Vec::new(),
            counts: Counts {
                loss_zones: 0,
                tie_lines: 0,
                defaulted_voltage_limits: 0,
                unregulated_limits: 0,
                unity_taps: 0,
                defaulted_tap_limits: 0,
                defaulted_bands: 0,
                defaulted_steps: 0,
                retained_area_fields: 0,
            },
            base,
        };
        assert(t@.buses =~= Seq::<CdfBusV>::empty());
        assert(t@.loads =~= Seq::<CdfLoadV>::empty());
        assert(t@.shunts =~= Seq::<CdfShuntV>::empty());
        assert(t@.generators =~= Seq::<CdfGeneratorV>::empty());
        assert(t@.branches =~= Seq::<CdfBranchV>::empty());
        assert(t@.areas =~= Seq::<CdfAreaV>::empty());
        t
    }
}

/// One more, short of the counter's ceiling (a case has fewer records).
pub open spec fn bump(x: usize) -> usize {
    if x < usize::MAX {
        (x + 1) as usize
    } else {
        x
    }
}

pub fn bump_exec(x: usize) -> (r: usize)
    ensures
        r == bump(x),
{
    if x < usize::MAX {
        x + 1
    } else {
        x
    }
}

/// A required real: its text.
pub open spec fn txt(g: GotV) -> Seq<char> {
    match g {
        GotV::Text(Some(t)) => t,
        _ => zero_text(),
    }
}

/// An optional real.
pub open spec fn opt_txt(g: GotV) -> Option<Seq<char>> {
    match g {
        GotV::Text(t) => t,
        _ => None,
    }
}

pub open spec fn num(g: GotV) -> int {
    match g {
        GotV::Num(Some(n)) => n,
        _ => 0,
    }
}

pub open spec fn opt_num(g: GotV) -> Option<int> {
    match g {
        GotV::Num(n) => n,
        _ => None,
    }
}

/// `usize::try_from(n).unwrap_or(0)`.
pub open spec fn usize_or_zero(n: int) -> usize {
    if 0 <= n <= usize::MAX {
        n as usize
    } else {
        0
    }
}

pub fn usize_or_zero_exec(n: i64) -> (r: usize)
    ensures
        r == usize_or_zero(n as int),
{
    if 0 <= n && (n as u64) <= (usize::MAX as u64) {
        n as usize
    } else {
        0
    }
}

/// The value is not zero.
pub open spec fn nonzero(t: Seq<char>) -> bool {
    real_value(t).0 != 0
}

/// `a < b` as numbers.
pub open spec fn lt(a: Seq<char>, b: Seq<char>) -> bool {
    value_lt(real_value(a), real_value(b))
}

/// The value is above zero.
pub open spec fn positive(t: Seq<char>) -> bool {
    real_value(t).0 > 0
}

pub fn nonzero_exec(t: &Vec<char>) -> (r: bool)
    requires
        numeric(t@),
    ensures
        r == nonzero(t@),
{
    assert(t@.subrange(0, t@.len() as int) =~= t@);
    !real_is_zero(t, 0, t.len())
}

pub fn lt_exec(a: &Vec<char>, b: &Vec<char>) -> (r: bool)
    requires
        numeric(a@),
        numeric(b@),
    ensures
        r == lt(a@, b@),
{
    assert(a@.subrange(0, a@.len() as int) =~= a@);
    assert(b@.subrange(0, b@.len() as int) =~= b@);
    real_less(a, 0, a.len(), b, 0, b.len())
}

pub fn positive_exec(t: &Vec<char>) -> (r: bool)
    requires
        numeric(t@),
    ensures
        r == positive(t@),
{
    assert(t@.subrange(0, t@.len() as int) =~= t@);
    real_is_positive(t, 0, t.len())
}

/// The text of a required real read.
pub fn text_of(g: &Got) -> (r: Vec<char>)
    requires
        g@ matches GotV::Text(Some(t)) ==> numeric(t),
    ensures
        r@ == txt(g@),
        numeric(r@),
{
    proof {
        super::read::lemma_zero_numeric();
    }
    match g {
        Got::Text(Some(t)) => t.clone(),
        _ => {
            let mut z: Vec<char> = Vec::new();
            z.push('0');
            assert(z@ =~= zero_text());
            z
        },
    }
}

/// The text of an optional real read.
pub fn opt_text_of(g: &Got) -> (r: Option<Vec<char>>)
    requires
        g@ matches GotV::Text(Some(t)) ==> numeric(t),
    ensures
        r matches Some(v) ==> numeric(v@),
        match r {
            Some(v) => opt_txt(g@) == Some(v@),
            None => opt_txt(g@) is None,
        },
{
    match g {
        Got::Text(Some(t)) => Some(t.clone()),
        _ => None,
    }
}

/// The number of an integer read.
pub fn num_of(g: &Got) -> (r: Option<i64>)
    ensures
        match r {
            Some(v) => opt_num(g@) == Some(v as int),
            None => opt_num(g@) is None,
        },
{
    match g {
        Got::Num(n) => *n,
        _ => None,
    }
}

} // verus!
