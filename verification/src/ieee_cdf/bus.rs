//! The bus data record.

use vstd::prelude::*;

use super::card::field_spec;
use super::model::{CdfBus, CdfBusV, CdfGenerator, CdfGeneratorV, CdfLoad, CdfLoadV, CdfShunt, CdfShuntV, FindingCode, FindingV, Line};
use super::read::{fail, numeric, read_all, report, got_view, reals_numeric, Got, GotV, Reader, Req, Want};
use super::tables::{
    bump, bump_exec, lt, lt_exec, nonzero, nonzero_exec, num, num_of, opt_num, opt_text_of, opt_txt,
    positive, positive_exec, text_of, txt, usize_or_zero, usize_or_zero_exec, views, Pending, Tables,
    TablesV, Target,
};
use crate::network::BusType;
use crate::text::{int_text, nat_text, push_int, push_nat, push_str, string_of};

verus! {

broadcast use vstd::std_specs::hash::group_hash_axioms;

pub open spec fn bus_id_reqs() -> Seq<Req> {
    seq![Req { cols: (1, 4), what: "bus number", want: Want::Id }]
}

pub open spec fn bus_code_reqs() -> Seq<Req> {
    seq![
        Req { cols: (19, 20), what: "area number", want: Want::RequiredInt(1) },
        Req { cols: (21, 23), what: "loss zone number", want: Want::Int },
        Req { cols: (25, 26), what: "bus type", want: Want::RequiredInt(0) },
    ]
}

pub open spec fn bus_value_reqs() -> Seq<Req> {
    seq![
        Req { cols: (28, 33), what: "final voltage", want: Want::RequiredReal },
        Req { cols: (34, 40), what: "final angle", want: Want::RequiredReal },
        Req { cols: (41, 49), what: "load MW", want: Want::RequiredReal },
        Req { cols: (50, 58), what: "load MVAr", want: Want::RequiredReal },
        Req { cols: (59, 67), what: "generation MW", want: Want::RequiredReal },
        Req { cols: (68, 75), what: "generation MVAr", want: Want::RequiredReal },
        Req { cols: (77, 83), what: "base kV", want: Want::Real },
        Req { cols: (85, 90), what: "desired voltage", want: Want::Real },
        Req { cols: (91, 98), what: "maximum limit", want: Want::Real },
        Req { cols: (99, 106), what: "minimum limit", want: Want::Real },
        Req { cols: (107, 114), what: "shunt conductance", want: Want::RequiredReal },
        Req { cols: (115, 122), what: "shunt susceptance", want: Want::RequiredReal },
        Req { cols: (124, 127), what: "remote controlled bus", want: Want::Bus },
    ]
}

/// The bus type a code in 0 through 3 names.
pub open spec fn bus_kind(code: int) -> BusType {
    if code == 2 {
        BusType::Pv
    } else if code == 3 {
        BusType::Ref
    } else {
        BusType::Pq
    }
}

/// A bus card's type code names the kind of the bus it adds: code 2 a PV
/// (generator) bus, code 3 the reference bus, codes 0 and 1 a PQ bus; the
/// bus is appended to those read before, under the card's number.
pub proof fn law_the_type_code_names_the_bus_kind(
    t: TablesV,
    line: Line,
    id: usize,
    name: Option<Seq<char>>,
    area: int,
    zone: Option<int>,
    code: int,
    v: Seq<GotV>,
)
    requires
        0 <= code <= 3,
    ensures
        ({
            let b = bus_tables(t, line, id, name, area, zone, code, v).buses;
            &&& b.len() == t.buses.len() + 1
            &&& b.drop_last() == t.buses
            &&& b.last().id == id
            &&& code == 2 ==> b.last().kind == BusType::Pv
            &&& code == 3 ==> b.last().kind == BusType::Ref
            &&& (code == 0 || code == 1) ==> b.last().kind == BusType::Pq
        }),
{
    let b = bus_tables(t, line, id, name, area, zone, code, v).buses;
    assert(b.drop_last() =~= t.buses);
}

/// The tables after a bus record whose fields are read.
pub open spec fn bus_tables(
    t: TablesV,
    line: Line,
    id: usize,
    name: Option<Seq<char>>,
    area: int,
    zone: Option<int>,
    code: int,
    v: Seq<GotV>,
) -> TablesV {
    let vm = txt(v[0]);
    let pd = txt(v[2]);
    let qd = txt(v[3]);
    let pg = txt(v[4]);
    let qg = txt(v[5]);
    let v_desired = opt_txt(v[7]);
    let limit_max = txt(v[8]);
    let limit_min = txt(v[9]);
    let g = txt(v[10]);
    let b = txt(v[11]);
    let held = code == 1 && lt(limit_min, limit_max);
    let unregulated = code == 0 && (nonzero(limit_max) || nonzero(limit_min));
    let bus = CdfBusV {
        id,
        kind: bus_kind(code),
        base_kv: txt(v[6]),
        vm,
        va: txt(v[1]),
        area: usize_or_zero(area),
        zone: usize_or_zero(
            match zone {
                Some(z) => z,
                None => 1,
            },
        ),
        name,
        voltage_limits: if held {
            Some((limit_max, limit_min))
        } else {
            None
        },
    };
    let regulates = code == 2 || code == 3;
    let machine = code != 0 || nonzero(pg) || nonzero(qg);
    let generator = CdfGeneratorV {
        bus: id,
        pg,
        qg,
        vg: match v_desired {
            Some(d) => if positive(d) {
                d
            } else {
                vm
            },
            None => vm,
        },
        qmax: if regulates {
            limit_max
        } else {
            qg
        },
        qmin: if regulates {
            limit_min
        } else {
            qg
        },
        pmin: "0"@,
        pmax: "9999"@,
        mbase: t.base,
        voltage_regulation_on: regulates,
        regulated_bus: None,
    };
    let remote = opt_num(v[12]);
    TablesV {
        buses: t.buses.push(bus),
        loads: if nonzero(pd) || nonzero(qd) {
            t.loads.push(CdfLoadV { bus: id, p: pd, q: qd })
        } else {
            t.loads
        },
        shunts: if nonzero(g) || nonzero(b) {
            t.shunts.push(CdfShuntV { bus: id, g, b })
        } else {
            t.shunts
        },
        generators: if machine {
            t.generators.push(generator)
        } else {
            t.generators
        },
        pending: match remote {
            Some(r) => if machine && r != id {
                t.pending.push(
                    Pending {
                        line,
                        bus: usize_or_zero(r),
                        target: Target::GeneratorRemote(t.generators.len() as usize),
                    },
                )
            } else {
                t.pending
            },
            None => t.pending,
        },
        counts: super::tables::Counts {
            defaulted_voltage_limits: if held {
                t.counts.defaulted_voltage_limits
            } else {
                bump(t.counts.defaulted_voltage_limits)
            },
            unregulated_limits: if unregulated {
                bump(t.counts.unregulated_limits)
            } else {
                t.counts.unregulated_limits
            },
            ..t.counts
        },
        ..t
    }
}

/// A bus record read into the tables.
pub open spec fn bus_step(
    b: Seq<u8>,
    o: Option<u64>,
    fs: Seq<FindingV>,
    t: TablesV,
    line: Line,
) -> (Seq<FindingV>, Result<TablesV, Seq<char>>) {
    let (fs1, r1) = read_all(b, o, fs, line, bus_id_reqs());
    match r1 {
        Err(e) => (fs1, Err(e)),
        Ok(v1) => {
            let id = usize_or_zero(num(v1[0]));
            if t.bus_lines.contains_key(id) {
                fail(
                    fs1,
                    o,
                    line,
                    "bus "@ + nat_text(id as nat) + " is declared twice; the first record is at line "@
                        + nat_text(t.bus_lines[id].number as nat),
                )
            } else {
                let t1 = TablesV { bus_lines: t.bus_lines.insert(id, line), ..t };
                let name = field_spec(b, line.start as int, line.end as int, (6, 17));
                let (fs2, r2) = read_all(b, o, fs1, line, bus_code_reqs());
                match r2 {
                    Err(e) => (fs2, Err(e)),
                    Ok(v2) => {
                        let code0 = num(v2[2]);
                        let ok = 0 <= code0 <= 3;
                        let fs3 = if ok {
                            fs2
                        } else {
                            report(
                                fs2,
                                o,
                                FindingCode::ValueSubstituted,
                                line,
                                "bus "@ + nat_text(id as nat) + " type "@ + int_text(code0)
                                    + " is outside 0 through 3; read as type 0 (PQ)"@,
                            )
                        };
                        let (fs4, r4) = read_all(b, o, fs3, line, bus_value_reqs());
                        match r4 {
                            Err(e) => (fs4, Err(e)),
                            Ok(v) => (
                                fs4,
                                Ok(
                                    bus_tables(
                                        t1,
                                        line,
                                        id,
                                        name,
                                        num(v2[0]),
                                        opt_num(v2[1]),
                                        if ok {
                                            code0
                                        } else {
                                            0
                                        },
                                        v,
                                    ),
                                ),
                            ),
                        }
                    },
                }
            }
        },
    }
}

pub open spec fn opt_chars(o: Option<Vec<char>>) -> Option<Seq<char>> {
    match o {
        Some(v) => Some(v@),
        None => None,
    }
}

/// An optional text as a string.
pub fn opt_string(o: Option<Vec<char>>) -> (r: Option<String>)
    ensures
        super::model::opt_view(r) == opt_chars(o),
{
    match o {
        Some(v) => Some(string_of(&v)),
        None => None,
    }
}

/// Fill the tables with a bus record whose fields are read.
fn apply_bus(
    t: &mut Tables,
    line: Line,
    id: usize,
    name: Option<Vec<char>>,
    area: i64,
    zone: Option<i64>,
    code: i64,
    v: &Vec<Got>,
)
    requires
        v@.len() == 13,
        reals_numeric(got_view(v@)),
        0 <= code <= 3,
    ensures
        final(t)@ == bus_tables(
            old(t)@,
            line,
            id,
            opt_chars(name),
            area as int,
            match zone {
                Some(z) => Some(z as int),
                None => None,
            },
            code as int,
            got_view(v@),
        ),
        final(t)@.buses.len() == old(t)@.buses.len() + 1,
        final(t)@.buses.last().id == id,
        code == 2 ==> final(t)@.buses.last().kind == BusType::Pv,
        code == 3 ==> final(t)@.buses.last().kind == BusType::Ref,
        code == 0 || code == 1 ==> final(t)@.buses.last().kind == BusType::Pq,
{
    let ghost gv = got_view(v@);
    proof {
        assert forall|k: int| 0 <= k < 13 implies (#[trigger] v@[k]@ matches GotV::Text(Some(x)) ==> numeric(x))
            by {
            assert(gv[k] == v@[k]@);
        }
    }
    let vm = text_of(&v[0]);
    let va = text_of(&v[1]);
    let pd = text_of(&v[2]);
    let qd = text_of(&v[3]);
    let pg = text_of(&v[4]);
    let qg = text_of(&v[5]);
    let base_kv = text_of(&v[6]);
    let v_desired = opt_text_of(&v[7]);
    let limit_max = text_of(&v[8]);
    let limit_min = text_of(&v[9]);
    let g = text_of(&v[10]);
    let b = text_of(&v[11]);
    let remote = num_of(&v[12]);
    let held = code == 1 && lt_exec(&limit_min, &limit_max);
    let unregulated = code == 0 && (nonzero_exec(&limit_max) || nonzero_exec(&limit_min));
    let kind = if code == 2 {
        BusType::Pv
    } else if code == 3 {
        BusType::Ref
    } else {
        BusType::Pq
    };
    let zone_value = match zone {
        Some(z) => z,
        None => 1,
    };
    let bus = CdfBus {
        id,
        kind,
        base_kv: string_of(&base_kv),
        vm: string_of(&vm),
        va: string_of(&va),
        area: usize_or_zero_exec(area),
        zone: usize_or_zero_exec(zone_value),
        name: opt_string(name),
        voltage_limits: if held {
            Some((string_of(&limit_max), string_of(&limit_min)))
        } else {
            None
        },
    };
    let ghost old_buses = t.buses@;
    t.buses.push(bus);
    assert(views(t.buses@) =~= views(old_buses).push(bus@));
    if nonzero_exec(&pd) || nonzero_exec(&qd) {
        let ghost before = t.loads@;
        let load = CdfLoad { bus: id, p: string_of(&pd), q: string_of(&qd) };
        t.loads.push(load);
        assert(views(t.loads@) =~= views(before).push(load@));
    }
    if nonzero_exec(&g) || nonzero_exec(&b) {
        let ghost before = t.shunts@;
        let shunt = CdfShunt { bus: id, g: string_of(&g), b: string_of(&b) };
        t.shunts.push(shunt);
        assert(views(t.shunts@) =~= views(before).push(shunt@));
    }
    let regulates = code == 2 || code == 3;
    let machine = code != 0 || nonzero_exec(&pg) || nonzero_exec(&qg);
    if machine {
        if let Some(r) = remote {
            if !(r >= 0 && r as u64 == id as u64) {
                let index = t.generators.len();
                let p = Pending { line, bus: usize_or_zero_exec(r), target: Target::GeneratorRemote(index) };
                t.pending.push(p);
            }
        }
        let vg = match &v_desired {
            Some(d) => if positive_exec(d) {
                d.clone()
            } else {
                vm.clone()
            },
            None => vm.clone(),
        };
        let generator = CdfGenerator {
            bus: id,
            pg: string_of(&pg),
            qg: string_of(&qg),
            vg: string_of(&vg),
            qmax: if regulates {
                string_of(&limit_max)
            } else {
                string_of(&qg)
            },
            qmin: if regulates {
                string_of(&limit_min)
            } else {
                string_of(&qg)
            },
            pmin: string_of(&crate::text::chars_of("0")),
            pmax: string_of(&crate::text::chars_of("9999")),
            mbase: string_of(&t.base),
            voltage_regulation_on: regulates,
            regulated_bus: None,
        };
        let ghost before = t.generators@;
        t.generators.push(generator);
        assert(views(t.generators@) =~= views(before).push(generator@));
    }
    if !held {
        t.counts.defaulted_voltage_limits = bump_exec(t.counts.defaulted_voltage_limits);
    }
    if unregulated {
        t.counts.unregulated_limits = bump_exec(t.counts.unregulated_limits);
    }
    proof {
        let want = bus_tables(
            old(t)@,
            line,
            id,
            opt_chars(name),
            area as int,
            match zone {
                Some(z) => Some(z as int),
                None => None,
            },
            code as int,
            gv,
        );
        assert(gv[12] == v@[12]@);
        assert(t@.buses == want.buses);
        assert(t@.loads == want.loads);
        assert(t@.shunts == want.shunts);
        assert(t@.generators == want.generators);
        assert(t@.pending == want.pending);
        assert(t@.counts == want.counts);
        assert(t@.bus_lines == want.bus_lines);
    }
}

impl<'a> Reader<'a> {
    /// Read a bus record into the tables.
    #[verifier::spinoff_prover]
    #[verifier::rlimit(80)]
    pub fn bus(&mut self, line: Line, t: &mut Tables) -> (r: Result<(), String>)
        requires
            old(self).wf(),
            line.start <= line.end <= old(self).bytes@.len(),
        ensures
            final(self).wf(),
            final(self).bytes == old(self).bytes,
            final(self).origin == old(self).origin,
            ({
                let (fs, res) = bus_step(old(self).bytes@, old(self).origin, old(self).fs(), old(t)@, line);
                &&& final(self).fs() == fs
                &&& match r {
                    Ok(()) => res == Ok::<TablesV, Seq<char>>(final(t)@),
                    Err(e) => res == Err::<TablesV, Seq<char>>(e@),
                }
            }),
    {
        let reqs1 = [Req { cols: (1, 4), what: "bus number", want: Want::Id }];
        assert(reqs1@ =~= bus_id_reqs());
        let v1 = match self.read_all(line, &reqs1) {
            Ok(v) => v,
            Err(e) => {
                return Err(e);
            },
        };
        let id = match num_of(&v1[0]) {
            Some(n) => usize_or_zero_exec(n),
            None => 0,
        };
        proof {
            assert(got_view(v1@)[0] == v1@[0]@);
        }
        if t.bus_lines.contains_key(&id) {
            let previous = *t.bus_lines.get(&id).unwrap();
            let mut m: Vec<char> = Vec::new();
            push_str(&mut m, "bus ");
            push_nat(&mut m, id as u64);
            push_str(&mut m, " is declared twice; the first record is at line ");
            push_nat(&mut m, previous.number as u64);
            return Err(self.fail(line, &m));
        }
        t.bus_lines.insert(id, line);
        let name = super::card::field(self.bytes, line.start, line.end, (6, 17));
        let reqs2 = [
            Req { cols: (19, 20), what: "area number", want: Want::RequiredInt(1) },
            Req { cols: (21, 23), what: "loss zone number", want: Want::Int },
            Req { cols: (25, 26), what: "bus type", want: Want::RequiredInt(0) },
        ];
        assert(reqs2@ =~= bus_code_reqs());
        let v2 = match self.read_all(line, &reqs2) {
            Ok(v) => v,
            Err(e) => {
                return Err(e);
            },
        };
        proof {
            assert(got_view(v2@)[0] == v2@[0]@);
            assert(got_view(v2@)[1] == v2@[1]@);
            assert(got_view(v2@)[2] == v2@[2]@);
        }
        let area = match num_of(&v2[0]) {
            Some(n) => n,
            None => 0,
        };
        let zone = num_of(&v2[1]);
        let code0 = match num_of(&v2[2]) {
            Some(n) => n,
            None => 0,
        };
        let ok = 0 <= code0 && code0 <= 3;
        if !ok {
            let mut m: Vec<char> = Vec::new();
            push_str(&mut m, "bus ");
            push_nat(&mut m, id as u64);
            push_str(&mut m, " type ");
            push_int(&mut m, code0);
            push_str(&mut m, " is outside 0 through 3; read as type 0 (PQ)");
            self.report(FindingCode::ValueSubstituted, line, &m);
        }
        let reqs3 = [
            Req { cols: (28, 33), what: "final voltage", want: Want::RequiredReal },
            Req { cols: (34, 40), what: "final angle", want: Want::RequiredReal },
            Req { cols: (41, 49), what: "load MW", want: Want::RequiredReal },
            Req { cols: (50, 58), what: "load MVAr", want: Want::RequiredReal },
            Req { cols: (59, 67), what: "generation MW", want: Want::RequiredReal },
            Req { cols: (68, 75), what: "generation MVAr", want: Want::RequiredReal },
            Req { cols: (77, 83), what: "base kV", want: Want::Real },
            Req { cols: (85, 90), what: "desired voltage", want: Want::Real },
            Req { cols: (91, 98), what: "maximum limit", want: Want::Real },
            Req { cols: (99, 106), what: "minimum limit", want: Want::Real },
            Req { cols: (107, 114), what: "shunt conductance", want: Want::RequiredReal },
            Req { cols: (115, 122), what: "shunt susceptance", want: Want::RequiredReal },
            Req { cols: (124, 127), what: "remote controlled bus", want: Want::Bus },
        ];
        assert(reqs3@ =~= bus_value_reqs());
        let v = match self.read_all(line, &reqs3) {
            Ok(v) => v,
            Err(e) => {
                return Err(e);
            },
        };
        let code = if ok {
            code0
        } else {
            0
        };
        apply_bus(t, line, id, name, area, zone, code, &v);
        Ok(())
    }
}

} // verus!
