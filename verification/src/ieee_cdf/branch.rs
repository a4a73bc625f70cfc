//! The branch data record.

use vstd::prelude::*;

use super::card::field_spec;
use super::model::{CdfBranch, CdfBranchV, CdfControl, CdfControlV, ControlMode, FindingCode, FindingV, Line};
use super::read::{got_view, numeric, read_all, reals_numeric, report, Got, GotV, Reader, Req, Want};
use super::tables::{
    bump, bump_exec, lt, lt_exec, nonzero, nonzero_exec, num, num_of, opt_num, positive, positive_exec,
    text_of, txt, usize_or_zero, usize_or_zero_exec, views, Counts, Pending, Tables, TablesV, Target,
};
use crate::decimal::{finite_real, real_finite};
use crate::text::{chars_of, int_text, nat_text, push_int, push_nat, push_str, string_of};

verus! {

pub open spec fn branch_head_reqs() -> Seq<Req> {
    seq![
        Req { cols: (1, 4), what: "tap bus number", want: Want::Id },
        Req { cols: (6, 9), what: "Z bus number", want: Want::Id },
        Req { cols: (17, 17), what: "circuit", want: Want::Int },
        Req { cols: (19, 19), what: "branch type", want: Want::Int },
    ]
}

pub open spec fn branch_impedance_reqs() -> Seq<Req> {
    seq![
        Req { cols: (20, 29), what: "resistance", want: Want::RequiredReal },
        Req { cols: (30, 39), what: "reactance", want: Want::RequiredReal },
        Req { cols: (41, 49), what: "line charging", want: Want::RequiredReal },
    ]
}

pub open spec fn branch_rating_reqs() -> Seq<Req> {
    seq![
        Req { cols: (51, 55), what: "MVA rating 1", want: Want::Real },
        Req { cols: (57, 61), what: "MVA rating 2", want: Want::Real },
        Req { cols: (63, 67), what: "MVA rating 3", want: Want::Real },
        Req { cols: (69, 72), what: "control bus number", want: Want::Bus },
        Req { cols: (74, 74), what: "side", want: Want::Int },
        Req { cols: (77, 82), what: "turns ratio", want: Want::Real },
        Req { cols: (84, 90), what: "phase shift angle", want: Want::Real },
        Req { cols: (91, 97), what: "minimum tap", want: Want::Real },
        Req { cols: (98, 104), what: "maximum tap", want: Want::Real },
        Req { cols: (105, 111), what: "step size", want: Want::Real },
    ]
}

/// The record uses the documented layout of the limit columns: the wide
/// minimum column is blank or holds one number. Otherwise the record uses
/// the layout of the public IEEE archive files, whose maximum starts one
/// column earlier.
pub open spec fn wide_limits(b: Seq<u8>, line: Line) -> bool {
    match field_spec(b, line.start as int, line.end as int, (113, 119)) {
        Some(t) => finite_real(t),
        None => true,
    }
}

pub open spec fn limit_reqs(wide: bool) -> Seq<Req> {
    if wide {
        seq![
            Req { cols: (113, 119), what: "minimum limit", want: Want::Real },
            Req { cols: (120, 126), what: "maximum limit", want: Want::Real },
        ]
    } else {
        seq![
            Req { cols: (113, 118), what: "minimum limit", want: Want::Real },
            Req { cols: (119, 125), what: "maximum limit", want: Want::Real },
        ]
    }
}

/// `branch {from}-{to}` in findings.
pub open spec fn branch_name(from: usize, to: usize) -> Seq<char> {
    "branch "@ + nat_text(from as nat) + "-"@ + nat_text(to as nat)
}

/// The quantity a transformer type of 2 through 4 controls.
pub open spec fn control_mode(kind: int) -> ControlMode {
    if kind == 2 {
        ControlMode::Voltage
    } else if kind == 3 {
        ControlMode::ReactiveFlow
    } else {
        ControlMode::ActiveFlow
    }
}

/// The bus a control block regulates: the stated control bus, else the
/// terminal the side code names.
pub open spec fn controlled_bus(control_bus: Option<int>, side: int, from: usize, to: usize) -> Option<usize> {
    match control_bus {
        Some(c) => Some(usize_or_zero(c)),
        None => if side == 1 {
            Some(from)
        } else if side == 2 {
            Some(to)
        } else {
            None
        },
    }
}

/// The tables after a branch record whose fields are read: `z` holds the
/// impedance reads, `v` the rating to step size reads, `lims` the two limits.
pub open spec fn branch_tables(
    t: TablesV,
    line: Line,
    from: usize,
    to: usize,
    circuit: Option<int>,
    kind: int,
    side: int,
    z: Seq<GotV>,
    v: Seq<GotV>,
    lims: Seq<GotV>,
) -> TablesV {
    let ratio = txt(v[5]);
    let tap_min = txt(v[7]);
    let tap_max = txt(v[8]);
    let step = txt(v[9]);
    let limit_min = txt(lims[0]);
    let limit_max = txt(lims[1]);
    let control_bus = opt_num(v[3]);
    let unity = kind != 0 && !nonzero(ratio);
    let regulating = 2 <= kind <= 4;
    let mode = control_mode(kind);
    let stated_taps = lt(tap_min, tap_max);
    let stated_band = lt(limit_min, limit_max);
    let stepped = positive(step) && stated_taps;
    let control = CdfControlV {
        mode,
        enabled: true,
        mva_base: t.base,
        controlled_bus: controlled_bus(control_bus, side, from, to),
        tap_limits: if stated_taps {
            Some((tap_min, tap_max))
        } else if mode == ControlMode::ActiveFlow {
            Some(("-180"@, "180"@))
        } else {
            None
        },
        band: if stated_band {
            (limit_min, limit_max)
        } else {
            ("0.9"@, "1.1"@)
        },
        step: if stepped {
            Some(step)
        } else {
            None
        },
        ntp: if stepped {
            None
        } else {
            Some(33)
        },
    };
    let branch = CdfBranchV {
        from,
        to,
        r: txt(z[0]),
        x: txt(z[1]),
        b: txt(z[2]),
        rate_a: txt(v[0]),
        rate_b: txt(v[1]),
        rate_c: txt(v[2]),
        tap: if unity {
            "1"@
        } else {
            ratio
        },
        shift: txt(v[6]),
        circuit: match circuit {
            Some(c) => if c != 1 {
                Some(c as i64)
            } else {
                None
            },
            None => None,
        },
        control: if regulating {
            Some(control)
        } else {
            None
        },
    };
    let elsewhere = match control_bus {
        Some(c) => usize_or_zero(c) != from && usize_or_zero(c) != to,
        None => false,
    };
    TablesV {
        branches: t.branches.push(branch),
        branch_lines: t.branch_lines.push(line),
        pending: if regulating && elsewhere {
            t.pending.push(
                Pending {
                    line,
                    bus: usize_or_zero(control_bus->0),
                    target: Target::BranchControl(t.branches.len() as usize),
                },
            )
        } else {
            t.pending
        },
        counts: Counts {
            unity_taps: if unity {
                bump(t.counts.unity_taps)
            } else {
                t.counts.unity_taps
            },
            defaulted_tap_limits: if regulating && !stated_taps {
                bump(t.counts.defaulted_tap_limits)
            } else {
                t.counts.defaulted_tap_limits
            },
            defaulted_bands: if regulating && !stated_band {
                bump(t.counts.defaulted_bands)
            } else {
                t.counts.defaulted_bands
            },
            defaulted_steps: if regulating && !stepped {
                bump(t.counts.defaulted_steps)
            } else {
                t.counts.defaulted_steps
            },
            ..t.counts
        },
        ..t
    }
}

/// A side code outside 0 through 2 reads as 0; a blank side is 0.
pub open spec fn side_of(side: Option<int>) -> int {
    match side {
        Some(s) => if 0 <= s <= 2 {
            s
        } else {
            0
        },
        None => 0,
    }
}

/// A branch record read into the tables.
pub open spec fn branch_step(
    b: Seq<u8>,
    o: Option<u64>,
    fs: Seq<FindingV>,
    t: TablesV,
    line: Line,
) -> (Seq<FindingV>, Result<TablesV, Seq<char>>) {
    let (fs1, r1) = read_all(b, o, fs, line, branch_head_reqs());
    match r1 {
        Err(e) => (fs1, Err(e)),
        Ok(h) => {
            let from = usize_or_zero(num(h[0]));
            let to = usize_or_zero(num(h[1]));
            let kind0 = match opt_num(h[3]) {
                Some(k) => k,
                None => 0,
            };
            let kind_ok = 0 <= kind0 <= 4;
            let fs2 = if kind_ok {
                fs1
            } else {
                report(
                    fs1,
                    o,
                    FindingCode::ValueSubstituted,
                    line,
                    branch_name(from, to) + " type "@ + int_text(kind0)
                        + " is outside 0 through 4; read as a line when the turns ratio is zero and as a fixed tap transformer otherwise"@,
                )
            };
            branch_rest(b, o, fs2, t, line, from, to, opt_num(h[2]), if kind_ok {
                kind0
            } else {
                0
            })
        },
    }
}

/// The impedance reads onward, once the head of the record is read.
pub open spec fn branch_rest(
    b: Seq<u8>,
    o: Option<u64>,
    fs2: Seq<FindingV>,
    t: TablesV,
    line: Line,
    from: usize,
    to: usize,
    circuit: Option<int>,
    kind: int,
) -> (Seq<FindingV>, Result<TablesV, Seq<char>>) {
    let (fs3, r3) = read_all(b, o, fs2, line, branch_impedance_reqs());
    match r3 {
        Err(e) => (fs3, Err(e)),
        Ok(z) => {
            let fs4 = if !nonzero(txt(z[0])) && !nonzero(txt(z[1])) {
                report(
                    fs3,
                    o,
                    FindingCode::SourceMalformed,
                    line,
                    branch_name(from, to)
                        + " states zero series impedance, which the format forbids; the matrix builders reject the branch"@,
                )
            } else {
                fs3
            };
            branch_tail(b, o, fs4, t, line, from, to, circuit, kind, z)
        },
    }
}

/// The rating to limit reads, once the impedance is read.
pub open spec fn branch_tail(
    b: Seq<u8>,
    o: Option<u64>,
    fs4: Seq<FindingV>,
    t: TablesV,
    line: Line,
    from: usize,
    to: usize,
    circuit: Option<int>,
    kind: int,
    z: Seq<GotV>,
) -> (Seq<FindingV>, Result<TablesV, Seq<char>>) {
    let (fs5, r5) = read_all(b, o, fs4, line, branch_rating_reqs());
    match r5 {
        Err(e) => (fs5, Err(e)),
        Ok(v) => {
            let (fs6, r6) = read_all(b, o, fs5, line, limit_reqs(wide_limits(b, line)));
            match r6 {
                Err(e) => (fs6, Err(e)),
                Ok(lims) => {
                    let side0 = opt_num(v[4]);
                    let fs7 = match side0 {
                        Some(s) => if 0 <= s <= 2 {
                            fs6
                        } else {
                            report(
                                fs6,
                                o,
                                FindingCode::ValueSubstituted,
                                line,
                                branch_name(from, to) + " side "@ + int_text(s)
                                    + " is outside 0 through 2; read as 0 (the controlled bus is one of the terminals)"@,
                            )
                        },
                        None => fs6,
                    };
                    (fs7, Ok(branch_tables(t, line, from, to, circuit, kind, side_of(side0), z, v, lims)))
                },
            }
        },
    }
}

/// `branch {from}-{to}` as characters.
fn push_branch_name(m: &mut Vec<char>, from: usize, to: usize)
    ensures
        final(m)@ == old(m)@ + branch_name(from, to),
{
    push_str(m, "branch ");
    push_nat(m, from as u64);
    push_str(m, "-");
    push_nat(m, to as u64);
}

/// Fill the tables with a branch record whose fields are read.
#[verifier::rlimit(40)]
fn apply_branch(
    t: &mut Tables,
    line: Line,
    from: usize,
    to: usize,
    circuit: Option<i64>,
    kind: i64,
    side: i64,
    z: &Vec<Got>,
    v: &Vec<Got>,
    lims: &Vec<Got>,
)
    requires
        z@.len() == 3,
        v@.len() == 10,
        lims@.len() == 2,
        reals_numeric(got_view(z@)),
        reals_numeric(got_view(v@)),
        reals_numeric(got_view(lims@)),
        0 <= kind <= 4,
    ensures
        final(t)@ == branch_tables(
            old(t)@,
            line,
            from,
            to,
            match circuit {
                Some(c) => Some(c as int),
                None => None,
            },
            kind as int,
            side as int,
            got_view(z@),
            got_view(v@),
            got_view(lims@),
        ),
{
    let ghost gz = got_view(z@);
    let ghost gv = got_view(v@);
    let ghost gl = got_view(lims@);
    proof {
        assert forall|k: int| 0 <= k < 3 implies (#[trigger] z@[k]@ matches GotV::Text(Some(x)) ==> numeric(x)) by {
            assert(gz[k] == z@[k]@);
        }
        assert forall|k: int| 0 <= k < 10 implies (#[trigger] v@[k]@ matches GotV::Text(Some(x)) ==> numeric(x)) by {
            assert(gv[k] == v@[k]@);
        }
        assert forall|k: int| 0 <= k < 2 implies (#[trigger] lims@[k]@ matches GotV::Text(Some(x)) ==> numeric(x)) by {
            assert(gl[k] == lims@[k]@);
        }
        assert(gv[3] == v@[3]@);
    }
    let r = text_of(&z[0]);
    let x = text_of(&z[1]);
    let bch = text_of(&z[2]);
    let rate_a = text_of(&v[0]);
    let rate_b = text_of(&v[1]);
    let rate_c = text_of(&v[2]);
    let control_bus = num_of(&v[3]);
    let ratio = text_of(&v[5]);
    let angle = text_of(&v[6]);
    let tap_min = text_of(&v[7]);
    let tap_max = text_of(&v[8]);
    let step = text_of(&v[9]);
    let limit_min = text_of(&lims[0]);
    let limit_max = text_of(&lims[1]);
    let unity = kind != 0 && !nonzero_exec(&ratio);
    let regulating = 2 <= kind && kind <= 4;
    let stated_taps = lt_exec(&tap_min, &tap_max);
    let stated_band = lt_exec(&limit_min, &limit_max);
    let stepped = positive_exec(&step) && stated_taps;
    let control_at = match control_bus {
        Some(c) => Some(usize_or_zero_exec(c)),
        None => None,
    };
    let control = if regulating {
        let mode = if kind == 2 {
            ControlMode::Voltage
        } else if kind == 3 {
            ControlMode::ReactiveFlow
        } else {
            ControlMode::ActiveFlow
        };
        let controlled = match control_at {
            Some(c) => Some(c),
            None => if side == 1 {
                Some(from)
            } else if side == 2 {
                Some(to)
            } else {
                None
            },
        };
        let tap_limits = if stated_taps {
            Some((string_of(&tap_min), string_of(&tap_max)))
        } else if kind == 4 {
            let lo = chars_of("-180");
            let hi = chars_of("180");
            Some((string_of(&lo), string_of(&hi)))
        } else {
            None
        };
        Some(
            CdfControl {
                mode,
                enabled: true,
                mva_base: string_of(&t.base),
                controlled_bus: controlled,
                tap_limits,
                band: if stated_band {
                    (string_of(&limit_min), string_of(&limit_max))
                } else {
                    (string_of(&chars_of("0.9")), string_of(&chars_of("1.1")))
                },
                step: if stepped {
                    Some(string_of(&step))
                } else {
                    None
                },
                ntp: if stepped {
                    None
                } else {
                    Some(33)
                },
            },
        )
    } else {
        None
    };
    let tap = if unity {
        let one = chars_of("1");
        string_of(&one)
    } else {
        string_of(&ratio)
    };
    let kept_circuit = match circuit {
        Some(c) => if c != 1 {
            Some(c)
        } else {
            None
        },
        None => None,
    };
    let branch = CdfBranch {
        from,
        to,
        r: string_of(&r),
        x: string_of(&x),
        b: string_of(&bch),
        rate_a: string_of(&rate_a),
        rate_b: string_of(&rate_b),
        rate_c: string_of(&rate_c),
        tap,
        shift: string_of(&angle),
        circuit: kept_circuit,
        control,
    };
    if regulating {
        if let Some(c) = control_at {
            if c != from && c != to {
                let index = t.branches.len();
                t.pending.push(Pending { line, bus: c, target: Target::BranchControl(index) });
            }
        }
    }
    let ghost before = t.branches@;
    t.branches.push(branch);
    assert(views(t.branches@) =~= views(before).push(branch@));
    t.branch_lines.push(line);
    if unity {
        t.counts.unity_taps = bump_exec(t.counts.unity_taps);
    }
    if regulating && !stated_taps {
        t.counts.defaulted_tap_limits = bump_exec(t.counts.defaulted_tap_limits);
    }
    if regulating && !stated_band {
        t.counts.defaulted_bands = bump_exec(t.counts.defaulted_bands);
    }
    if regulating && !stepped {
        t.counts.defaulted_steps = bump_exec(t.counts.defaulted_steps);
    }
    proof {
        let want = branch_tables(
            old(t)@,
            line,
            from,
            to,
            match circuit {
                Some(c) => Some(c as int),
                None => None,
            },
            kind as int,
            side as int,
            gz,
            gv,
            gl,
        );
        assert(t@.branches == want.branches);
        assert(t@.branch_lines == want.branch_lines);
        assert(t@.pending == want.pending);
        assert(t@.counts == want.counts);
    }
}

impl<'a> Reader<'a> {
    /// Read a branch record into the tables.
    pub fn branch(&mut self, line: Line, t: &mut Tables) -> (r: Result<(), String>)
        requires
            old(self).wf(),
            line.start <= line.end <= old(self).bytes@.len(),
        ensures
            final(self).wf(),
            final(self).bytes == old(self).bytes,
            final(self).origin == old(self).origin,
            ({
                let (fs, res) = branch_step(old(self).bytes@, old(self).origin, old(self).fs(), old(t)@, line);
                &&& final(self).fs() == fs
                &&& match r {
                    Ok(()) => res == Ok::<TablesV, Seq<char>>(final(t)@),
                    Err(e) => res == Err::<TablesV, Seq<char>>(e@),
                }
            }),
    {
        let reqs1 = [
            Req { cols: (1, 4), what: "tap bus number", want: Want::Id },
            Req { cols: (6, 9), what: "Z bus number", want: Want::Id },
            Req { cols: (17, 17), what: "circuit", want: Want::Int },
            Req { cols: (19, 19), what: "branch type", want: Want::Int },
        ];
        assert(reqs1@ =~= branch_head_reqs());
        let h = match self.read_all(line, &reqs1) {
            Ok(v) => v,
            Err(e) => {
                return Err(e);
            },
        };
        proof {
            assert(got_view(h@)[0] == h@[0]@);
            assert(got_view(h@)[1] == h@[1]@);
            assert(got_view(h@)[2] == h@[2]@);
            assert(got_view(h@)[3] == h@[3]@);
        }
        let from = match num_of(&h[0]) {
            Some(n) => usize_or_zero_exec(n),
            None => 0,
        };
        let to = match num_of(&h[1]) {
            Some(n) => usize_or_zero_exec(n),
            None => 0,
        };
        let circuit = num_of(&h[2]);
        let kind0 = match num_of(&h[3]) {
            Some(k) => k,
            None => 0,
        };
        let kind_ok = 0 <= kind0 && kind0 <= 4;
        if !kind_ok {
            let mut m: Vec<char> = Vec::new();
            push_branch_name(&mut m, from, to);
            push_str(&mut m, " type ");
            push_int(&mut m, kind0);
            push_str(
                &mut m,
                " is outside 0 through 4; read as a line when the turns ratio is zero and as a fixed tap transformer otherwise",
            );
            self.report(FindingCode::ValueSubstituted, line, &m);
        }
        let kind = if kind_ok {
            kind0
        } else {
            0
        };
        self.branch_rest(line, t, from, to, circuit, kind)
    }

    fn branch_rest(
        &mut self,
        line: Line,
        t: &mut Tables,
        from: usize,
        to: usize,
        circuit: Option<i64>,
        kind: i64,
    ) -> (r: Result<(), String>)
        requires
            old(self).wf(),
            line.start <= line.end <= old(self).bytes@.len(),
            0 <= kind <= 4,
        ensures
            final(self).wf(),
            final(self).bytes == old(self).bytes,
            final(self).origin == old(self).origin,
            ({
                let (fs, res) = branch_rest(
                    old(self).bytes@,
                    old(self).origin,
                    old(self).fs(),
                    old(t)@,
                    line,
                    from,
                    to,
                    match circuit {
                        Some(c) => Some(c as int),
                        None => None,
                    },
                    kind as int,
                );
                &&& final(self).fs() == fs
                &&& match r {
                    Ok(()) => res == Ok::<TablesV, Seq<char>>(final(t)@),
                    Err(e) => res == Err::<TablesV, Seq<char>>(e@),
                }
            }),
    {
        let reqs2 = [
            Req { cols: (20, 29), what: "resistance", want: Want::RequiredReal },
            Req { cols: (30, 39), what: "reactance", want: Want::RequiredReal },
            Req { cols: (41, 49), what: "line charging", want: Want::RequiredReal },
        ];
        assert(reqs2@ =~= branch_impedance_reqs());
        let z = match self.read_all(line, &reqs2) {
            Ok(v) => v,
            Err(e) => {
                return Err(e);
            },
        };
        proof {
            assert(got_view(z@)[0] == z@[0]@);
            assert(got_view(z@)[1] == z@[1]@);
        }
        let r = text_of(&z[0]);
        let x = text_of(&z[1]);
        if !nonzero_exec(&r) && !nonzero_exec(&x) {
            let mut m: Vec<char> = Vec::new();
            push_branch_name(&mut m, from, to);
            push_str(
                &mut m,
                " states zero series impedance, which the format forbids; the matrix builders reject the branch",
            );
            self.report(FindingCode::SourceMalformed, line, &m);
        }
        self.branch_tail(line, t, from, to, circuit, kind, &z)
    }

    #[verifier::spinoff_prover]
    #[verifier::rlimit(60)]
    fn branch_tail(
        &mut self,
        line: Line,
        t: &mut Tables,
        from: usize,
        to: usize,
        circuit: Option<i64>,
        kind: i64,
        z: &Vec<Got>,
    ) -> (r: Result<(), String>)
        requires
            old(self).wf(),
            line.start <= line.end <= old(self).bytes@.len(),
            0 <= kind <= 4,
            z@.len() == 3,
            reals_numeric(got_view(z@)),
        ensures
            final(self).wf(),
            final(self).bytes == old(self).bytes,
            final(self).origin == old(self).origin,
            ({
                let (fs, res) = branch_tail(
                    old(self).bytes@,
                    old(self).origin,
                    old(self).fs(),
                    old(t)@,
                    line,
                    from,
                    to,
                    match circuit {
                        Some(c) => Some(c as int),
                        None => None,
                    },
                    kind as int,
                    got_view(z@),
                );
                &&& final(self).fs() == fs
                &&& match r {
                    Ok(()) => res == Ok::<TablesV, Seq<char>>(final(t)@),
                    Err(e) => res == Err::<TablesV, Seq<char>>(e@),
                }
            }),
    {
        let reqs3 = [
            Req { cols: (51, 55), what: "MVA rating 1", want: Want::Real },
            Req { cols: (57, 61), what: "MVA rating 2", want: Want::Real },
            Req { cols: (63, 67), what: "MVA rating 3", want: Want::Real },
            Req { cols: (69, 72), what: "control bus number", want: Want::Bus },
            Req { cols: (74, 74), what: "side", want: Want::Int },
            Req { cols: (77, 82), what: "turns ratio", want: Want::Real },
            Req { cols: (84, 90), what: "phase shift angle", want: Want::Real },
            Req { cols: (91, 97), what: "minimum tap", want: Want::Real },
            Req { cols: (98, 104), what: "maximum tap", want: Want::Real },
            Req { cols: (105, 111), what: "step size", want: Want::Real },
        ];
        assert(reqs3@ =~= branch_rating_reqs());
        let v = match self.read_all(line, &reqs3) {
            Ok(v) => v,
            Err(e) => {
                return Err(e);
            },
        };
        let wide = match super::card::field(self.bytes, line.start, line.end, (113, 119)) {
            Some(w) => {
                assert(w@.subrange(0, w@.len() as int) =~= w@);
                real_finite(&w, 0, w.len())
            },
            None => true,
        };
        let lims = if wide {
            let reqs4 = [
                Req { cols: (113, 119), what: "minimum limit", want: Want::Real },
                Req { cols: (120, 126), what: "maximum limit", want: Want::Real },
            ];
            assert(reqs4@ =~= limit_reqs(true));
            self.read_all(line, &reqs4)
        } else {
            let reqs4 = [
                Req { cols: (113, 118), what: "minimum limit", want: Want::Real },
                Req { cols: (119, 125), what: "maximum limit", want: Want::Real },
            ];
            assert(reqs4@ =~= limit_reqs(false));
            self.read_all(line, &reqs4)
        };
        let lims = match lims {
            Ok(l) => l,
            Err(e) => {
                return Err(e);
            },
        };
        proof {
            assert(got_view(v@)[4] == v@[4]@);
        }
        let side0 = num_of(&v[4]);
        let side = match side0 {
            Some(s) => {
                if 0 <= s && s <= 2 {
                    s
                } else {
                    let mut m: Vec<char> = Vec::new();
                    push_branch_name(&mut m, from, to);
                    push_str(&mut m, " side ");
                    push_int(&mut m, s);
                    push_str(
                        &mut m,
                        " is outside 0 through 2; read as 0 (the controlled bus is one of the terminals)",
                    );
                    self.report(FindingCode::ValueSubstituted, line, &m);
                    0
                }
            },
            None => 0,
        };
        apply_branch(t, line, from, to, circuit, kind, side, z, &v, &lims);
        Ok(())
    }
}

} // verus!
