//! DGS attribute values and how a row's fields read into them.
//!
//! A row's fields are separated by semicolons; a double quoted span is one
//! field that may hold semicolons. A vector row carries its actual length
//! and then the declared number of cells; a matrix row carries its actual
//! row and column counts and then the declared cells, so a shorter actual
//! size leaves the trailing cells empty. Decimal commas are accepted once
//! one real fails to parse with a decimal point.

use vstd::prelude::*;

use super::header::{malformed, malformed_text, slice_of, trimmed, AttrDesc, AttrDescV, AttrShape, ScalarType};
use crate::decimal::{real_integer, real_integer_value, real_ok, real_syntax};
use crate::text::{
    chars_of, nat_text, parse_i64, parse_i64_spec, parse_usize, parse_usize_spec, push_chars, push_nat,
    push_str, starts_with, string_of, trim,
};

verus! {

/// An object reference: a numeric object id or a `##name` foreign key.
#[derive(PartialEq, Eq)]
pub enum RefKey {
    Id(i64),
    ForeignKey(String),
}

pub enum RefKeyV {
    Id(i64),
    ForeignKey(Seq<char>),
}

impl View for RefKey {
    type V = RefKeyV;

    open spec fn view(&self) -> RefKeyV {
        match self {
            RefKey::Id(i) => RefKeyV::Id(*i),
            RefKey::ForeignKey(s) => RefKeyV::ForeignKey(s@),
        }
    }
}

/// One attribute value as the file states it. A real keeps the text that
/// parses as the number, with a decimal comma written as a point.
pub enum DgsValue {
    Str(String),
    Int(i64),
    Real(String),
    Ref(RefKey),
    StrVec(Vec<String>),
    IntVec(Vec<i64>),
    RealVec(Vec<String>),
    RefVec(Vec<RefKey>),
    /// Row major cells of a `rows` by `cols` matrix.
    RealMatrix { rows: usize, cols: usize, data: Vec<String> },
}

pub enum DgsValueV {
    Str(Seq<char>),
    Int(i64),
    Real(Seq<char>),
    Ref(RefKeyV),
    StrVec(Seq<Seq<char>>),
    IntVec(Seq<i64>),
    RealVec(Seq<Seq<char>>),
    RefVec(Seq<RefKeyV>),
    RealMatrix { rows: usize, cols: usize, data: Seq<Seq<char>> },
}

pub open spec fn string_views(s: Seq<String>) -> Seq<Seq<char>> {
    s.map_values(|x: String| x@)
}

pub open spec fn ref_views(s: Seq<RefKey>) -> Seq<RefKeyV> {
    s.map_values(|x: RefKey| x@)
}

impl View for DgsValue {
    type V = DgsValueV;

    open spec fn view(&self) -> DgsValueV {
        match self {
            DgsValue::Str(s) => DgsValueV::Str(s@),
            DgsValue::Int(i) => DgsValueV::Int(*i),
            DgsValue::Real(s) => DgsValueV::Real(s@),
            DgsValue::Ref(k) => DgsValueV::Ref(k@),
            DgsValue::StrVec(v) => DgsValueV::StrVec(string_views(v@)),
            DgsValue::IntVec(v) => DgsValueV::IntVec(v@),
            DgsValue::RealVec(v) => DgsValueV::RealVec(string_views(v@)),
            DgsValue::RefVec(v) => DgsValueV::RefVec(ref_views(v@)),
            DgsValue::RealMatrix { rows, cols, data } => DgsValueV::RealMatrix {
                rows: *rows,
                cols: *cols,
                data: string_views(data@),
            },
        }
    }
}

pub open spec fn opt_value_views(s: Seq<Option<DgsValue>>) -> Seq<Option<DgsValueV>> {
    s.map_values(
        |x: Option<DgsValue>|
            match x {
                Some(v) => Some(v@),
                None => None,
            },
    )
}

/// The field `i` of a row, trimmed, when it holds text.
pub open spec fn cell(fs: Seq<Seq<char>>, i: int) -> Option<Seq<char>> {
    if 0 <= i < fs.len() && trim(fs[i]).len() > 0 {
        Some(trim(fs[i]))
    } else {
        None
    }
}

/// The text with each decimal comma written as a point.
pub open spec fn commas_to_points(t: Seq<char>) -> Seq<char> {
    t.map_values(|c: char| if c == ',' { '.' } else { c })
}

/// `{class}.{name}` as findings name an attribute.
pub open spec fn qualified(class: Seq<char>, name: Seq<char>) -> Seq<char> {
    "`"@ + class + "."@ + name + "`"@
}

/// A real read: with decimal commas once they are in use; otherwise as
/// written, and with decimal commas when that fails, which puts them in
/// use. Returns whether decimal commas are in use after the read.
pub open spec fn real_read(comma: bool, t: Seq<char>, class: Seq<char>, name: Seq<char>, line: usize) -> (
    bool,
    Result<Seq<char>, Seq<char>>,
) {
    let failure = malformed(line, qualified(class, name) + " value `"@ + t + "` is not a real number"@);
    if comma {
        if real_syntax(commas_to_points(t)) {
            (true, Ok(commas_to_points(t)))
        } else {
            (true, Err(failure))
        }
    } else if real_syntax(t) {
        (false, Ok(t))
    } else if real_syntax(commas_to_points(t)) {
        (true, Ok(commas_to_points(t)))
    } else {
        (false, Err(failure))
    }
}

/// An integer read: an `i64`, or else a real that holds an integral value
/// below `9e15` in magnitude.
pub open spec fn int_read(comma: bool, t: Seq<char>, class: Seq<char>, name: Seq<char>, line: usize) -> (
    bool,
    Result<i64, Seq<char>>,
) {
    match parse_i64_spec(t) {
        Some(v) => (comma, Ok(v)),
        None => {
            let (c2, r) = real_read(comma, t, class, name, line);
            match r {
                Err(e) => (c2, Err(e)),
                Ok(rt) => match real_integer(rt) {
                    Some(v) => (c2, Ok(v as i64)),
                    None => (
                        c2,
                        Err(malformed(line, qualified(class, name) + " value `"@ + t + "` is not an integer"@)),
                    ),
                },
            }
        },
    }
}

/// A reference read: `##name` is a foreign key, an integer an object id.
pub open spec fn ref_read(t: Seq<char>, class: Seq<char>, name: Seq<char>, line: usize) -> Result<RefKeyV, Seq<char>> {
    if starts_with(t, "##"@) {
        Ok(RefKeyV::ForeignKey(t.skip(2)))
    } else {
        match parse_i64_spec(t) {
            Some(v) => Ok(RefKeyV::Id(v)),
            None => Err(
                malformed(
                    line,
                    qualified(class, name) + " reference `"@ + t
                        + "` is neither an object id nor a `##` foreign key"@,
                ),
            ),
        }
    }
}

/// One cell read by its type.
pub open spec fn scalar_read(
    comma: bool,
    ty: ScalarType,
    t: Seq<char>,
    class: Seq<char>,
    name: Seq<char>,
    line: usize,
) -> (bool, Result<DgsValueV, Seq<char>>) {
    match ty {
        ScalarType::Str => (comma, Ok(DgsValueV::Str(t))),
        ScalarType::Int => {
            let (c2, r) = int_read(comma, t, class, name, line);
            (
                c2,
                match r {
                    Ok(v) => Ok(DgsValueV::Int(v)),
                    Err(e) => Err(e),
                },
            )
        },
        ScalarType::Real => {
            let (c2, r) = real_read(comma, t, class, name, line);
            (
                c2,
                match r {
                    Ok(v) => Ok(DgsValueV::Real(v)),
                    Err(e) => Err(e),
                },
            )
        },
        ScalarType::Ref => (
            comma,
            match ref_read(t, class, name, line) {
                Ok(k) => Ok(DgsValueV::Ref(k)),
                Err(e) => Err(e),
            },
        ),
    }
}

/// The cells of a vector from cell `k` on, after the cells in `acc`: a
/// missing cell leaves the whole vector unstated.
pub open spec fn vector_cells(
    comma: bool,
    a: AttrDescV,
    fs: Seq<Seq<char>>,
    line: usize,
    class: Seq<char>,
    k: nat,
    count: nat,
    acc: Seq<DgsValueV>,
) -> (bool, Result<Option<Seq<DgsValueV>>, Seq<char>>)
    decreases count - k,
{
    if k >= count {
        (comma, Ok(Some(acc)))
    } else {
        match cell(fs, a.field + 1 + k) {
            None => (comma, Ok(None)),
            Some(t) => {
                let (c2, r) = scalar_read(comma, a.ty, t, class, a.name, line);
                match r {
                    Err(e) => (c2, Err(e)),
                    Ok(v) => vector_cells(c2, a, fs, line, class, k + 1, count, acc.push(v)),
                }
            },
        }
    }
}

/// The cells of a matrix from cell `k` on, after the cells in `acc`.
pub open spec fn matrix_cells(
    comma: bool,
    a: AttrDescV,
    fs: Seq<Seq<char>>,
    line: usize,
    class: Seq<char>,
    k: nat,
    count: nat,
    acc: Seq<Seq<char>>,
) -> (bool, Result<Option<Seq<Seq<char>>>, Seq<char>>)
    decreases count - k,
{
    if k >= count {
        (comma, Ok(Some(acc)))
    } else {
        match cell(fs, a.field + 2 + k) {
            None => (comma, Ok(None)),
            Some(t) => {
                let (c2, r) = real_read(comma, t, class, a.name, line);
                match r {
                    Err(e) => (c2, Err(e)),
                    Ok(v) => matrix_cells(c2, a, fs, line, class, k + 1, count, acc.push(v)),
                }
            },
        }
    }
}

pub open spec fn str_of(v: DgsValueV) -> Seq<char> {
    match v {
        DgsValueV::Str(s) => s,
        _ => Seq::empty(),
    }
}

pub open spec fn int_of(v: DgsValueV) -> i64 {
    match v {
        DgsValueV::Int(i) => i,
        _ => 0,
    }
}

pub open spec fn real_of(v: DgsValueV) -> Seq<char> {
    match v {
        DgsValueV::Real(s) => s,
        _ => Seq::empty(),
    }
}

pub open spec fn ref_of(v: DgsValueV) -> RefKeyV {
    match v {
        DgsValueV::Ref(k) => k,
        _ => RefKeyV::Id(0),
    }
}

/// The vector value of cells read with the attribute's type.
pub open spec fn collect(ty: ScalarType, cells: Seq<DgsValueV>) -> DgsValueV {
    match ty {
        ScalarType::Str => DgsValueV::StrVec(cells.map_values(|c: DgsValueV| str_of(c))),
        ScalarType::Int => DgsValueV::IntVec(cells.map_values(|c: DgsValueV| int_of(c))),
        ScalarType::Real => DgsValueV::RealVec(cells.map_values(|c: DgsValueV| real_of(c))),
        ScalarType::Ref => DgsValueV::RefVec(cells.map_values(|c: DgsValueV| ref_of(c))),
    }
}

/// `{name}` size `{t}` is not a nonnegative integer.
pub open spec fn count_msg(name: Seq<char>, t: Seq<char>, line: usize) -> Seq<char> {
    malformed(line, "`"@ + name + "` size `"@ + t + "` is not a nonnegative integer"@)
}

/// One attribute of a row read: `None` when the row does not state it.
pub open spec fn value_read(comma: bool, a: AttrDescV, fs: Seq<Seq<char>>, line: usize, class: Seq<char>) -> (
    bool,
    Result<Option<DgsValueV>, Seq<char>>,
) {
    match a.shape {
        AttrShape::Scalar => match cell(fs, a.field as int) {
            None => (comma, Ok(None)),
            Some(t) => {
                let (c2, r) = scalar_read(comma, a.ty, t, class, a.name, line);
                (
                    c2,
                    match r {
                        Ok(v) => Ok(Some(v)),
                        Err(e) => Err(e),
                    },
                )
            },
        },
        AttrShape::Vector(declared) => match cell(fs, a.field as int) {
            None => (comma, Ok(None)),
            Some(ct) => match parse_usize_spec(ct) {
                None => (comma, Err(count_msg(a.name, ct, line))),
                Some(count) => if count > declared {
                    (
                        comma,
                        Err(
                            malformed(
                                line,
                                "vector `"@ + a.name + "` states "@ + nat_text(count as nat)
                                    + " elements but the header declares "@ + nat_text(declared as nat),
                            ),
                        ),
                    )
                } else if count == 0 {
                    (comma, Ok(None))
                } else {
                    let (c2, r) = vector_cells(comma, a, fs, line, class, 0, count as nat, Seq::empty());
                    (
                        c2,
                        match r {
                            Err(e) => Err(e),
                            Ok(None) => Ok(None),
                            Ok(Some(cells)) => Ok(Some(collect(a.ty, cells))),
                        },
                    )
                },
            },
        },
        AttrShape::Matrix(declared_cols) => match (cell(fs, a.field as int), cell(fs, a.field + 1)) {
            (Some(rt), Some(ct)) => match parse_usize_spec(rt) {
                None => (comma, Err(count_msg(a.name, rt, line))),
                Some(rows) => match parse_usize_spec(ct) {
                    None => (comma, Err(count_msg(a.name, ct, line))),
                    Some(cols) => if rows == 0 || cols == 0 {
                        (comma, Ok(None))
                    } else if cols != declared_cols {
                        (
                            comma,
                            Err(
                                malformed(
                                    line,
                                    "matrix `"@ + a.name + "` states "@ + nat_text(cols as nat)
                                        + " columns but the header declares "@ + nat_text(declared_cols as nat),
                                ),
                            ),
                        )
                    } else {
                        let (c2, r) = matrix_cells(comma, a, fs, line, class, 0, (rows * cols) as nat, Seq::empty());
                        (
                            c2,
                            match r {
                                Err(e) => Err(e),
                                Ok(None) => Ok(None),
                                Ok(Some(data)) => Ok(Some(DgsValueV::RealMatrix { rows, cols, data })),
                            },
                        )
                    },
                },
            },
            _ => (comma, Ok(None)),
        },
    }
}

/// The attributes of a row from `k` on, after the values in `acc`.
pub open spec fn values_read(
    comma: bool,
    attrs: Seq<AttrDescV>,
    fs: Seq<Seq<char>>,
    line: usize,
    class: Seq<char>,
    k: nat,
    acc: Seq<Option<DgsValueV>>,
) -> (bool, Result<Seq<Option<DgsValueV>>, Seq<char>>)
    decreases attrs.len() - k,
{
    if k >= attrs.len() {
        (comma, Ok(acc))
    } else {
        let (c2, r) = value_read(comma, attrs[k as int], fs, line, class);
        match r {
            Err(e) => (c2, Err(e)),
            Ok(v) => values_read(c2, attrs, fs, line, class, k + 1, acc.push(v)),
        }
    }
}

pub open spec fn fields_view(fs: Seq<Vec<char>>) -> Seq<Seq<char>> {
    fs.map_values(|f: Vec<char>| f@)
}

/// The field `i` of a row, trimmed, when it holds text.
pub fn cell_at(fs: &Vec<Vec<char>>, base: usize, offset: u128) -> (r: Option<Vec<char>>)
    ensures
        match r {
            Some(t) => cell(fields_view(fs@), base + offset) == Some(t@),
            None => cell(fields_view(fs@), base + offset) is None,
        },
{
    if offset >= fs.len() as u128 || base >= fs.len() - (offset as usize) {
        return None;
    }
    let i = base + offset as usize;
    assert(fields_view(fs@)[i as int] == fs@[i as int]@);
    let t = trimmed(&fs[i]);
    if t.len() == 0 {
        None
    } else {
        Some(t)
    }
}

/// `t` with each decimal comma written as a point.
pub fn points(t: &Vec<char>) -> (r: Vec<char>)
    ensures
        r@ == commas_to_points(t@),
{
    let mut out: Vec<char> = Vec::new();
    let mut i: usize = 0;
    while i < t.len()
        invariant
            i <= t@.len(),
            out@ == commas_to_points(t@.take(i as int)),
        decreases t@.len() - i,
    {
        out.push(if t[i] == ',' {
            '.'
        } else {
            t[i]
        });
        i = i + 1;
        assert(out@ =~= commas_to_points(t@.take(i as int)));
    }
    assert(t@.take(t@.len() as int) =~= t@);
    out
}

fn is_real(t: &Vec<char>) -> (r: bool)
    ensures
        r == real_syntax(t@),
{
    assert(t@.subrange(0, t@.len() as int) =~= t@);
    real_ok(t, 0, t.len())
}

fn qualified_into(m: &mut Vec<char>, class: &Vec<char>, name: &Vec<char>)
    ensures
        final(m)@ == old(m)@ + qualified(class@, name@),
{
    push_str(m, "`");
    push_chars(m, class);
    push_str(m, ".");
    push_chars(m, name);
    push_str(m, "`");
}

/// Read a real.
pub fn read_real(comma: &mut bool, t: &Vec<char>, class: &Vec<char>, name: &Vec<char>, line: usize) -> (r: Result<
    Vec<char>,
    String,
>)
    ensures
        ({
            let (c2, res) = real_read(*old(comma), t@, class@, name@, line);
            &&& *final(comma) == c2
            &&& match r {
                Ok(v) => res == Ok::<Seq<char>, Seq<char>>(v@),
                Err(e) => res == Err::<Seq<char>, Seq<char>>(e@),
            }
        }),
{
    if *comma {
        let p = points(t);
        if is_real(&p) {
            return Ok(p);
        }
    } else {
        if is_real(t) {
            return Ok(t.clone());
        }
        let p = points(t);
        if is_real(&p) {
            *comma = true;
            return Ok(p);
        }
    }
    let mut m: Vec<char> = Vec::new();
    qualified_into(&mut m, class, name);
    push_str(&mut m, " value `");
    push_chars(&mut m, t);
    push_str(&mut m, "` is not a real number");
    Err(malformed_text(line, &m))
}

/// Read an integer.
pub fn read_int(comma: &mut bool, t: &Vec<char>, class: &Vec<char>, name: &Vec<char>, line: usize) -> (r: Result<
    i64,
    String,
>)
    ensures
        ({
            let (c2, res) = int_read(*old(comma), t@, class@, name@, line);
            &&& *final(comma) == c2
            &&& match r {
                Ok(v) => res == Ok::<i64, Seq<char>>(v),
                Err(e) => res == Err::<i64, Seq<char>>(e@),
            }
        }),
{
    assert(t@.subrange(0, t@.len() as int) =~= t@);
    if let Some(v) = parse_i64(t, 0, t.len()) {
        return Ok(v);
    }
    let rt = match read_real(comma, t, class, name, line) {
        Ok(rt) => rt,
        Err(e) => {
            return Err(e);
        },
    };
    assert(rt@.subrange(0, rt@.len() as int) =~= rt@);
    match real_integer_value(&rt, 0, rt.len()) {
        Some(v) => Ok(v),
        None => {
            let mut m: Vec<char> = Vec::new();
            qualified_into(&mut m, class, name);
            push_str(&mut m, " value `");
            push_chars(&mut m, t);
            push_str(&mut m, "` is not an integer");
            Err(malformed_text(line, &m))
        },
    }
}

/// Read a reference.
pub fn read_ref(t: &Vec<char>, class: &Vec<char>, name: &Vec<char>, line: usize) -> (r: Result<RefKey, String>)
    ensures
        match r {
            Ok(k) => ref_read(t@, class@, name@, line) == Ok::<RefKeyV, Seq<char>>(k@),
            Err(e) => ref_read(t@, class@, name@, line) == Err::<RefKeyV, Seq<char>>(e@),
        },
{
    let n = t.len();
    assert(t@.subrange(0, n as int) =~= t@);
    if crate::text::range_starts_with(t, 0, n, "##") {
        proof {
            reveal_strlit("##");
        }
        let rest = slice_of(t, 2, n);
        proof {
            assert(t@.skip(2) =~= rest@);
        }
        return Ok(RefKey::ForeignKey(string_of(&rest)));
    }
    match parse_i64(t, 0, n) {
        Some(v) => Ok(RefKey::Id(v)),
        None => {
            let mut m: Vec<char> = Vec::new();
            qualified_into(&mut m, class, name);
            push_str(&mut m, " reference `");
            push_chars(&mut m, t);
            push_str(&mut m, "` is neither an object id nor a `##` foreign key");
            Err(malformed_text(line, &m))
        },
    }
}

/// Read one cell by its type.
pub fn read_scalar(
    comma: &mut bool,
    ty: ScalarType,
    t: &Vec<char>,
    class: &Vec<char>,
    name: &Vec<char>,
    line: usize,
) -> (r: Result<DgsValue, String>)
    ensures
        ({
            let (c2, res) = scalar_read(*old(comma), ty, t@, class@, name@, line);
            &&& *final(comma) == c2
            &&& match r {
                Ok(v) => res == Ok::<DgsValueV, Seq<char>>(v@),
                Err(e) => res == Err::<DgsValueV, Seq<char>>(e@),
            }
        }),
{
    match ty {
        ScalarType::Str => Ok(DgsValue::Str(string_of(t))),
        ScalarType::Int => match read_int(comma, t, class, name, line) {
            Ok(v) => Ok(DgsValue::Int(v)),
            Err(e) => Err(e),
        },
        ScalarType::Real => match read_real(comma, t, class, name, line) {
            Ok(v) => Ok(DgsValue::Real(string_of(&v))),
            Err(e) => Err(e),
        },
        ScalarType::Ref => match read_ref(t, class, name, line) {
            Ok(k) => Ok(DgsValue::Ref(k)),
            Err(e) => Err(e),
        },
    }
}

pub open spec fn value_views(s: Seq<DgsValue>) -> Seq<DgsValueV> {
    s.map_values(|v: DgsValue| v@)
}

/// A copy of a reference.
pub fn copy_ref(k: &RefKey) -> (r: RefKey)
    ensures
        r@ == k@,
{
    match k {
        RefKey::Id(i) => RefKey::Id(*i),
        RefKey::ForeignKey(s) => RefKey::ForeignKey(s.clone()),
    }
}

/// The vector value of cells read with the attribute's type.
fn collect_exec(ty: ScalarType, cells: &Vec<DgsValue>) -> (r: DgsValue)
    ensures
        r@ == collect(ty, value_views(cells@)),
{
    let ghost cv = value_views(cells@);
    let n = cells.len();
    match ty {
        ScalarType::Str => {
            let mut out: Vec<String> = Vec::new();
            let mut i: usize = 0;
            while i < n
                invariant
                    i <= n == cells@.len(),
                    cv == value_views(cells@),
                    string_views(out@) == cv.take(i as int).map_values(|c: DgsValueV| str_of(c)),
                decreases n - i,
            {
                let ghost before = out@;
                let item = match &cells[i] {
                    DgsValue::Str(x) => x.clone(),
                    _ => String::new(),
                };
                let ghost iv = item@;
                proof {
                    assert(cv[i as int] == cells@[i as int]@);
                    assert(iv == str_of(cv[i as int]));
                }
                out.push(item);
                proof {
                    assert(string_views(out@) =~= string_views(before).push(iv));
                    assert(string_views(out@) =~= cv.take(i + 1).map_values(|c: DgsValueV| str_of(c)));
                }
                i = i + 1;
            }
            assert(cv.take(n as int) =~= cv);
            DgsValue::StrVec(out)
        },
        ScalarType::Int => {
            let mut out: Vec<i64> = Vec::new();
            let mut i: usize = 0;
            while i < n
                invariant
                    i <= n == cells@.len(),
                    cv == value_views(cells@),
                    out@ == cv.take(i as int).map_values(|c: DgsValueV| int_of(c)),
                decreases n - i,
            {
                let item = match &cells[i] {
                    DgsValue::Int(x) => *x,
                    _ => 0,
                };
                out.push(item);
                proof {
                    assert(cv[i as int] == cells@[i as int]@);
                    assert(out@ =~= cv.take(i + 1).map_values(|c: DgsValueV| int_of(c)));
                }
                i = i + 1;
            }
            assert(cv.take(n as int) =~= cv);
            DgsValue::IntVec(out)
        },
        ScalarType::Real => {
            let mut out: Vec<String> = Vec::new();
            let mut i: usize = 0;
            while i < n
                invariant
                    i <= n == cells@.len(),
                    cv == value_views(cells@),
                    string_views(out@) == cv.take(i as int).map_values(|c: DgsValueV| real_of(c)),
                decreases n - i,
            {
                let ghost before = out@;
                let item = match &cells[i] {
                    DgsValue::Real(x) => x.clone(),
                    _ => String::new(),
                };
                let ghost iv = item@;
                proof {
                    assert(cv[i as int] == cells@[i as int]@);
                    assert(iv == real_of(cv[i as int]));
                }
                out.push(item);
                proof {
                    assert(string_views(out@) =~= string_views(before).push(iv));
                    assert(string_views(out@) =~= cv.take(i + 1).map_values(|c: DgsValueV| real_of(c)));
                }
                i = i + 1;
            }
            assert(cv.take(n as int) =~= cv);
            DgsValue::RealVec(out)
        },
        ScalarType::Ref => {
            let mut out: Vec<RefKey> = Vec::new();
            let mut i: usize = 0;
            while i < n
                invariant
                    i <= n == cells@.len(),
                    cv == value_views(cells@),
                    ref_views(out@) == cv.take(i as int).map_values(|c: DgsValueV| ref_of(c)),
                decreases n - i,
            {
                let item = match &cells[i] {
                    DgsValue::Ref(x) => copy_ref(x),
                    _ => RefKey::Id(0),
                };
                let ghost before = out@;
                let ghost iv = item@;
                proof {
                    assert(cv[i as int] == cells@[i as int]@);
                    assert(iv == ref_of(cv[i as int]));
                }
                out.push(item);
                proof {
                    assert(ref_views(out@) =~= ref_views(before).push(iv));
                    assert(ref_views(out@) =~= cv.take(i + 1).map_values(|c: DgsValueV| ref_of(c)));
                }
                i = i + 1;
            }
            assert(cv.take(n as int) =~= cv);
            DgsValue::RefVec(out)
        },
    }
}

/// Read the cells of a vector.
fn read_vector(
    comma: &mut bool,
    a: &AttrDesc,
    fs: &Vec<Vec<char>>,
    line: usize,
    class: &Vec<char>,
    count: usize,
) -> (r: Result<Option<Vec<DgsValue>>, String>)
    ensures
        ({
            let (c2, res) = vector_cells(*old(comma), a@, fields_view(fs@), line, class@, 0, count as nat, Seq::empty());
            &&& *final(comma) == c2
            &&& match r {
                Ok(None) => res == Ok::<Option<Seq<DgsValueV>>, Seq<char>>(None),
                Ok(Some(v)) => res == Ok::<Option<Seq<DgsValueV>>, Seq<char>>(Some(value_views(v@))),
                Err(e) => res == Err::<Option<Seq<DgsValueV>>, Seq<char>>(e@),
            }
        }),
{
    let ghost fv = fields_view(fs@);
    let ghost start = vector_cells(*comma, a@, fv, line, class@, 0, count as nat, Seq::empty());
    let mut acc: Vec<DgsValue> = Vec::new();
    let mut k: usize = 0;
    assert(value_views(acc@) =~= Seq::<DgsValueV>::empty());
    while k < count
        invariant
            k <= count,
            fv == fields_view(fs@),
            start == vector_cells(*old(comma), a@, fv, line, class@, 0, count as nat, Seq::empty()),
            start == vector_cells(*comma, a@, fv, line, class@, k as nat, count as nat, value_views(acc@)),
        decreases count - k,
    {
        match cell_at(fs, a.field, 1 + k as u128) {
            None => {
                return Ok(None);
            },
            Some(t) => {
                match read_scalar(comma, a.ty, &t, class, &a.name, line) {
                    Err(e) => {
                        return Err(e);
                    },
                    Ok(v) => {
                        let ghost before = acc@;
                        let ghost vv = v@;
                        acc.push(v);
                        assert(value_views(acc@) =~= value_views(before).push(vv));
                    },
                }
            },
        }
        k = k + 1;
    }
    Ok(Some(acc))
}

/// Read the cells of a matrix.
fn read_matrix(
    comma: &mut bool,
    a: &AttrDesc,
    fs: &Vec<Vec<char>>,
    line: usize,
    class: &Vec<char>,
    count: u128,
) -> (r: Result<Option<Vec<String>>, String>)
    requires
        count < u128::MAX - 2,
    ensures
        ({
            let (c2, res) = matrix_cells(*old(comma), a@, fields_view(fs@), line, class@, 0, count as nat, Seq::empty());
            &&& *final(comma) == c2
            &&& match r {
                Ok(None) => res == Ok::<Option<Seq<Seq<char>>>, Seq<char>>(None),
                Ok(Some(v)) => res == Ok::<Option<Seq<Seq<char>>>, Seq<char>>(Some(string_views(v@))),
                Err(e) => res == Err::<Option<Seq<Seq<char>>>, Seq<char>>(e@),
            }
        }),
{
    let ghost fv = fields_view(fs@);
    let ghost start = matrix_cells(*comma, a@, fv, line, class@, 0, count as nat, Seq::empty());
    let mut acc: Vec<String> = Vec::new();
    let mut k: u128 = 0;
    assert(string_views(acc@) =~= Seq::<Seq<char>>::empty());
    while k < count
        invariant
            k <= count,
            fv == fields_view(fs@),
            count < u128::MAX - 2,
            start == matrix_cells(*old(comma), a@, fv, line, class@, 0, count as nat, Seq::empty()),
            start == matrix_cells(*comma, a@, fv, line, class@, k as nat, count as nat, string_views(acc@)),
        decreases count - k,
    {
        match cell_at(fs, a.field, 2 + k) {
            None => {
                return Ok(None);
            },
            Some(t) => {
                match read_real(comma, &t, class, &a.name, line) {
                    Err(e) => {
                        return Err(e);
                    },
                    Ok(v) => {
                        let ghost before = acc@;
                        let sv = string_of(&v);
                        acc.push(sv);
                        assert(string_views(acc@) =~= string_views(before).push(v@));
                    },
                }
            },
        }
        k = k + 1;
    }
    Ok(Some(acc))
}

/// `{name}` size `{t}` is not a nonnegative integer.
fn count_failure(name: &Vec<char>, t: &Vec<char>, line: usize) -> (r: String)
    ensures
        r@ == count_msg(name@, t@, line),
{
    let mut m: Vec<char> = Vec::new();
    push_str(&mut m, "`");
    push_chars(&mut m, name);
    push_str(&mut m, "` size `");
    push_chars(&mut m, t);
    push_str(&mut m, "` is not a nonnegative integer");
    malformed_text(line, &m)
}

fn parse_count(t: &Vec<char>) -> (r: Option<usize>)
    ensures
        r == parse_usize_spec(t@),
{
    assert(t@.subrange(0, t@.len() as int) =~= t@);
    parse_usize(t, 0, t.len())
}

/// Read one attribute of a row.
pub fn read_value(comma: &mut bool, a: &AttrDesc, fs: &Vec<Vec<char>>, line: usize, class: &Vec<char>) -> (r: Result<
    Option<DgsValue>,
    String,
>)
    ensures
        ({
            let (c2, res) = value_read(*old(comma), a@, fields_view(fs@), line, class@);
            &&& *final(comma) == c2
            &&& match r {
                Ok(None) => res == Ok::<Option<DgsValueV>, Seq<char>>(None),
                Ok(Some(v)) => res == Ok::<Option<DgsValueV>, Seq<char>>(Some(v@)),
                Err(e) => res == Err::<Option<DgsValueV>, Seq<char>>(e@),
            }
        }),
{
    match a.shape {
        AttrShape::Scalar => match cell_at(fs, a.field, 0) {
            None => Ok(None),
            Some(t) => match read_scalar(comma, a.ty, &t, class, &a.name, line) {
                Ok(v) => Ok(Some(v)),
                Err(e) => Err(e),
            },
        },
        AttrShape::Vector(declared) => match cell_at(fs, a.field, 0) {
            None => Ok(None),
            Some(ct) => match parse_count(&ct) {
                None => Err(count_failure(&a.name, &ct, line)),
                Some(count) => {
                    if (count as u128) > declared {
                        let mut m: Vec<char> = Vec::new();
                        push_str(&mut m, "vector `");
                        push_chars(&mut m, &a.name);
                        push_str(&mut m, "` states ");
                        push_nat(&mut m, count as u64);
                        push_str(&mut m, " elements but the header declares ");
                        proof {
                            assert(declared < count);
                        }
                        push_nat(&mut m, declared as u64);
                        Err(malformed_text(line, &m))
                    } else if count == 0 {
                        Ok(None)
                    } else {
                        match read_vector(comma, a, fs, line, class, count) {
                            Err(e) => Err(e),
                            Ok(None) => Ok(None),
                            Ok(Some(cells)) => Ok(Some(collect_exec(a.ty, &cells))),
                        }
                    }
                },
            },
        },
        AttrShape::Matrix(declared_cols) => {
            let rc = cell_at(fs, a.field, 0);
            let cc = cell_at(fs, a.field, 1);
            match (rc, cc) {
                (Some(rt), Some(ct)) => match parse_count(&rt) {
                    None => Err(count_failure(&a.name, &rt, line)),
                    Some(rows) => match parse_count(&ct) {
                        None => Err(count_failure(&a.name, &ct, line)),
                        Some(cols) => {
                            if rows == 0 || cols == 0 {
                                Ok(None)
                            } else if (cols as u128) != declared_cols {
                                let mut m: Vec<char> = Vec::new();
                                push_str(&mut m, "matrix `");
                                push_chars(&mut m, &a.name);
                                push_str(&mut m, "` states ");
                                push_nat(&mut m, cols as u64);
                                push_str(&mut m, " columns but the header declares ");
                                push_nat_wide(&mut m, declared_cols);
                                Err(malformed_text(line, &m))
                            } else {
                                assert((rows as u128) * (cols as u128) < u128::MAX - 2) by (nonlinear_arith)
                                    requires
                                        rows <= usize::MAX,
                                        cols <= usize::MAX,
                                        usize::MAX <= u64::MAX,
                                ;
                                let count = (rows as u128) * (cols as u128);
                                match read_matrix(comma, a, fs, line, class, count) {
                                    Err(e) => Err(e),
                                    Ok(None) => Ok(None),
                                    Ok(Some(data)) => Ok(Some(DgsValue::RealMatrix { rows, cols, data })),
                                }
                            }
                        },
                    },
                },
                _ => Ok(None),
            }
        },
    }
}

/// Append the decimal spelling of a wide count.
fn push_nat_wide(out: &mut Vec<char>, n: u128)
    ensures
        final(out)@ == old(out)@ + nat_text(n as nat),
    decreases n,
{
    if n >= 10 {
        push_nat_wide(out, n / 10);
    }
    let d = (n % 10) as u64;
    let ghost before = out@;
    push_nat(out, d);
    proof {
        if n >= 10 {
            assert(nat_text(n as nat) == nat_text((n / 10) as nat).push(crate::text::digit_char((n % 10) as nat)));
        }
        assert(nat_text(d as nat) == seq![crate::text::digit_char(d as nat)]);
    }
}

/// Read the attributes of a row in header order.
pub fn read_values(
    comma: &mut bool,
    attrs: &Vec<AttrDesc>,
    fs: &Vec<Vec<char>>,
    line: usize,
    class: &Vec<char>,
) -> (r: Result<Vec<Option<DgsValue>>, String>)
    ensures
        ({
            let (c2, res) = values_read(
                *old(comma),
                super::header::attr_views(attrs@),
                fields_view(fs@),
                line,
                class@,
                0,
                Seq::empty(),
            );
            &&& *final(comma) == c2
            &&& match r {
                Ok(v) => res == Ok::<Seq<Option<DgsValueV>>, Seq<char>>(opt_value_views(v@)),
                Err(e) => res == Err::<Seq<Option<DgsValueV>>, Seq<char>>(e@),
            }
        }),
{
    let ghost av = super::header::attr_views(attrs@);
    let ghost fv = fields_view(fs@);
    let ghost start = values_read(*comma, av, fv, line, class@, 0, Seq::empty());
    let mut acc: Vec<Option<DgsValue>> = Vec::new();
    let mut k: usize = 0;
    assert(opt_value_views(acc@) =~= Seq::<Option<DgsValueV>>::empty());
    while k < attrs.len()
        invariant
            k <= attrs@.len(),
            av == super::header::attr_views(attrs@),
            fv == fields_view(fs@),
            start == values_read(*old(comma), av, fv, line, class@, 0, Seq::empty()),
            start == values_read(*comma, av, fv, line, class@, k as nat, opt_value_views(acc@)),
        decreases attrs@.len() - k,
    {
        assert(av[k as int] == attrs@[k as int]@);
        match read_value(comma, &attrs[k], fs, line, class) {
            Err(e) => {
                return Err(e);
            },
            Ok(v) => {
                let ghost before = acc@;
                let ghost vv = match &v {
                    Some(x) => Some(x@),
                    None => None,
                };
                acc.push(v);
                assert(opt_value_views(acc@) =~= opt_value_views(before).push(vv));
            },
        }
        k = k + 1;
    }
    Ok(acc)
}

} // verus!
